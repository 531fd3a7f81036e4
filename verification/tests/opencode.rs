use agent_sessions::files::{FileEntry, FileKind, FileTable};
use agent_sessions::model::Conversation;
use agent_sessions::opencode::{
    looks_like_opencode_storage, schema_has_drifted, session_has_updates, OpenCodeConnector, OpenCodeDatabase,
    SessionRows, SessionTables,
};
use agent_sessions::opencode_parts::{
    assemble_content_from_parts, sort_parts_for_message, PartInfo, ToolState, MAX_MESSAGE_CONTENT_BYTES,
    MAX_PART_CONTENT_BYTES,
};
use agent_sessions::opencode_store::{
    normalize_sqlite_ts_value, parse_session_file, MessageRow, PartRow, SessionInfo, SqliteSession,
};
use agent_sessions::opencode_stream::{begin_stream, stream_on, StreamEvent, StreamStep};
use agent_sessions::path::SourcePath;
use agent_sessions::scan::{DiscoveredSource, ScanContext, ScanRoot, SourceRole, Surroundings};
use agent_sessions::stamp::SqlValue;
use serde_json::Value;
use std::cell::RefCell;
use std::path::{Path, PathBuf};

/// A conversation with its documents as values.
struct Conv {
    agent_slug: String,
    external_id: Option<String>,
    title: Option<String>,
    workspace: Option<PathBuf>,
    source_path: PathBuf,
    started_at: Option<i64>,
    ended_at: Option<i64>,
    metadata: Value,
    messages: Vec<Msg>,
}

struct Msg {
    idx: i64,
    role: String,
    author: Option<String>,
    created_at: Option<i64>,
    content: String,
    extra: Value,
    invocations: Vec<Call>,
}

struct Call {
    kind: String,
    name: String,
    raw_name: Option<String>,
    call_id: Option<String>,
    arguments: Option<Value>,
}

fn value(text: &str) -> Value {
    serde_json::from_str(text).unwrap()
}

fn path(p: impl AsRef<Path>) -> SourcePath {
    SourcePath::new(p.as_ref().to_str().unwrap())
}

fn conv(c: &Conversation) -> Conv {
    Conv {
        agent_slug: c.agent_slug.clone(),
        external_id: c.external_id.clone(),
        title: c.title.clone(),
        workspace: c.workspace.as_ref().map(PathBuf::from),
        source_path: PathBuf::from(c.source_path.text()),
        started_at: c.started_at,
        ended_at: c.ended_at,
        metadata: value(&c.metadata.render()),
        messages: c
            .messages
            .iter()
            .map(|m| Msg {
                idx: m.idx,
                role: m.role.clone(),
                author: m.author.clone(),
                created_at: m.created_at,
                content: m.content.clone(),
                extra: value(&m.extra.render()),
                invocations: m
                    .invocations
                    .iter()
                    .map(|i| Call {
                        kind: i.kind.clone(),
                        name: i.name.clone(),
                        raw_name: i.raw_name.clone(),
                        call_id: i.call_id.clone(),
                        arguments: i.arguments.as_ref().map(|a| value(&a.render())),
                    })
                    .collect(),
            })
            .collect(),
    }
}

fn nowhere() -> Surroundings {
    Surroundings { home: None, data: None, local_data: None, config: None, variables: Vec::new() }
}

fn local(p: impl AsRef<Path>) -> ScanRoot {
    ScanRoot::local(path(p))
}

fn with_roots(data_dir: impl AsRef<Path>, roots: Vec<ScanRoot>, since: Option<i64>) -> ScanContext {
    ScanContext::with_roots(path(data_dir), roots, since)
}

fn local_default(data_dir: impl AsRef<Path>, since: Option<i64>) -> ScanContext {
    ScanContext::local_default(path(data_dir), since)
}

/// A directory in memory.
struct TempDir {
    root: PathBuf,
    entries: RefCell<Vec<FileEntry>>,
}

impl TempDir {
    fn new() -> TempDir {
        TempDir { root: PathBuf::from("/tmp/home"), entries: RefCell::new(Vec::new()) }
    }

    fn path(&self) -> &Path {
        &self.root
    }

    fn put(&self, p: &Path, kind: FileKind, content: Option<&[u8]>) {
        let at = path(p).text();
        let known = self.entries.borrow().iter().position(|e| e.path.text() == at);
        if let Some(i) = known {
            if content.is_some() {
                self.entries.borrow_mut()[i].content = content.map(|c| c.to_vec());
            }
            return;
        }
        if let Some(parent) = p.parent() {
            if parent != Path::new("") {
                self.put(parent, FileKind::Directory, None);
            }
        }
        let content = content.map(|c| c.to_vec());
        self.entries.borrow_mut().push(FileEntry { path: path(p), kind, canonical: path(p), fresh: true, content });
    }

    fn create_dir_all(&self, p: impl AsRef<Path>) {
        self.put(p.as_ref(), FileKind::Directory, None);
    }

    fn write(&self, p: impl AsRef<Path>, content: impl AsRef<[u8]>) {
        self.put(p.as_ref(), FileKind::File, Some(content.as_ref()));
    }

    fn table(&self) -> FileTable {
        let entries = self
            .entries
            .borrow()
            .iter()
            .map(|e| FileEntry {
                path: e.path.copy(),
                kind: e.kind,
                canonical: e.canonical.copy(),
                fresh: e.fresh,
                content: e.content.clone(),
            })
            .collect();
        FileTable { entries }
    }

    /// Nothing changed since.
    fn age(&self) {
        for e in self.entries.borrow_mut().iter_mut() {
            e.fresh = false;
        }
    }

    fn scan_with(&self, ctx: &ScanContext, databases: Vec<OpenCodeDatabase>) -> Vec<Conv> {
        OpenCodeConnector::new().scan(ctx, &nowhere(), &self.table(), &databases).iter().map(conv).collect()
    }

    fn scan(&self, ctx: &ScanContext) -> Vec<Conv> {
        self.scan_with(ctx, Vec::new())
    }

    fn sources(&self, ctx: &ScanContext) -> Vec<DiscoveredSource> {
        OpenCodeConnector::new().discover_source_files(ctx, &nowhere(), &self.table())
    }

    fn check_discovery(&self, ctx: &ScanContext) {
        let sources = self.sources(ctx);
        for c in self.scan(ctx) {
            assert!(sources.iter().any(|s| Path::new(&s.source_path.text()) == c.source_path));
        }
    }
}

#[test]
fn opencode_new_creates_connector() {
    let connector = OpenCodeConnector::new();
    let _ = connector;
}

#[test]
fn opencode_default_creates_connector() {
    let connector = OpenCodeConnector;
    let _ = connector;
}

#[test]
fn looks_like_opencode_storage_requires_subdirs() {
    let dir = TempDir::new();
    let opencode_path = dir.path().join("opencode").join("test");
    dir.create_dir_all(&opencode_path);

    assert!(!looks_like(&dir, &opencode_path));

    dir.create_dir_all(opencode_path.join("session"));
    dir.create_dir_all(opencode_path.join("message"));
    assert!(looks_like(&dir, &opencode_path));
}

#[test]
fn looks_like_opencode_storage_with_session_dir() {
    let dir = TempDir::new();
    dir.create_dir_all(dir.path().join("session"));
    assert!(!looks_like(&dir, dir.path()));
    dir.create_dir_all(dir.path().join("message"));
    assert!(looks_like(&dir, dir.path()));
}

#[test]
fn looks_like_opencode_storage_with_message_dir() {
    let dir = TempDir::new();
    dir.create_dir_all(dir.path().join("message"));
    assert!(!looks_like(&dir, dir.path()));
    dir.create_dir_all(dir.path().join("session"));
    assert!(looks_like(&dir, dir.path()));
}

#[test]
fn looks_like_opencode_storage_with_part_dir() {
    let dir = TempDir::new();
    dir.create_dir_all(dir.path().join("part"));
    assert!(!looks_like(&dir, dir.path()));
    dir.create_dir_all(dir.path().join("session"));
    dir.create_dir_all(dir.path().join("message"));
    assert!(looks_like(&dir, dir.path()));
}

#[test]
fn looks_like_opencode_storage_returns_false_for_random_dir() {
    let dir = TempDir::new();
    dir.create_dir_all(dir.path().join("random"));
    assert!(!looks_like(&dir, dir.path()));
}

#[test]
fn session_has_updates_detects_message_file_change() {
    let dir = TempDir::new();
    let storage = dir.path();
    let session_dir = storage.join("session/proj");
    let message_dir = storage.join("message/session-1");
    let part_dir = storage.join("part");
    dir.create_dir_all(&session_dir);
    dir.create_dir_all(&message_dir);
    dir.create_dir_all(&part_dir);

    let session_file = session_dir.join("session-1.json");
    dir.write(&session_file, r#"{"id":"session-1"}"#);

    let message_file = message_dir.join("msg-1.json");
    dir.write(&message_file, r#"{"id":"msg-1","role":"user"}"#);

    dir.age();
    let since_ts = 1_700_000_000_000;
    assert!(!has_updates(&dir, &session_file, &storage.join("message"), &storage.join("part"), Some(since_ts)));

    let updated_message_file = message_dir.join("msg-2.json");
    dir.write(&updated_message_file, r#"{"id":"msg-2","role":"user"}"#);

    assert!(has_updates(&dir, &session_file,
        &storage.join("message"),
        &storage.join("part"),
        Some(since_ts)
    ));
}

#[test]
fn session_has_updates_detects_part_file_change() {
    let dir = TempDir::new();
    let storage = dir.path();
    let session_dir = storage.join("session/proj");
    let message_dir = storage.join("message/session-1");
    let part_dir = storage.join("part");
    dir.create_dir_all(&session_dir);
    dir.create_dir_all(&message_dir);
    dir.create_dir_all(&part_dir);

    let session_file = session_dir.join("session-1.json");
    dir.write(&session_file, r#"{"id":"session-1"}"#);

    let message_file = message_dir.join("msg-1.json");
    dir.write(&message_file, r#"{"id":"msg-1","role":"assistant"}"#);

    dir.age();
    let since_ts = 1_700_000_000_000;
    assert!(!has_updates(&dir, &session_file, &storage.join("message"), &storage.join("part"), Some(since_ts)));

    let part_dir_for_message = part_dir.join("msg-1");
    dir.create_dir_all(&part_dir_for_message);
    dir.write(part_dir_for_message.join("part-1.json"), r#"{"text":"hi"}"#);

    assert!(has_updates(&dir, &session_file,
        &storage.join("message"),
        &storage.join("part"),
        Some(since_ts)
    ));
}

fn looks_like(dir: &TempDir, p: &Path) -> bool {
    looks_like_opencode_storage(&dir.table(), &path(p))
}

fn has_updates(dir: &TempDir, session: &Path, messages: &Path, parts: &Path, since: Option<i64>) -> bool {
    session_has_updates(&dir.table(), &path(session), &path(messages), &path(parts), since)
}

fn parse_file(dir: &TempDir, file: &Path) -> SessionInfo {
    match parse_session_file(&dir.table(), &path(file)) {
        Ok(info) => info,
        Err(_) => panic!("the session cannot be read"),
    }
}

#[test]
fn assemble_content_from_text_parts() {
    let parts = vec![
        PartInfo {
            id: Some("p1".into()),
            index: None,
            message_id: Some("m1".into()),
            part_type: Some("text".into()),
            text: Some("Hello, world!".into()),
            state: None,
        },
        PartInfo {
            id: Some("p2".into()),
            index: None,
            message_id: Some("m1".into()),
            part_type: Some("text".into()),
            text: Some("Second part".into()),
            state: None,
        },
    ];
    let content = assemble_content_from_parts(&parts);
    assert!(content.contains("Hello, world!"));
    assert!(content.contains("Second part"));
}

#[test]
fn assemble_content_from_tool_parts() {
    let parts = vec![PartInfo {
        id: Some("p1".into()),
        index: None,
        message_id: Some("m1".into()),
        part_type: Some("tool".into()),
        text: None,
        state: Some(ToolState {
            output: Some("Tool executed successfully".into()),
        }),
    }];
    let content = assemble_content_from_parts(&parts);
    assert!(content.contains("[Tool Output]"));
    assert!(content.contains("Tool executed successfully"));
}

#[test]
fn assemble_content_from_reasoning_parts() {
    let parts = vec![PartInfo {
        id: Some("p1".into()),
        index: None,
        message_id: Some("m1".into()),
        part_type: Some("reasoning".into()),
        text: Some("Let me think about this...".into()),
        state: None,
    }];
    let content = assemble_content_from_parts(&parts);
    assert!(content.contains("[Reasoning]"));
    assert!(content.contains("Let me think about this..."));
}

#[test]
fn assemble_content_from_patch_parts() {
    let parts = vec![PartInfo {
        id: Some("p1".into()),
        index: None,
        message_id: Some("m1".into()),
        part_type: Some("patch".into()),
        text: Some("@@ -1,3 +1,4 @@".into()),
        state: None,
    }];
    let content = assemble_content_from_parts(&parts);
    assert!(content.contains("[Patch]"));
    assert!(content.contains("@@ -1,3 +1,4 @@"));
}

#[test]
fn assemble_content_skips_empty_text() {
    let parts = vec![
        PartInfo {
            id: Some("p1".into()),
            index: None,
            message_id: Some("m1".into()),
            part_type: Some("text".into()),
            text: Some("".into()),
            state: None,
        },
        PartInfo {
            id: Some("p2".into()),
            index: None,
            message_id: Some("m1".into()),
            part_type: Some("text".into()),
            text: Some("   ".into()),
            state: None,
        },
        PartInfo {
            id: Some("p3".into()),
            index: None,
            message_id: Some("m1".into()),
            part_type: Some("text".into()),
            text: Some("Actual content".into()),
            state: None,
        },
    ];
    let content = assemble_content_from_parts(&parts);
    assert_eq!(content, "Actual content");
}

#[test]
fn assemble_content_skips_unknown_part_types() {
    let parts = vec![
        PartInfo {
            id: Some("p1".into()),
            index: None,
            message_id: Some("m1".into()),
            part_type: Some("step-start".into()),
            text: Some("Starting...".into()),
            state: None,
        },
        PartInfo {
            id: Some("p2".into()),
            index: None,
            message_id: Some("m1".into()),
            part_type: Some("step-finish".into()),
            text: Some("Done".into()),
            state: None,
        },
    ];
    let content = assemble_content_from_parts(&parts);
    assert!(content.is_empty());
}

#[test]
fn assemble_content_mixed_parts() {
    let parts = vec![
        PartInfo {
            id: Some("p1".into()),
            index: None,
            message_id: Some("m1".into()),
            part_type: Some("text".into()),
            text: Some("Here's my analysis:".into()),
            state: None,
        },
        PartInfo {
            id: Some("p2".into()),
            index: None,
            message_id: Some("m1".into()),
            part_type: Some("reasoning".into()),
            text: Some("Thinking...".into()),
            state: None,
        },
        PartInfo {
            id: Some("p3".into()),
            index: None,
            message_id: Some("m1".into()),
            part_type: Some("tool".into()),
            text: None,
            state: Some(ToolState {
                output: Some("Result: 42".into()),
            }),
        },
    ];
    let content = assemble_content_from_parts(&parts);
    assert!(content.contains("Here's my analysis:"));
    assert!(content.contains("[Reasoning]"));
    assert!(content.contains("[Tool Output]"));
}

#[test]
fn sort_parts_for_message_orders_by_index_then_id() {
    let parts = vec![
        PartInfo {
            id: Some("b".into()),
            index: Some(2),
            message_id: Some("m1".into()),
            part_type: Some("text".into()),
            text: Some("second".into()),
            state: None,
        },
        PartInfo {
            id: Some("a".into()),
            index: Some(1),
            message_id: Some("m1".into()),
            part_type: Some("text".into()),
            text: Some("first".into()),
            state: None,
        },
    ];

    let parts = sort_parts_for_message(parts);
    assert_eq!(parts[0].text.as_deref(), Some("first"));
    assert_eq!(parts[1].text.as_deref(), Some("second"));
}

fn create_opencode_storage(dir: &TempDir) -> PathBuf {
    let storage = dir.path().join("opencode").join("storage");
    dir.create_dir_all(storage.join("session"));
    dir.create_dir_all(storage.join("message"));
    dir.create_dir_all(storage.join("part"));
    storage
}

fn write_session(dir: &TempDir, storage: &Path, project_id: &str, session: &serde_json::Value) {
    let session_id = session["id"].as_str().unwrap();
    let session_dir = storage.join("session").join(project_id);
    dir.create_dir_all(&session_dir);
    dir.write(
        session_dir.join(format!("{session_id}.json")),
        session.to_string(),
    );
}

fn write_message(dir: &TempDir, storage: &Path, session_id: &str, message: &serde_json::Value) {
    let message_id = message["id"].as_str().unwrap();
    let message_dir = storage.join("message").join(session_id);
    dir.create_dir_all(&message_dir);
    dir.write(
        message_dir.join(format!("{message_id}.json")),
        message.to_string(),
    );
}

fn write_part(dir: &TempDir, storage: &Path, message_id: &str, part: &serde_json::Value) {
    let part_id = part["id"].as_str().unwrap();
    let part_dir = storage.join("part").join(message_id);
    dir.create_dir_all(&part_dir);
    dir.write(part_dir.join(format!("{part_id}.json")), part.to_string());
}

#[test]
fn scan_parses_simple_conversation() {
    let dir = TempDir::new();
    let storage = create_opencode_storage(&dir);

    let session = value(r#"{
        "id": "sess-001",
        "title": "Test Session",
        "directory": "/home/user/project",
        "projectID": "proj-001",
        "time": {
            "created": 1733000000,
            "updated": 1733000100
        }
    }"#);
    write_session(&dir, &storage, "proj-001", &session);

    let message = value(r#"{
        "id": "msg-001",
        "role": "user",
        "sessionID": "sess-001",
        "time": {
            "created": 1733000000,
            "completed": 1733000001
        }
    }"#);
    write_message(&dir, &storage, "sess-001", &message);

    let part = value(r#"{
        "id": "part-001",
        "messageID": "msg-001",
        "type": "text",
        "text": "Hello, OpenCode!"
    }"#);
    write_part(&dir, &storage, "msg-001", &part);

    let ctx = local_default(storage.clone(), None);
    let convs = dir.scan(&ctx);

    assert_eq!(convs.len(), 1);
    assert_eq!(convs[0].title, Some("Test Session".to_string()));
    assert_eq!(
        convs[0].workspace,
        Some(PathBuf::from("/home/user/project"))
    );
    assert_eq!(convs[0].messages.len(), 1);
    assert_eq!(convs[0].messages[0].role, "user");
    assert!(convs[0].messages[0].content.contains("Hello, OpenCode!"));
    dir.check_discovery(&ctx);
}

#[test]
fn scan_with_opencode_root_scan_root() {
    let dir = TempDir::new();
    let storage = create_opencode_storage(&dir);

    let session = value(r#"{
        "id": "sess-001",
        "title": "Explicit Root",
        "directory": "/home/user/project",
        "projectID": "proj-001",
        "time": {
            "created": 1733000000,
            "updated": 1733000100
        }
    }"#);
    write_session(&dir, &storage, "proj-001", &session);

    let message = value(r#"{
        "id": "msg-001",
        "role": "user",
        "sessionID": "sess-001",
        "time": {
            "created": 1733000000,
            "completed": 1733000001
        }
    }"#);
    write_message(&dir, &storage, "sess-001", &message);

    let part = value(r#"{
        "id": "part-001",
        "messageID": "msg-001",
        "type": "text",
        "text": "Hello explicit root!"
    }"#);
    write_part(&dir, &storage, "msg-001", &part);

    let ctx = with_roots(
        PathBuf::new(),
        vec![local(dir.path().join("opencode"))],
        None,
    );
    let convs = dir.scan(&ctx);

    assert_eq!(convs.len(), 1);
    assert_eq!(convs[0].external_id.as_deref(), Some("sess-001"));
}

#[test]
fn scan_parses_multiple_messages() {
    let dir = TempDir::new();
    let storage = create_opencode_storage(&dir);

    let session = value(r#"{
        "id": "sess-002",
        "projectID": "proj-001"
    }"#);
    write_session(&dir, &storage, "proj-001", &session);

    let user_msg = value(r#"{
        "id": "msg-u1",
        "role": "user",
        "sessionID": "sess-002",
        "time": {"created": 1733000000}
    }"#);
    write_message(&dir, &storage, "sess-002", &user_msg);
    write_part(
        &dir,
        &storage,
        "msg-u1",
        &value(r#"{
            "id": "p1",
            "messageID": "msg-u1",
            "type": "text",
            "text": "What is 2+2?"
        }"#),
    );

    let assistant_msg = value(r#"{
        "id": "msg-a1",
        "role": "assistant",
        "sessionID": "sess-002",
        "modelID": "gpt-4",
        "time": {"created": 1733000001}
    }"#);
    write_message(&dir, &storage, "sess-002", &assistant_msg);
    write_part(
        &dir,
        &storage,
        "msg-a1",
        &value(r#"{
            "id": "p2",
            "messageID": "msg-a1",
            "type": "text",
            "text": "2 + 2 = 4"
        }"#),
    );

    let ctx = local_default(storage.clone(), None);
    let convs = dir.scan(&ctx);

    assert_eq!(convs.len(), 1);
    assert_eq!(convs[0].messages.len(), 2);
    assert_eq!(convs[0].messages[0].role, "user");
    assert_eq!(convs[0].messages[1].role, "assistant");
    assert_eq!(convs[0].messages[1].author, Some("gpt-4".to_string()));
}

#[test]
fn scan_handles_empty_storage() {
    let dir = TempDir::new();
    let storage = create_opencode_storage(&dir);

    let ctx = local_default(storage.clone(), None);
    let convs = dir.scan(&ctx);

    assert_eq!(convs.len(), 0);
}

#[test]
fn scan_skips_sessions_without_messages() {
    let dir = TempDir::new();
    let storage = create_opencode_storage(&dir);

    let session = value(r#"{
        "id": "sess-empty",
        "title": "Empty Session",
        "projectID": "proj-001"
    }"#);
    write_session(&dir, &storage, "proj-001", &session);

    let ctx = local_default(storage.clone(), None);
    let convs = dir.scan(&ctx);

    assert_eq!(convs.len(), 0);
}

#[test]
fn scan_extracts_title_from_first_message_if_no_session_title() {
    let dir = TempDir::new();
    let storage = create_opencode_storage(&dir);

    let session = value(r#"{
        "id": "sess-no-title",
        "projectID": "proj-001"
    }"#);
    write_session(&dir, &storage, "proj-001", &session);

    let message = value(r#"{
        "id": "msg-001",
        "role": "user",
        "sessionID": "sess-no-title",
        "time": {"created": 1733000000}
    }"#);
    write_message(&dir, &storage, "sess-no-title", &message);
    write_part(
        &dir,
        &storage,
        "msg-001",
        &value(r#"{
            "id": "p1",
            "messageID": "msg-001",
            "type": "text",
            "text": "This is the first line\nSecond line\nThird line"
        }"#),
    );

    let ctx = local_default(storage.clone(), None);
    let convs = dir.scan(&ctx);

    assert_eq!(convs[0].title, Some("This is the first line".to_string()));
}

#[test]
fn scan_sets_agent_slug_to_opencode() {
    let dir = TempDir::new();
    let storage = create_opencode_storage(&dir);

    let session = value(r#"{
        "id": "sess-slug",
        "projectID": "proj-001"
    }"#);
    write_session(&dir, &storage, "proj-001", &session);

    let message = value(r#"{
        "id": "msg-001",
        "role": "user",
        "sessionID": "sess-slug",
        "time": {"created": 1733000000}
    }"#);
    write_message(&dir, &storage, "sess-slug", &message);
    write_part(
        &dir,
        &storage,
        "msg-001",
        &value(r#"{"id": "p1", "messageID": "msg-001", "type": "text", "text": "Test"}"#),
    );

    let ctx = local_default(storage.clone(), None);
    let convs = dir.scan(&ctx);

    assert_eq!(convs[0].agent_slug, "opencode");
}

#[test]
fn scan_sets_metadata_with_session_and_project_id() {
    let dir = TempDir::new();
    let storage = create_opencode_storage(&dir);

    let session = value(r#"{
        "id": "sess-meta",
        "projectID": "proj-meta-001"
    }"#);
    write_session(&dir, &storage, "proj-meta-001", &session);

    let message = value(r#"{
        "id": "msg-001",
        "role": "user",
        "sessionID": "sess-meta",
        "time": {"created": 1733000000}
    }"#);
    write_message(&dir, &storage, "sess-meta", &message);
    write_part(
        &dir,
        &storage,
        "msg-001",
        &value(r#"{"id": "p1", "messageID": "msg-001", "type": "text", "text": "Test"}"#),
    );

    let ctx = local_default(storage.clone(), None);
    let convs = dir.scan(&ctx);

    assert_eq!(convs[0].metadata["session_id"], "sess-meta");
    assert_eq!(convs[0].metadata["project_id"], "proj-meta-001");
}

#[test]
fn scan_sorts_messages_by_timestamp() {
    let dir = TempDir::new();
    let storage = create_opencode_storage(&dir);

    let session = value(r#"{
        "id": "sess-sort",
        "projectID": "proj-001"
    }"#);
    write_session(&dir, &storage, "proj-001", &session);

    let msg_later = value(r#"{
        "id": "msg-later",
        "role": "assistant",
        "sessionID": "sess-sort",
        "time": {"created": 1733000100}
    }"#);
    let msg_earlier = value(r#"{
        "id": "msg-earlier",
        "role": "user",
        "sessionID": "sess-sort",
        "time": {"created": 1733000000}
    }"#);
    write_message(&dir, &storage, "sess-sort", &msg_later);
    write_message(&dir, &storage, "sess-sort", &msg_earlier);

    write_part(
        &dir,
        &storage,
        "msg-later",
        &value(r#"{"id": "p1", "messageID": "msg-later", "type": "text", "text": "Later"}"#),
    );
    write_part(
        &dir,
        &storage,
        "msg-earlier",
        &value(r#"{"id": "p2", "messageID": "msg-earlier", "type": "text", "text": "Earlier"}"#),
    );

    let ctx = local_default(storage.clone(), None);
    let convs = dir.scan(&ctx);

    assert_eq!(convs[0].messages.len(), 2);
    assert!(convs[0].messages[0].content.contains("Earlier"));
    assert!(convs[0].messages[1].content.contains("Later"));
}

#[test]
fn scan_assigns_sequential_indices() {
    let dir = TempDir::new();
    let storage = create_opencode_storage(&dir);

    let session = value(r#"{
        "id": "sess-idx",
        "projectID": "proj-001"
    }"#);
    write_session(&dir, &storage, "proj-001", &session);

    for i in 0..3 {
        let created = 1_733_000_000 + i;
        let msg = value(&format!(
            r#"{{"id":"msg-{i}","role":"user","sessionID":"sess-idx","time":{{"created":{created}}}}}"#
        ));
        write_message(&dir, &storage, "sess-idx", &msg);
        write_part(
        &dir,
        &storage,
            &format!("msg-{i}"),
            &value(&format!(
                r#"{{"id":"p{i}","messageID":"msg-{i}","type":"text","text":"Message {i}"}}"#
            )),
        );
    }

    let ctx = local_default(storage.clone(), None);
    let convs = dir.scan(&ctx);

    assert_eq!(convs[0].messages[0].idx, 0);
    assert_eq!(convs[0].messages[1].idx, 1);
    assert_eq!(convs[0].messages[2].idx, 2);
}

#[test]
fn scan_handles_messages_without_parts() {
    let dir = TempDir::new();
    let storage = create_opencode_storage(&dir);

    let session = value(r#"{
        "id": "sess-no-parts",
        "projectID": "proj-001"
    }"#);
    write_session(&dir, &storage, "proj-001", &session);

    let message = value(r#"{
        "id": "msg-no-parts",
        "role": "user",
        "sessionID": "sess-no-parts",
        "time": {"created": 1733000000}
    }"#);
    write_message(&dir, &storage, "sess-no-parts", &message);

    let ctx = local_default(storage.clone(), None);
    let convs = dir.scan(&ctx);

    assert_eq!(convs.len(), 0);
}

#[test]
fn scan_deduplicates_sessions_by_id() {
    let dir = TempDir::new();
    let storage = create_opencode_storage(&dir);

    let session = value(r#"{
        "id": "sess-dupe",
        "title": "Duplicate Session",
        "projectID": "proj-001"
    }"#);
    write_session(&dir, &storage, "proj-001", &session);
    write_session(&dir, &storage, "proj-002", &session);

    let message = value(r#"{
        "id": "msg-001",
        "role": "user",
        "sessionID": "sess-dupe",
        "time": {"created": 1733000000}
    }"#);
    write_message(&dir, &storage, "sess-dupe", &message);
    write_part(
        &dir,
        &storage,
        "msg-001",
        &value(r#"{"id": "p1", "messageID": "msg-001", "type": "text", "text": "Test"}"#),
    );

    let ctx = local_default(storage.clone(), None);
    let convs = dir.scan(&ctx);

    assert_eq!(convs.len(), 1);
}

#[test]
fn scan_uses_default_role_when_missing() {
    let dir = TempDir::new();
    let storage = create_opencode_storage(&dir);

    let session = value(r#"{
        "id": "sess-no-role",
        "projectID": "proj-001"
    }"#);
    write_session(&dir, &storage, "proj-001", &session);

    let message = value(r#"{
        "id": "msg-no-role",
        "sessionID": "sess-no-role",
        "time": {"created": 1733000000}
    }"#);
    write_message(&dir, &storage, "sess-no-role", &message);
    write_part(
        &dir,
        &storage,
        "msg-no-role",
        &value(r#"{"id": "p1", "messageID": "msg-no-role", "type": "text", "text": "Test"}"#),
    );

    let ctx = local_default(storage.clone(), None);
    let convs = dir.scan(&ctx);

    assert_eq!(convs[0].messages[0].role, "assistant");
}

#[test]
fn scan_handles_multiple_parts_per_message() {
    let dir = TempDir::new();
    let storage = create_opencode_storage(&dir);

    let session = value(r#"{
        "id": "sess-multi-part",
        "projectID": "proj-001"
    }"#);
    write_session(&dir, &storage, "proj-001", &session);

    let message = value(r#"{
        "id": "msg-multi",
        "role": "assistant",
        "sessionID": "sess-multi-part",
        "time": {"created": 1733000000}
    }"#);
    write_message(&dir, &storage, "sess-multi-part", &message);

    write_part(
        &dir,
        &storage,
        "msg-multi",
        &value(r#"{"id": "p1", "messageID": "msg-multi", "type": "text", "text": "First part"}"#),
    );
    write_part(
        &dir,
        &storage,
        "msg-multi",
        &value(r#"{"id": "p2", "messageID": "msg-multi", "type": "reasoning", "text": "Reasoning part"}"#),
    );
    write_part(
        &dir,
        &storage,
        "msg-multi",
        &value(r#"{"id": "p3", "messageID": "msg-multi", "type": "text", "text": "Third part"}"#),
    );

    let ctx = local_default(storage.clone(), None);
    let convs = dir.scan(&ctx);

    let content = &convs[0].messages[0].content;
    assert!(content.contains("First part"));
    assert!(content.contains("[Reasoning]"));
    assert!(content.contains("Third part"));
}

#[test]
fn scan_extracts_timestamps() {
    let dir = TempDir::new();
    let storage = create_opencode_storage(&dir);

    let session = value(r#"{
        "id": "sess-ts",
        "projectID": "proj-001",
        "time": {
            "created": 1733000000,
            "updated": 1733000200
        }
    }"#);
    write_session(&dir, &storage, "proj-001", &session);

    let message = value(r#"{
        "id": "msg-ts",
        "role": "user",
        "sessionID": "sess-ts",
        "time": {"created": 1733000050}
    }"#);
    write_message(&dir, &storage, "sess-ts", &message);
    write_part(
        &dir,
        &storage,
        "msg-ts",
        &value(r#"{"id": "p1", "messageID": "msg-ts", "type": "text", "text": "Test"}"#),
    );

    let ctx = local_default(storage.clone(), None);
    let convs = dir.scan(&ctx);

    assert_eq!(convs[0].started_at, Some(1_733_000_000_000));
    assert_eq!(convs[0].ended_at, Some(1_733_000_200_000));
    assert_eq!(convs[0].messages[0].created_at, Some(1_733_000_050_000));
}

#[test]
fn scan_uses_external_id_from_session_id() {
    let dir = TempDir::new();
    let storage = create_opencode_storage(&dir);

    let session = value(r#"{
        "id": "unique-session-id-123",
        "projectID": "proj-001"
    }"#);
    write_session(&dir, &storage, "proj-001", &session);

    let message = value(r#"{
        "id": "msg-001",
        "role": "user",
        "sessionID": "unique-session-id-123",
        "time": {"created": 1733000000}
    }"#);
    write_message(&dir, &storage, "unique-session-id-123", &message);
    write_part(
        &dir,
        &storage,
        "msg-001",
        &value(r#"{"id": "p1", "messageID": "msg-001", "type": "text", "text": "Test"}"#),
    );

    let ctx = local_default(storage.clone(), None);
    let convs = dir.scan(&ctx);

    assert_eq!(
        convs[0].external_id,
        Some("unique-session-id-123".to_string())
    );
}

#[test]
fn scan_skips_invalid_session_json() {
    let dir = TempDir::new();
    let storage = create_opencode_storage(&dir);

    let session_dir = storage.join("session").join("proj-001");
    dir.create_dir_all(&session_dir);
    dir.write(session_dir.join("invalid.json"), "not valid json");

    let ctx = local_default(storage.clone(), None);
    let convs = dir.scan(&ctx);

    assert_eq!(convs.len(), 0);
}

#[test]
fn scan_skips_invalid_message_json() {
    let dir = TempDir::new();
    let storage = create_opencode_storage(&dir);

    let session = value(r#"{
        "id": "sess-invalid-msg",
        "projectID": "proj-001"
    }"#);
    write_session(&dir, &storage, "proj-001", &session);

    let msg_dir = storage.join("message").join("sess-invalid-msg");
    dir.create_dir_all(&msg_dir);
    dir.write(msg_dir.join("bad.json"), "not valid json");

    let ctx = local_default(storage.clone(), None);
    let convs = dir.scan(&ctx);

    assert_eq!(convs.len(), 0);
}

#[test]
fn parse_session_file_parses_complete_session() {
    let dir = TempDir::new();
    let session = value(r#"{
        "id": "sess-parse",
        "title": "Parse Test",
        "directory": "/test/dir",
        "projectID": "proj-parse",
        "time": {
            "created": 1733000000,
            "updated": 1733000100
        }
    }"#);
    let file = dir.path().join("session.json");
    dir.write(&file, session.to_string());

    let result = parse_file(&dir, &file);
    assert_eq!(result.id, "sess-parse");
    assert_eq!(result.title, Some("Parse Test".to_string()));
    assert_eq!(result.directory, Some("/test/dir".to_string()));
    assert_eq!(result.project_id, Some("proj-parse".to_string()));
    assert_eq!(result.created, Some(1_733_000_000));
    assert_eq!(result.updated, Some(1_733_000_100));
}

#[test]
fn parse_session_file_handles_minimal_session() {
    let dir = TempDir::new();
    let session = value(r#"{"id": "minimal"}"#);
    let file = dir.path().join("minimal.json");
    dir.write(&file, session.to_string());

    let result = parse_file(&dir, &file);
    assert_eq!(result.id, "minimal");
    assert!(result.title.is_none());
    assert!(result.directory.is_none());
}

#[test]
fn edge_empty_session_file_returns_no_conversations() {
    let dir = TempDir::new();
    let storage = create_opencode_storage(&dir);
    let session_dir = storage.join("session").join("proj-001");
    dir.create_dir_all(&session_dir);
    dir.write(session_dir.join("sess-empty.json"), "");

    let ctx = local_default(storage.clone(), None);
    let convs = dir.scan(&ctx);
    assert_eq!(convs.len(), 0);
}

#[test]
fn edge_whitespace_only_session_file_skipped() {
    let dir = TempDir::new();
    let storage = create_opencode_storage(&dir);
    let session_dir = storage.join("session").join("proj-001");
    dir.create_dir_all(&session_dir);
    dir.write(session_dir.join("sess-ws.json"), "   \n\t  ");

    let ctx = local_default(storage.clone(), None);
    let convs = dir.scan(&ctx);
    assert_eq!(convs.len(), 0);
}

#[test]
fn edge_truncated_session_json_handled() {
    let dir = TempDir::new();
    let storage = create_opencode_storage(&dir);
    let session_dir = storage.join("session").join("proj-001");
    dir.create_dir_all(&session_dir);
    dir.write(
        session_dir.join("sess-trunc.json"),
        r#"{"id": "sess-trunc", "title": "Trun"#,
    );

    let ctx = local_default(storage.clone(), None);
    let convs = dir.scan(&ctx);
    assert_eq!(convs.len(), 0);
}

#[test]
fn edge_invalid_utf8_session_skipped() {
    let dir = TempDir::new();
    let storage = create_opencode_storage(&dir);
    let session_dir = storage.join("session").join("proj-001");
    dir.create_dir_all(&session_dir);
    dir.write(
        session_dir.join("sess-bad-utf8.json"),
        b"\xff\xfe{\"id\":\"bad\"}",
    );

    let ctx = local_default(storage.clone(), None);
    let convs = dir.scan(&ctx);
    assert_eq!(convs.len(), 0);
}

#[test]
fn edge_bom_marker_at_session_file_handled() {
    let dir = TempDir::new();
    let storage = create_opencode_storage(&dir);
    let session_dir = storage.join("session").join("proj-001");
    dir.create_dir_all(&session_dir);

    let mut data = vec![0xEF, 0xBB, 0xBF];
    data.extend_from_slice(br#"{"id":"sess-bom","projectID":"proj-001"}"#);
    dir.write(session_dir.join("sess-bom.json"), &data);

    let ctx = local_default(storage.clone(), None);
    let convs = dir.scan(&ctx);
    assert!(convs.len() <= 1);
}

#[test]
fn edge_json_type_mismatch_in_session_file() {
    let dir = TempDir::new();
    let storage = create_opencode_storage(&dir);
    let session_dir = storage.join("session").join("proj-001");
    dir.create_dir_all(&session_dir);
    dir.write(session_dir.join("sess-bad.json"), r#"{"id": 12345}"#);

    let ctx = local_default(storage.clone(), None);
    let convs = dir.scan(&ctx);
    assert_eq!(convs.len(), 0);
}

#[test]
fn edge_deeply_nested_part_json() {
    let dir = TempDir::new();
    let storage = create_opencode_storage(&dir);

    let session = value(r#"{"id": "sess-deep", "projectID": "proj-001"}"#);
    write_session(&dir, &storage, "proj-001", &session);

    let message = value(r#"{
        "id": "msg-deep",
        "role": "user",
        "sessionID": "sess-deep",
        "time": {"created": 1733000000}
    }"#);
    write_message(&dir, &storage, "sess-deep", &message);

    let mut nested = String::from(
        r#"{"id":"p-deep","messageID":"msg-deep","type":"text","text":"deep test","extra":"#,
    );
    for _ in 0..200 {
        nested.push_str(r#"{"a":"#);
    }
    nested.push_str(r#""leaf""#);
    for _ in 0..200 {
        nested.push('}');
    }
    nested.push('}');
    let part_dir = storage.join("part").join("msg-deep");
    dir.create_dir_all(&part_dir);
    dir.write(part_dir.join("p-deep.json"), &nested);

    let ctx = local_default(storage.clone(), None);
    assert!(dir.scan(&ctx).len() <= 1);
}

#[test]
fn edge_large_part_text_handled() {
    let dir = TempDir::new();
    let storage = create_opencode_storage(&dir);

    let session = value(r#"{"id": "sess-large", "projectID": "proj-001"}"#);
    write_session(&dir, &storage, "proj-001", &session);

    let message = value(r#"{
        "id": "msg-large",
        "role": "user",
        "sessionID": "sess-large",
        "time": {"created": 1733000000}
    }"#);
    write_message(&dir, &storage, "sess-large", &message);

    let large_text = "x".repeat(1_000_000);
    write_part(
        &dir,
        &storage,
        "msg-large",
        &value(&format!(
            r#"{{"id": "p-large", "messageID": "msg-large", "type": "text", "text": "{large_text}"}}"#
        )),
    );

    let ctx = local_default(storage.clone(), None);
    let convs = dir.scan(&ctx);
    assert_eq!(convs.len(), 1);
    let content = &convs[0].messages[0].content;
    assert!(
        content.len() < 1_000_000,
        "oversized part must be capped, got {} bytes",
        content.len()
    );
    assert!(
        content.contains("[… truncated"),
        "capped part must carry the truncation marker"
    );
    assert!(
        content.contains(&"x".repeat(1000)),
        "head must be preserved"
    );
}

#[test]
fn edge_null_bytes_in_part_content() {
    let dir = TempDir::new();
    let storage = create_opencode_storage(&dir);

    let session = value(r#"{"id": "sess-null", "projectID": "proj-001"}"#);
    write_session(&dir, &storage, "proj-001", &session);

    let message = value(r#"{
        "id": "msg-null",
        "role": "user",
        "sessionID": "sess-null",
        "time": {"created": 1733000000}
    }"#);
    write_message(&dir, &storage, "sess-null", &message);

    write_part(
        &dir,
        &storage,
        "msg-null",
        &value(r#"{"id": "p-null", "messageID": "msg-null", "type": "text", "text": "hello\u0000world"}"#),
    );

    let ctx = local_default(storage.clone(), None);
    let convs = dir.scan(&ctx);
    assert_eq!(convs.len(), 1);
    assert!(convs[0].messages[0].content.contains("hello"));
}

#[test]
fn edge_whitespace_only_part_text_skipped() {
    let dir = TempDir::new();
    let storage = create_opencode_storage(&dir);

    let session = value(r#"{"id": "sess-ws-part", "projectID": "proj-001"}"#);
    write_session(&dir, &storage, "proj-001", &session);

    let message = value(r#"{
        "id": "msg-ws",
        "role": "assistant",
        "sessionID": "sess-ws-part",
        "time": {"created": 1733000000}
    }"#);
    write_message(&dir, &storage, "sess-ws-part", &message);

    write_part(
        &dir,
        &storage,
        "msg-ws",
        &value(r#"{"id": "p-ws", "messageID": "msg-ws", "type": "text", "text": "   \n\t  "}"#),
    );

    let ctx = local_default(storage.clone(), None);
    let convs = dir.scan(&ctx);
    assert_eq!(convs.len(), 0);
}

#[test]
fn edge_corrupted_message_file_skipped() {
    let dir = TempDir::new();
    let storage = create_opencode_storage(&dir);

    let session = value(r#"{"id": "sess-corrupt", "projectID": "proj-001"}"#);
    write_session(&dir, &storage, "proj-001", &session);

    let valid_msg = value(r#"{
        "id": "msg-valid",
        "role": "user",
        "sessionID": "sess-corrupt",
        "time": {"created": 1733000000}
    }"#);
    write_message(&dir, &storage, "sess-corrupt", &valid_msg);
    write_part(
        &dir,
        &storage,
        "msg-valid",
        &value(r#"{"id": "p1", "messageID": "msg-valid", "type": "text", "text": "Valid message"}"#),
    );

    let msg_dir = storage.join("message").join("sess-corrupt");
    dir.write(msg_dir.join("msg-corrupt.json"), "{{{{not json");

    let ctx = local_default(storage.clone(), None);
    let convs = dir.scan(&ctx);
    assert_eq!(convs.len(), 1);
    assert_eq!(convs[0].messages.len(), 1);
    assert!(convs[0].messages[0].content.contains("Valid message"));
}

#[test]
fn edge_missing_part_directory_handled() {
    let dir = TempDir::new();
    let storage = create_opencode_storage(&dir);

    let session = value(r#"{"id": "sess-nopart", "projectID": "proj-001"}"#);
    write_session(&dir, &storage, "proj-001", &session);

    let message = value(r#"{
        "id": "msg-nopartdir",
        "role": "user",
        "sessionID": "sess-nopart",
        "time": {"created": 1733000000}
    }"#);
    write_message(&dir, &storage, "sess-nopart", &message);

    let ctx = local_default(storage.clone(), None);
    let convs = dir.scan(&ctx);
    assert_eq!(convs.len(), 0);
}

#[test]
fn edge_part_with_no_type_field_ignored() {
    let dir = TempDir::new();
    let storage = create_opencode_storage(&dir);

    let session = value(r#"{"id": "sess-notype", "projectID": "proj-001"}"#);
    write_session(&dir, &storage, "proj-001", &session);

    let message = value(r#"{
        "id": "msg-notype",
        "role": "assistant",
        "sessionID": "sess-notype",
        "time": {"created": 1733000000}
    }"#);
    write_message(&dir, &storage, "sess-notype", &message);

    write_part(
        &dir,
        &storage,
        "msg-notype",
        &value(r#"{"id": "p-notype", "messageID": "msg-notype", "text": "No type field"}"#),
    );

    let ctx = local_default(storage.clone(), None);
    let convs = dir.scan(&ctx);
    assert_eq!(convs.len(), 0);
}

#[test]
fn edge_part_ordering_preserves_index_order() {
    let dir = TempDir::new();
    let storage = create_opencode_storage(&dir);

    let session = value(r#"{"id": "sess-order", "projectID": "proj-001"}"#);
    write_session(&dir, &storage, "proj-001", &session);

    let message = value(r#"{
        "id": "msg-order",
        "role": "assistant",
        "sessionID": "sess-order",
        "time": {"created": 1733000000}
    }"#);
    write_message(&dir, &storage, "sess-order", &message);

    write_part(
        &dir,
        &storage,
        "msg-order",
        &value(r#"{"id": "p-c", "messageID": "msg-order", "type": "text", "text": "Third", "index": 3}"#),
    );
    write_part(
        &dir,
        &storage,
        "msg-order",
        &value(r#"{"id": "p-a", "messageID": "msg-order", "type": "text", "text": "First", "index": 1}"#),
    );
    write_part(
        &dir,
        &storage,
        "msg-order",
        &value(r#"{"id": "p-b", "messageID": "msg-order", "type": "text", "text": "Second", "index": 2}"#),
    );

    let ctx = local_default(storage.clone(), None);
    let convs = dir.scan(&ctx);
    assert_eq!(convs.len(), 1);
    let content = &convs[0].messages[0].content;
    let first_pos = content.find("First").unwrap();
    let second_pos = content.find("Second").unwrap();
    let third_pos = content.find("Third").unwrap();
    assert!(first_pos < second_pos);
    assert!(second_pos < third_pos);
}

#[test]
fn edge_session_ended_at_uses_latest_available_message_timestamp() {
    let dir = TempDir::new();
    let storage = create_opencode_storage(&dir);

    let session = value(r#"{"id": "sess-mixed-ts", "projectID": "proj-001"}"#);
    write_session(&dir, &storage, "proj-001", &session);

    let timed_message = value(r#"{
        "id": "msg-timed",
        "role": "user",
        "sessionID": "sess-mixed-ts",
        "time": {"created": 1733000000}
    }"#);
    write_message(&dir, &storage, "sess-mixed-ts", &timed_message);
    write_part(
        &dir,
        &storage,
        "msg-timed",
        &value(r#"{"id": "p-timed", "messageID": "msg-timed", "type": "text", "text": "Timestamped"}"#),
    );

    let untimed_message = value(r#"{
        "id": "msg-untimed",
        "role": "assistant",
        "sessionID": "sess-mixed-ts"
    }"#);
    write_message(&dir, &storage, "sess-mixed-ts", &untimed_message);
    write_part(
        &dir,
        &storage,
        "msg-untimed",
        &value(r#"{"id": "p-untimed", "messageID": "msg-untimed", "type": "text", "text": "No timestamp"}"#),
    );

    let ctx = local_default(storage.clone(), None);
    let convs = dir.scan(&ctx);

    assert_eq!(convs.len(), 1);
    assert_eq!(convs[0].started_at, Some(1_733_000_000_000));
    assert_eq!(convs[0].ended_at, Some(1_733_000_000_000));
    assert_eq!(convs[0].messages.len(), 2);
}

#[test]
fn edge_session_ended_at_falls_back_to_started_at_when_updated_missing() {
    let dir = TempDir::new();
    let storage = create_opencode_storage(&dir);

    let session = value(r#"{
        "id": "sess-created-only",
        "projectID": "proj-001",
        "time": {"created": 1733000500}
    }"#);
    write_session(&dir, &storage, "proj-001", &session);

    let message = value(r#"{
        "id": "msg-no-time",
        "role": "user",
        "sessionID": "sess-created-only"
    }"#);
    write_message(&dir, &storage, "sess-created-only", &message);
    write_part(
        &dir,
        &storage,
        "msg-no-time",
        &value(r#"{"id": "p-no-time", "messageID": "msg-no-time", "type": "text", "text": "Only session created time"}"#),
    );

    let ctx = local_default(storage.clone(), None);
    let convs = dir.scan(&ctx);

    assert_eq!(convs.len(), 1);
    assert_eq!(convs[0].started_at, Some(1_733_000_500_000));
    assert_eq!(convs[0].ended_at, Some(1_733_000_500_000));
}

#[test]
fn edge_session_without_time_field() {
    let dir = TempDir::new();
    let storage = create_opencode_storage(&dir);

    let session = value(r#"{"id": "sess-notime", "projectID": "proj-001"}"#);
    write_session(&dir, &storage, "proj-001", &session);

    let message = value(r#"{
        "id": "msg-notime",
        "role": "user",
        "sessionID": "sess-notime"
    }"#);
    write_message(&dir, &storage, "sess-notime", &message);
    write_part(
        &dir,
        &storage,
        "msg-notime",
        &value(r#"{"id": "p1", "messageID": "msg-notime", "type": "text", "text": "No timestamps"}"#),
    );

    let ctx = local_default(storage.clone(), None);
    let convs = dir.scan(&ctx);
    assert_eq!(convs.len(), 1);
    assert!(convs[0].started_at.is_none());
    assert!(convs[0].ended_at.is_none());
}

const USER: &str = r#"{"role":"user","time":{"created":1700000000000}}"#;

/// The tables of a database.
struct Tables {
    sessions: Vec<SessionRows>,
}

impl Tables {
    fn new() -> Tables {
        Tables { sessions: Vec::new() }
    }

    fn session(&mut self, id: &str, project: Option<&str>, title: &str, directory: Option<&str>) {
        self.sessions.push(SessionRows {
            session: SqliteSession {
                id: id.to_string(),
                title: Some(title.to_string()),
                directory: directory.map(String::from),
                project_id: project.map(String::from),
                time_created: SqlValue::Text("2026-01-01 00:00:00".to_string()),
                time_updated: SqlValue::Text("2026-01-01 00:00:00".to_string()),
            },
            tables: Some(SessionTables { messages: Vec::new(), parts: Vec::new() }),
        });
    }

    fn tables(&mut self, session: &str) -> &mut SessionTables {
        let rows = self.sessions.iter_mut().find(|r| r.session.id == session).unwrap();
        rows.tables.as_mut().unwrap()
    }

    fn message(&mut self, id: &str, session: &str, data: &str, created: SqlValue) {
        let row = MessageRow { id: id.to_string(), data: data.to_string(), time_created: created };
        self.tables(session).messages.push(row);
    }

    fn part(&mut self, message: &str, session: &str, data: &str) {
        let row = PartRow { message_id: message.to_string(), data: data.to_string() };
        self.tables(session).parts.push(row);
    }

    /// A session with one message of one text.
    fn talk(&mut self, name: &str, title: &str, directory: &str, text: &str) {
        let id = format!("sess-{name}");
        let message = format!("msg-{name}");
        self.session(&id, Some(&format!("proj-{name}")), title, Some(directory));
        self.message(&message, &id, USER, stamp());
        self.part(&message, &id, &format!(r#"{{"type":"text","text":"{text}"}}"#));
    }

    fn extract(&self, since: Option<i64>) -> Vec<Conv> {
        let mut taken = Vec::new();
        let mut found = Vec::new();
        OpenCodeConnector::stream_from_sqlite(&path("/db/opencode.db"), &self.sessions, since, &mut taken, &mut found);
        found.iter().map(conv).collect()
    }

    fn at(self, p: impl AsRef<Path>) -> Vec<OpenCodeDatabase> {
        vec![OpenCodeDatabase { path: path(p), sessions: Some(self.sessions) }]
    }
}

fn stamp() -> SqlValue {
    SqlValue::Text("2026-01-01 00:00:00".to_string())
}

#[test]
fn sqlite_extract_simple_session() {
    let mut db = Tables::new();
    db.session("sess-1", Some("proj-1"), "Test Session", Some("/home/user/project"));
    db.message("msg-1", "sess-1", USER, stamp());
    db.part("msg-1", "sess-1", r#"{"type":"text","text":"Hello world"}"#);
    db.message(
        "msg-2",
        "sess-1",
        r#"{"role":"assistant","time":{"created":1700000001000},"modelID":"model-3"}"#,
        stamp(),
    );
    db.part("msg-2", "sess-1", r#"{"type":"text","text":"Hi there!"}"#);
    let convs = db.extract(None);
    assert_eq!(convs.len(), 1);
    assert_eq!(convs[0].external_id.as_deref(), Some("sess-1"));
    assert_eq!(convs[0].title.as_deref(), Some("Test Session"));
    assert_eq!(convs[0].messages.len(), 2);
    assert_eq!(convs[0].messages[0].role, "user");
    assert_eq!(convs[0].messages[0].content, "Hello world");
    assert_eq!(convs[0].messages[1].role, "assistant");
    assert_eq!(convs[0].messages[1].content, "Hi there!");
    assert_eq!(convs[0].messages[1].author.as_deref(), Some("model-3"));
    assert_eq!(convs[0].source_path, Path::new("/db/opencode.db/sess-1"));
}

#[test]
fn sqlite_extract_empty_db() {
    assert!(Tables::new().extract(None).is_empty());
}

#[test]
fn sqlite_extract_skips_empty_messages() {
    let mut db = Tables::new();
    db.session("sess-empty", None, "Empty Session", None);
    assert!(db.extract(None).is_empty());
}

#[test]
fn sqlite_extract_with_tool_parts() {
    let mut db = Tables::new();
    db.session("sess-tools", None, "Tool Session", None);
    db.message("msg-t1", "sess-tools", r#"{"role":"assistant"}"#, stamp());
    db.part("msg-t1", "sess-tools", r#"{"type":"text","text":"Let me check that."}"#);
    db.part("msg-t1", "sess-tools", r#"{"type":"tool","state":{"output":"file.rs: 42 lines"}}"#);
    let convs = db.extract(None);
    assert_eq!(convs.len(), 1);
    assert!(convs[0].messages[0].content.contains("Let me check that."));
    assert!(convs[0].messages[0].content.contains("[Tool Output]"));
    assert!(convs[0].messages[0].content.contains("file.rs: 42 lines"));
}

#[test]
fn sqlite_extract_deduplicates_sessions() {
    let mut db = Tables::new();
    for (sid, title) in [("sess-a", "Session A"), ("sess-b", "Session B")] {
        db.session(sid, None, title, None);
        db.message(&format!("msg-{sid}"), sid, r#"{"role":"user"}"#, stamp());
        db.part(&format!("msg-{sid}"), sid, r#"{"type":"text","text":"Hello"}"#);
    }
    assert_eq!(db.extract(None).len(), 2);
}

#[test]
fn sqlite_extract_groups_bulk_scanned_messages_by_session() {
    let mut db = Tables::new();
    for session_id in ["sess-a", "sess-b"] {
        db.session(session_id, None, &format!("Session {session_id}"), None);
    }
    for (message_id, session_id, role, created_at) in [
        ("msg-a-late", "sess-a", "assistant", 30_i64),
        ("msg-b-only", "sess-b", "user", 20_i64),
        ("msg-a-early", "sess-a", "user", 10_i64),
    ] {
        db.message(
            message_id,
            session_id,
            &format!(r#"{{"role":"{role}"}}"#),
            SqlValue::Text(created_at.to_string()),
        );
        db.part(
            message_id,
            session_id,
            &format!(r#"{{"type":"text","text":"content for {message_id}"}}"#),
        );
    }
    let convs = db.extract(None);
    assert_eq!(convs.len(), 2);

    let sess_a = convs
        .iter()
        .find(|conv| conv.external_id.as_deref() == Some("sess-a"))
        .expect("sess-a conversation");
    assert_eq!(sess_a.messages.len(), 2);
    assert_eq!(sess_a.messages[0].idx, 0);
    assert_eq!(sess_a.messages[0].content, "content for msg-a-early");
    assert_eq!(sess_a.messages[1].idx, 1);
    assert_eq!(sess_a.messages[1].content, "content for msg-a-late");

    let sess_b = convs
        .iter()
        .find(|conv| conv.external_id.as_deref() == Some("sess-b"))
        .expect("sess-b conversation");
    assert_eq!(sess_b.messages.len(), 1);
    assert_eq!(sess_b.messages[0].idx, 0);
    assert_eq!(sess_b.messages[0].content, "content for msg-b-only");
}

#[test]
fn sqlite_extract_handles_integer_timestamps() {
    let mut db = Tables::new();
    db.session("sess-int", Some("proj-1"), "Integer TS Session", None);
    db.sessions[0].session.time_created = SqlValue::Integer(1_700_000_000);
    db.sessions[0].session.time_updated = SqlValue::Integer(1_700_000_100);
    db.message("msg-int", "sess-int", r#"{"role":"user"}"#, SqlValue::Integer(1_700_000_050));
    db.part("msg-int", "sess-int", r#"{"type":"text","text":"Integer timestamps!"}"#);
    let convs = db.extract(None);
    assert_eq!(convs.len(), 1);
    assert_eq!(convs[0].started_at, Some(1_700_000_000_000));
    assert_eq!(convs[0].ended_at, Some(1_700_000_100_000));
    assert!(convs[0].messages[0].content.contains("Integer timestamps!"));
}

#[test]
fn sqlite_extract_metadata_includes_source() {
    let mut db = Tables::new();
    db.session("sess-meta", Some("proj-meta"), "Meta Session", None);
    db.message("msg-meta", "sess-meta", r#"{"role":"user"}"#, stamp());
    db.part("msg-meta", "sess-meta", r#"{"type":"text","text":"Test"}"#);
    let convs = db.extract(None);
    assert_eq!(convs.len(), 1);
    assert_eq!(convs[0].metadata["source"], "sqlite");
    assert_eq!(convs[0].metadata["project_id"], "proj-meta");
}

fn text_millis(text: &str) -> Option<i64> {
    normalize_sqlite_ts_value(&SqlValue::Text(text.to_string()))
}

#[test]
fn normalize_sqlite_ts_value_integer_epoch_seconds() {
    let val = SqlValue::Integer(1_700_000_000);
    assert_eq!(normalize_sqlite_ts_value(&val), Some(1_700_000_000_000));
}

#[test]
fn normalize_sqlite_ts_value_integer_epoch_millis() {
    let val = SqlValue::Integer(1_700_000_000_000);
    assert_eq!(normalize_sqlite_ts_value(&val), Some(1_700_000_000_000));
}

#[test]
fn normalize_sqlite_ts_value_text_sqlite_format() {
    assert_eq!(text_millis("2024-01-15 14:30:00").unwrap(), 1_705_329_000_000);
}

#[test]
fn normalize_sqlite_ts_value_text_iso8601_t_separator() {
    assert_eq!(text_millis("2024-01-15T14:30:00").unwrap(), 1_705_329_000_000);
}

#[test]
fn normalize_sqlite_ts_value_text_fractional_seconds() {
    assert_eq!(text_millis("2024-01-15 14:30:00.123").unwrap(), 1_705_329_000_123);
}

#[test]
fn normalize_sqlite_ts_value_text_t_fractional() {
    assert_eq!(text_millis("2024-01-15T14:30:00.456").unwrap(), 1_705_329_000_456);
}

#[test]
fn normalize_sqlite_ts_value_text_rfc3339_z() {
    assert_eq!(text_millis("2024-01-15T14:30:00Z").unwrap(), 1_705_329_000_000);
}

#[test]
fn normalize_sqlite_ts_value_text_rfc3339_offset() {
    assert_eq!(text_millis("2024-01-15T14:30:00+00:00").unwrap(), 1_705_329_000_000);
    assert_eq!(text_millis("2024-01-15T16:30:00+02:00").unwrap(), 1_705_329_000_000);
}

#[test]
fn normalize_sqlite_ts_value_text_integer_string() {
    assert_eq!(text_millis("1700000000").unwrap(), 1_700_000_000_000);
}

#[test]
fn normalize_sqlite_ts_value_null() {
    assert_eq!(normalize_sqlite_ts_value(&SqlValue::Null), None);
}

#[test]
fn normalize_sqlite_ts_value_unparseable_text() {
    assert_eq!(text_millis("not a date"), None);
}

#[test]
fn normalize_sqlite_ts_value_empty_text() {
    assert_eq!(text_millis(""), None);
}

#[test]
fn normalize_sqlite_ts_value_real() {
    let val = SqlValue::Float(1_700_000_000.5_f64.to_bits());
    assert_eq!(normalize_sqlite_ts_value(&val), Some(1_700_000_000_000));
}

fn candidates(override_path: Option<&Path>, home: &Path, data: &Path, config: &Path) -> Vec<PathBuf> {
    OpenCodeConnector::sqlite_db_candidates_from(
        override_path.map(path),
        Some(&path(home)),
        Some(&path(data)),
        Some(&path(config)),
    )
    .iter()
    .map(|p| PathBuf::from(p.text()))
    .collect()
}

#[test]
fn sqlite_db_candidates_from_orders_home_xdg_before_platform_dirs() {
    let home = PathBuf::from("/home/testuser");
    let xdg_data = PathBuf::from("/var/lib/xdg");
    let xdg_config = PathBuf::from("/etc/xdg");

    let list = candidates(None, &home, &xdg_data, &xdg_config);
    assert_eq!(list.len(), 4);
    assert_eq!(list[0], home.join(".local/share/opencode/opencode.db"));
    assert_eq!(list[1], home.join(".config/opencode/opencode.db"));
    assert_eq!(list[2], xdg_data.join("opencode/opencode.db"));
    assert_eq!(list[3], xdg_config.join("opencode/opencode.db"));

    let override_path = PathBuf::from("/custom/opencode.db");
    let list = candidates(Some(&override_path), &home, &xdg_data, &xdg_config);
    assert_eq!(list[0], override_path);
    assert_eq!(list.len(), 5);
}

#[test]
fn sqlite_db_candidates_from_deduplicates_overlapping_roots() {
    let home = PathBuf::from("/Users/testuser");
    let overlap = PathBuf::from("/Users/testuser/Library/Application Support");
    let list = candidates(None, &home, &overlap, &overlap);
    assert_eq!(list.len(), 3, "list = {list:?}");
    assert_eq!(list[0], home.join(".local/share/opencode/opencode.db"));
    assert_eq!(list[1], home.join(".config/opencode/opencode.db"));
    assert_eq!(list[2], overlap.join("opencode/opencode.db"));
}

#[test]
fn scan_finds_sqlite_db_when_data_dir_is_db_parent() {
    let dir = TempDir::new();
    let db_path = dir.path().join("opencode.db");
    dir.write(&db_path, "");
    let mut db = Tables::new();
    db.talk("parent", "Parent Session", "/home/user/parent", "Parent content");
    let convs = dir.scan_with(&local_default(dir.path(), None), db.at(&db_path));
    assert_eq!(convs.len(), 1);
    assert_eq!(convs[0].external_id.as_deref(), Some("sess-parent"));
}

#[test]
fn scan_finds_sqlite_db_via_data_dir_even_with_explicit_scan_roots() {
    let dir = TempDir::new();
    let db_path = dir.path().join("opencode.db");
    dir.write(&db_path, "");
    let mut db = Tables::new();
    db.talk("roots", "Roots Session", "/home/user/roots", "Roots content");
    let ctx = with_roots(dir.path(), vec![local(dir.path())], None);
    let convs = dir.scan_with(&ctx, db.at(&db_path));
    assert_eq!(convs.len(), 1, "explicit scan_roots must still check ctx.data_dir for opencode.db");
    assert_eq!(convs[0].external_id.as_deref(), Some("sess-roots"));
}

#[test]
fn scan_finds_sqlite_db_with_explicit_config_root() {
    let dir = TempDir::new();
    let config_root = dir.path().join(".config");
    let db_path = config_root.join("opencode/opencode.db");
    dir.write(&db_path, "");
    let mut db = Tables::new();
    db.talk("config", "Config Session", "/home/user/config", "Config content");
    let ctx = with_roots(dir.path(), vec![local(config_root)], None);
    let convs = dir.scan_with(&ctx, db.at(&db_path));
    assert_eq!(convs.len(), 1);
    assert_eq!(convs[0].external_id.as_deref(), Some("sess-config"));
}

#[test]
fn scan_accepts_data_dir_as_direct_db_file() {
    let dir = TempDir::new();
    let db_path = dir.path().join("opencode.db");
    dir.write(&db_path, "");
    let mut db = Tables::new();
    db.talk("direct", "Direct Session", "/home/user/direct", "Direct content");
    let convs = dir.scan_with(&local_default(&db_path, None), db.at(&db_path));
    assert_eq!(convs.len(), 1);
    assert_eq!(convs[0].external_id.as_deref(), Some("sess-direct"));
}

#[test]
fn scan_handles_nonexistent_db_path_in_data_dir() {
    let dir = TempDir::new();
    dir.create_dir_all(dir.path());
    let missing = dir.path().join("missing.db");
    let ctx = with_roots(missing, vec![local(dir.path())], None);
    let convs = dir.scan(&ctx);
    assert!(convs.is_empty(), "nonexistent .db path should not produce sessions");
}

fn text_part(id: &str, index: i64, text: &str) -> PartInfo {
    PartInfo {
        id: Some(id.to_string()),
        index: Some(index),
        message_id: Some("m1".to_string()),
        part_type: Some("text".to_string()),
        text: Some(text.to_string()),
        state: None,
    }
}

#[test]
fn assemble_caps_oversized_single_part() {
    let big = "x".repeat(MAX_PART_CONTENT_BYTES + 50_000);
    let parts = vec![PartInfo {
        id: Some("p1".into()),
        index: None,
        message_id: Some("m1".into()),
        part_type: Some("tool".into()),
        text: None,
        state: Some(ToolState { output: Some(big.clone()) }),
    }];
    let content = assemble_content_from_parts(&parts);
    assert!(content.len() < big.len(), "oversized tool output must be truncated");
    assert!(content.contains("[Tool Output]"));
    assert!(content.contains("[… truncated"), "a truncated part must carry the byte-count marker");
    assert!(content.contains(&"x".repeat(1000)), "the head of the output must be preserved");
}

#[test]
fn assemble_caps_total_message_content() {
    let chunk = "y".repeat(200 * 1024);
    let parts: Vec<PartInfo> = (0..10).map(|i| text_part(&format!("p{i}"), i, &chunk)).collect();
    let content = assemble_content_from_parts(&parts);
    assert!(
        content.contains("[… message content truncated]"),
        "an assembled message exceeding the cap must be marked truncated"
    );
    assert!(
        content.len() <= MAX_MESSAGE_CONTENT_BYTES + MAX_PART_CONTENT_BYTES + 1024,
        "assembled content must stay bounded, got {}",
        content.len()
    );
}

#[test]
fn assemble_no_stray_marker_when_only_noop_parts_follow_cap() {
    let chunk = "z".repeat(MAX_PART_CONTENT_BYTES);
    let mut parts: Vec<PartInfo> = (0..4).map(|i| text_part(&format!("p{i}"), i, &chunk)).collect();
    parts.push(PartInfo {
        id: Some("pf".into()),
        index: Some(99),
        message_id: None,
        part_type: Some("step-finish".into()),
        text: None,
        state: None,
    });
    let content = assemble_content_from_parts(&parts);
    assert!(
        !content.contains("message content truncated"),
        "a trailing no-op part must not produce a stray truncation marker"
    );

    let mut with_real = parts;
    with_real.pop();
    with_real.push(text_part("p5", 5, &chunk));
    assert!(
        assemble_content_from_parts(&with_real).contains("message content truncated"),
        "a real part dropped past the cap must produce the truncation marker"
    );
}

#[test]
fn supports_streaming_scan_is_true() {
    assert!(OpenCodeConnector::new().supports_streaming_scan());
}

#[test]
fn stream_from_sqlite_emits_each_session_once() {
    let mut db = Tables::new();
    for s in ["sess-a", "sess-b"] {
        db.session(s, None, &format!("Session {s}"), None);
        db.message(&format!("msg-{s}"), s, USER, stamp());
        db.part(&format!("msg-{s}"), s, r#"{"type":"text","text":"hello"}"#);
    }
    let mut taken = Vec::new();
    let mut found = Vec::new();
    OpenCodeConnector::stream_from_sqlite(&path("/db/opencode.db"), &db.sessions, None, &mut taken, &mut found);
    let mut streamed: Vec<String> = found.iter().filter_map(|c| c.external_id.clone()).collect();
    streamed.sort();
    assert_eq!(
        streamed,
        vec!["sess-a".to_string(), "sess-b".to_string()],
        "streaming must emit each session exactly once"
    );
    OpenCodeConnector::stream_from_sqlite(&path("/db/opencode.db"), &db.sessions, None, &mut taken, &mut found);
    assert_eq!(found.len(), 2, "what was emitted is not emitted again");
}

#[test]
fn scan_warns_and_returns_empty_when_only_session_message_populated() {
    let mut db = Tables::new();
    db.session("sess-1", None, "Drifted", None);
    let convs = db.extract(None);
    assert!(convs.is_empty(), "no readable message/part rows -> zero conversations (drift guard warns)");
    assert!(schema_has_drifted(Some(0), Some(1)));
    assert!(!schema_has_drifted(Some(1), Some(1)));
    assert!(!schema_has_drifted(Some(0), None));
}

#[test]
fn db_present_supersedes_legacy_file_storage() {
    let dir = TempDir::new();
    let db_path = dir.path().join("opencode.db");
    dir.write(&db_path, "");
    let mut db = Tables::new();
    db.talk("db", "DB Session", "/home/user/db", "From DB");

    write_session(
        &dir,
        dir.path(),
        "proj-legacy",
        &value(r#"{"id": "sess-legacy", "title": "Legacy", "projectID": "proj-legacy"}"#),
    );
    write_message(
        &dir,
        dir.path(),
        "sess-legacy",
        &value(
            r#"{"id": "msg-legacy", "role": "user", "sessionID": "sess-legacy", "time": {"created": 1700000000}}"#,
        ),
    );
    write_part(
        &dir,
        dir.path(),
        "msg-legacy",
        &value(r#"{"id": "p-legacy", "messageID": "msg-legacy", "type": "text", "text": "From legacy file"}"#),
    );

    let ctx = local_default(dir.path(), None);
    let sources = dir.sources(&ctx);
    assert!(
        sources.iter().any(|s| matches!(s.role, SourceRole::SqliteDatabase)),
        "the SQLite database must still be discovered"
    );
    assert!(
        !sources
            .iter()
            .any(|s| matches!(s.role, SourceRole::PrimarySessionLog | SourceRole::MetadataSidecar)),
        "legacy file sources must not be discovered when opencode.db is present"
    );

    let convs = dir.scan_with(&ctx, db.at(&db_path));
    let ids: Vec<&str> = convs.iter().filter_map(|c| c.external_id.as_deref()).collect();
    assert_eq!(ids, vec!["sess-db"], "only the DB session should be scanned");
}

#[test]
fn opencode_records_may_list_their_fields_in_order() {
    let mut db = Tables::new();
    db.session("s", None, "Listed", None);
    db.message("m1", "s", r#"["user",[1700000000000,1700000001000],"model"]"#, stamp());
    db.part("m1", "s", r#"["p1",0,"text","Hello"]"#);
    db.part("m1", "s", r#"["p2",1,"tool",null,["output"]]"#);
    db.part("m1", "s", r#"["p3",2,"text","too many",null,1]"#);
    db.part("m1", "s", r#"{"type":"text","text":"twice","order":1,"index":1}"#);
    let convs = db.extract(None);
    assert_eq!(convs.len(), 1);
    assert_eq!(convs[0].messages.len(), 1);
    assert_eq!(convs[0].messages[0].role, "user");
    assert_eq!(convs[0].messages[0].created_at, Some(1_700_000_000_000));
    assert_eq!(convs[0].messages[0].content, "Hello\n\n[Tool Output]\noutput");
}

#[test]
fn opencode_session_files_need_a_name() {
    let dir = TempDir::new();
    let file = dir.path().join("s.json");
    let read = |text: &str| {
        dir.write(&file, text);
        parse_session_file(&dir.table(), &path(&file)).ok().map(|info| (info.id, info.title, info.created))
    };
    assert_eq!(read(r#"["a","T",null,null,{"created":5}]"#), Some(("a".into(), Some("T".into()), Some(5))));
    assert_eq!(read(r#"{"id":"a","junk":1e999}"#), Some(("a".into(), None, None)));
    assert_eq!(read("[]"), None);
    assert_eq!(read(r#"{"title":"T"}"#), None);
    assert_eq!(read(r#"{"id":"a","id":"a"}"#), None);
    assert_eq!(read(r#"{"id":"a","time":{"created":1,"created":1}}"#), None);
    assert_eq!(read("5"), None);
}

/// Goes through one database step by step, and through the older files where nothing is
/// taken.
fn go_through(rows: &[SessionRows], older: usize, fail_at: Option<usize>) -> (Vec<String>, StreamStep) {
    let db = path("/db/opencode.db");
    let mut taken = Vec::new();
    let mut emitted = Vec::new();
    let mut held = None;
    let mut at = begin_stream(1);
    loop {
        let event = match at.step {
            StreamStep::Open => StreamEvent::Listed(rows.len()),
            StreamStep::Claim => match OpenCodeConnector::claim_session(&rows[at.session].session, None, &mut taken) {
                true => StreamEvent::Claimed,
                false => StreamEvent::PassedOver,
            },
            StreamStep::Load => match &rows[at.session].tables {
                None => StreamEvent::Unreadable,
                Some(tables) => {
                    let session = &rows[at.session].session;
                    held = OpenCodeConnector::session_conversation(
                        &db,
                        session,
                        &tables.messages,
                        &tables.parts,
                        None,
                    );
                    if held.is_some() { StreamEvent::Found } else { StreamEvent::Nothing }
                }
            },
            StreamStep::Files => StreamEvent::Listed(older),
            StreamStep::Emit | StreamStep::EmitOld => {
                if fail_at == Some(emitted.len()) {
                    StreamEvent::EmitFailed
                } else {
                    emitted.push(held.take().and_then(|c| c.external_id).unwrap_or("older".to_string()));
                    StreamEvent::Emitted
                }
            }
            StreamStep::Done | StreamStep::Failed => return (emitted, at.step),
        };
        at = stream_on(1, at, event);
    }
}

#[test]
fn opencode_sessions_are_gone_through_one_by_one() {
    let tables = |ids: &[&str]| {
        let mut db = Tables::new();
        for id in ids {
            db.session(id, None, "T", None);
            db.message(&format!("m-{id}"), id, r#"{"role":"user"}"#, stamp());
            db.part(&format!("m-{id}"), id, r#"{"type":"text","text":"Hello"}"#);
        }
        db.sessions
    };
    let done = |names: &[&str]| (names.iter().map(|n| n.to_string()).collect::<Vec<_>>(), StreamStep::Done);
    assert!(go_through(&tables(&["a", "b", "a"]), 1, None) == done(&["a", "b"]), "each session once, no older file");
    assert!(go_through(&[], 2, None) == done(&["older", "older"]), "older files where nothing was taken");
    let (emitted, step) = go_through(&tables(&["a", "b"]), 0, Some(1));
    assert_eq!(emitted, ["a"]);
    assert!(step == StreamStep::Failed, "who fails on a conversation ends the scan");
    let mut broken = tables(&["a", "b"]);
    broken[0].tables = None;
    assert!(go_through(&broken, 1, None) == done(&[]), "what cannot be read ends the database");
}

#[test]
fn opencode_documents_are_rendered_with_keys_in_order() {
    let dir = TempDir::new();
    let storage = create_opencode_storage(&dir);
    write_session(&dir, &storage, "p1", &value(r#"{"id": "s1", "projectID": "p1"}"#));
    write_message(&dir, &storage, "s1", &value(r#"{"id": "m1", "role": "user", "sessionID": "s1"}"#));
    write_part(&dir, &storage, "m1", &value(r#"{"id": "q1", "messageID": "m1", "type": "text", "text": "Test"}"#));
    let found =
        OpenCodeConnector::new().scan(&local_default(storage, None), &nowhere(), &dir.table(), &Vec::new());
    assert_eq!(found[0].metadata.render(), r#"{"project_id":"p1","session_id":"s1"}"#);
    assert_eq!(found[0].messages[0].extra.render(), r#"{"message_id":"m1","session_id":"s1"}"#);
}
