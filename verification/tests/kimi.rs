use agent_sessions::files::{FileEntry, FileKind, FileTable};
use agent_sessions::kimi::KimiConnector;
use agent_sessions::model::Conversation;
use agent_sessions::path::SourcePath;
use agent_sessions::scan::{DiscoveredSource, ScanContext, ScanRoot, SourceRole, Surroundings};
use agent_sessions::stamp::rfc3339_millis_of;
use serde_json::Value;
use std::cell::RefCell;
use std::path::{Path, PathBuf};

/// A conversation with its documents as values.
struct Conv {
    agent_slug: String,
    external_id: Option<String>,
    title: Option<String>,
    workspace: Option<PathBuf>,
    source_path: PathBuf,
    started_at: Option<i64>,
    ended_at: Option<i64>,
    metadata: Value,
    messages: Vec<Msg>,
}

struct Msg {
    idx: i64,
    role: String,
    author: Option<String>,
    created_at: Option<i64>,
    content: String,
    extra: Value,
    invocations: Vec<Call>,
}

struct Call {
    kind: String,
    name: String,
    raw_name: Option<String>,
    call_id: Option<String>,
    arguments: Option<Value>,
}

fn value(text: &str) -> Value {
    serde_json::from_str(text).unwrap()
}

fn path(p: impl AsRef<Path>) -> SourcePath {
    SourcePath::new(p.as_ref().to_str().unwrap())
}

fn conv(c: &Conversation) -> Conv {
    Conv {
        agent_slug: c.agent_slug.clone(),
        external_id: c.external_id.clone(),
        title: c.title.clone(),
        workspace: c.workspace.as_ref().map(PathBuf::from),
        source_path: PathBuf::from(c.source_path.text()),
        started_at: c.started_at,
        ended_at: c.ended_at,
        metadata: value(&c.metadata.render()),
        messages: c
            .messages
            .iter()
            .map(|m| Msg {
                idx: m.idx,
                role: m.role.clone(),
                author: m.author.clone(),
                created_at: m.created_at,
                content: m.content.clone(),
                extra: value(&m.extra.render()),
                invocations: m
                    .invocations
                    .iter()
                    .map(|i| Call {
                        kind: i.kind.clone(),
                        name: i.name.clone(),
                        raw_name: i.raw_name.clone(),
                        call_id: i.call_id.clone(),
                        arguments: i.arguments.as_ref().map(|a| value(&a.render())),
                    })
                    .collect(),
            })
            .collect(),
    }
}

fn nowhere() -> Surroundings {
    Surroundings { home: None, data: None, local_data: None, config: None, variables: Vec::new() }
}

fn local(p: impl AsRef<Path>) -> ScanRoot {
    ScanRoot::local(path(p))
}

fn with_roots(data_dir: impl AsRef<Path>, roots: Vec<ScanRoot>, since: Option<i64>) -> ScanContext {
    ScanContext::with_roots(path(data_dir), roots, since)
}

fn local_default(data_dir: impl AsRef<Path>, since: Option<i64>) -> ScanContext {
    ScanContext::local_default(path(data_dir), since)
}

/// A directory in memory.
struct TempDir {
    root: PathBuf,
    entries: RefCell<Vec<FileEntry>>,
}

impl TempDir {
    fn new() -> TempDir {
        TempDir { root: PathBuf::from("/tmp/home"), entries: RefCell::new(Vec::new()) }
    }

    fn path(&self) -> &Path {
        &self.root
    }

    fn put(&self, p: &Path, kind: FileKind, content: Option<&[u8]>) {
        let at = path(p).text();
        let known = self.entries.borrow().iter().position(|e| e.path.text() == at);
        if let Some(i) = known {
            if content.is_some() {
                self.entries.borrow_mut()[i].content = content.map(|c| c.to_vec());
            }
            return;
        }
        if let Some(parent) = p.parent() {
            if parent != Path::new("") {
                self.put(parent, FileKind::Directory, None);
            }
        }
        let content = content.map(|c| c.to_vec());
        self.entries.borrow_mut().push(FileEntry { path: path(p), kind, canonical: path(p), fresh: true, content });
    }

    fn create_dir_all(&self, p: impl AsRef<Path>) {
        self.put(p.as_ref(), FileKind::Directory, None);
    }

    fn write(&self, p: impl AsRef<Path>, content: impl AsRef<[u8]>) {
        self.put(p.as_ref(), FileKind::File, Some(content.as_ref()));
    }

    fn table(&self) -> FileTable {
        let entries = self
            .entries
            .borrow()
            .iter()
            .map(|e| FileEntry {
                path: e.path.copy(),
                kind: e.kind,
                canonical: e.canonical.copy(),
                fresh: e.fresh,
                content: e.content.clone(),
            })
            .collect();
        FileTable { entries }
    }

    fn scan(&self, ctx: &ScanContext) -> Vec<Conv> {
        KimiConnector::new().scan(ctx, &nowhere(), &self.table()).iter().map(conv).collect()
    }

    fn sources(&self, ctx: &ScanContext) -> Vec<DiscoveredSource> {
        KimiConnector::new().discover_source_files(ctx, &nowhere(), &self.table())
    }

    /// A link to a directory, with what can be seen through it.
    fn link(&self, from: &str, to: &str) {
        let target = path(self.root.join(from)).text();
        let name = path(self.root.join(to)).text();
        let mut seen = Vec::new();
        for e in self.entries.borrow().iter() {
            let text = e.path.text();
            if text == target || text.starts_with(&format!("{target}/")) {
                let kind = if text == target { FileKind::LinkedDirectory } else { e.kind };
                seen.push(FileEntry {
                    path: path(text.replacen(&target, &name, 1)),
                    kind,
                    canonical: e.canonical.copy(),
                    fresh: e.fresh,
                    content: e.content.clone(),
                });
            }
        }
        self.entries.borrow_mut().extend(seen);
    }

    fn check_discovery(&self, ctx: &ScanContext) {
        let sources = self.sources(ctx);
        for c in self.scan(ctx) {
            assert!(sources.iter().any(|s| Path::new(&s.source_path.text()) == c.source_path));
        }
    }
}

fn roots_from(override_home: Option<PathBuf>, home: Option<&Path>) -> Vec<PathBuf> {
    let home = home.map(path);
    KimiConnector::kimi_session_roots_from(override_home.map(path), home.as_ref())
        .iter()
        .map(|p| PathBuf::from(p.text()))
        .collect()
}

#[test]
fn kimi_new_creates_connector() {
    let connector = KimiConnector::new();
    let _ = connector;
}

#[test]
fn kimi_default_creates_connector() {
    let connector = KimiConnector;
    let _ = connector;
}

fn create_kimi_storage(dir: &TempDir) -> PathBuf {
    let storage = dir.path().join(".kimi").join("sessions");
    dir.create_dir_all(&storage);
    storage
}

fn write_wire_file(dir: &TempDir, storage: &Path, workspace_hash: &str, session_id: &str, lines: &[&str]) {
    let session_dir = storage.join(workspace_hash).join(session_id);
    dir.create_dir_all(&session_dir);
    let file_path = session_dir.join("wire.jsonl");
    dir.write(&file_path, lines.join("\n"));
}

#[test]
fn detect_not_found_without_sessions_dir() {
    let connector = KimiConnector::new();
    let result = connector.detect(None);
    let _ = result.detected;
}

#[test]
fn scan_parses_turn_begin_and_content_parts() {
    let dir = TempDir::new();
    let storage = create_kimi_storage(&dir);

    let lines = vec![
        r#"{"type": "metadata", "protocol_version": "1.3"}"#,
        r#"{"timestamp": 1772857971.158, "message": {"type": "TurnBegin", "payload": {"role": "human", "content": "Hello Kimi"}}}"#,
        r#"{"timestamp": 1772857980.325, "message": {"type": "ContentPart", "payload": {"content": "Hello! How can I help you?"}}}"#,
    ];
    write_wire_file(&dir, &storage, "abc123", "sess-001", &lines);

    let ctx = local_default(storage.clone(), None);
    let convs = dir.scan(&ctx);

    assert_eq!(convs.len(), 1);
    assert_eq!(convs[0].agent_slug, "kimi");
    assert_eq!(convs[0].messages.len(), 2);
    assert_eq!(convs[0].messages[0].role, "user");
    assert_eq!(convs[0].messages[0].content, "Hello Kimi");
    assert_eq!(convs[0].messages[1].role, "assistant");
    assert!(
        convs[0].messages[1]
            .content
            .contains("Hello! How can I help")
    );
    dir.check_discovery(&ctx);
}

#[test]
fn scan_with_explicit_roots_scans_all_roots() {
    let dir_a = TempDir::new();
    let dir_b = TempDir { root: PathBuf::from("/tmp/other"), entries: RefCell::new(Vec::new()) };
    let storage_a = create_kimi_storage(&dir_a);
    let storage_b = create_kimi_storage(&dir_b);

    let lines_a = vec![
        r#"{"timestamp": 1772857971.0, "message": {"type": "TurnBegin", "payload": {"role": "human", "content": "Hello A"}}}"#,
        r#"{"timestamp": 1772857980.0, "message": {"type": "ContentPart", "payload": {"content": "Hi A"}}}"#,
    ];
    let lines_b = vec![
        r#"{"timestamp": 1772857972.0, "message": {"type": "TurnBegin", "payload": {"role": "human", "content": "Hello B"}}}"#,
        r#"{"timestamp": 1772857981.0, "message": {"type": "ContentPart", "payload": {"content": "Hi B"}}}"#,
    ];

    write_wire_file(&dir_a, &storage_a, "work-a", "sess-a", &lines_a);
    write_wire_file(&dir_a, &storage_b, "work-b", "sess-b", &lines_b);

    let ctx = with_roots(
        PathBuf::new(),
        vec![
            local(dir_a.path().to_path_buf()),
            local(dir_b.path().to_path_buf()),
        ],
        None,
    );

    let mut convs = dir_a.scan(&ctx);
    convs.sort_by(|a, b| a.external_id.cmp(&b.external_id));
    let ids: Vec<_> = convs
        .iter()
        .filter_map(|c| c.external_id.as_deref())
        .collect();
    assert_eq!(ids, vec!["sess-a", "sess-b"]);
}

#[test]
fn scan_with_explicit_root_at_kimi_dir() {
    let dir = TempDir::new();
    let storage = create_kimi_storage(&dir);

    let lines = vec![
        r#"{"type": "metadata", "protocol_version": "1.3"}"#,
        r#"{"timestamp": 1772857971.158, "message": {"type": "TurnBegin", "payload": {"role": "human", "content": "Hello Kimi"}}}"#,
    ];
    write_wire_file(&dir, &storage, "abc123", "sess-001", &lines);

    let kimi_dir = dir.path().join(".kimi");

    let ctx = with_roots(PathBuf::new(), vec![local(kimi_dir)], None);
    let convs = dir.scan(&ctx);

    assert_eq!(convs.len(), 1);
    assert_eq!(convs[0].external_id, Some("sess-001".to_string()));
}

#[test]
fn scan_extracts_tool_calls() {
    let dir = TempDir::new();
    let storage = create_kimi_storage(&dir);

    let lines = vec![
        r#"{"timestamp": 1772857971.0, "message": {"type": "TurnBegin", "payload": {"role": "human", "content": "Read main.rs"}}}"#,
        r#"{"timestamp": 1772857980.0, "message": {"type": "ToolCall", "payload": {"name": "Read", "input": {"file_path": "/src/main.rs"}}}}"#,
        r#"{"timestamp": 1772857985.0, "message": {"type": "ContentPart", "payload": {"content": "Here is the file content."}}}"#,
    ];
    write_wire_file(&dir, &storage, "abc123", "sess-002", &lines);

    let ctx = local_default(storage.clone(), None);
    let convs = dir.scan(&ctx);

    assert_eq!(convs.len(), 1);
    assert_eq!(convs[0].messages.len(), 3);
    assert_eq!(convs[0].messages[1].role, "assistant");
    assert!(convs[0].messages[1].content.contains("[Tool: Read"));
}

#[test]
fn scan_infers_session_id_from_directory() {
    let dir = TempDir::new();
    let storage = create_kimi_storage(&dir);

    let lines = vec![
        r#"{"timestamp": 1772857971.0, "message": {"type": "TurnBegin", "payload": {"role": "human", "content": "test"}}}"#,
    ];
    write_wire_file(&dir, &storage, "wshash", "my-session-uuid", &lines);

    let ctx = local_default(storage.clone(), None);
    let convs = dir.scan(&ctx);

    assert_eq!(convs.len(), 1);
    assert_eq!(convs[0].external_id, Some("my-session-uuid".to_string()));
}

#[test]
fn scan_reads_workspace_from_state_json() {
    let dir = TempDir::new();
    let storage = create_kimi_storage(&dir);

    let session_dir = storage.join("wshash").join("sess-ws");
    dir.create_dir_all(&session_dir);
    dir.write(
        session_dir.join("wire.jsonl"),
        r#"{"timestamp": 1772857971.0, "message": {"type": "TurnBegin", "payload": {"role": "human", "content": "hello"}}}"#,
    );
    dir.write(
        session_dir.join("state.json"),
        r#"{"cwd": "/home/user/myproject"}"#,
    );

    let ctx = local_default(storage.clone(), None);
    let convs = dir.scan(&ctx);

    assert_eq!(convs.len(), 1);
    assert_eq!(
        convs[0].workspace,
        Some(PathBuf::from("/home/user/myproject"))
    );
}

#[test]
fn scan_generates_title_from_first_user_message() {
    let dir = TempDir::new();
    let storage = create_kimi_storage(&dir);

    let lines = vec![
        r#"{"timestamp": 1772857971.0, "message": {"type": "TurnBegin", "payload": {"role": "human", "content": "Explain the architecture of this project"}}}"#,
        r#"{"timestamp": 1772857980.0, "message": {"type": "ContentPart", "payload": {"content": "Sure, let me explain..."}}}"#,
    ];
    write_wire_file(&dir, &storage, "wshash", "sess-title", &lines);

    let ctx = local_default(storage.clone(), None);
    let convs = dir.scan(&ctx);

    assert_eq!(convs.len(), 1);
    assert_eq!(
        convs[0].title,
        Some("Explain the architecture of this project".to_string())
    );
}

#[test]
fn scan_tracks_time_bounds() {
    let dir = TempDir::new();
    let storage = create_kimi_storage(&dir);

    let lines = vec![
        r#"{"timestamp": 1772857971.0, "message": {"type": "TurnBegin", "payload": {"role": "human", "content": "first"}}}"#,
        r#"{"timestamp": 1772858000.0, "message": {"type": "ContentPart", "payload": {"content": "second"}}}"#,
    ];
    write_wire_file(&dir, &storage, "wshash", "sess-time", &lines);

    let ctx = local_default(storage.clone(), None);
    let convs = dir.scan(&ctx);

    assert_eq!(convs.len(), 1);
    assert!(convs[0].started_at.is_some());
    assert!(convs[0].ended_at.is_some());
    assert!(convs[0].started_at.unwrap() <= convs[0].ended_at.unwrap());
}

#[test]
fn scan_role_switches_on_turn_begin() {
    let dir = TempDir::new();
    let storage = create_kimi_storage(&dir);

    let lines = vec![
        r#"{"timestamp": 1772857971.0, "message": {"type": "TurnBegin", "payload": {"role": "human", "content": "User message"}}}"#,
        r#"{"timestamp": 1772857980.0, "message": {"type": "ContentPart", "payload": {"content": "Assistant reply"}}}"#,
        r#"{"timestamp": 1772857990.0, "message": {"type": "TurnBegin", "payload": {"role": "human", "content": "Second user message"}}}"#,
    ];
    write_wire_file(&dir, &storage, "wshash", "sess-roles", &lines);

    let ctx = local_default(storage.clone(), None);
    let convs = dir.scan(&ctx);

    assert_eq!(convs[0].messages[0].role, "user");
    assert_eq!(convs[0].messages[1].role, "assistant");
    assert_eq!(convs[0].messages[2].role, "user");
}

#[test]
fn edge_empty_file_returns_no_conversations() {
    let dir = TempDir::new();
    let storage = create_kimi_storage(&dir);

    let session_dir = storage.join("ws").join("sess-empty");
    dir.create_dir_all(&session_dir);
    dir.write(session_dir.join("wire.jsonl"), b"");

    let ctx = local_default(storage.clone(), None);
    let convs = dir.scan(&ctx);

    assert!(convs.is_empty());
}

#[test]
fn edge_metadata_only_returns_no_conversations() {
    let dir = TempDir::new();
    let storage = create_kimi_storage(&dir);

    let lines = vec![r#"{"type": "metadata", "protocol_version": "1.3"}"#];
    write_wire_file(&dir, &storage, "ws", "sess-meta-only", &lines);

    let ctx = local_default(storage.clone(), None);
    let convs = dir.scan(&ctx);

    assert!(convs.is_empty());
}

#[test]
fn edge_malformed_json_lines_skipped() {
    let dir = TempDir::new();
    let storage = create_kimi_storage(&dir);

    let session_dir = storage.join("ws").join("sess-malformed");
    dir.create_dir_all(&session_dir);
    let content = [
        r#"{"timestamp": 1772857971.0, "message": {"type": "TurnBegin", "payload": {"role": "human", "content": "Valid"}}}"#,
        "\n",
        "not valid json {{{",
        "\n",
        r#"{"timestamp": 1772857980.0, "message": {"type": "ContentPart", "payload": {"content": "Also valid"}}}"#,
        "\n",
    ].concat();
    dir.write(session_dir.join("wire.jsonl"), content);

    let ctx = local_default(storage.clone(), None);
    let convs = dir.scan(&ctx);

    assert_eq!(convs.len(), 1);
    assert_eq!(convs[0].messages.len(), 2);
}

#[test]
fn edge_empty_content_skipped() {
    let dir = TempDir::new();
    let storage = create_kimi_storage(&dir);

    let lines = vec![
        r#"{"timestamp": 1772857971.0, "message": {"type": "ContentPart", "payload": {"content": ""}}}"#,
        r#"{"timestamp": 1772857975.0, "message": {"type": "ContentPart", "payload": {"content": "   "}}}"#,
        r#"{"timestamp": 1772857980.0, "message": {"type": "ContentPart", "payload": {"content": "Real content"}}}"#,
    ];
    write_wire_file(&dir, &storage, "ws", "sess-empty-content", &lines);

    let ctx = local_default(storage.clone(), None);
    let convs = dir.scan(&ctx);

    assert_eq!(convs.len(), 1);
    assert_eq!(convs[0].messages.len(), 1);
    assert_eq!(convs[0].messages[0].content, "Real content");
}

#[test]
fn edge_multiple_sessions_found() {
    let dir = TempDir::new();
    let storage = create_kimi_storage(&dir);

    let lines1 = vec![
        r#"{"timestamp": 1772857971.0, "message": {"type": "TurnBegin", "payload": {"role": "human", "content": "Session 1"}}}"#,
    ];
    let lines2 = vec![
        r#"{"timestamp": 1772858000.0, "message": {"type": "TurnBegin", "payload": {"role": "human", "content": "Session 2"}}}"#,
    ];
    write_wire_file(&dir, &storage, "ws1", "sess-a", &lines1);
    write_wire_file(&dir, &storage, "ws2", "sess-b", &lines2);

    let ctx = local_default(storage.clone(), None);
    let convs = dir.scan(&ctx);

    assert_eq!(convs.len(), 2);
}

#[test]
fn edge_step_begin_skipped() {
    let dir = TempDir::new();
    let storage = create_kimi_storage(&dir);

    let lines = vec![
        r#"{"timestamp": 1772857971.0, "message": {"type": "TurnBegin", "payload": {"role": "human", "content": "Hello"}}}"#,
        r#"{"timestamp": 1772857975.0, "message": {"type": "StepBegin", "payload": {"step": 1}}}"#,
        r#"{"timestamp": 1772857980.0, "message": {"type": "ContentPart", "payload": {"content": "Response"}}}"#,
    ];
    write_wire_file(&dir, &storage, "ws", "sess-step", &lines);

    let ctx = local_default(storage.clone(), None);
    let convs = dir.scan(&ctx);

    assert_eq!(convs.len(), 1);
    assert_eq!(convs[0].messages.len(), 2);
    assert_eq!(convs[0].messages[0].content, "Hello");
    assert_eq!(convs[0].messages[1].content, "Response");
}

fn create_kimi_code_storage(dir: &TempDir) -> PathBuf {
    let storage = dir.path().join(".kimi-code").join("sessions");
    dir.create_dir_all(&storage);
    storage
}

fn write_modern_wire_file(
    dir: &TempDir,
    storage: &Path,
    work_dir_key: &str,
    session_id: &str,
    agent_id: &str,
    lines: &[&str],
) -> PathBuf {
    let agent_dir = storage
        .join(work_dir_key)
        .join(session_id)
        .join("agents")
        .join(agent_id);
    dir.create_dir_all(&agent_dir);
    let file_path = agent_dir.join("wire.jsonl");
    dir.write(&file_path, lines.join("\n"));
    file_path
}

fn write_modern_state(dir: &TempDir, storage: &Path, work_dir_key: &str, session_id: &str, json: &str) {
    let session_dir = storage.join(work_dir_key).join(session_id);
    dir.create_dir_all(&session_dir);
    dir.write(session_dir.join("state.json"), json);
}

fn ts(rfc3339: &str) -> i64 {
    rfc3339_millis_of(rfc3339).unwrap()
}

#[test]
fn modern_main_agent_session_end_to_end() {
    let dir = TempDir::new();
    let storage = create_kimi_code_storage(&dir);

    let lines = vec![
        r#"{"type":"turn.prompt","input":[{"type":"text","text":"Fix the bug"}],"origin":"cli","time":"2026-01-01T00:00:00Z"}"#,
        r#"{"type":"context.append_message","message":{"role":"user","content":[{"type":"text","text":"Fix the bug"}],"toolCalls":[],"origin":"cli"},"time":"2026-01-01T00:00:01Z"}"#,
        r#"{"type":"context.append_loop_event","event":{"type":"step.begin"},"time":"2026-01-01T00:00:02Z"}"#,
        r#"{"type":"context.append_loop_event","event":{"type":"content.part","part":{"type":"text","text":"Looking at the bug now."}},"time":"2026-01-01T00:00:03Z"}"#,
        r#"{"type":"context.append_loop_event","event":{"type":"tool.call","toolCallId":"call_1","name":"ReadFile","args":{"path":"/src/main.rs"}},"time":"2026-01-01T00:00:04Z"}"#,
        r#"{"type":"context.append_loop_event","event":{"type":"tool.result","toolCallId":"call_1","result":{"output":"fn main() {}"}},"time":"2026-01-01T00:00:05Z"}"#,
        r#"{"type":"context.append_loop_event","event":{"type":"step.end"},"time":"2026-01-01T00:00:06Z"}"#,
        r#"{"type":"usage.record","usage":{"input":10},"time":"2026-01-01T00:00:07Z"}"#,
    ];
    let wire_path = write_modern_wire_file(&dir, &storage, "wdk-1", "sess-e2e", "main", &lines);
    write_modern_state(&dir, 
        &storage,
        "wdk-1",
        "sess-e2e",
        r#"{"title":"Bug fix session","createdAt":"2025-12-31T23:59:59Z","updatedAt":"2026-01-01T00:01:00Z","workDir":"/home/user/proj","agents":{"main":{"type":"main"}}}"#,
    );

    let ctx = local_default(storage.clone(), None);
    let convs = dir.scan(&ctx);

    assert_eq!(convs.len(), 1);
    let conv = &convs[0];
    assert_eq!(conv.agent_slug, "kimi");
    assert_eq!(conv.external_id, Some("sess-e2e".to_string()));
    assert_eq!(conv.source_path, wire_path);
    assert_eq!(conv.workspace, Some(PathBuf::from("/home/user/proj")));
    assert_eq!(conv.title, Some("Bug fix session".to_string()));
    assert_eq!(conv.metadata["sessionId"], "sess-e2e");
    assert_eq!(conv.metadata["agentId"], "main");

    assert_eq!(conv.started_at, Some(ts("2025-12-31T23:59:59Z")));
    assert_eq!(conv.ended_at, Some(ts("2026-01-01T00:01:00Z")));

    assert_eq!(conv.messages.len(), 3);
    assert_eq!(conv.messages[0].role, "user");
    assert_eq!(conv.messages[0].content, "Fix the bug");
    assert_eq!(
        conv.messages[0].created_at,
        Some(ts("2026-01-01T00:00:00Z"))
    );

    assert_eq!(conv.messages[1].role, "assistant");
    assert_eq!(conv.messages[1].content, "Looking at the bug now.");
    assert!(conv.messages[1].author.is_none());

    assert_eq!(conv.messages[2].role, "assistant");
    assert_eq!(conv.messages[2].content, "[Tool: ReadFile - /src/main.rs]");
    assert_eq!(conv.messages[2].invocations.len(), 1);
    let invocation = &conv.messages[2].invocations[0];
    assert_eq!(invocation.kind, "tool");
    assert_eq!(invocation.name, "ReadFile");
    assert_eq!(invocation.raw_name, None);
    assert_eq!(invocation.call_id, Some("call_1".to_string()));
    assert_eq!(
        invocation.arguments,
        Some(value(r#"{"path": "/src/main.rs"}"#))
    );

    assert_eq!(
        conv.messages[2]
            .extra
            .pointer("/cass/tool_result/content")
            .and_then(Value::as_str),
        Some("fn main() {}")
    );
    assert_eq!(
        conv.messages[2]
            .extra
            .pointer("/cass/tool_result/is_error")
            .and_then(Value::as_bool),
        Some(false)
    );
}

#[test]
fn modern_two_main_agent_sessions_have_distinct_external_ids() {
    let dir = TempDir::new();
    let storage = create_kimi_code_storage(&dir);

    let lines_a = vec![
        r#"{"type":"turn.prompt","input":[{"type":"text","text":"Session one"}],"time":"2026-01-01T00:00:00Z"}"#,
    ];
    let lines_b = vec![
        r#"{"type":"turn.prompt","input":[{"type":"text","text":"Session two"}],"time":"2026-01-02T00:00:00Z"}"#,
    ];
    write_modern_wire_file(&dir, &storage, "wdk-1", "sess-one", "main", &lines_a);
    write_modern_wire_file(&dir, &storage, "wdk-2", "sess-two", "main", &lines_b);

    let ctx = local_default(storage.clone(), None);
    let mut convs = dir.scan(&ctx);
    convs.sort_by(|a, b| a.external_id.cmp(&b.external_id));

    let ids: Vec<_> = convs
        .iter()
        .filter_map(|c| c.external_id.as_deref())
        .collect();
    assert_eq!(ids, vec!["sess-one", "sess-two"]);
}

#[test]
fn modern_subagent_external_id_includes_agent_id() {
    let dir = TempDir::new();
    let storage = create_kimi_code_storage(&dir);

    let lines = vec![
        r#"{"type":"turn.prompt","input":[{"type":"text","text":"Research the codebase"}],"time":"2026-01-01T00:00:00Z"}"#,
    ];
    write_modern_wire_file(&dir, &storage, "wdk-1", "sess-sub", "researcher-1", &lines);

    let ctx = local_default(storage.clone(), None);
    let convs = dir.scan(&ctx);

    assert_eq!(convs.len(), 1);
    assert_eq!(
        convs[0].external_id,
        Some("sess-sub:researcher-1".to_string())
    );
    assert_eq!(convs[0].metadata["agentId"], "researcher-1");
}

#[test]
fn modern_usage_record_attaches_token_usage_to_latest_assistant() {
    let dir = TempDir::new();
    let storage = create_kimi_code_storage(&dir);

    let lines = vec![
        r#"{"type":"turn.prompt","input":[{"type":"text","text":"Fix the bug"}],"time":"2026-01-01T00:00:00Z"}"#,
        r#"{"type":"context.append_message","message":{"role":"user","content":[{"type":"text","text":"Fix the bug"}],"toolCalls":[],"origin":"cli"},"time":"2026-01-01T00:00:01Z"}"#,
        r#"{"type":"context.append_loop_event","event":{"type":"content.part","part":{"type":"text","text":"Looking now."}},"time":"2026-01-01T00:00:03Z"}"#,
        r#"{"type":"usage.record","usage":{"input_tokens":100,"output_tokens":30},"time":"2026-01-01T00:00:04Z"}"#,
        r#"{"type":"context.append_loop_event","event":{"type":"step.begin"},"time":"2026-01-01T00:00:05Z"}"#,
    ];
    write_modern_wire_file(&dir, &storage, "wdk-u", "sess-tok", "main", &lines);
    write_modern_state(&dir, 
        &storage,
        "wdk-u",
        "sess-tok",
        r#"{"title":"Token session","createdAt":"2025-12-31T23:59:59Z","updatedAt":"2026-01-01T00:01:00Z","workDir":"/home/user/proj","agents":{"main":{"type":"main"}}}"#,
    );

    let ctx = local_default(storage, None);
    let convs = dir.scan(&ctx);

    assert_eq!(convs.len(), 1);
    let usage = convs[0].messages[1]
        .extra
        .pointer("/cass/token_usage")
        .expect("token usage attached to latest assistant turn");
    assert_eq!(usage["input_tokens"], 100);
    assert_eq!(usage["output_tokens"], 30);
    assert_eq!(usage["data_source"], "api");
}

#[test]
fn modern_think_part_maps_to_reasoning_author() {
    let dir = TempDir::new();
    let storage = create_kimi_code_storage(&dir);

    let lines = vec![
        r#"{"type":"turn.prompt","input":[{"type":"text","text":"Why is it slow?"}],"time":"2026-01-01T00:00:00Z"}"#,
        r#"{"type":"context.append_loop_event","event":{"type":"content.part","part":{"type":"think","text":"The user probably means the parser."}},"time":"2026-01-01T00:00:01Z"}"#,
        r#"{"type":"context.append_loop_event","event":{"type":"content.part","part":{"type":"text","text":"It is slow because of the parser."}},"time":"2026-01-01T00:00:02Z"}"#,
    ];
    write_modern_wire_file(&dir, &storage, "wdk-1", "sess-think", "main", &lines);

    let ctx = local_default(storage.clone(), None);
    let convs = dir.scan(&ctx);

    assert_eq!(convs.len(), 1);
    assert_eq!(convs[0].messages.len(), 3);
    assert_eq!(convs[0].messages[1].role, "assistant");
    assert_eq!(convs[0].messages[1].author, Some("reasoning".to_string()));
    assert_eq!(
        convs[0].messages[1].content,
        "The user probably means the parser."
    );
    assert_eq!(convs[0].messages[2].role, "assistant");
    assert!(convs[0].messages[2].author.is_none());
}

#[test]
fn modern_missing_state_json_still_parses() {
    let dir = TempDir::new();
    let storage = create_kimi_code_storage(&dir);

    let lines = vec![
        r#"{"type":"turn.prompt","input":[{"type":"text","text":"Hello modern Kimi"}],"time":"2026-01-01T00:00:00Z"}"#,
        r#"{"type":"context.append_loop_event","event":{"type":"content.part","part":{"type":"text","text":"Hi!"}},"time":"2026-01-01T00:00:05Z"}"#,
    ];
    write_modern_wire_file(&dir, &storage, "wdk-1", "sess-nostate", "main", &lines);

    let ctx = local_default(storage.clone(), None);
    let convs = dir.scan(&ctx);

    assert_eq!(convs.len(), 1);
    let conv = &convs[0];
    assert_eq!(conv.external_id, Some("sess-nostate".to_string()));
    assert_eq!(conv.workspace, None);
    assert_eq!(conv.title, Some("Hello modern Kimi".to_string()));
    assert_eq!(conv.started_at, Some(ts("2026-01-01T00:00:00Z")));
    assert_eq!(conv.ended_at, Some(ts("2026-01-01T00:00:05Z")));
}

#[test]
fn modern_malformed_middle_line_and_truncated_tail_skipped() {
    let dir = TempDir::new();
    let storage = create_kimi_code_storage(&dir);

    let session_dir = storage.join("wdk-1").join("sess-broken");
    let agent_dir = session_dir.join("agents").join("main");
    dir.create_dir_all(&agent_dir);
    let content = [
        r#"{"type":"turn.prompt","input":[{"type":"text","text":"Survives"}],"time":"2026-01-01T00:00:00Z"}"#,
        "\n",
        "not valid json {{{",
        "\n",
        r#"{"type":"context.append_loop_event","event":{"type":"content.part","part":{"type":"text","text":"Also survives"}},"time":"2026-01-01T00:00:01Z"}"#,
        "\n",
        r#"{"type":"context.append_loop_event","event":{"type":"content.part","part":{"type":"text","te"#,
    ].concat();
    dir.write(agent_dir.join("wire.jsonl"), content);

    let ctx = local_default(storage.clone(), None);
    let convs = dir.scan(&ctx);

    assert_eq!(convs.len(), 1);
    assert_eq!(convs[0].messages.len(), 2);
    assert_eq!(convs[0].messages[0].content, "Survives");
    assert_eq!(convs[0].messages[1].content, "Also survives");
}

#[test]
fn modern_scan_with_explicit_root_at_kimi_code_dir() {
    let dir = TempDir::new();
    let storage = create_kimi_code_storage(&dir);

    let lines = vec![
        r#"{"type":"turn.prompt","input":[{"type":"text","text":"From home dir root"}],"time":"2026-01-01T00:00:00Z"}"#,
    ];
    write_modern_wire_file(&dir, &storage, "wdk-1", "sess-root-home", "main", &lines);

    let kimi_code_dir = dir.path().join(".kimi-code");

    let ctx =
        with_roots(PathBuf::new(), vec![local(kimi_code_dir)], None);
    let convs = dir.scan(&ctx);

    assert_eq!(convs.len(), 1);
    assert_eq!(convs[0].external_id, Some("sess-root-home".to_string()));
}

#[test]
fn modern_scan_with_explicit_root_at_sessions_dir() {
    let dir = TempDir::new();
    let storage = create_kimi_code_storage(&dir);

    let lines = vec![
        r#"{"type":"turn.prompt","input":[{"type":"text","text":"From sessions root"}],"time":"2026-01-01T00:00:00Z"}"#,
    ];
    write_modern_wire_file(&dir, &storage, "wdk-1", "sess-root-sessions", "main", &lines);

    let ctx =
        with_roots(PathBuf::new(), vec![local(storage.clone())], None);
    let convs = dir.scan(&ctx);

    assert_eq!(convs.len(), 1);
    assert_eq!(convs[0].external_id, Some("sess-root-sessions".to_string()));
}

#[test]
fn modern_scan_with_explicit_root_at_session_dir() {
    let dir = TempDir::new();
    let storage = create_kimi_code_storage(&dir);

    let lines = vec![
        r#"{"type":"turn.prompt","input":[{"type":"text","text":"From session dir"}],"time":"2026-01-01T00:00:00Z"}"#,
    ];
    write_modern_wire_file(&dir, &storage, "wdk-1", "sess-root-session", "main", &lines);

    let session_dir = storage.join("wdk-1").join("sess-root-session");

    let ctx = with_roots(PathBuf::new(), vec![local(session_dir)], None);
    let convs = dir.scan(&ctx);

    assert_eq!(convs.len(), 1);
    assert_eq!(convs[0].external_id, Some("sess-root-session".to_string()));
}

#[test]
fn modern_scan_with_explicit_root_at_wire_file() {
    let dir = TempDir::new();
    let storage = create_kimi_code_storage(&dir);

    let lines = vec![
        r#"{"type":"turn.prompt","input":[{"type":"text","text":"From wire file"}],"time":"2026-01-01T00:00:00Z"}"#,
    ];
    let wire_path = write_modern_wire_file(&dir, &storage, "wdk-1", "sess-root-wire", "main", &lines);

    let ctx = with_roots(
        PathBuf::new(),
        vec![local(wire_path.clone())],
        None,
    );
    let convs = dir.scan(&ctx);

    assert_eq!(convs.len(), 1);
    assert_eq!(convs[0].external_id, Some("sess-root-wire".to_string()));
    assert_eq!(convs[0].source_path, wire_path);
}

#[test]
fn modern_prompt_without_echo_flushes_as_user_message() {
    let dir = TempDir::new();
    let storage = create_kimi_code_storage(&dir);

    let lines = vec![
        r#"{"type":"turn.prompt","input":[{"type":"text","text":"Original prompt"}],"time":"2026-01-01T00:00:00Z"}"#,
        r#"{"type":"context.append_message","message":{"role":"user","content":[{"type":"text","text":"Different text"}]},"time":"2026-01-01T00:00:01Z"}"#,
    ];
    write_modern_wire_file(&dir, &storage, "wdk-1", "sess-noecho", "main", &lines);

    let ctx = local_default(storage.clone(), None);
    let convs = dir.scan(&ctx);

    assert_eq!(convs.len(), 1);
    assert_eq!(convs[0].messages.len(), 2);
    assert_eq!(convs[0].messages[0].role, "user");
    assert_eq!(convs[0].messages[0].content, "Original prompt");
    assert_eq!(convs[0].messages[1].role, "user");
    assert_eq!(convs[0].messages[1].content, "Different text");
}

#[test]
fn modern_discovery_covers_scan_sources_and_lists_state_sidecar_once() {
    let dir = TempDir::new();
    let storage = create_kimi_code_storage(&dir);

    let main_lines = vec![
        r#"{"type":"turn.prompt","input":[{"type":"text","text":"Main agent"}],"time":"2026-01-01T00:00:00Z"}"#,
    ];
    let sub_lines = vec![
        r#"{"type":"turn.prompt","input":[{"type":"text","text":"Sub agent"}],"time":"2026-01-01T00:00:01Z"}"#,
    ];
    write_modern_wire_file(&dir, &storage, "wdk-1", "sess-disc", "main", &main_lines);
    write_modern_wire_file(&dir, &storage, "wdk-1", "sess-disc", "sub-1", &sub_lines);
    write_modern_state(&dir, 
        &storage,
        "wdk-1",
        "sess-disc",
        r#"{"title":"Discovery","workDir":"/w","createdAt":"2026-01-01T00:00:00Z","updatedAt":"2026-01-01T00:00:02Z"}"#,
    );

    let ctx = local_default(storage.clone(), None);
    dir.check_discovery(&ctx);

    let sources = dir.sources(&ctx);
    let sidecars: Vec<_> = sources
        .iter()
        .filter(|s| matches!(s.role, SourceRole::MetadataSidecar))
        .collect();
    assert_eq!(sidecars.len(), 1);
    assert_eq!(
        sidecars[0].source_path.text(),
        path(storage.join("wdk-1").join("sess-disc").join("state.json")).text()
    );
    assert!(!sidecars[0].required_for_reconstruction);
}

#[test]
fn kimi_session_roots_from_env_override_replaces_defaults() {
    let roots = roots_from(
        Some(PathBuf::from("/custom/kimi-home")),
        Some(Path::new("/home/u")),
    );
    assert_eq!(roots, vec![PathBuf::from("/custom/kimi-home/sessions")]);
}

#[test]
fn kimi_session_roots_from_defaults_without_override() {
    let roots = roots_from(None, Some(Path::new("/home/u")));
    assert_eq!(
        roots,
        vec![
            PathBuf::from("/home/u/.kimi-code/sessions"),
            PathBuf::from("/home/u/.kimi/sessions"),
        ]
    );
}

#[test]
fn kimi_session_roots_from_override_without_home() {
    let roots =
        roots_from(Some(PathBuf::from("/custom/kimi-home")), None);
    assert_eq!(roots, vec![PathBuf::from("/custom/kimi-home/sessions")]);
}

#[test]
fn kimi_session_roots_from_empty_without_override_or_home() {
    assert!(roots_from(None, None).is_empty());
}

#[test]
fn modern_prompt_echo_dedup_survives_bookkeeping_whitespace_and_human_role() {
    let tmp = TempDir::new();
    let storage = create_kimi_code_storage(&tmp);
    write_modern_wire_file(&tmp, 
        &storage,
        "wd",
        "sess-dedup-hard",
        "main",
        &[
            r#"{"type":"turn.prompt","input":[{"type":"text","text":"Fix the bug\n"}],"time":"2026-01-01T00:00:00Z"}"#,
            r#"{"type":"context.append_loop_event","event":{"type":"step.begin"},"time":"2026-01-01T00:00:00Z"}"#,
            r#"{"type":"llm.request","time":"2026-01-01T00:00:00Z"}"#,
            r#"{"type":"context.append_message","message":{"role":"human","content":[{"type":"text","text":"Fix the bug"}]},"time":"2026-01-01T00:00:01Z"}"#,
            r#"{"type":"context.append_loop_event","event":{"type":"content.part","part":{"type":"text","text":"On it."}},"time":"2026-01-01T00:00:02Z"}"#,
        ],
    );

    let ctx =
        with_roots(PathBuf::new(), vec![local(storage.clone())], None);
    let convs = tmp.scan(&ctx);
    assert_eq!(convs.len(), 1);
    let user_count = convs[0]
        .messages
        .iter()
        .filter(|m| m.role == "user" || m.role == "human")
        .count();
    assert_eq!(
        user_count,
        1,
        "prompt + delayed whitespace-variant human echo must collapse to one message: {:?}",
        convs[0]
            .messages
            .iter()
            .map(|m| (&m.role, &m.content))
            .collect::<Vec<_>>()
    );
}

#[test]
fn modern_out_of_order_and_duplicate_tool_results_are_not_dropped() {
    let tmp = TempDir::new();
    let storage = create_kimi_code_storage(&tmp);
    write_modern_wire_file(&tmp, 
        &storage,
        "wd",
        "sess-tool-order",
        "main",
        &[
            r#"{"type":"context.append_loop_event","event":{"type":"tool.result","toolCallId":"call_1","result":{"output":"EARLY RESULT"}},"time":"2026-01-01T00:00:00Z"}"#,
            r#"{"type":"context.append_loop_event","event":{"type":"tool.call","toolCallId":"call_1","name":"ReadFile","args":{"path":"a.rs"}},"time":"2026-01-01T00:00:01Z"}"#,
            r#"{"type":"context.append_loop_event","event":{"type":"tool.result","toolCallId":"call_1","result":{"output":"FIRST ATTACHED"}},"time":"2026-01-01T00:00:02Z"}"#,
            r#"{"type":"context.append_loop_event","event":{"type":"tool.result","toolCallId":"call_1","result":{"output":"SECOND RESULT"}},"time":"2026-01-01T00:00:03Z"}"#,
        ],
    );

    let ctx =
        with_roots(PathBuf::new(), vec![local(storage.clone())], None);
    let convs = tmp.scan(&ctx);
    assert_eq!(convs.len(), 1);
    let messages = &convs[0].messages;

    let standalone: Vec<_> = messages
        .iter()
        .filter(|m| m.role == "tool")
        .map(|m| m.content.as_str())
        .collect();
    assert!(
        standalone.iter().any(|c| c.contains("EARLY RESULT")),
        "early result must not vanish: {standalone:?}"
    );
    assert!(
        standalone.iter().any(|c| c.contains("SECOND RESULT")),
        "duplicate result must not clobber or vanish: {standalone:?}"
    );

    let call = messages
        .iter()
        .find(|m| !m.invocations.is_empty())
        .expect("tool.call message");
    assert_eq!(
        call.extra
            .pointer("/cass/tool_result/content")
            .and_then(serde_json::Value::as_str),
        Some("FIRST ATTACHED"),
        "first attached result must win"
    );
}

#[test]
fn symlinked_legacy_home_does_not_double_index() {
    let tmp = TempDir::new();
    let storage = create_kimi_code_storage(&tmp);
    write_modern_wire_file(&tmp, 
        &storage,
        "wd",
        "sess-symlink",
        "main",
        &[
            r#"{"type":"turn.prompt","input":[{"type":"text","text":"hello"}],"time":"2026-01-01T00:00:00Z"}"#,
        ],
    );
    tmp.link(".kimi-code", ".kimi");

    let ctx = with_roots(
        PathBuf::new(),
        vec![local(tmp.path().to_path_buf())],
        None,
    );
    let convs = tmp.scan(&ctx);
    assert_eq!(
        convs.len(),
        1,
        "symlinked homes must not duplicate sessions: {:?}",
        convs
            .iter()
            .map(|c| (&c.external_id, &c.source_path))
            .collect::<Vec<_>>()
    );
}

#[test]
fn looks_like_kimi_storage_matches_segment_windows_not_substrings() {
    assert!(KimiConnector::looks_like_kimi_storage(&path(
        "/home/u/.kimi/sessions/ws/sess"
    )));
    assert!(KimiConnector::looks_like_kimi_storage(&path(
        "/home/u/.kimi-code/sessions"
    )));
    assert!(KimiConnector::looks_like_kimi_storage(&path(
        "/home/u/.kimi-code"
    )));
    assert!(KimiConnector::looks_like_kimi_storage(&path(
        "/home/u/.kimi"
    )));
    assert!(!KimiConnector::looks_like_kimi_storage(&path(
        "/home/u/.kimiarchive/sessions"
    )));
    assert!(!KimiConnector::looks_like_kimi_storage(&path(
        "/home/sessions-user/backup"
    )));
}

#[test]
fn kimi_lines_that_say_nothing_change_nothing() {
    let said = [
        r#"{"type":"turn.prompt","input":"hello","time":"2026-01-01T00:00:00Z"}"#,
        r#"{"type":"context.append_message","message":{"role":"user","content":"hello"},"time":"2026-01-01T00:00:01Z"}"#,
        r#"{"type":"context.append_loop_event","event":{"type":"content.part","part":{"type":"text","text":"hi"}}}"#,
    ];
    let read = |lines: &[&str]| {
        let dir = TempDir::new();
        let storage = create_kimi_code_storage(&dir);
        write_modern_wire_file(&dir, &storage, "w", "s", "main", lines);
        let convs = dir.scan(&local_default(storage, None));
        assert_eq!(convs.len(), 1);
        let messages: Vec<String> = convs[0].messages.iter().map(|m| format!("{} {}", m.role, m.content)).collect();
        (messages, convs[0].title.clone(), convs[0].started_at, convs[0].ended_at)
    };
    let plain = read(&said);
    assert_eq!(plain.0, ["user hello", "assistant hi"]);
    assert_eq!(read(&["", said[0], "no document", said[1], "   ", said[2], r#"{"type":"turn.pro"#]), plain);
}

#[test]
fn kimi_documents_are_rendered_with_keys_in_order() {
    let dir = TempDir::new();
    let storage = create_kimi_code_storage(&dir);
    let lines = vec![
        r#"{"type":"context.append_loop_event","event":{"type":"content.part","part":{"text":"Done"}}}"#,
        r#"{"type":"usage.record","usage":{"output_tokens":3,"input_tokens":2}}"#,
        r#"{"type":"context.append_loop_event","event":{"type":"tool.call","toolCallId":"c","args":{"z":1,"a":2}}}"#,
        r#"{"type":"context.append_loop_event","event":{"type":"tool.result","toolCallId":"c","result":"ok"}}"#,
    ];
    write_modern_wire_file(&dir, &storage, "wdk-1", "s1", "main", &lines);
    let found = KimiConnector::new().scan(&local_default(storage, None), &nowhere(), &dir.table());
    assert_eq!(found[0].metadata.render(), r#"{"agentId":"main","sessionId":"s1","source":"kimi"}"#);
    assert_eq!(
        found[0].messages[0].extra.render(),
        "{\"cass\":{\"token_usage\":{\"data_source\":\"api\",\"input_tokens\":2,\"output_tokens\":3}},\
         \"event\":{\"part\":{\"text\":\"Done\"},\"type\":\"content.part\"},\
         \"type\":\"context.append_loop_event\"}"
    );
    assert_eq!(
        found[0].messages[1].extra.render(),
        "{\"cass\":{\"tool_result\":{\"content\":\"ok\",\"is_error\":false}},\
         \"event\":{\"args\":{\"a\":2,\"z\":1},\"toolCallId\":\"c\",\"type\":\"tool.call\"},\
         \"type\":\"context.append_loop_event\"}"
    );
    let call = &found[0].messages[1].invocations[0];
    assert_eq!(call.arguments.as_ref().unwrap().render(), r#"{"a":2,"z":1}"#);
}
