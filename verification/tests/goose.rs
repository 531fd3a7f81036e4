use agent_sessions::files::{FileEntry, FileKind, FileTable};
use agent_sessions::goose::{looks_like_goose_sessions, GooseConnector, GooseDatabase};
use agent_sessions::goose_store::{
    extract_from_sqlite, normalize_goose_timestamp, normalize_goose_ts_value, parse_goose_content_json,
    parse_goose_jsonl, GooseMessageRow, GooseRows, GooseSession,
};
use agent_sessions::model::Conversation;
use agent_sessions::path::SourcePath;
use agent_sessions::scan::{ScanContext, ScanRoot, SourceRole, Surroundings};
use agent_sessions::stamp::SqlValue;
use serde_json::Value;
use std::cell::RefCell;
use std::path::{Path, PathBuf};

/// A conversation with its documents as values.
struct Conv {
    agent_slug: String,
    external_id: Option<String>,
    title: Option<String>,
    workspace: Option<PathBuf>,
    source_path: PathBuf,
    started_at: Option<i64>,
    ended_at: Option<i64>,
    metadata: Value,
    messages: Vec<Msg>,
}

struct Msg {
    idx: i64,
    role: String,
    author: Option<String>,
    created_at: Option<i64>,
    content: String,
    extra: Value,
    invocations: Vec<Call>,
}

struct Call {
    kind: String,
    name: String,
    raw_name: Option<String>,
    call_id: Option<String>,
    arguments: Option<Value>,
}

fn value(text: &str) -> Value {
    serde_json::from_str(text).unwrap()
}

fn path(p: impl AsRef<Path>) -> SourcePath {
    SourcePath::new(p.as_ref().to_str().unwrap())
}

fn conv(c: &Conversation) -> Conv {
    Conv {
        agent_slug: c.agent_slug.clone(),
        external_id: c.external_id.clone(),
        title: c.title.clone(),
        workspace: c.workspace.as_ref().map(PathBuf::from),
        source_path: PathBuf::from(c.source_path.text()),
        started_at: c.started_at,
        ended_at: c.ended_at,
        metadata: value(&c.metadata.render()),
        messages: c
            .messages
            .iter()
            .map(|m| Msg {
                idx: m.idx,
                role: m.role.clone(),
                author: m.author.clone(),
                created_at: m.created_at,
                content: m.content.clone(),
                extra: value(&m.extra.render()),
                invocations: m
                    .invocations
                    .iter()
                    .map(|i| Call {
                        kind: i.kind.clone(),
                        name: i.name.clone(),
                        raw_name: i.raw_name.clone(),
                        call_id: i.call_id.clone(),
                        arguments: i.arguments.as_ref().map(|a| value(&a.render())),
                    })
                    .collect(),
            })
            .collect(),
    }
}

fn nowhere() -> Surroundings {
    Surroundings { home: None, data: None, local_data: None, config: None, variables: Vec::new() }
}

fn local(p: impl AsRef<Path>) -> ScanRoot {
    ScanRoot::local(path(p))
}

fn with_roots(data_dir: impl AsRef<Path>, roots: Vec<ScanRoot>, since: Option<i64>) -> ScanContext {
    ScanContext::with_roots(path(data_dir), roots, since)
}

#[allow(dead_code)]
fn local_default(data_dir: impl AsRef<Path>, since: Option<i64>) -> ScanContext {
    ScanContext::local_default(path(data_dir), since)
}

/// A directory in memory.
struct TempDir {
    root: PathBuf,
    entries: RefCell<Vec<FileEntry>>,
}

impl TempDir {
    fn new() -> TempDir {
        TempDir { root: PathBuf::from("/tmp/home"), entries: RefCell::new(Vec::new()) }
    }

    fn path(&self) -> &Path {
        &self.root
    }

    fn put(&self, p: &Path, kind: FileKind, content: Option<&[u8]>) {
        let at = path(p).text();
        let known = self.entries.borrow().iter().position(|e| e.path.text() == at);
        if let Some(i) = known {
            if content.is_some() {
                self.entries.borrow_mut()[i].content = content.map(|c| c.to_vec());
            }
            return;
        }
        if let Some(parent) = p.parent() {
            if parent != Path::new("") {
                self.put(parent, FileKind::Directory, None);
            }
        }
        let content = content.map(|c| c.to_vec());
        self.entries.borrow_mut().push(FileEntry { path: path(p), kind, canonical: path(p), fresh: true, content });
    }

    fn create_dir_all(&self, p: impl AsRef<Path>) {
        self.put(p.as_ref(), FileKind::Directory, None);
    }

    fn write(&self, p: impl AsRef<Path>, content: impl AsRef<[u8]>) {
        self.put(p.as_ref(), FileKind::File, Some(content.as_ref()));
    }

    fn table(&self) -> FileTable {
        let entries = self
            .entries
            .borrow()
            .iter()
            .map(|e| FileEntry {
                path: e.path.copy(),
                kind: e.kind,
                canonical: e.canonical.copy(),
                fresh: e.fresh,
                content: e.content.clone(),
            })
            .collect();
        FileTable { entries }
    }

    fn scan(&self, ctx: &ScanContext, databases: Vec<GooseDatabase>) -> Vec<Conv> {
        GooseConnector::new().scan(ctx, &nowhere(), &self.table(), &databases).iter().map(conv).collect()
    }
}

#[test]
fn goose_new_creates_connector() {
    let connector = GooseConnector::new();
    let _ = connector;
}

#[test]
fn goose_default_creates_connector() {
    let connector = GooseConnector;
    let _ = connector;
    let _ = GooseConnector::default();
}

fn looks_like(dir: &TempDir) -> bool {
    looks_like_goose_sessions(&dir.table(), &path(dir.path()))
}

#[test]
fn looks_like_goose_sessions_with_db() {
    let dir = TempDir::new();
    dir.create_dir_all(dir.path());
    assert!(!looks_like(&dir));

    dir.write(dir.path().join("sessions.db"), b"sqlite");
    assert!(looks_like(&dir));
}

#[test]
fn looks_like_goose_sessions_with_jsonl() {
    let dir = TempDir::new();
    dir.create_dir_all(dir.path());
    assert!(!looks_like(&dir));

    dir.write(dir.path().join("session1.jsonl"), b"{}");
    assert!(looks_like(&dir));
}

#[test]
fn looks_like_goose_sessions_empty_dir() {
    let dir = TempDir::new();
    dir.create_dir_all(dir.path());
    assert!(!looks_like(&dir));
}

#[test]
fn scan_with_goose_root_scan_root() {
    let dir = TempDir::new();
    let goose_root = dir.path().join(".goose");
    dir.write(
        goose_root.join("sessions/session1.jsonl"),
        r#"{"role":"user","content":"hi","created_at":1700000000}"#,
    );
    let ctx = with_roots("", vec![local(goose_root)], None);
    let convs = dir.scan(&ctx, Vec::new());
    assert_eq!(convs.len(), 1);
    assert_eq!(convs[0].external_id.as_deref(), Some("session1"));
}

fn session(id: &str, description: &str, created: i64, updated: i64) -> GooseSession {
    GooseSession {
        id: id.to_string(),
        description: Some(description.to_string()),
        working_dir: None,
        created_at: SqlValue::Integer(created),
        updated_at: SqlValue::Integer(updated),
        provider_name: None,
        model_config_json: None,
        session_type: None,
    }
}

fn row(id: &str, role: &str, content: &str, created: i64) -> GooseMessageRow {
    GooseMessageRow {
        message_id: Some(id.to_string()),
        role: Some(role.to_string()),
        content_json: Some(content.to_string()),
        created_timestamp: SqlValue::Integer(created),
        tokens: None,
        metadata_json: None,
    }
}

fn extract(rows: Vec<GooseRows>, since: Option<i64>) -> Vec<Conv> {
    match extract_from_sqlite(&path("/db/sessions.db"), &rows, since) {
        Ok(found) => found.iter().map(conv).collect(),
        Err(_) => panic!("the database cannot be read"),
    }
}

#[test]
fn scan_with_explicit_local_share_root_finds_sqlite_db() {
    let dir = TempDir::new();
    let local_share = dir.path().join(".local/share");
    let db_path = local_share.join("goose/sessions/sessions.db");
    dir.write(&db_path, "");
    let mut shared = session("sess-share", "Share session", 1_700_000_000, 1_700_000_100);
    shared.working_dir = Some("/home/user/share".to_string());
    shared.provider_name = Some("openai".to_string());
    let mut message =
        row("msg-share", "assistant", r#"[{"type": "text", "text": "Hello from share!"}]"#, 1_700_000_050);
    message.tokens = Some(7);
    message.metadata_json = Some(r#"{"model": "gpt-4o"}"#.to_string());
    let database = GooseDatabase {
        path: path(&db_path),
        sessions: Some(vec![GooseRows { session: shared, messages: Some(vec![message]) }]),
    };
    let ctx = with_roots("", vec![local(local_share)], None);
    let convs = dir.scan(&ctx, vec![database]);
    assert_eq!(convs.len(), 1);
    assert_eq!(convs[0].external_id.as_deref(), Some("sess-share"));
}

#[test]
fn parse_content_json_text_block() {
    let json = r#"[{"type": "text", "text": "Hello, world!"}]"#;
    let (text, invocations) = parse_goose_content_json(json);
    assert_eq!(text, "Hello, world!");
    assert!(invocations.is_empty());
}

#[test]
fn parse_content_json_tool_request() {
    let json = r#"[
        {"type": "text", "text": "Let me read that file."},
        {
            "type": "toolRequest",
            "id": "call_123",
            "toolCall": {
                "value": {
                    "name": "read_file",
                    "arguments": {"path": "/tmp/test.txt"}
                }
            }
        }
    ]"#;
    let (text, invocations) = parse_goose_content_json(json);
    assert_eq!(text, "Let me read that file.");
    assert_eq!(invocations.len(), 1);
    assert_eq!(invocations[0].name, "read_file");
    assert_eq!(invocations[0].kind, "tool");
    assert_eq!(invocations[0].call_id.as_deref(), Some("call_123"));
    assert_eq!(invocations[0].arguments.as_ref().unwrap().render(), r#"{"path":"/tmp/test.txt"}"#);
}

#[test]
fn parse_content_json_multiple_tool_requests() {
    let json = r#"[
        {"type": "toolRequest", "toolCall": {"value": {"name": "bash", "arguments": {"cmd": "ls"}}}},
        {"type": "text", "text": "Done."},
        {"type": "toolRequest", "toolCall": {"value": {"name": "write_file", "arguments": {"path": "a.txt"}}}}
    ]"#;
    let (text, invocations) = parse_goose_content_json(json);
    assert_eq!(text, "Done.");
    assert_eq!(invocations.len(), 2);
    assert_eq!(invocations[0].name, "bash");
    assert_eq!(invocations[1].name, "write_file");
}

#[test]
fn parse_content_json_bare_string() {
    let (text, invocations) = parse_goose_content_json(r#""just a string""#);
    assert_eq!(text, "just a string");
    assert!(invocations.is_empty());
}

#[test]
fn parse_content_json_empty() {
    let (text, invocations) = parse_goose_content_json("[]");
    assert_eq!(text, "");
    assert!(invocations.is_empty());
}

#[test]
fn parse_content_json_invalid() {
    let (text, invocations) = parse_goose_content_json("not json");
    assert_eq!(text, "");
    assert!(invocations.is_empty());
}

#[test]
fn parse_content_json_tool_result_string() {
    let (text, _invocations) =
        parse_goose_content_json(r#"[{"type": "toolResult", "result": "file contents here"}]"#);
    assert!(text.contains("file contents here"));
}

#[test]
fn parse_content_json_tool_result_array() {
    let (text, _invocations) = parse_goose_content_json(
        r#"[{"type": "toolResult", "result": [{"type": "text", "text": "output line 1"}]}]"#,
    );
    assert!(text.contains("output line 1"));
}

#[test]
fn parse_content_json_toolcall_without_value_wrapper() {
    let (_text, invocations) = parse_goose_content_json(
        r#"[{"type": "toolRequest", "toolCall": {"name": "shell", "arguments": {"command": "pwd"}}}]"#,
    );
    assert_eq!(invocations.len(), 1);
    assert_eq!(invocations[0].name, "shell");
}

#[test]
fn normalize_epoch_seconds() {
    assert_eq!(normalize_goose_timestamp(Some(1_700_000_000)), Some(1_700_000_000_000));
}

#[test]
fn normalize_epoch_millis_passthrough() {
    assert_eq!(normalize_goose_timestamp(Some(1_700_000_000_000)), Some(1_700_000_000_000));
}

#[test]
fn normalize_sqlite_ts_integer() {
    let val = SqlValue::Integer(1_700_000_000);
    assert_eq!(normalize_goose_ts_value(&val), Some(1_700_000_000_000));
}

#[test]
fn normalize_sqlite_ts_text_iso() {
    let val = SqlValue::Text("2024-01-15T14:30:00Z".to_string());
    assert_eq!(normalize_goose_ts_value(&val), Some(1_705_329_000_000));
}

#[test]
fn normalize_sqlite_ts_text_space() {
    let val = SqlValue::Text("2024-01-15 14:30:00".to_string());
    assert_eq!(normalize_goose_ts_value(&val), Some(1_705_329_000_000));
}

#[test]
fn normalize_sqlite_ts_real() {
    let val = SqlValue::Float(1_700_000_000.5_f64.to_bits());
    let result = normalize_goose_ts_value(&val);
    assert!(result.is_some());
    assert_eq!(result.unwrap(), 1_700_000_000_500);
}

#[test]
fn normalize_sqlite_ts_null() {
    assert_eq!(normalize_goose_ts_value(&SqlValue::Null), None);
    assert_eq!(normalize_goose_ts_value(&SqlValue::Blob), None);
}

fn parse_log(content: &str, name: &str) -> Conv {
    let dir = TempDir::new();
    let file = dir.path().join("test-session.jsonl");
    dir.write(&file, content);
    match parse_goose_jsonl(&dir.table(), &path(&file), name) {
        Ok(c) => conv(&c),
        Err(_) => panic!("the log cannot be read"),
    }
}

#[test]
fn parse_jsonl_basic() {
    let lines = [
        r#"{"role": "user", "content": "Hello", "id": "msg1", "created_at": 1700000000}"#,
        r#"{"role": "assistant", "content": "Hi there!", "id": "msg2", "created_at": 1700000001}"#,
    ];
    let conv = parse_log(&lines.join("\n"), "test-session");
    assert_eq!(conv.agent_slug, "goose");
    assert_eq!(conv.external_id.as_deref(), Some("test-session"));
    assert_eq!(conv.messages.len(), 2);
    assert_eq!(conv.messages[0].role, "user");
    assert_eq!(conv.messages[0].content, "Hello");
    assert_eq!(conv.messages[1].role, "assistant");
    assert_eq!(conv.messages[1].content, "Hi there!");
}

#[test]
fn parse_jsonl_with_content_blocks() {
    let line = r#"{"role": "assistant", "content": [{"type": "text", "text": "Let me help you."}, {"type": "toolRequest", "toolCall": {"value": {"name": "bash", "arguments": {"cmd": "ls"}}}}], "id": "msg1"}"#;
    let conv = parse_log(line, "test-session");
    assert_eq!(conv.messages.len(), 1);
    assert!(conv.messages[0].content.contains("Let me help you."));
    assert_eq!(conv.messages[0].invocations.len(), 1);
    assert_eq!(conv.messages[0].invocations[0].name, "bash");
}

#[test]
fn parse_jsonl_empty_lines_skipped() {
    let content = format!(
        "{}\n\n{}\n",
        r#"{"role": "user", "content": "Hi", "id": "m1"}"#, r#"{"role": "assistant", "content": "Hey", "id": "m2"}"#
    );
    assert_eq!(parse_log(&content, "test").messages.len(), 2);
}

#[test]
fn goose_logs_that_cannot_be_read_fail() {
    let dir = TempDir::new();
    assert!(parse_goose_jsonl(&dir.table(), &path("/tmp/home/none.jsonl"), "none").is_err());
}

#[test]
fn extract_sqlite_basic() {
    let mut s = session("sess1", "Test session", 1_700_000_000, 1_700_000_100);
    s.working_dir = Some("/home/user/project".to_string());
    s.provider_name = Some("openai".to_string());
    let mut message =
        row("msg1", "assistant", r#"[{"type": "text", "text": "Hello from Goose!"}]"#, 1_700_000_050);
    message.tokens = Some(42);
    message.metadata_json = Some(r#"{"model": "gpt-4o"}"#.to_string());
    let convs = extract(vec![GooseRows { session: s, messages: Some(vec![message]) }], None);
    assert_eq!(convs.len(), 1);
    assert_eq!(convs[0].agent_slug, "goose");
    assert_eq!(convs[0].external_id.as_deref(), Some("sess1"));
    assert_eq!(convs[0].title.as_deref(), Some("Test session"));
    assert_eq!(convs[0].workspace.as_deref(), Some(Path::new("/home/user/project")));
    assert_eq!(convs[0].messages.len(), 1);
    assert!(convs[0].messages[0].content.contains("Hello from Goose!"));
    assert_eq!(convs[0].messages[0].author.as_deref(), Some("gpt-4o"));
    assert_eq!(convs[0].metadata.get("source").and_then(|v| v.as_str()), Some("sqlite"));
    assert_eq!(convs[0].source_path, Path::new("/db/sessions.db/sess1"));
    assert_eq!(convs[0].started_at, Some(1_700_000_000_000));
    assert_eq!(convs[0].ended_at, Some(1_700_000_100_000));
}

#[test]
fn extract_sqlite_with_tool_calls() {
    let content = r#"[
        {"type": "text", "text": "Let me check that file."},
        {"type": "toolRequest", "id": "tc_1",
         "toolCall": {"value": {"name": "read_file", "arguments": {"path": "/etc/hosts"}}}}
    ]"#;
    let rows = GooseRows {
        session: session("sess1", "Tools test", 1_700_000_000, 1_700_000_100),
        messages: Some(vec![row("msg1", "assistant", content, 1_700_000_050)]),
    };
    let convs = extract(vec![rows], None);
    assert_eq!(convs.len(), 1);
    let msg = &convs[0].messages[0];
    assert_eq!(msg.invocations.len(), 1);
    assert_eq!(msg.invocations[0].name, "read_file");
    assert_eq!(msg.invocations[0].call_id.as_deref(), Some("tc_1"));
}

#[test]
fn extract_sqlite_since_filter() {
    let old = GooseRows {
        session: session("old", "Old session", 1_600_000_000, 1_600_000_100),
        messages: Some(vec![row("old_msg", "user", r#"[{"type":"text","text":"old"}]"#, 1_600_000_050)]),
    };
    let new = GooseRows {
        session: session("new", "New session", 1_700_000_000, 1_700_000_100),
        messages: Some(vec![row("new_msg", "user", r#"[{"type":"text","text":"new"}]"#, 1_700_000_050)]),
    };
    let convs = extract(vec![old, new], Some(1_650_000_000_000));
    assert_eq!(convs.len(), 1);
    assert_eq!(convs[0].external_id.as_deref(), Some("new"));
}

#[test]
fn extract_sqlite_empty_messages_skipped() {
    let mut empty = session("empty", "Empty session", 1_700_000_000, 0);
    empty.updated_at = SqlValue::Null;
    assert!(extract(vec![GooseRows { session: empty, messages: Some(Vec::new()) }], None).is_empty());
}

#[test]
fn goose_messages_are_in_the_order_of_their_times() {
    let rows = GooseRows {
        session: session("s", "t", 1_700_000_000, 1_700_000_100),
        messages: Some(vec![
            row("b", "user", r#"[{"type":"text","text":"second"}]"#, 1_700_000_002),
            row("a", "user", r#"[{"type":"text","text":"first"}]"#, 1_700_000_001),
            row("", "user", r#"[{"type":"text","text":"unnamed"}]"#, 1_700_000_000),
        ]),
    };
    let convs = extract(vec![rows], None);
    let said: Vec<(i64, &str)> = convs[0].messages.iter().map(|m| (m.idx, m.content.as_str())).collect();
    assert_eq!(said, vec![(0, "first"), (1, "second")]);
    let failing = GooseRows { session: session("s", "t", 1, 1), messages: None };
    assert!(extract_from_sqlite(&path("/db"), &vec![failing], None).is_err());
}

#[test]
fn discover_source_files_includes_sqlite_and_jsonl_sources() {
    let temp = TempDir::new();
    let sessions_root = temp.path().join("goose").join("sessions");
    let db_path = sessions_root.join("sessions.db");
    let jsonl_path = sessions_root.join("legacy.jsonl");
    temp.write(&db_path, b"not a real sqlite db");
    temp.write(
        &jsonl_path,
        br#"{"role":"user","content":[{"type":"text","text":"hello"}],"created_at":1700000000}"#,
    );
    let ctx = with_roots(temp.path(), vec![local(&sessions_root)], None);
    let sources = GooseConnector::new().discover_source_files(&ctx, &nowhere(), &temp.table());
    assert!(sources.iter().any(|source| {
        Path::new(&source.source_path.text()) == db_path
            && source.provider_slug == "goose"
            && matches!(source.role, SourceRole::SqliteDatabase)
            && source.required_for_reconstruction
    }));
    assert!(sources.iter().any(|source| {
        Path::new(&source.source_path.text()) == jsonl_path
            && source.provider_slug == "goose"
            && matches!(source.role, SourceRole::PrimarySessionLog)
            && source.required_for_reconstruction
    }));
}

#[test]
fn goose_logs_of_sessions_in_a_database_are_not_read_again() {
    let dir = TempDir::new();
    let root = dir.path().join(".goose/sessions");
    dir.write(root.join("sessions.db"), "");
    dir.write(root.join("a.jsonl"), r#"{"role":"user","content":"from the log","created_at":1700000000}"#);
    dir.write(root.join("b.jsonl"), r#"{"role":"user","content":"only a log","created_at":1700000000}"#);
    let database = GooseDatabase {
        path: path(root.join("sessions.db")),
        sessions: Some(vec![GooseRows {
            session: session("a", "t", 1_700_000_000, 1_700_000_100),
            messages: Some(vec![row("m", "user", r#"[{"type":"text","text":"stored"}]"#, 1_700_000_001)]),
        }]),
    };
    let convs = dir.scan(&with_roots("", vec![local(&root)], None), vec![database]);
    let ids: Vec<&str> = convs.iter().map(|c| c.external_id.as_deref().unwrap()).collect();
    assert_eq!(ids, ["a", "b"]);
    assert_eq!(convs[0].messages[0].content, "stored");
    assert!(!GooseConnector::new().detect(None).detected);
}

#[test]
fn goose_sessions_of_one_name_are_read_once() {
    let rows = || GooseRows {
        session: session("a", "t", 1_700_000_000, 1_700_000_100),
        messages: Some(vec![row("m", "user", r#"[{"type":"text","text":"stored"}]"#, 1_700_000_001)]),
    };
    assert_eq!(extract(vec![rows(), rows()], None).len(), 1);
    assert!(extract(vec![rows()], Some(1_700_000_100_001)).is_empty());
}

#[test]
fn goose_logs_that_are_read_are_discovered() {
    let dir = TempDir::new();
    let root = dir.path().join(".goose/sessions");
    dir.write(root.join("a.jsonl"), r#"{"role":"user","content":"said","created_at":1700000000}"#);
    dir.write(root.join("b.jsonl"), "no document");
    let ctx = with_roots("", vec![local(&root)], None);
    let convs = dir.scan(&ctx, Vec::new());
    assert_eq!(convs.len(), 1);
    let sources = GooseConnector::new().discover_source_files(&ctx, &nowhere(), &dir.table());
    assert_eq!(sources.len(), 2);
    assert!(sources.iter().any(|source| Path::new(&source.source_path.text()) == convs[0].source_path));
}

#[test]
fn goose_lines_may_list_their_fields_in_order() {
    let lines = [
        r#"["user","Hi"]"#,
        r#"["assistant","Hello",1700000001,"m2","gpt"]"#,
        r#"["user","too many",1700000001,"m3","gpt",1]"#,
        r#"[]"#,
    ];
    let conv = parse_log(&lines.join("\n"), "s");
    assert_eq!(conv.messages.len(), 2);
    assert_eq!(conv.messages[0].content, "Hello");
    assert_eq!(conv.messages[0].author.as_deref(), Some("gpt"));
    assert_eq!(conv.messages[0].extra["message_id"], "m2");
    assert_eq!(conv.messages[1].role, "user");
    assert_eq!(conv.messages[1].content, "Hi");
    assert_eq!(conv.messages[1].extra["message_id"], "s-0");
}

#[test]
fn goose_lines_that_give_a_field_twice_are_none() {
    let lines = [
        r#"{"role":"user","content":"a","role":"user"}"#,
        r#"{"role":"user","content":"b","id":"x","message_id":"y"}"#,
        r#"{"role":"user","content":"c","other":1,"other":2}"#,
        r#"{"role":"user","ro\u006ce":"user","content":"d"}"#,
    ];
    let conv = parse_log(&lines.join("\n"), "s");
    let said: Vec<&str> = conv.messages.iter().map(|m| m.content.as_str()).collect();
    assert_eq!(said, ["c"]);
}

#[test]
fn goose_lines_may_hold_anything_beside_their_fields() {
    let lines = [
        r#"{"role":"user","content":"a","other":1e999,"deep":[{"x":"},]:\"\\"}]}"#,
        r#"{"role":"user","content":"b","created_at":1e999}"#,
        r#"{"role":"user","content":"c"} x"#,
    ];
    let conv = parse_log(&lines.join("\n"), "s");
    let said: Vec<&str> = conv.messages.iter().map(|m| m.content.as_str()).collect();
    assert_eq!(said, ["a"]);
}

#[test]
fn goose_documents_are_rendered_with_keys_in_order() {
    let content = r#"[{"type":"toolRequest","id":"c1","toolCall":{"value":{"name":"sh","arguments":{"z":1,"a":2}}}}]"#;
    let mut message = row("m1", "assistant", content, 1_700_000_000);
    message.tokens = Some(7);
    let rows = vec![GooseRows {
        session: session("s1", "about", 1_700_000_000, 1_700_000_001),
        messages: Some(vec![message]),
    }];
    let found = extract_from_sqlite(&path("/db/sessions.db"), &rows, None).ok().unwrap();
    assert_eq!(
        found[0].metadata.render(),
        "{\"model_name\":null,\"provider_name\":null,\"session_id\":\"s1\",\"session_type\":null,\
         \"source\":\"sqlite\"}"
    );
    let m = &found[0].messages[0];
    assert_eq!(m.extra.render(), r#"{"message_id":"m1","session_id":"s1","tokens":7}"#);
    assert_eq!(m.invocations[0].arguments.as_ref().unwrap().render(), r#"{"a":2,"z":1}"#);
}
