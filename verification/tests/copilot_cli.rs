use agent_sessions::copilot_cli::CopilotCliConnector;
use agent_sessions::files::{FileEntry, FileKind, FileTable};
use agent_sessions::model::Conversation;
use agent_sessions::path::SourcePath;
use agent_sessions::scan::{DiscoveredSource, ScanContext, ScanRoot, Surroundings};
use serde_json::Value;
use std::cell::RefCell;
use std::path::{Path, PathBuf};

/// A conversation with its documents as values.
struct Conv {
    agent_slug: String,
    external_id: Option<String>,
    title: Option<String>,
    workspace: Option<PathBuf>,
    source_path: PathBuf,
    started_at: Option<i64>,
    ended_at: Option<i64>,
    metadata: Value,
    messages: Vec<Msg>,
}

struct Msg {
    idx: i64,
    role: String,
    author: Option<String>,
    created_at: Option<i64>,
    content: String,
    extra: Value,
    invocations: Vec<Call>,
}

struct Call {
    kind: String,
    name: String,
    raw_name: Option<String>,
    call_id: Option<String>,
    arguments: Option<Value>,
}

fn value(text: &str) -> Value {
    serde_json::from_str(text).unwrap()
}

fn path(p: impl AsRef<Path>) -> SourcePath {
    SourcePath::new(p.as_ref().to_str().unwrap())
}

fn conv(c: &Conversation) -> Conv {
    Conv {
        agent_slug: c.agent_slug.clone(),
        external_id: c.external_id.clone(),
        title: c.title.clone(),
        workspace: c.workspace.as_ref().map(PathBuf::from),
        source_path: PathBuf::from(c.source_path.text()),
        started_at: c.started_at,
        ended_at: c.ended_at,
        metadata: value(&c.metadata.render()),
        messages: c
            .messages
            .iter()
            .map(|m| Msg {
                idx: m.idx,
                role: m.role.clone(),
                author: m.author.clone(),
                created_at: m.created_at,
                content: m.content.clone(),
                extra: value(&m.extra.render()),
                invocations: m
                    .invocations
                    .iter()
                    .map(|i| Call {
                        kind: i.kind.clone(),
                        name: i.name.clone(),
                        raw_name: i.raw_name.clone(),
                        call_id: i.call_id.clone(),
                        arguments: i.arguments.as_ref().map(|a| value(&a.render())),
                    })
                    .collect(),
            })
            .collect(),
    }
}

fn nowhere() -> Surroundings {
    Surroundings { home: None, data: None, local_data: None, config: None, variables: Vec::new() }
}

fn local(p: impl AsRef<Path>) -> ScanRoot {
    ScanRoot::local(path(p))
}

fn with_roots(data_dir: impl AsRef<Path>, roots: Vec<ScanRoot>, since: Option<i64>) -> ScanContext {
    ScanContext::with_roots(path(data_dir), roots, since)
}

fn local_default(data_dir: impl AsRef<Path>, since: Option<i64>) -> ScanContext {
    ScanContext::local_default(path(data_dir), since)
}

/// A directory in memory.
struct TempDir {
    root: PathBuf,
    entries: RefCell<Vec<FileEntry>>,
}

impl TempDir {
    fn new() -> TempDir {
        TempDir { root: PathBuf::from("/tmp/home"), entries: RefCell::new(Vec::new()) }
    }

    fn path(&self) -> &Path {
        &self.root
    }

    fn put(&self, p: &Path, kind: FileKind, content: Option<&[u8]>) {
        let at = path(p).text();
        let known = self.entries.borrow().iter().position(|e| e.path.text() == at);
        if let Some(i) = known {
            if content.is_some() {
                self.entries.borrow_mut()[i].content = content.map(|c| c.to_vec());
            }
            return;
        }
        if let Some(parent) = p.parent() {
            if parent != Path::new("") {
                self.put(parent, FileKind::Directory, None);
            }
        }
        let content = content.map(|c| c.to_vec());
        self.entries.borrow_mut().push(FileEntry { path: path(p), kind, canonical: path(p), fresh: true, content });
    }

    fn create_dir_all(&self, p: impl AsRef<Path>) {
        self.put(p.as_ref(), FileKind::Directory, None);
    }

    fn write(&self, p: impl AsRef<Path>, content: impl AsRef<[u8]>) {
        self.put(p.as_ref(), FileKind::File, Some(content.as_ref()));
    }

    fn table(&self) -> FileTable {
        let entries = self
            .entries
            .borrow()
            .iter()
            .map(|e| FileEntry {
                path: e.path.copy(),
                kind: e.kind,
                canonical: e.canonical.copy(),
                fresh: e.fresh,
                content: e.content.clone(),
            })
            .collect();
        FileTable { entries }
    }

    /// Nothing changed since.
    fn age(&self) {
        for e in self.entries.borrow_mut().iter_mut() {
            e.fresh = false;
        }
    }

    fn scan(&self, ctx: &ScanContext) -> Vec<Conv> {
        CopilotCliConnector::new().scan(ctx, &nowhere(), &self.table()).iter().map(conv).collect()
    }

    fn sources(&self, ctx: &ScanContext) -> Vec<DiscoveredSource> {
        CopilotCliConnector::new().discover_source_files(ctx, &nowhere(), &self.table())
    }

    fn check_discovery(&self, ctx: &ScanContext) {
        let sources = self.sources(ctx);
        for c in self.scan(ctx) {
            assert!(sources.iter().any(|s| Path::new(&s.source_path.text()) == c.source_path));
        }
    }
}

fn write_file(tmp: &TempDir, dir: &Path, filename: &str, content: &str) -> PathBuf {
    let file = dir.join(filename);
    if let Some(parent) = file.parent() {
        tmp.create_dir_all(parent);
    }
    tmp.write(&file, content);
    file
}

#[test]
fn detect_returns_result_without_panic() {
    let connector = CopilotCliConnector::new();
    let result = connector.detect(Some(&path("/home/u")), &TempDir::new().table());
    assert!(!result.evidence.is_empty());
}

#[test]
fn scan_empty_dir_returns_empty() {
    let tmp = TempDir::new();
    let root = tmp.path().join(".copilot/session-state");
    tmp.create_dir_all(&root);

    let ctx = local_default(root, None);
    let convs = tmp.scan(&ctx);
    assert!(convs.is_empty());
}

#[test]
fn scan_parses_jsonl_events() {
    let tmp = TempDir::new();
    let session_dir = tmp.path().join(".copilot/session-state/abc-123");
    tmp.create_dir_all(&session_dir);

    let events = r#"{"type":"sessionStart","session_id":"abc-123","timestamp":1700000000000,"cwd":"/home/user/myproject"}
{"type":"user.message","role":"user","content":"How do I read a file in Rust?","timestamp":1700000001000}
{"type":"assistant.message","role":"assistant","content":"You can use std::fs::read_to_string().","timestamp":1700000002000}
{"type":"user.message","role":"user","content":"Show me an example","timestamp":1700000003000}
{"type":"assistant.message","role":"assistant","content":"let contents = std::fs::read_to_string(\"file.txt\")?;","timestamp":1700000004000}
"#;

    write_file(&tmp, &session_dir, "events.jsonl", events);

    let root = tmp.path().join(".copilot/session-state");
    let ctx = local_default(root, None);
    let convs = tmp.scan(&ctx);

    assert_eq!(convs.len(), 1);
    assert_eq!(convs[0].agent_slug, "copilot_cli");
    assert_eq!(convs[0].external_id.as_deref(), Some("abc-123"));
    assert_eq!(
        convs[0].workspace,
        Some(PathBuf::from("/home/user/myproject"))
    );
    assert_eq!(convs[0].messages.len(), 4);
    assert_eq!(convs[0].messages[0].role, "user");
    assert!(convs[0].messages[0].content.contains("read a file"));
    assert_eq!(convs[0].messages[1].role, "assistant");
    assert_eq!(convs[0].started_at, Some(1_700_000_000_000));
    assert_eq!(convs[0].ended_at, Some(1_700_000_004_000));
    assert!(convs[0].title.as_ref().unwrap().contains("read a file"));
    assert_eq!(convs[0].metadata["source"], "copilot-cli");
    tmp.check_discovery(&ctx);
}

#[test]
fn scan_parses_hook_event_types() {
    let tmp = TempDir::new();
    let session_dir = tmp.path().join(".copilot/session-state/def-456");
    tmp.create_dir_all(&session_dir);

    let events = r#"{"type":"userPromptSubmitted","content":"Explain ownership","timestamp":1700000010000}
{"type":"assistantResponse","content":"Ownership is Rust's memory management model.","timestamp":1700000011000}
"#;

    write_file(&tmp, &session_dir, "events.jsonl", events);

    let root = tmp.path().join(".copilot/session-state");
    let ctx = local_default(root, None);
    let convs = tmp.scan(&ctx);

    assert_eq!(convs.len(), 1);
    assert_eq!(convs[0].messages.len(), 2);
    assert_eq!(convs[0].messages[0].role, "user");
    assert!(convs[0].messages[0].content.contains("ownership"));
    assert_eq!(convs[0].messages[1].role, "assistant");
}

#[test]
fn scan_parses_legacy_session_json() {
    let tmp = TempDir::new();
    let legacy_dir = tmp.path().join(".copilot/history-session-state");
    tmp.create_dir_all(&legacy_dir);

    let session_json = r#"{
        "session_id": "legacy-001",
        "cwd": "/home/user/legacy-project",
        "events": [
            {"type": "user.message", "content": "What is a trait?", "timestamp": 1700000020000},
            {"type": "assistant.message", "content": "A trait defines shared behavior.", "timestamp": 1700000021000}
        ]
    }"#;

    write_file(&tmp, &legacy_dir, "legacy-001.json", session_json);

    let root = tmp.path().join(".copilot/history-session-state");
    let ctx = local_default(root, None);
    let convs = tmp.scan(&ctx);

    assert_eq!(convs.len(), 1);
    assert_eq!(convs[0].external_id.as_deref(), Some("legacy-001"));
    assert_eq!(
        convs[0].workspace,
        Some(PathBuf::from("/home/user/legacy-project"))
    );
    assert_eq!(convs[0].messages.len(), 2);
    assert_eq!(convs[0].messages[0].role, "user");
    assert!(convs[0].messages[0].content.contains("trait"));
}

#[test]
fn scan_parses_prompt_field() {
    let tmp = TempDir::new();
    let session_dir = tmp.path().join(".copilot/session-state/ghi-789");
    tmp.create_dir_all(&session_dir);

    let events = r#"{"type":"user.message","prompt":"Deploy to production","timestamp":1700000030000}
{"type":"assistant.message","output":"Running deployment script...","timestamp":1700000031000}
"#;

    write_file(&tmp, &session_dir, "events.jsonl", events);

    let root = tmp.path().join(".copilot/session-state");
    let ctx = local_default(root, None);
    let convs = tmp.scan(&ctx);

    assert_eq!(convs.len(), 1);
    assert_eq!(convs[0].messages.len(), 2);
    assert!(convs[0].messages[0].content.contains("Deploy"));
    assert!(convs[0].messages[1].content.contains("deployment"));
}

#[test]
fn scan_skips_non_message_events() {
    let tmp = TempDir::new();
    let session_dir = tmp.path().join(".copilot/session-state/skip-test");
    tmp.create_dir_all(&session_dir);

    let events = r#"{"type":"sessionStart","timestamp":1700000040000}
{"type":"preToolUse","toolName":"shell","timestamp":1700000041000}
{"type":"user.message","content":"Hello","timestamp":1700000042000}
{"type":"postToolUse","toolName":"shell","timestamp":1700000043000}
{"type":"assistant.message","content":"Hi there!","timestamp":1700000044000}
{"type":"errorOccurred","error":"some error","timestamp":1700000045000}
"#;

    write_file(&tmp, &session_dir, "events.jsonl", events);

    let root = tmp.path().join(".copilot/session-state");
    let ctx = local_default(root, None);
    let convs = tmp.scan(&ctx);

    assert_eq!(convs.len(), 1);
    assert_eq!(convs[0].messages.len(), 2);
    assert_eq!(convs[0].messages[0].content, "Hello");
    assert_eq!(convs[0].messages[1].content, "Hi there!");
}

#[test]
fn scan_empty_events_returns_empty() {
    let tmp = TempDir::new();
    let session_dir = tmp.path().join(".copilot/session-state/empty");
    tmp.create_dir_all(&session_dir);

    let events = r#"{"type":"sessionStart","timestamp":1700000050000}
{"type":"sessionEnd","timestamp":1700000051000}
"#;

    write_file(&tmp, &session_dir, "events.jsonl", events);

    let root = tmp.path().join(".copilot/session-state");
    let ctx = local_default(root, None);
    let convs = tmp.scan(&ctx);
    assert!(convs.is_empty());
}

#[test]
fn scan_multiple_sessions() {
    let tmp = TempDir::new();
    let root = tmp.path().join(".copilot/session-state");

    let session_a = root.join("session-a");
    let session_b = root.join("session-b");
    tmp.create_dir_all(&session_a);
    tmp.create_dir_all(&session_b);

    write_file(&tmp, 
        &session_a,
        "events.jsonl",
        r#"{"type":"user.message","content":"Question A","timestamp":1700000070000}
{"type":"assistant.message","content":"Answer A","timestamp":1700000071000}
"#,
    );

    write_file(&tmp, 
        &session_b,
        "events.jsonl",
        r#"{"type":"user.message","content":"Question B","timestamp":1700000080000}
{"type":"assistant.message","content":"Answer B","timestamp":1700000081000}
"#,
    );

    let ctx = local_default(root, None);
    let convs = tmp.scan(&ctx);

    assert_eq!(convs.len(), 2);
    let ids: Vec<_> = convs
        .iter()
        .filter_map(|c| c.external_id.as_deref())
        .collect();
    assert!(ids.contains(&"session-a"));
    assert!(ids.contains(&"session-b"));
}

#[test]
fn scan_handles_malformed_lines() {
    let tmp = TempDir::new();
    let session_dir = tmp.path().join(".copilot/session-state/malformed");
    tmp.create_dir_all(&session_dir);

    let events = r#"not valid json
{"type":"user.message","content":"valid msg","timestamp":1700000090000}
{incomplete json...
{"type":"assistant.message","content":"also valid","timestamp":1700000091000}

"#;

    write_file(&tmp, &session_dir, "events.jsonl", events);

    let root = tmp.path().join(".copilot/session-state");
    let ctx = local_default(root, None);
    let convs = tmp.scan(&ctx);

    assert_eq!(convs.len(), 1);
    assert_eq!(convs[0].messages.len(), 2);
    assert_eq!(convs[0].messages[0].content, "valid msg");
    assert_eq!(convs[0].messages[1].content, "also valid");
}

#[test]
fn scan_with_scan_roots() {
    let tmp = TempDir::new();
    let home = tmp.path().join("fakehome");
    let session_dir = home.join(".copilot/session-state/remote-sess");
    tmp.create_dir_all(&session_dir);

    let events = r#"{"type":"user.message","content":"from remote","timestamp":1700000060000}
{"type":"assistant.message","content":"acknowledged","timestamp":1700000061000}
"#;

    write_file(&tmp, &session_dir, "events.jsonl", events);

    let scan_root = local(home);
    let ctx = with_roots(tmp.path().to_path_buf(), vec![scan_root], None);
    let convs = tmp.scan(&ctx);

    assert_eq!(convs.len(), 1);
    assert_eq!(convs[0].messages.len(), 2);
}

#[test]
fn scan_with_copilot_root_scan_root() {
    let tmp = TempDir::new();
    let copilot_root = tmp.path().join(".copilot");
    let session_dir = copilot_root.join("session-state/root-sess");
    tmp.create_dir_all(&session_dir);

    let events = r#"{"type":"user.message","content":"root msg","timestamp":1700000060000}
{"type":"assistant.message","content":"root ack","timestamp":1700000061000}
"#;

    write_file(&tmp, &session_dir, "events.jsonl", events);

    let scan_root = local(copilot_root);
    let ctx = with_roots(tmp.path().to_path_buf(), vec![scan_root], None);
    let convs = tmp.scan(&ctx);

    assert_eq!(convs.len(), 1);
    assert_eq!(convs[0].messages.len(), 2);
}

#[test]
fn looks_like_cli_storage_works() {
    assert!(CopilotCliConnector::looks_like_cli_storage(&path(
        "/home/user/.copilot/session-state"
    )));
    assert!(CopilotCliConnector::looks_like_cli_storage(&path(
        "/home/user/.copilot/history-session-state"
    )));
    assert!(CopilotCliConnector::looks_like_cli_storage(&path(
        "/home/user/.config/gh-copilot"
    )));
    assert!(CopilotCliConnector::looks_like_cli_storage(&path(
        "/home/user/.config/gh/copilot"
    )));
    assert!(CopilotCliConnector::looks_like_cli_storage(&path(
        "/home/user/.local/share/github-copilot"
    )));
    assert!(!CopilotCliConnector::looks_like_cli_storage(&path(
        "/home/user/.config/Code/User/globalStorage/github.copilot-chat"
    )));
}

#[test]
fn default_impl() {
    let _ = CopilotCliConnector;
}

#[test]
fn agent_slug_is_copilot_cli() {
    let tmp = TempDir::new();
    let session_dir = tmp.path().join(".copilot/session-state/slug-test");
    tmp.create_dir_all(&session_dir);

    let events = r#"{"type":"user.message","content":"test","timestamp":1700000100000}
{"type":"assistant.message","content":"reply","timestamp":1700000101000}
"#;

    write_file(&tmp, &session_dir, "events.jsonl", events);

    let root = tmp.path().join(".copilot/session-state");
    let ctx = local_default(root, None);
    let convs = tmp.scan(&ctx);

    assert_eq!(convs.len(), 1);
    assert_eq!(convs[0].agent_slug, "copilot_cli");
    assert_eq!(convs[0].metadata["source"], "copilot-cli");
}

#[test]
fn scan_parses_chronicle_nested_data_content() {
    let tmp = TempDir::new();
    let session_dir = tmp.path().join(".copilot/session-state/chronicle-001");
    tmp.create_dir_all(&session_dir);

    let events = r#"{"type":"session.start","data":{"sessionId":"chronicle-001","cwd":"/Users/cc314/projects/demo"},"timestamp":"2026-03-01T10:00:00.000Z"}
{"type":"user.message","data":{"content":"explain this repo"},"timestamp":"2026-03-01T10:00:01.000Z"}
{"type":"assistant.message","data":{"content":"This is a Rust project.","toolRequests":[]},"timestamp":"2026-03-01T10:00:02.000Z"}
{"type":"user.message","data":{"content":"what does lib.rs export?"},"timestamp":"2026-03-01T10:00:03.000Z"}
{"type":"assistant.message","data":{"content":"It re-exports connector factories.","toolRequests":[{"name":"Read","input":{"path":"lib.rs"}}]},"timestamp":"2026-03-01T10:00:04.000Z"}
"#;

    write_file(&tmp, &session_dir, "events.jsonl", events);

    let root = tmp.path().join(".copilot/session-state");
    let ctx = local_default(root, None);
    let convs = tmp.scan(&ctx);

    assert_eq!(
        convs.len(),
        1,
        "chronicle events should yield 1 conversation"
    );
    let conv = &convs[0];
    assert_eq!(conv.agent_slug, "copilot_cli");
    assert!(
        conv.external_id.as_deref() == Some("chronicle-001"),
        "expected session id 'chronicle-001', got {:?}",
        conv.external_id
    );
    assert_eq!(
        conv.workspace,
        Some(PathBuf::from("/Users/cc314/projects/demo")),
        "workspace should come from nested data.cwd"
    );
    assert_eq!(conv.messages.len(), 4, "two user + two assistant messages");
    assert_eq!(conv.messages[0].role, "user");
    assert!(conv.messages[0].content.contains("explain this repo"));
    assert_eq!(conv.messages[1].role, "assistant");
    assert!(conv.messages[1].content.contains("Rust project"));
    assert_eq!(conv.messages[2].role, "user");
    assert!(conv.messages[2].content.contains("lib.rs"));
    assert_eq!(conv.messages[3].role, "assistant");
    assert!(conv.messages[3].content.contains("connector factories"));
    assert!(
        conv.title
            .as_deref()
            .is_some_and(|t| t.contains("explain this repo")),
        "title should be the first user message prefix"
    );
    assert!(conv.started_at.is_some());
    assert!(conv.ended_at.is_some());
    assert!(conv.started_at.unwrap() < conv.ended_at.unwrap());
}

#[test]
fn scan_chronicle_falls_back_to_directory_uuid() {
    let tmp = TempDir::new();
    let uuid = "4c5e9a9e-1234-4abc-9def-000000000001";
    let session_dir = tmp.path().join(format!(".copilot/session-state/{uuid}"));
    tmp.create_dir_all(&session_dir);

    let events = r#"{"type":"user.message","data":{"content":"hi"},"timestamp":"2026-03-01T10:00:00.000Z"}
{"type":"assistant.message","data":{"content":"hello"},"timestamp":"2026-03-01T10:00:01.000Z"}
"#;
    write_file(&tmp, &session_dir, "events.jsonl", events);

    let root = tmp.path().join(".copilot/session-state");
    let ctx = local_default(root, None);
    let convs = tmp.scan(&ctx);

    assert_eq!(convs.len(), 1);
    assert_eq!(convs[0].external_id.as_deref(), Some(uuid));
    assert_eq!(convs[0].messages.len(), 2);
}

#[test]
fn scan_respects_since_ts() {
    let tmp = TempDir::new();
    let session_dir = tmp.path().join(".copilot/session-state/ts-test");
    tmp.create_dir_all(&session_dir);

    write_file(&tmp, 
        &session_dir,
        "events.jsonl",
        r#"{"type":"user.message","content":"old","timestamp":1700000000000}
{"type":"assistant.message","content":"reply","timestamp":1700000001000}
"#,
    );

    let root = tmp.path().join(".copilot/session-state");
    let far_future = 4_000_000_000_000;
    tmp.age();
    let ctx = local_default(root, Some(far_future));
    let convs = tmp.scan(&ctx);
    assert!(convs.is_empty());
}

#[test]
fn copilot_log_of_one_event_is_read() {
    let tmp = TempDir::new();
    let session_dir = tmp.path().join(".copilot/session-state/s1");
    let event = r#"{"type":"user.message","content":"hi","timestamp":1700000000000}"#;
    let file = write_file(&tmp, &session_dir, "events.jsonl", event);
    let found = match CopilotCliConnector::new().parse_event_log(&tmp.table(), &path(&file)) {
        Ok(found) => found,
        Err(_) => panic!("the log cannot be read"),
    };
    assert_eq!(found.len(), 1);
    let c = conv(&found[0]);
    assert_eq!(c.messages.len(), 1);
    assert_eq!(c.messages[0].role, "user");
    assert_eq!(c.messages[0].content, "hi");
    assert_eq!(c.external_id.as_deref(), Some("s1"));
    assert_eq!(c.title.as_deref(), Some("hi"));
    assert_eq!(c.started_at, Some(1_700_000_000_000));
    assert_eq!(c.ended_at, Some(1_700_000_000_000));
}

#[test]
fn copilot_documents_are_read_whole() {
    let tmp = TempDir::new();
    let dir = tmp.path().join(".copilot/history-session-state");
    let events = r#"{"events":[{"type":"user.message","content":"hi"}]}"#;
    let lines = write_file(&tmp, &dir, "one.jsonl", events);
    let lone = write_file(&tmp, &dir, "two.json", r#"{"type":"user.message","content":"hi"}"#);
    let read = |file: &Path| CopilotCliConnector::new().parse_event_log(&tmp.table(), &path(file)).ok().unwrap();
    assert_eq!(read(&lines).len(), 1);
    assert_eq!(read(&lines)[0].external_id.as_deref(), Some("one"));
    assert!(read(&lone).is_empty(), "a document without events holds no session");
}

#[test]
fn copilot_explicit_roots_leave_out_the_usual_ones() {
    let tmp = TempDir::new();
    tmp.create_dir_all("/h/.copilot/session-state");
    tmp.create_dir_all("/h/.config/gh-copilot");
    let files = tmp.table();
    let explicit = |base: &str| -> Vec<String> {
        CopilotCliConnector::append_explicit_roots(&files, &path(base)).iter().map(|p| p.text()).collect()
    };
    assert!(explicit("/h").is_empty());
    assert_eq!(explicit("/h/.config"), vec!["/h/.config/gh-copilot"]);
    let ctx = with_roots("", vec![local("/h")], None);
    let roots = CopilotCliConnector::source_roots(&ctx, &nowhere(), &files);
    let roots: Vec<String> = roots.iter().map(|r| r.path.text()).collect();
    assert_eq!(roots, vec!["/h/.config/gh-copilot", "/h/.copilot/session-state"]);
}

#[test]
fn copilot_documents_are_rendered_with_keys_in_order() {
    let tmp = TempDir::new();
    let dir = tmp.path().join(".copilot/session-state/s1");
    let file = write_file(&tmp, &dir, "events.jsonl", r#"{"type":"user.message","content":"hi","b":[{"d":1,"c":2}]}"#);
    let found = CopilotCliConnector::new().parse_event_log(&tmp.table(), &path(&file)).ok().unwrap();
    assert_eq!(found[0].metadata.render(), r#"{"source":"copilot-cli"}"#);
    assert_eq!(
        found[0].messages[0].extra.render(),
        r#"{"b":[{"c":2,"d":1}],"content":"hi","type":"user.message"}"#
    );
}
