use agent_sessions::devin::{
    message_from_chat_message, walk_main_chain, DevinConnector, DevinDatabase, DevinRows, DevinSession, NodeRow,
    MAX_TOOL_ARGUMENTS_BYTES,
};
use agent_sessions::files::{FileEntry, FileKind, FileTable};
use agent_sessions::model::Conversation;
use agent_sessions::path::SourcePath;
use agent_sessions::scan::{ScanContext, ScanRoot, SourceRole, Surroundings};
use serde_json::Value;
use std::cell::RefCell;
use std::collections::HashMap;
use std::path::{Path, PathBuf};

/// A conversation with its documents as values.
struct Conv {
    agent_slug: String,
    external_id: Option<String>,
    title: Option<String>,
    workspace: Option<PathBuf>,
    source_path: PathBuf,
    started_at: Option<i64>,
    ended_at: Option<i64>,
    metadata: Value,
    messages: Vec<Msg>,
}

struct Msg {
    idx: i64,
    role: String,
    author: Option<String>,
    created_at: Option<i64>,
    content: String,
    extra: Value,
    invocations: Vec<Call>,
}

struct Call {
    kind: String,
    name: String,
    raw_name: Option<String>,
    call_id: Option<String>,
    arguments: Option<Value>,
}

fn value(text: &str) -> Value {
    serde_json::from_str(text).unwrap()
}

fn path(p: impl AsRef<Path>) -> SourcePath {
    SourcePath::new(p.as_ref().to_str().unwrap())
}

fn conv(c: &Conversation) -> Conv {
    Conv {
        agent_slug: c.agent_slug.clone(),
        external_id: c.external_id.clone(),
        title: c.title.clone(),
        workspace: c.workspace.as_ref().map(PathBuf::from),
        source_path: PathBuf::from(c.source_path.text()),
        started_at: c.started_at,
        ended_at: c.ended_at,
        metadata: value(&c.metadata.render()),
        messages: c
            .messages
            .iter()
            .map(|m| Msg {
                idx: m.idx,
                role: m.role.clone(),
                author: m.author.clone(),
                created_at: m.created_at,
                content: m.content.clone(),
                extra: value(&m.extra.render()),
                invocations: m
                    .invocations
                    .iter()
                    .map(|i| Call {
                        kind: i.kind.clone(),
                        name: i.name.clone(),
                        raw_name: i.raw_name.clone(),
                        call_id: i.call_id.clone(),
                        arguments: i.arguments.as_ref().map(|a| value(&a.render())),
                    })
                    .collect(),
            })
            .collect(),
    }
}

fn nowhere() -> Surroundings {
    Surroundings { home: None, data: None, local_data: None, config: None, variables: Vec::new() }
}

fn local(p: impl AsRef<Path>) -> ScanRoot {
    ScanRoot::local(path(p))
}

fn with_roots(data_dir: impl AsRef<Path>, roots: Vec<ScanRoot>, since: Option<i64>) -> ScanContext {
    ScanContext::with_roots(path(data_dir), roots, since)
}

fn local_default(data_dir: impl AsRef<Path>, since: Option<i64>) -> ScanContext {
    ScanContext::local_default(path(data_dir), since)
}

/// A directory in memory.
struct TempDir {
    root: PathBuf,
    entries: RefCell<Vec<FileEntry>>,
}

impl TempDir {
    fn new() -> TempDir {
        TempDir { root: PathBuf::from("/tmp/home"), entries: RefCell::new(Vec::new()) }
    }

    fn path(&self) -> &Path {
        &self.root
    }

    fn put(&self, p: &Path, kind: FileKind, content: Option<&[u8]>) {
        let at = path(p).text();
        let known = self.entries.borrow().iter().position(|e| e.path.text() == at);
        if let Some(i) = known {
            if content.is_some() {
                self.entries.borrow_mut()[i].content = content.map(|c| c.to_vec());
            }
            return;
        }
        if let Some(parent) = p.parent() {
            if parent != Path::new("") {
                self.put(parent, FileKind::Directory, None);
            }
        }
        let content = content.map(|c| c.to_vec());
        self.entries.borrow_mut().push(FileEntry { path: path(p), kind, canonical: path(p), fresh: true, content });
    }

    fn create_dir_all(&self, p: impl AsRef<Path>) {
        self.put(p.as_ref(), FileKind::Directory, None);
    }

    fn write(&self, p: impl AsRef<Path>, content: impl AsRef<[u8]>) {
        self.put(p.as_ref(), FileKind::File, Some(content.as_ref()));
    }

    fn table(&self) -> FileTable {
        let entries = self
            .entries
            .borrow()
            .iter()
            .map(|e| FileEntry {
                path: e.path.copy(),
                kind: e.kind,
                canonical: e.canonical.copy(),
                fresh: e.fresh,
                content: e.content.clone(),
            })
            .collect();
        FileTable { entries }
    }
}

fn node(id: i64, parent: Option<i64>, message: &str, created: i64) -> NodeRow {
    NodeRow {
        node_id: id,
        parent_node_id: parent,
        chat_message: value(message).to_string(),
        created_at: Some(created),
    }
}

fn reference_rows() -> Vec<DevinRows> {
    let kept = DevinRows {
        session: DevinSession {
            id: "bald-ketch".to_string(),
            title: Some("Fix the broken checks".to_string()),
            working_directory: Some("/tmp/as-agent-lab/devin/project".to_string()),
            model: Some("swe-1-7".to_string()),
            agent_mode: Some("bypass".to_string()),
            created_at: Some(1_786_004_275),
            last_activity_at: Some(1_786_004_400),
            main_chain_id: Some(5),
        },
        nodes: Some(vec![
            node(
                1,
                None,
                r#"{"message_id": "m1", "role": "system", "content": "You are Devin.", "metadata": {}}"#,
                1_786_004_275,
            ),
            node(
                2,
                Some(1),
                r#"{"message_id": "m2", "role": "user", "content": "Fix the broken checks.",
                    "metadata": {"is_user_input": true}}"#,
                1_786_004_280,
            ),
            node(
                3,
                Some(2),
                r#"{"message_id": "m3", "role": "assistant", "content": "Reading the file.",
                    "thinking": {"signature": "sig", "thinking": "I should read it first."},
                    "tool_calls": [{"id": "call_1", "index": 0, "kind": "function",
                                    "name": "read_file", "arguments": {"path": "hello.py"}}],
                    "metadata": {"num_tokens": null}}"#,
                1_786_004_290,
            ),
            node(
                4,
                Some(3),
                r#"{"message_id": "m4", "role": "tool", "content": "print(\"hello\")",
                    "tool_call_id": "call_1", "metadata": {}}"#,
                1_786_004_300,
            ),
            node(
                5,
                Some(4),
                r#"{"message_id": "m5", "role": "assistant", "content": "The check passes now.",
                    "metadata": {}}"#,
                1_786_004_400,
            ),
            node(
                6,
                Some(2),
                r#"{"message_id": "m6", "role": "assistant", "content": "ABANDONED BRANCH TEXT"}"#,
                1_786_004_285,
            ),
        ]),
    };
    let chainless = DevinRows {
        session: DevinSession {
            id: "no-chain".to_string(),
            title: Some("Empty".to_string()),
            working_directory: Some("/tmp/e".to_string()),
            model: Some("swe-1-7".to_string()),
            agent_mode: Some("bypass".to_string()),
            created_at: Some(1_700_000_000),
            last_activity_at: Some(1_700_000_100),
            main_chain_id: None,
        },
        nodes: Some(Vec::new()),
    };
    vec![kept, chainless]
}

fn extract(rows: &Vec<DevinRows>, since: Option<i64>) -> Vec<Conv> {
    match DevinConnector::extract_from_sqlite(&path("/db/sessions.db"), rows, since) {
        Ok(found) => found.iter().map(conv).collect(),
        Err(_) => panic!("the store cannot be read"),
    }
}

#[test]
fn extract_projects_the_main_chain_only() {
    let convs = extract(&reference_rows(), None);
    assert_eq!(convs.len(), 1, "sessions without a chain are skipped");
    let conv = &convs[0];
    assert_eq!(conv.agent_slug, "devin");
    assert_eq!(conv.external_id.as_deref(), Some("bald-ketch"));
    assert_eq!(conv.title.as_deref(), Some("Fix the broken checks"));
    assert_eq!(conv.workspace.as_deref(), Some(Path::new("/tmp/as-agent-lab/devin/project")));
    assert_eq!(conv.started_at, Some(1_786_004_275_000));
    assert_eq!(conv.ended_at, Some(1_786_004_400_000));
    assert_eq!(conv.source_path, Path::new("/db/sessions.db/bald-ketch"));
    assert_eq!(conv.metadata["model"], "swe-1-7");
    assert_eq!(conv.metadata["agent_mode"], "bypass");
    assert_eq!(conv.metadata["main_chain_nodes"], 5);
    assert_eq!(conv.metadata["off_chain_nodes"], 1);

    let roles: Vec<&str> = conv.messages.iter().map(|m| m.role.as_str()).collect();
    assert_eq!(roles, ["user", "assistant", "tool", "assistant"]);
    let idxs: Vec<i64> = conv.messages.iter().map(|m| m.idx).collect();
    assert_eq!(idxs, [0, 1, 2, 3]);
    assert!(conv.messages.iter().all(|m| !m.content.contains("ABANDONED")));

    let user = &conv.messages[0];
    assert_eq!(user.content, "Fix the broken checks.");
    assert_eq!(user.created_at, Some(1_786_004_280_000));
    assert_eq!(user.extra["is_user_input"], true);
    assert_eq!(user.extra["message_id"], "m2");

    let assistant = &conv.messages[1];
    assert_eq!(assistant.author.as_deref(), Some("swe-1-7"));
    assert_eq!(assistant.content, "Reading the file.\n[tool_call: read_file]");
    assert_eq!(assistant.extra["thinking"], "I should read it first.");
    assert_eq!(assistant.invocations.len(), 1);
    assert_eq!(assistant.invocations[0].kind, "tool");
    assert_eq!(assistant.invocations[0].name, "read_file");
    assert_eq!(assistant.invocations[0].call_id.as_deref(), Some("call_1"));
    assert_eq!(assistant.invocations[0].arguments, Some(value(r#"{"path": "hello.py"}"#)));

    let tool = &conv.messages[2];
    assert_eq!(tool.content, "print(\"hello\")");
    assert_eq!(tool.extra["tool_call_id"], "call_1");
    assert_eq!(conv.messages[3].content, "The check passes now.");
}

#[test]
fn extract_honors_since_ts_on_last_activity() {
    let rows = reference_rows();
    assert_eq!(extract(&rows, Some(1_786_004_400_001)).len(), 0);
    assert_eq!(extract(&rows, Some(1_786_004_400_000)).len(), 1);
}

#[test]
fn extract_tolerates_a_store_without_the_hidden_column() {
    let rows = vec![DevinRows {
        session: DevinSession {
            id: "s".to_string(),
            title: None,
            working_directory: Some(String::new()),
            model: None,
            agent_mode: None,
            created_at: Some(10),
            last_activity_at: Some(20),
            main_chain_id: Some(1),
        },
        nodes: Some(vec![node(1, None, r#"{"role": "user", "content": "first line\nsecond line"}"#, 10)]),
    }];
    let convs = extract(&rows, None);
    assert_eq!(convs.len(), 1);
    assert_eq!(convs[0].title.as_deref(), Some("first line"), "title falls back to the first user line");
    assert!(convs[0].workspace.is_none(), "blank working_directory is no workspace");
    assert_eq!(convs[0].messages[0].author, None);
}

#[test]
fn walk_main_chain_stops_on_cycles_and_missing_parents() {
    let parents: HashMap<i64, Option<i64>> =
        HashMap::from([(1, None), (2, Some(1)), (3, Some(2)), (9, Some(9)), (10, Some(11))]);
    assert_eq!(walk_main_chain(&parents, 3), vec![1, 2, 3]);
    assert_eq!(walk_main_chain(&parents, 9), vec![9], "self-cycle terminates");
    assert_eq!(walk_main_chain(&parents, 10), vec![10], "missing parent ends the chain");
    assert!(walk_main_chain(&parents, 42).is_empty(), "unknown tip is no chain");
    let cycle: HashMap<i64, Option<i64>> = HashMap::from([(1, Some(2)), (2, Some(1))]);
    assert_eq!(walk_main_chain(&cycle, 1), vec![2, 1]);
}

#[test]
fn chat_message_parsing_covers_images_parts_and_empties() {
    let user_with_images = value(
        r#"{"role": "user", "content": "look",
        "images": [{"width": 1, "height": 1, "base64_data": "AAAA"}, {"base64_data": "BBBB"}]}"#,
    );
    let message = message_from_chat_message(&user_with_images.to_string(), None, None).unwrap();
    assert_eq!(message.content, "[image]\n[image]\nlook");
    assert!(!message.content.contains("AAAA"));

    let parts = value(
        r#"{"role": "assistant", "content": [
        {"type": "text", "text": "part one"},
        {"type": "image_url", "image_url": {"url": "data:..."}},
        {"type": "text", "text": "part two"}]}"#,
    );
    let message = message_from_chat_message(&parts.to_string(), Some(5_000), Some("m")).unwrap();
    assert_eq!(message.content, "part one\n[image]\npart two");
    assert_eq!(message.created_at, Some(5_000));

    let tool_with_image = value(
        r#"{"role": "tool", "tool_call_id": "c", "content": "", "images": [{"base64_data": "CCCC"}]}"#,
    );
    let message = message_from_chat_message(&tool_with_image.to_string(), None, None).unwrap();
    assert_eq!(message.content, "[image]");

    assert!(message_from_chat_message(r#"{"role":"system","content":"x"}"#, None, None).is_none());
    assert!(message_from_chat_message(r#"{"role":"assistant","content":""}"#, None, None).is_none());
    assert!(message_from_chat_message(r#"{"role":"user"}"#, None, None).is_none());
    assert!(message_from_chat_message("not json", None, None).is_none());
    assert!(message_from_chat_message("[1,2]", None, None).is_none());

    let tool_call_only = value(
        r#"{"role": "assistant", "content": null,
        "tool_calls": [{"id": "x", "name": "bash", "arguments": {"cmd": "ls"}}]}"#,
    );
    let message = message_from_chat_message(&tool_call_only.to_string(), None, None).unwrap();
    assert_eq!(message.content, "[tool_call: bash]");
    assert_eq!(message.invocations[0].arguments.as_ref().unwrap().render(), r#"{"cmd":"ls"}"#);

    let huge = "x".repeat(MAX_TOOL_ARGUMENTS_BYTES + 1);
    let big_call =
        format!(r#"{{"role": "assistant", "tool_calls": [{{"name": "w", "arguments": {{"blob": "{huge}"}}}}]}}"#);
    let message = message_from_chat_message(&big_call, None, None).unwrap();
    let marker = message.invocations[0].arguments.as_ref().unwrap().as_str().unwrap();
    assert!(marker.starts_with("[OMITTED large JSON payload bytes="), "{marker}");
}

#[test]
fn scan_and_discovery_resolve_the_store_from_a_scan_root() {
    let dir = TempDir::new();
    let devin_root = dir.path().join("devin");
    let cli_dir = devin_root.join("cli");
    let db_path = cli_dir.join("sessions.db");
    dir.write(&db_path, "");
    let databases = || vec![DevinDatabase { path: path(&db_path), sessions: Some(reference_rows()) }];
    let scan = |ctx: &ScanContext| {
        DevinConnector::new().scan(ctx, &nowhere(), &dir.table(), &databases())
    };
    let sources_of =
        |ctx: &ScanContext| DevinConnector::new().discover_source_files(ctx, &nowhere(), &dir.table());

    let ctx = with_roots(
        dir.path().join("cass-data"),
        vec![
            local(&devin_root),
            local(&cli_dir),
            local(&db_path),
            local(dir.path().join("nothing-here")),
        ],
        None,
    );
    assert_eq!(scan(&ctx).len(), 1);
    let sources = sources_of(&ctx);
    assert_eq!(sources.len(), 1);
    assert_eq!(sources[0].source_path.text(), path(&db_path).text());
    assert!(matches!(sources[0].role, SourceRole::SqliteDatabase));
    assert_eq!(sources[0].scan_root.text(), path(&devin_root).text());

    assert_eq!(scan(&local_default(&devin_root, None)).len(), 1);
    assert_eq!(scan(&local_default(&db_path, None)).len(), 1);

    let empty = with_roots(
        dir.path().join("cass-data"),
        vec![local(dir.path().join("nothing-here"))],
        None,
    );
    assert!(scan(&empty).is_empty());
    assert!(sources_of(&empty).is_empty());
}

#[test]
fn database_path_from_root_accepts_file_cli_dir_and_data_root() {
    let dir = TempDir::new();
    let cli = dir.path().join("cli");
    dir.write(cli.join("sessions.db"), b"");
    let from = |p: &Path| PathBuf::from(DevinConnector::database_path_from_root(&dir.table(), &path(p)).text());
    assert_eq!(from(dir.path()), cli.join("sessions.db"));
    assert_eq!(from(&cli), cli.join("sessions.db"));
    let file = dir.path().join("other.db");
    assert_eq!(from(&file), file);
    let missing = dir.path().join("missing");
    assert_eq!(from(&missing), missing.join("sessions.db"));
}

#[test]
fn devin_stores_that_cannot_be_read_are_passed_over() {
    let mut rows = reference_rows();
    rows[0].nodes = None;
    assert!(DevinConnector::extract_from_sqlite(&path("/db"), &rows, None).is_err());
    assert!(!DevinConnector::new().detect(None).detected);
}

#[test]
fn devin_sessions_of_one_name_are_read_once() {
    let mut rows = reference_rows();
    rows.extend(reference_rows());
    let convs = extract(&rows, None);
    assert_eq!(convs.len(), 1);
    assert_eq!(convs[0].external_id.as_deref(), Some("bald-ketch"));
    assert!(extract(&rows, Some(1_786_004_400_001)).is_empty());
}

#[test]
fn devin_image_payloads_never_reach_the_text() {
    let with = |payload: &str| {
        let text = format!(r#"{{"role": "user", "content": "look", "images": [{{"base64_data": "{payload}"}}]}}"#);
        message_from_chat_message(&text, Some(7), None).unwrap()
    };
    assert_eq!(with("AAAA").content, "[image]\nlook");
    assert_eq!(with("BBBB").content, with("AAAA").content);
    assert_eq!(with("BBBB").extra.render(), with("AAAA").extra.render());
}

#[test]
fn devin_store_with_unreadable_messages_is_not_read() {
    let mut rows = reference_rows();
    rows[0].nodes = None;
    assert!(DevinConnector::extract_from_sqlite(&path("/db/sessions.db"), &rows, None).is_err());
}

#[test]
fn devin_documents_are_rendered_with_keys_in_order() {
    let rows = reference_rows();
    let found = DevinConnector::extract_from_sqlite(&path("/db/sessions.db"), &rows, None).ok().unwrap();
    assert_eq!(
        found[0].metadata.render(),
        "{\"agent_mode\":\"bypass\",\"main_chain_id\":5,\"main_chain_nodes\":5,\"model\":\"swe-1-7\",\
         \"off_chain_nodes\":1,\"session_id\":\"bald-ketch\",\"source\":\"sqlite\"}"
    );
    assert_eq!(found[0].messages[0].extra.render(), r#"{"is_user_input":true,"message_id":"m2"}"#);
    assert_eq!(
        found[0].messages[1].extra.render(),
        r#"{"message_id":"m3","thinking":"I should read it first."}"#
    );
    let call = &found[0].messages[1].invocations[0];
    assert_eq!(call.arguments.as_ref().unwrap().render(), r#"{"path":"hello.py"}"#);
}
