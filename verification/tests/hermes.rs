use agent_sessions::files::{FileEntry, FileKind, FileTable};
use agent_sessions::hermes::{
    parse_tool_calls, HermesConnector, HermesDatabase, HermesMessage, HermesRows, HermesSession,
};
use agent_sessions::json::parse_json;
use agent_sessions::model::{Conversation, Invocation, Message};
use agent_sessions::path::SourcePath;
use agent_sessions::scan::{ScanContext, ScanRoot, SourceRole, Surroundings};
use agent_sessions::stamp::real_to_millis;

/// Files in memory, in the order in which a walk would find them.
struct Disk {
    entries: Vec<FileEntry>,
}

impl Disk {
    fn new() -> Disk {
        Disk { entries: Vec::new() }
    }

    fn put(&mut self, path: &str, kind: FileKind, content: Option<&[u8]>) {
        let at = SourcePath::new(path).text();
        if let Some(old) = self.entries.iter_mut().find(|e| e.path.text() == at) {
            old.kind = kind;
            old.content = content.map(|c| c.to_vec());
            return;
        }
        if let Some(parent) = SourcePath::new(path).parent() {
            if parent.text() != "" && !self.entries.iter().any(|e| e.path.text() == parent.text()) {
                self.put(&parent.text(), FileKind::Directory, None);
            }
        }
        self.entries.push(FileEntry {
            path: SourcePath::new(path),
            kind,
            canonical: SourcePath::new(path),
            fresh: true,
            content: content.map(|c| c.to_vec()),
        });
    }

    fn folder(&mut self, path: &str) {
        self.put(path, FileKind::Directory, None);
    }

    fn file(&mut self, path: &str, content: &str) {
        self.put(path, FileKind::File, Some(content.as_bytes()));
    }

    fn table(self) -> FileTable {
        FileTable { entries: self.entries }
    }
}

fn nowhere() -> Surroundings {
    Surroundings { home: None, data: None, local_data: None, config: None, variables: Vec::new() }
}

fn millis(val: f64) -> Option<i64> {
    real_to_millis(val.to_bits())
}

#[test]
fn real_to_millis_converts_epoch_seconds() {
    assert_eq!(millis(1_700_000_000.0), Some(1_700_000_000_000));
    assert_eq!(millis(1_700_000_000.123), Some(1_700_000_000_123));
}

#[test]
fn real_to_millis_passes_through_epoch_millis() {
    assert_eq!(millis(1_700_000_000_000.0), Some(1_700_000_000_000));
}

#[test]
fn real_to_millis_rejects_invalid() {
    assert_eq!(millis(f64::NAN), None);
    assert_eq!(millis(f64::INFINITY), None);
    assert_eq!(millis(0.0), None);
    assert_eq!(millis(-1.0), None);
}

#[test]
fn real_to_millis_agrees_with_the_machine() {
    let cast = |val: f64| -> Option<i64> {
        if val.is_nan() || val.is_infinite() || val <= 0.0 {
            None
        } else if (1_000_000_000.0..10_000_000_000.0).contains(&val) {
            Some((val * 1000.0) as i64)
        } else if val >= 10_000_000_000.0 {
            Some(val as i64)
        } else {
            None
        }
    };
    for val in [
        1.5e-310,
        1.0,
        999_999_999.999_999,
        1_000_000_000.0,
        1_234_567_890.987_654,
        1_700_000_000.000_5,
        4_102_444_799.999_9,
        9_999_999_999.999,
        10_000_000_000.0,
        1.7e12,
        9.3e18,
        1.0e300,
        -1_700_000_000.0,
        -0.0,
        f64::NEG_INFINITY,
    ] {
        assert_eq!(millis(val), cast(val), "{val}");
    }
}

#[test]
fn parse_tool_calls_extracts_invocations() {
    let json = r#"[{"name":"terminal","arguments":{"command":"ls","workdir":"/tmp"}},{"name":"read_file","arguments":{"path":"/etc/hosts"}}]"#;
    let invocations = parse_tool_calls(Some(json));
    assert_eq!(invocations.len(), 2);
    assert_eq!(invocations[0].name, "terminal");
    assert_eq!(invocations[1].name, "read_file");
}

#[test]
fn parse_tool_calls_handles_empty_and_null() {
    assert!(parse_tool_calls(None).is_empty());
    assert!(parse_tool_calls(Some("[]")).is_empty());
    assert!(parse_tool_calls(Some("not json")).is_empty());
    assert!(parse_tool_calls(Some(r#"{"name":"terminal"}"#)).is_empty());
    assert!(parse_tool_calls(Some(r#"[{"id":"x"}, 7]"#)).is_empty());
}

fn calling(name: &str, arguments: &str) -> Vec<Message> {
    vec![Message {
        idx: 0,
        role: "assistant".to_string(),
        author: None,
        created_at: None,
        content: String::new(),
        extra: parse_json("{}").unwrap(),
        invocations: vec![Invocation {
            kind: "tool".to_string(),
            name: name.to_string(),
            raw_name: None,
            call_id: None,
            arguments: parse_json(arguments),
        }],
    }]
}

#[test]
fn infer_workspace_from_terminal_workdir() {
    let messages = calling("terminal", r#"{"command": "ls", "workdir": "/home/user/project"}"#);
    assert_eq!(HermesConnector::infer_workspace(&messages).as_deref(), Some("/home/user/project"));
}

#[test]
fn infer_workspace_from_file_path() {
    let messages = calling("write_file", r#"{"path": "/home/user/project/src/main.rs"}"#);
    assert_eq!(HermesConnector::infer_workspace(&messages).as_deref(), Some("/home/user/project/src"));
}

#[test]
fn hermes_calls_that_say_nothing_of_a_place_are_passed_over() {
    let mut messages = calling("read_file", r#"{"path": "relative/file"}"#);
    messages.extend(calling("other", r#"{"workdir": "/no"}"#));
    messages.extend(calling("patch", r#"{"file_path": "/a/b"}"#));
    assert_eq!(HermesConnector::infer_workspace(&messages).as_deref(), Some("/a"));
    let root = calling("patch", r#"{"path": "/"}"#);
    assert_eq!(HermesConnector::infer_workspace(&root), None);
}

#[test]
fn discover_source_files_includes_state_db_candidates() {
    let mut disk = Disk::new();
    disk.file("/t/hermes-home/state.db", "not a real sqlite db");
    disk.file("/t/nested-home/.hermes/state.db", "not a real sqlite db");
    let roots = vec![
        ScanRoot::local(SourcePath::new("/t/hermes-home")),
        ScanRoot::local(SourcePath::new("/t/nested-home")),
    ];
    let ctx = ScanContext::with_roots(SourcePath::new("/t"), roots, None);
    let sources = HermesConnector::new().discover_source_files(&ctx, &nowhere(), &disk.table());
    let mut paths: Vec<String> = sources.iter().map(|s| s.source_path.text()).collect();
    paths.sort();
    assert_eq!(paths, vec!["/t/hermes-home/state.db", "/t/nested-home/.hermes/state.db"]);
    assert!(sources.iter().all(|source| {
        source.provider_slug == "hermes"
            && matches!(source.role, SourceRole::SqliteDatabase)
            && source.required_for_reconstruction
    }));
}

fn session(id: &str) -> HermesSession {
    HermesSession {
        id: id.to_string(),
        source: Some("cli".to_string()),
        model: Some("m-1".to_string()),
        title: None,
        parent_session_id: None,
        started_at: None,
        ended_at: None,
        end_reason: None,
        message_count: Some(2),
        tool_call_count: None,
        input_tokens: Some(-1),
        output_tokens: None,
    }
}

fn row(role: &str, content: &str, at: f64) -> HermesMessage {
    HermesMessage {
        role: Some(role.to_string()),
        content: Some(content.to_string()),
        tool_calls: None,
        tool_name: None,
        tool_call_id: None,
        reasoning: None,
        timestamp: Some(at.to_bits()),
    }
}

fn extract(rows: Vec<HermesRows>, since: Option<i64>) -> Result<Vec<Conversation>, ()> {
    HermesConnector::extract_from_sqlite(&SourcePath::new("/db/state.db"), &rows, since).map_err(|_| ())
}

#[test]
fn hermes_sessions_become_conversations() {
    let mut thought = row("assistant", "The answer", 1_700_000_005.5);
    thought.reasoning = Some("because".to_string());
    thought.tool_calls = Some(r#"[{"id":"c1","name":"terminal","arguments":{"workdir":"/w"}}]"#.to_string());
    let mut tool = row("tool", "done", 1_700_000_006.0);
    tool.tool_name = Some("terminal".to_string());
    tool.tool_call_id = Some("c1".to_string());
    let messages = vec![
        row("session_meta", "ignored", 1_700_000_000.0),
        row("user", "What is it?\nTell me", 1_700_000_001.0),
        row("assistant", "   ", 1_700_000_002.0),
        thought,
        tool,
    ];
    let found = extract(vec![HermesRows { session: session("a/b c"), messages: Some(messages) }], None).unwrap();
    assert_eq!(found.len(), 1);
    let c = &found[0];
    assert_eq!(c.agent_slug, "hermes");
    assert_eq!(c.external_id.as_deref(), Some("a/b c"));
    assert_eq!(c.title.as_deref(), Some("What is it?"));
    assert_eq!(c.workspace.as_deref(), Some("/w"));
    assert_eq!(c.source_path.text(), "/db/state.db/a%2Fb%20c");
    assert_eq!(c.started_at, Some(1_700_000_001_000));
    assert_eq!(c.ended_at, Some(1_700_000_006_000));
    assert_eq!(
        c.metadata.render(),
        r#"{"end_reason":null,"input_tokens":-1,"message_count":2,"model":"m-1","output_tokens":null,"parent_session_id":null,"session_id":"a/b c","source":"cli","tool_call_count":null}"#
    );
    let said: Vec<(i64, &str, Option<&str>, &str)> = c
        .messages
        .iter()
        .map(|m| (m.idx, m.role.as_str(), m.author.as_deref(), m.content.as_str()))
        .collect();
    assert_eq!(
        said,
        vec![
            (0, "user", Some("user"), "What is it?\nTell me"),
            (1, "assistant", None, "The answer\n\n[reasoning]\nbecause"),
            (2, "tool", Some("terminal"), "done"),
        ]
    );
    assert_eq!(c.messages[1].extra.render(), r#"{"has_reasoning":true}"#);
    assert_eq!(c.messages[1].created_at, Some(1_700_000_005_500));
    assert_eq!(c.messages[1].invocations[0].call_id.as_deref(), Some("c1"));
    assert_eq!(c.messages[2].extra.render(), r#"{"tool_call_id":"c1","tool_name":"terminal"}"#);
}

#[test]
fn hermes_sessions_are_read_once_and_only_if_touched() {
    let one = |id: &str, at: Option<f64>| {
        let mut s = session(id);
        s.ended_at = at.map(|t| t.to_bits());
        HermesRows { session: s, messages: Some(vec![row("user", "hi", 1_700_000_000.0)]) }
    };
    let rows = vec![one("a", None), one("a", None), one("b", Some(1_700_000_100.0))];
    let found = extract(rows, None).unwrap();
    let ids: Vec<&str> = found.iter().map(|c| c.external_id.as_deref().unwrap()).collect();
    assert_eq!(ids, ["a", "b"]);
    let rows = vec![one("a", None), one("b", Some(1_700_000_100.0))];
    let found = extract(rows, Some(1_700_000_100_000)).unwrap();
    assert_eq!(found.len(), 1);
    assert_eq!(found[0].external_id.as_deref(), Some("b"));
}

#[test]
fn hermes_messages_that_cannot_be_read_fail_the_database() {
    let good = HermesRows { session: session("a"), messages: Some(vec![row("user", "hi", 1.0)]) };
    let bad = HermesRows { session: session("b"), messages: None };
    assert!(extract(vec![good, bad], None).is_err());
    let mut stale = session("b");
    stale.ended_at = Some(1_700_000_000.0_f64.to_bits());
    let skipped = HermesRows { session: stale, messages: None };
    assert!(extract(vec![skipped], Some(1_800_000_000_000)).unwrap().is_empty());
}

#[test]
fn hermes_scan_reads_each_database_once() {
    let mut disk = Disk::new();
    disk.file("/h/.hermes/state.db", "");
    let database = HermesDatabase {
        path: SourcePath::new("/h/.hermes/state.db"),
        sessions: Some(vec![HermesRows {
            session: session("s"),
            messages: Some(vec![row("user", "hi", 1_700_000_000.0)]),
        }]),
    };
    let mut s = nowhere();
    s.home = Some(SourcePath::new("/h"));
    let ctx = ScanContext::local_default(SourcePath::new("/h/.hermes"), None);
    let files = disk.table();
    let found = HermesConnector::new().scan(&ctx, &s, &files, &vec![database]);
    assert_eq!(found.len(), 1);
    let unread = HermesDatabase { path: SourcePath::new("/h/.hermes/state.db"), sessions: None };
    assert!(HermesConnector::default().scan(&ctx, &s, &files, &vec![unread]).is_empty());
    assert_eq!(
        HermesConnector::sqlite_db_path(&files, &s).map(|p| p.text()).as_deref(),
        Some("/h/.hermes/state.db")
    );
    s.variables.push(("HERMES_HOME".to_string(), "/elsewhere".to_string()));
    assert!(HermesConnector::sqlite_db_path(&files, &s).is_some(), "a home without a database is passed over");
    assert!(!HermesConnector::new().detect(None).detected);
}
