use agent_sessions::boundaries::{advance, begin, Event, SourceRules, Step};
use agent_sessions::bytes::percent_decode;
use agent_sessions::files::{FileEntry, FileKind, FileTable};
use agent_sessions::grok::{parse_session, rules_of, GrokConnector};
use agent_sessions::grok_updates::{extract_tagged_blocks, flatten_tool_content, tool_output_text};
use agent_sessions::json::parse_json;
use agent_sessions::model::Conversation;
use agent_sessions::path::SourcePath;
use agent_sessions::scan::{ScanContext, ScanRoot, Surroundings};
use agent_sessions::stamp::rfc3339_millis_of;

/// Files in memory, in the order in which a walk would find them.
struct Disk {
    entries: Vec<FileEntry>,
}

impl Disk {
    fn new() -> Disk {
        Disk { entries: Vec::new() }
    }

    fn put(&mut self, path: &str, kind: FileKind, content: Option<&[u8]>) {
        let at = SourcePath::new(path).text();
        if let Some(old) = self.entries.iter_mut().find(|e| e.path.text() == at) {
            old.kind = kind;
            old.content = content.map(|c| c.to_vec());
            return;
        }
        if let Some(parent) = SourcePath::new(path).parent() {
            if parent.text() != "" && !self.entries.iter().any(|e| e.path.text() == parent.text()) {
                self.put(&parent.text(), FileKind::Directory, None);
            }
        }
        self.entries.push(FileEntry {
            path: SourcePath::new(path),
            kind,
            canonical: SourcePath::new(path),
            fresh: true,
            content: content.map(|c| c.to_vec()),
        });
    }

    fn folder(&mut self, path: &str) {
        self.put(path, FileKind::Directory, None);
    }

    fn file(&mut self, path: &str, content: &str) {
        self.put(path, FileKind::File, Some(content.as_bytes()));
    }

    fn table(self) -> FileTable {
        FileTable { entries: self.entries }
    }
}

fn nowhere() -> Surroundings {
    Surroundings { home: None, data: None, local_data: None, config: None, variables: Vec::new() }
}

const SESSION_ID: &str = "019f75d0-ebe1-7db0-a59a-60af9ffa9e71";
const ENCODED_CWD: &str = "%2Fdata%2Fprojects%2Fdemo";

fn envelope(update: &str, ts_secs: i64) -> String {
    format!(
        r#"{{"timestamp":{ts_secs},"method":"_x.ai/session/update","params":{{"sessionId":"{SESSION_ID}","update":{update},"_meta":{{"eventId":"{SESSION_ID}-1","agentTimestampMs":{}}}}}}}"#,
        ts_secs * 1000
    )
}

fn text_chunk(kind: &str, text: &str) -> String {
    format!(r#"{{"sessionUpdate":"{kind}","content":{{"type":"text","text":"{text}"}}}}"#)
}

fn session_dir(root: &str) -> String {
    format!("{root}/sessions/{ENCODED_CWD}/{SESSION_ID}")
}

fn write_session(disk: &mut Disk, root: &str, lines: &[String]) -> String {
    let dir = session_dir(root);
    disk.file(&format!("{dir}/updates.jsonl"), &(lines.join("\n") + "\n"));
    let summary = format!(
        r#"{{
            "info": {{"id": "{SESSION_ID}", "cwd": "/data/projects/demo"}},
            "session_summary": "Fix the flaky test",
            "created_at": "2026-07-18T15:20:54.103795421Z",
            "updated_at": "2026-07-18T15:20:59.770364197Z",
            "last_active_at": "2026-07-18T15:20:59.770364197Z",
            "num_messages": 4,
            "current_model_id": "grok-build",
            "generated_title": "Fix the flaky test",
            "agent_name": "grok-build-plan",
            "sandbox_profile": "off"
        }}"#
    );
    disk.file(&format!("{dir}/summary.json"), &summary);
    dir
}

fn ctx_for(root: &str) -> ScanContext {
    ScanContext::with_roots(
        SourcePath::new("/cass-data"),
        vec![ScanRoot::local(SourcePath::new(root))],
        None,
    )
}

fn parse(disk: Disk, dir: &str) -> Option<Conversation> {
    parse_session(&disk.table(), &SourcePath::new(dir))
}

#[test]
fn default_detection_scopes_to_grok_base_data_dir() {
    let mut disk = Disk::new();
    write_session(
        &mut disk,
        "/t",
        &[
            envelope(&text_chunk("user_message_chunk", "hello"), 1_784_388_056),
            envelope(&text_chunk("agent_message_chunk", "hi there"), 1_784_388_057),
        ],
    );
    let ctx = ScanContext::local_default(SourcePath::new("/t"), None);
    let convs = GrokConnector.scan(&ctx, &nowhere(), &disk.table());
    assert_eq!(convs.len(), 1);
    assert_eq!(convs[0].external_id.as_deref(), Some(SESSION_ID));
}

#[test]
fn parses_chunked_conversation_with_tool_calls() {
    let lines = vec![
        envelope(
            r#"{"sessionUpdate": "hook_execution", "event_name": "user_prompt_submit", "runs": []}"#,
            1_784_388_056,
        ),
        envelope(&text_chunk("user_message_chunk", "Fix the flaky "), 1_784_388_057),
        envelope(&text_chunk("user_message_chunk", "test"), 1_784_388_057),
        envelope(&text_chunk("agent_thought_chunk", "The test is timing-sensitive."), 1_784_388_058),
        envelope(&text_chunk("agent_message_chunk", "Looking at the "), 1_784_388_058),
        envelope(&text_chunk("agent_message_chunk", "test now."), 1_784_388_058),
        envelope(
            r#"{"sessionUpdate": "tool_call", "toolCallId": "call-1", "title": "run_shell", "kind": "execute",
                "status": "in_progress", "rawInput": {"command": "cargo test flaky -- --nocapture"}}"#
                .replace('\n', " ")
                .as_str(),
            1_784_388_059,
        ),
        envelope(
            r#"{"sessionUpdate": "tool_call_update", "toolCallId": "call-1", "status": "completed",
                "content": [{"type": "content", "content": {"type": "text", "text": "test flaky ... ok"}}]}"#
                .replace('\n', " ")
                .as_str(),
            1_784_388_060,
        ),
        envelope(&text_chunk("agent_message_chunk", "Fixed."), 1_784_388_061),
    ];
    let mut disk = Disk::new();
    let dir = write_session(&mut disk, "/t", &lines);
    let conv = parse(disk, &dir).expect("session parses");
    assert_eq!(conv.agent_slug, "grok");
    assert_eq!(conv.external_id.as_deref(), Some(SESSION_ID));
    assert_eq!(conv.title.as_deref(), Some("Fix the flaky test"));
    assert_eq!(conv.workspace.as_deref(), Some("/data/projects/demo"));
    assert_eq!(conv.metadata.get_str("model"), Some("grok-build"));
    assert_eq!(
        conv.metadata.render(),
        r#"{"agent_name":"grok-build-plan","model":"grok-build","sandbox_profile":"off","source":"grok"}"#
    );

    let roles: Vec<&str> = conv.messages.iter().map(|m| m.role.as_str()).collect();
    assert_eq!(roles, vec!["user", "assistant", "assistant", "tool", "assistant"]);
    assert_eq!(conv.messages[0].content, "Fix the flaky test");
    assert_eq!(conv.messages[1].author.as_deref(), Some("reasoning"));
    assert_eq!(conv.messages[2].content, "Looking at the test now.");
    assert_eq!(conv.messages[2].author.as_deref(), Some("grok-build"));
    let tool = &conv.messages[3];
    assert_eq!(tool.invocations.len(), 1);
    assert_eq!(tool.invocations[0].name, "run_shell");
    assert_eq!(tool.invocations[0].call_id.as_deref(), Some("call-1"));
    assert_eq!(tool.content, "test flaky ... ok");
    assert_eq!(tool.extra.get_str("status"), Some("completed"));
    assert_eq!(tool.extra.get_str("tool_kind"), Some("execute"));
    assert_eq!(conv.messages[4].content, "Fixed.");
    assert_eq!(conv.started_at, rfc3339_millis_of("2026-07-18T15:20:54.103795421Z"));
    assert_eq!(conv.ended_at, rfc3339_millis_of("2026-07-18T15:20:59.770364197Z"));
    assert_eq!(conv.started_at, Some(1_784_388_054_103));
    assert_eq!(conv.messages[4].created_at, Some(1_784_388_061_000));
}

#[test]
fn falls_back_to_chat_history_when_updates_carry_no_messages() {
    let lines = vec![envelope(
        r#"{"sessionUpdate": "retry_state", "type": "failed", "error_type": "api", "message": "API error (status 404 Not Found)"}"#,
        1_784_388_058,
    )];
    let mut disk = Disk::new();
    let dir = write_session(&mut disk, "/t", &lines);
    disk.file(
        &format!("{dir}/chat_history.jsonl"),
        &[
            r#"{"type": "system", "content": "You are Grok."}"#,
            r#"{"type": "user", "content": [{"type": "text", "text": "<user_info>\nOS: linux\n</user_info>"}]}"#,
            r#"{"type": "user", "synthetic_reason": "skills", "content": [{"type": "text", "text": "<system-reminder>skills</system-reminder>"}]}"#,
            r#"{"type": "user", "prompt_index": 0, "content": [{"type": "text", "text": "<user_query>\nRun the tests\n</user_query>"}]}"#,
        ]
        .join("\n"),
    );
    let conv = parse(disk, &dir).expect("fallback parses");
    assert_eq!(conv.source_path.text(), format!("{dir}/chat_history.jsonl"));
    assert_eq!(conv.messages.len(), 1);
    assert_eq!(conv.messages[0].role, "user");
    assert_eq!(conv.messages[0].content, "Run the tests");
    assert_eq!(conv.messages[0].extra.get("chat_history_fallback").unwrap().as_bool(), Some(true));
}

#[test]
fn unrun_session_yields_no_conversation() {
    let mut disk = Disk::new();
    let dir = write_session(&mut disk, "/t", &[]);
    assert!(parse(disk, &dir).is_none());
}

#[test]
fn scan_discovers_sessions_from_base_root() {
    let lines = vec![
        envelope(&text_chunk("user_message_chunk", "hello"), 1_784_388_057),
        envelope(&text_chunk("agent_message_chunk", "hi"), 1_784_388_058),
    ];
    let mut disk = Disk::new();
    write_session(&mut disk, "/t", &lines);
    disk.file("/t/sessions/session_search.sqlite", "x");
    disk.file(&format!("/t/sessions/{ENCODED_CWD}/prompt_history.jsonl"), "{}\n");
    let files = disk.table();
    let connector = GrokConnector::new();
    let ctx = ctx_for("/t");
    let convs = connector.scan(&ctx, &nowhere(), &files);
    assert_eq!(convs.len(), 1);
    assert_eq!(convs[0].agent_slug, "grok");
    assert_eq!(convs[0].messages.len(), 2);
    assert_eq!(connector.scan(&ctx_for("/t/sessions"), &nowhere(), &files).len(), 1);
    let group = format!("/t/sessions/{ENCODED_CWD}");
    assert_eq!(connector.scan(&ctx_for(&group), &nowhere(), &files).len(), 1);
    assert_eq!(connector.scan(&ctx_for(&session_dir("/t")), &nowhere(), &files).len(), 1);
    let sources = connector.discover_source_files(&ctx, &nowhere(), &files);
    assert!(sources.iter().any(|s| s.source_path.text() == convs[0].source_path.text()));
    assert_eq!(sources.len(), 2);
}

#[test]
fn workspace_falls_back_to_percent_decoded_group_name() {
    let mut disk = Disk::new();
    let dir = session_dir("/t");
    disk.file(
        &format!("{dir}/updates.jsonl"),
        &(envelope(&text_chunk("user_message_chunk", "hi"), 1_784_388_057) + "\n"),
    );
    let conv = parse(disk, &dir).expect("parses");
    assert_eq!(conv.workspace.as_deref(), Some("/data/projects/demo"));
    assert_eq!(conv.external_id.as_deref(), Some(SESSION_ID));
    assert_eq!(conv.title.as_deref(), Some("hi"));
    assert_eq!(conv.started_at, Some(1_784_388_057_000));
}

#[test]
fn cwd_file_overrides_group_name_decoding() {
    let mut disk = Disk::new();
    let dir = format!("/t/sessions/very-long-slug-abc123/{SESSION_ID}");
    disk.file("/t/sessions/very-long-slug-abc123/.cwd", "/real/workspace/path\n");
    disk.file(
        &format!("{dir}/updates.jsonl"),
        &(envelope(&text_chunk("user_message_chunk", "hi"), 1_784_388_057) + "\n"),
    );
    let conv = parse(disk, &dir).expect("parses");
    assert_eq!(conv.workspace.as_deref(), Some("/real/workspace/path"));
}

#[test]
fn percent_decode_rejects_malformed_escapes() {
    assert_eq!(percent_decode("%2Fa%2Fb"), Some("/a/b".to_string()));
    assert_eq!(percent_decode("plain"), Some("plain".to_string()));
    assert_eq!(percent_decode("%2"), None);
    assert_eq!(percent_decode("%zz"), None);
    assert_eq!(percent_decode("%e9%9b%aa x"), Some("雪 x".to_string()));
    assert_eq!(percent_decode("%ff"), None);
}

#[test]
fn grok_updates_of_unknown_calls_are_messages() {
    let mut disk = Disk::new();
    let dir = session_dir("/t");
    let lines = [
        r#"{"update":{"sessionUpdate":"tool_call_update","toolCallId":"lost","rawOutput":{"ok":true}}}"#,
        "not json",
        "",
        r#"{"sessionUpdate":"tool_call","kind":"  "}"#,
    ];
    disk.file(&format!("{dir}/updates.jsonl"), &lines.join("\n"));
    let conv = parse(disk, &dir).expect("parses");
    assert_eq!(conv.messages.len(), 2);
    assert_eq!(conv.messages[0].content, r#"{"ok":true}"#);
    assert_eq!(conv.messages[0].invocations[0].name, "tool");
    assert_eq!(conv.messages[0].invocations[0].call_id.as_deref(), Some("lost"));
    assert_eq!(conv.messages[1].invocations[0].name, "tool");
    assert_eq!(conv.messages[1].content, "");
    assert_eq!(conv.title.as_deref(), Some(r#"{"ok":true}"#));
}

#[test]
fn grok_stream_ends_at_a_line_that_cannot_be_read() {
    let mut disk = Disk::new();
    let dir = session_dir("/t");
    let mut bytes = envelope(&text_chunk("user_message_chunk", "one"), 1).into_bytes();
    bytes.extend_from_slice(b"\n\xff\n");
    bytes.extend_from_slice(envelope(&text_chunk("user_message_chunk", "two"), 2).as_bytes());
    disk.put(&format!("{dir}/updates.jsonl"), FileKind::File, Some(&bytes));
    let conv = parse(disk, &dir).expect("parses");
    assert_eq!(conv.messages.len(), 1);
    assert_eq!(conv.messages[0].content, "one");
}

#[test]
fn grok_contents_are_flattened() {
    let flat = |text: &str| flatten_tool_content(&parse_json(text).unwrap());
    assert_eq!(
        flat(r#"[{"type":"diff","path":"a.rs"},{"type":"diff"},{"type":"terminal"},{"type":"text","text":"t"}]"#),
        "[Diff: a.rs]\n[Diff: file]\n[Terminal output]\nt"
    );
    assert_eq!(flat(r#""plain""#), "plain");
    assert_eq!(flat(r#"{"text":"block"}"#), "block");
    let out = |text: &str| tool_output_text(&parse_json(text).unwrap());
    assert_eq!(out(r#"{"content":[],"rawOutput":"raw"}"#).as_deref(), Some("raw"));
    assert_eq!(out(r#"{"rawOutput":null}"#), None);
    assert_eq!(out(r#"{"rawOutput":" "}"#).as_deref(), Some("\" \""));
    assert_eq!(
        extract_tagged_blocks("<q> a </q>x<q>b</q><q>open", "q"),
        vec!["a".to_string(), "b".to_string()]
    );
}

#[test]
fn grok_units_name_their_files_and_complete_once_read() {
    let mut disk = Disk::new();
    let dir = write_session(
        &mut disk,
        "/t",
        &[envelope(&text_chunk("user_message_chunk", "hello"), 1_784_388_057)],
    );
    disk.file(&format!("{dir}/chat_history.jsonl"), "");
    let files = disk.table();
    let connector = GrokConnector::default();
    assert!(connector.supports_source_boundaries() && connector.supports_streaming_scan());
    let mut units = connector.units(&ctx_for("/t"), &nowhere(), &files);
    assert_eq!(units.len(), 1);
    let unit = units.remove(0);
    assert_eq!(unit.directory.text(), dir);
    assert_eq!(unit.primary.as_ref().unwrap().source_path.text(), format!("{dir}/updates.jsonl"));
    assert_eq!(unit.sidecars.len(), 2);
    let told = unit.completion(true, false).unwrap();
    assert_eq!(told.conversations_emitted, 1);
    assert_eq!(told.required_sidecars.len(), 2);
    for (emitted, changed) in [(false, false), (true, true)] {
        let unit = connector.units(&ctx_for("/t"), &nowhere(), &files).remove(0);
        assert!(unit.completion(emitted, changed).is_none());
    }
}

#[test]
fn grok_sessions_that_did_not_change_are_passed_over() {
    let mut disk = Disk::new();
    write_session(
        &mut disk,
        "/t",
        &[envelope(&text_chunk("user_message_chunk", "hello"), 1_784_388_057)],
    );
    for e in disk.entries.iter_mut() {
        e.fresh = false;
    }
    let files = disk.table();
    let mut ctx = ctx_for("/t");
    assert_eq!(GrokConnector::new().scan(&ctx, &nowhere(), &files).len(), 1);
    ctx.since_ts = Some(5);
    assert!(GrokConnector::new().scan(&ctx, &nowhere(), &files).is_empty());
    assert!(GrokConnector::new().discover_source_files(&ctx, &nowhere(), &files).is_empty());
    assert!(!GrokConnector::new().detect(None).detected);
}

#[test]
fn grok_home_can_be_set() {
    let mut s = nowhere();
    assert_eq!(GrokConnector::base_root(&s).text(), ".grok");
    s.home = Some(SourcePath::new("/home/me"));
    assert_eq!(GrokConnector::base_root(&s).text(), "/home/me/.grok");
    s.variables.push(("GROK_HOME".to_string(), "/g".to_string()));
    assert_eq!(GrokConnector::base_root(&s).text(), "/g");
}

#[test]
fn grok_sessions_are_completed_only_after_they_were_handed_on() {
    let mut disk = Disk::new();
    write_session(
        &mut disk,
        "/t",
        &[envelope(&text_chunk("user_message_chunk", "hello"), 1_784_388_057)],
    );
    let files = disk.table();
    let units = GrokConnector::new().units(&ctx_for("/t"), &nowhere(), &files);
    let rules = rules_of(&units);
    assert_eq!(rules.len(), 1);
    assert!(rules[0].bounded && !rules[0].empty_completes);
    let at = begin(&rules);
    assert!(at.step == Step::Ask);
    assert!(advance(&rules, at, Event::Refused).step == Step::Done, "a refused session is left");
    let at = advance(&rules, at, Event::Accepted);
    assert!(at.step == Step::Read);
    assert!(advance(&rules, at, Event::Empty).step == Step::Done, "one that says nothing never completes");
    assert!(parse_session(&files, &units[0].directory).is_some());
    let at = advance(&rules, at, Event::Found);
    assert!(at.step == Step::Emit);
    let failed = advance(&rules, at, Event::EmitFailed);
    assert!(failed.step == Step::Failed);
    assert!(advance(&rules, failed, Event::Accepted) == failed, "nothing follows a failure");
    let at = advance(&rules, at, Event::Emitted);
    assert!(at.step == Step::Check(1));
    assert!(advance(&rules, at, Event::Changed).step == Step::Done);
    let at = advance(&rules, at, Event::Unchanged);
    assert!(at.step == Step::Complete(1));
    assert!(advance(&rules, at, Event::CompleteFailed).step == Step::Failed);
    assert!(advance(&rules, at, Event::Completed).step == Step::Done);
}

#[test]
fn grok_sessions_without_a_file_to_go_by_are_not_asked_for() {
    let rules = vec![SourceRules { bounded: false, empty_completes: false }];
    let at = begin(&rules);
    assert!(at.step == Step::Read);
    let at = advance(&rules, at, Event::Found);
    assert!(advance(&rules, at, Event::Emitted).step == Step::Done);
    assert!(begin(&Vec::new()).step == Step::Done);
}
