use agent_sessions::codebuff::{CodebuffConnector, TranscriptError};
use agent_sessions::files::{FileEntry, FileKind, FileTable};
use agent_sessions::json::{parse_json, Json};
use agent_sessions::model::{Conversation, Message};
use agent_sessions::path::SourcePath;
use agent_sessions::scan::{Origin, ScanContext, ScanRoot, Surroundings};
use serde_json::Value;

/// Files in memory, in the order in which a walk would find them.
struct Disk {
    entries: Vec<FileEntry>,
}

impl Disk {
    fn new() -> Disk {
        Disk { entries: Vec::new() }
    }

    fn put(&mut self, path: &str, kind: FileKind, content: Option<&[u8]>) {
        let at = SourcePath::new(path).text();
        if let Some(old) = self.entries.iter_mut().find(|e| e.path.text() == at) {
            old.kind = kind;
            old.content = content.map(|c| c.to_vec());
            return;
        }
        if let Some(parent) = SourcePath::new(path).parent() {
            if parent.text() != "" && !self.entries.iter().any(|e| e.path.text() == parent.text()) {
                self.put(&parent.text(), FileKind::Directory, None);
            }
        }
        self.entries.push(FileEntry {
            path: SourcePath::new(path),
            kind,
            canonical: SourcePath::new(path),
            fresh: true,
            content: content.map(|c| c.to_vec()),
        });
    }

    fn folder(&mut self, path: &str) {
        self.put(path, FileKind::Directory, None);
    }

    fn file(&mut self, path: &str, content: &str) {
        self.put(path, FileKind::File, Some(content.as_bytes()));
    }

    fn table(self) -> FileTable {
        FileTable { entries: self.entries }
    }
}

fn nowhere() -> Surroundings {
    Surroundings { home: None, data: None, local_data: None, config: None, variables: Vec::new() }
}

fn show_message(m: &Message) -> String {
    let calls: Vec<String> = m
        .invocations
        .iter()
        .map(|c| {
            format!(
                "{} {} {:?} {:?} {:?}",
                c.kind,
                c.name,
                c.raw_name,
                c.call_id,
                c.arguments.as_ref().map(|a| a.render())
            )
        })
        .collect();
    format!(
        "{} {} {:?} {:?} {:?} {} {:?}",
        m.idx,
        m.role,
        m.author,
        m.created_at,
        m.content,
        m.extra.render(),
        calls
    )
}

fn show(c: &Conversation) -> String {
    let messages: Vec<String> = c.messages.iter().map(show_message).collect();
    format!(
        "{} {:?} {:?} {:?} {} {:?} {:?} {} {:?}",
        c.agent_slug,
        c.external_id,
        c.title,
        c.workspace,
        c.source_path.text(),
        c.started_at,
        c.ended_at,
        c.metadata.render(),
        messages
    )
}

const CHAT: &str = "2026-09-01T12-00-00.000Z";

fn value(text: &str) -> Value {
    serde_json::from_str(text).unwrap()
}

fn records() -> Value {
    value(
        r#"[
        {"id":"user-native-1", "variant":"user", "content":"Find the needle 雪",
         "timestamp":"2026-09-01T12:00:00.000Z"},
        {"id":"ai-native-2", "variant":"ai", "content":"",
         "timestamp":"2026-09-01T12:00:00.000Z", "credits":1.25,
         "blocks":[
             {"type":"text", "content":"Looking first", "textType":"reasoning"},
             {"type":"tool", "toolCallId":"call-native-1", "toolName":"read_files",
              "input":{"paths":["src/main.rs"]}, "output":"needle is on line 7"},
             {"type":"agent", "agentId":"helper-1", "agentName":"Critic",
              "agentType":"critic", "content":"Nested assessment", "status":"complete",
              "blocks":[{"type":"plan","content":"Preserve the original"}]},
             {"type":"text", "content":"Found the needle"}
         ], "metadata":{"runState":{"unrelated_private_context":"not transcript"}}},
        {"id":"agent-native-3", "variant":"agent", "content":"Review done",
         "parentId":"ai-native-2", "timestamp":"2026-09-01T12:00:01.000Z",
         "agent":{"agentName":"Critic", "agentType":"critic", "responseCount":1}},
        {"id":"error-native-4", "variant":"error", "content":"Optional tool unavailable",
         "timestamp":"2026-09-01T12:00:02.000Z"}
    ]"#,
    )
}

fn state() -> &'static str {
    r#"{
        "traceSessionId":"trace-native-1",
        "output":{"type":"structuredOutput","value":{}},
        "sessionState":{
            "fileContext":{"projectRoot":"/work/actual full project 雪","cwd":"/work/actual full project 雪"},
            "mainAgentState":{"contextTokenCount":321,"creditsUsed":1.25}
        }
    }"#
}

fn fixture(disk: &mut Disk, root: &str, project: &str, records: &Value) -> String {
    let directory = format!("{root}/.config/manicode/projects/{project}/chats/{CHAT}");
    let path = format!("{directory}/chat-messages.json");
    disk.file(&path, &records.to_string());
    disk.file(&format!("{directory}/run-state.json"), state());
    path
}

fn local(path: &str) -> ScanRoot {
    ScanRoot::local(SourcePath::new(path))
}

fn context(root: &str) -> ScanContext {
    ScanContext::with_roots(SourcePath::new("/cass-state"), vec![local(root)], None)
}

fn scan(files: &FileTable, ctx: &ScanContext) -> Result<Vec<Conversation>, TranscriptError> {
    CodebuffConnector::new().scan(ctx, &nowhere(), files)
}

fn scanned(files: &FileTable, ctx: &ScanContext) -> Vec<Conversation> {
    match scan(files, ctx) {
        Ok(found) => found,
        Err(_) => panic!("the scan failed"),
    }
}

fn shown(v: Option<&Json>) -> String {
    v.unwrap().render()
}

#[test]
fn gh423_shared_schema_preserves_chronology_ids_workspace_tools_and_token_provenance() {
    let mut disk = Disk::new();
    let path = fixture(&mut disk, "/d", "ambiguous-basename", &records());
    let files = disk.table();
    let connector = CodebuffConnector::new();
    let ctx = context("/d");
    let discovered = connector.discover_source_files(&ctx, &nowhere(), &files);
    assert_eq!(discovered.len(), 2);
    assert!(discovered.iter().any(|s| s.source_path.text() == path && s.required_for_reconstruction));
    let conversations = scanned(&files, &ctx);
    assert_eq!(conversations.len(), 1);
    let conv = &conversations[0];
    assert_eq!(conv.agent_slug, "codebuff");
    assert_eq!(
        conv.external_id.as_deref(),
        Some("[\"/d/.config/manicode\",\"ambiguous-basename\",\"2026-09-01T12-00-00.000Z\"]")
    );
    assert_eq!(conv.workspace.as_deref(), Some("/work/actual full project 雪"));
    assert_eq!(conv.source_path.text(), path);
    assert_eq!(
        conv.messages.iter().map(|m| (m.idx, m.role.as_str())).collect::<Vec<_>>(),
        vec![(0, "user"), (1, "assistant"), (2, "assistant"), (3, "system")]
    );
    assert_eq!(conv.messages[0].created_at, Some(1_788_264_000_000));
    assert_eq!(conv.messages[1].created_at, conv.messages[0].created_at);
    assert_eq!(
        conv.messages[1].content,
        "Looking first\nread_files: {\"paths\":[\"src/main.rs\"]}\nneedle is on line 7\nNested assessment\nPreserve the original\nFound the needle"
    );
    let extra = &conv.messages[1].extra;
    assert_eq!(extra.get_str("codebuff_message_id"), Some("ai-native-2"));
    assert_eq!(shown(extra.get("credits")), "1.25");
    assert_eq!(shown(extra.get("blocks")), records()[1]["blocks"].to_string());
    assert!(extra.get("metadata").unwrap().get("runState").is_none());
    assert_eq!(conv.messages[1].invocations.len(), 1);
    assert_eq!(conv.messages[1].invocations[0].name, "read_files");
    assert_eq!(conv.messages[1].invocations[0].call_id.as_deref(), Some("call-native-1"));
    assert_eq!(conv.messages[2].author.as_deref(), Some("Critic"));
    assert_eq!(conv.messages[2].extra.get_str("parentId"), Some("ai-native-2"));
    assert_eq!(conv.metadata.get("shared_lineage").unwrap().as_bool(), Some(true));
    assert_eq!(conv.metadata.get_str("display_name"), Some("Codebuff / Freebuff"));
    assert!(conv.metadata.get("writer_product").is_none());
    let estimate = conv.metadata.get("context_token_estimate").unwrap();
    assert_eq!(estimate.get("tokens").unwrap().as_u64(), Some(321));
    assert_eq!(estimate.get("is_provider_usage").unwrap().as_bool(), Some(false));
    assert!(conv.messages.iter().all(|m| m.extra.get("input_tokens").is_none()));
    assert_eq!(conv.title.as_deref(), Some("Find the needle 雪"));
    assert_eq!(conv.started_at, Some(1_788_264_000_000));
    assert_eq!(conv.ended_at, Some(1_788_264_002_000));
}

#[test]
fn gh423_append_replay_overlap_project_identity_and_remote_origin() {
    let mut disk = Disk::new();
    let path = fixture(&mut disk, "/d", "one", &records());
    let mut ctx = context("/d");
    ctx.scan_roots.push(local(&path));
    let mut files = disk.table();
    let first = scanned(&files, &ctx);
    assert_eq!(first.len(), 1, "overlapping roots must not duplicate the file");
    let mut appended = records();
    appended.as_array_mut().unwrap().push(value(
        r#"{"id":"new-native-5","variant":"user","content":"next turn","timestamp":"2026-09-01T12:00:03.000Z"}"#,
    ));
    disk = Disk { entries: files.entries };
    disk.file(&path, &appended.to_string());
    files = disk.table();
    let second = scanned(&files, &ctx);
    assert_eq!(second.len(), 1);
    assert_eq!(second[0].external_id, first[0].external_id);
    assert_eq!(second[0].messages.len(), 5);
    for i in 0..4 {
        assert_eq!(show_message(&second[0].messages[i]), show_message(&first[0].messages[i]));
    }
    assert_eq!(show(&scanned(&files, &ctx)[0]), show(&second[0]));
    disk = Disk { entries: files.entries };
    fixture(&mut disk, "/d", "two", &records());
    files = disk.table();
    let separate = scanned(&files, &ctx);
    assert_eq!(separate.len(), 2);
    assert_ne!(separate[0].external_id, separate[1].external_id);
    let detail = r#"{"host":"host-label","kind":"remote","source_id":"source-machine"}"#;
    let origin = Origin { source_id: "source-machine".to_string(), detail: parse_json(detail).unwrap() };
    let root = ScanRoot { path: SourcePath::new(&path), origin, platform: None };
    let remote = scanned(&files, &ScanContext::with_roots(SourcePath::new("/d/cass"), vec![root], None));
    assert_eq!(remote.len(), 1);
    assert_eq!(shown(remote[0].metadata.get("origin")), detail);
}

fn failure(text: &str) -> Option<TranscriptError> {
    let mut disk = Disk::new();
    let path = fixture(&mut disk, "/d", "one", &records());
    disk.file(&path, text);
    scan(&disk.table(), &context("/d")).err()
}

fn failure_with(field: &str, bad: &str) -> Option<TranscriptError> {
    let mut invalid = records();
    invalid[1][field] = value(bad);
    failure(&invalid.to_string())
}

#[test]
fn gh423_malformed_partial_unknown_and_duplicate_records_fail_then_recover() {
    assert!(failure("[") == Some(TranscriptError::InvalidJson));
    assert!(failure("{}") == Some(TranscriptError::NotAnArray));
    assert!(failure("[null]") == Some(TranscriptError::MissingText));
    assert!(failure("[{\"variant\":\"user\"}]") == Some(TranscriptError::MissingText));
    assert!(failure_with("variant", "\"future-role\"") == Some(TranscriptError::UnknownVariant));
    assert!(failure_with("timestamp", "\"bad\"") == Some(TranscriptError::BadTimestamp));
    assert!(failure_with("id", "\"\"") == Some(TranscriptError::BadId));
    assert!(failure_with("blocks", r#"[{"type":"future-block"}]"#) == Some(TranscriptError::UnknownBlock));
    let mut duplicate = records();
    duplicate[1]["id"] = duplicate[0]["id"].clone();
    assert!(failure(&duplicate.to_string()) == Some(TranscriptError::BadId));
    let mut disk = Disk::new();
    let path = fixture(&mut disk, "/d", "one", &records());
    disk.file(&path, "[]");
    let mut files = disk.table();
    assert!(scanned(&files, &context("/d")).is_empty());
    disk = Disk { entries: files.entries };
    disk.file(&path, &records().to_string());
    files = disk.table();
    assert_eq!(scanned(&files, &context("/d"))[0].messages.len(), 4);
    disk = Disk { entries: files.entries };
    disk.file(&path.replace("chat-messages.json", "run-state.json"), "{");
    let recovered = scanned(&disk.table(), &context("/d"));
    assert_eq!(recovered[0].messages.len(), 4);
    assert!(recovered[0].workspace.is_none(), "never infer a full workspace from a basename");
    assert_eq!(recovered[0].metadata.get_str("run_state_status"), Some("unreadable_or_oversized"));
}

#[test]
fn codebuff_tells_the_other_failures_apart() {
    assert!(failure_with("blocks", "{}") == Some(TranscriptError::BlocksNotArray));
    assert!(
        failure_with("blocks", r#"[{"type":"tool","toolName":"t","toolCallId":"c"}]"#)
            == Some(TranscriptError::NoInput)
    );
    assert!(
        failure_with("blocks", r#"[{"type":"tool","toolName":"t","toolCallId":"c","input":1,"output":2}]"#)
            == Some(TranscriptError::OutputNotText)
    );
    assert!(
        failure_with("blocks", r#"[{"type":"agent","content":"c","blocks":7}]"#)
            == Some(TranscriptError::BlocksNotArray)
    );
    let mut disk = Disk::new();
    let path = fixture(&mut disk, "/d", "one", &records());
    disk.put(&path, FileKind::File, Some(&[0xff, 0xfe]));
    assert!(scan(&disk.table(), &context("/d")).err() == Some(TranscriptError::Unreadable));
    let source = agent_sessions::scan::DiscoveredSource::new(
        "codebuff",
        &local("/d"),
        SourcePath::new("/d/elsewhere.json"),
        agent_sessions::scan::SourceRole::PrimarySessionLog,
        true,
    );
    assert!(
        agent_sessions::codebuff::parse_session(&Disk::new().table(), &source).err()
            == Some(TranscriptError::NotATranscript)
    );
}

#[test]
fn codebuff_renders_images_raw_outputs_and_kept_blocks() {
    let mut all = records();
    all[1]["blocks"] = value(
        r#"[{"type":"image","mediaType":"image/png","base64":"xxxx"},
            {"type":"tool","toolName":"t","toolCallId":"c","input":[1],"outputRaw":{"b":1,"a":2}},
            {"type":"mode-divider","mode":"max"}]"#,
    );
    let mut disk = Disk::new();
    fixture(&mut disk, "/d", "one", &all);
    let found = scanned(&disk.table(), &context("/d"));
    assert_eq!(
        found[0].messages[1].content,
        "[image: image/png]\nt: [1]\n{\"a\":2,\"b\":1}\n{\"mode\":\"max\",\"type\":\"mode-divider\"}"
    );
}

#[test]
fn gh423_modified_since_includes_sidecar_and_sibling_product_is_not_claimed() {
    let mut disk = Disk::new();
    let path = fixture(&mut disk, "/d", "one", &records());
    for e in disk.entries.iter_mut() {
        if e.path.text() == path {
            e.fresh = false;
        }
    }
    let mut ctx = context("/d");
    ctx.since_ts = Some(20_000);
    let mut files = disk.table();
    assert_eq!(scanned(&files, &ctx).len(), 1, "fresh run-state can supply a newly persisted workspace");
    disk = Disk { entries: files.entries };
    for e in disk.entries.iter_mut() {
        e.fresh = false;
    }
    files = disk.table();
    assert!(scanned(&files, &ctx).is_empty());
    disk = Disk { entries: files.entries };
    let sibling = format!("/d/.config/unrelated/projects/one/chats/{CHAT}/chat-messages.json");
    disk.file(&sibling, &records().to_string());
    files = disk.table();
    assert!(scanned(&files, &ctx).is_empty());
    disk = Disk { entries: files.entries };
    disk.file(&sibling, r#"[{"role":"user","content":"unrelated"}]"#);
    assert!(scan(&disk.table(), &context(&sibling)).is_err());
}

#[test]
fn gh423_distinct_stores_keep_same_native_ids_separate_and_aliases_stable() {
    let mut disk = Disk::new();
    let first_path = fixture(&mut disk, "/d/profile-a", "same-project", &records());
    let mut other_records = records();
    other_records[0]["content"] = value("\"Different profile's transcript\"");
    let second_path = fixture(&mut disk, "/d/profile-b", "same-project", &other_records);
    let roots = || vec![local("/d/profile-a"), local("/d/profile-b"), local(&first_path)];
    let ctx = ScanContext::with_roots(SourcePath::new("/d/cass"), roots(), None);
    let files = disk.table();
    let both = scanned(&files, &ctx);
    assert_eq!(both.len(), 2, "same native IDs in distinct stores are independent");
    assert_ne!(both[0].external_id, both[1].external_id);
    assert_eq!(
        both[0].messages[0].extra.get_str("codebuff_message_id"),
        both[1].messages[0].extra.get_str("codebuff_message_id")
    );
    assert_ne!(both[0].messages[0].content, both[1].messages[0].content);
    assert!(both
        .iter()
        .all(|conv| conv.metadata.get("origin").unwrap().get_str("source_id") == Some("local")));
    let direct = ScanContext::with_roots(
        SourcePath::new("/d/cass"),
        vec![local(&second_path), local(&first_path)],
        None,
    );
    let again = scanned(&files, &direct);
    assert_eq!(both.iter().map(show).collect::<Vec<_>>(), again.iter().map(show).collect::<Vec<_>>());
    // The same store by way of a link.
    disk = Disk { entries: files.entries };
    let n = disk.entries.len();
    disk.put("/d/alias-store", FileKind::LinkedDirectory, None);
    fixture(&mut disk, "/alias", "same-project", &records());
    for e in disk.entries.iter_mut().skip(n) {
        let text = e.path.text();
        e.canonical = SourcePath::new(&text.replace("/alias/", "/d/profile-a/"));
        e.path = SourcePath::new(&text.replace("/alias/.config/manicode", "/d/alias-store"));
    }
    let mut with_alias = roots();
    with_alias.push(local("/d/alias-store"));
    let alias_ctx = ScanContext::with_roots(SourcePath::new("/d/cass"), with_alias, None);
    let aliased = scanned(&disk.table(), &alias_ctx);
    assert_eq!(both.iter().map(show).collect::<Vec<_>>(), aliased.iter().map(show).collect::<Vec<_>>());
}

#[test]
fn gh423_same_id_inflight_blocks_are_emitted_as_revisions() {
    let mut in_flight = records();
    in_flight[1]["isComplete"] = value("false");
    in_flight[1]["blocks"][0]["status"] = value("\"running\"");
    in_flight[1]["blocks"][1]["output"] = value("\"partial tool result\"");
    let mut disk = Disk::new();
    let path = fixture(&mut disk, "/d", "one", &in_flight);
    let ctx = context("/d");
    let files = disk.table();
    let before = scanned(&files, &ctx).remove(0);
    let mut finished = in_flight;
    finished[1]["isComplete"] = value("true");
    finished[1]["blocks"][0]["status"] = value("\"complete\"");
    finished[1]["blocks"][1]["output"] = value("\"complete tool result with the needle\"");
    finished[1]["blocks"].as_array_mut().unwrap().push(value(
        r#"{"type":"text", "content":"Final response appended to the same native message"}"#,
    ));
    disk = Disk { entries: files.entries };
    disk.file(&path, &finished.to_string());
    let after = scanned(&disk.table(), &ctx).remove(0);
    assert_eq!(after.external_id, before.external_id);
    assert_eq!(after.messages.len(), before.messages.len());
    let old = &before.messages[1];
    let revised = &after.messages[1];
    assert_eq!(revised.idx, old.idx);
    assert_eq!(revised.created_at, old.created_at);
    assert_eq!(
        revised.extra.get_str("codebuff_message_id"),
        old.extra.get_str("codebuff_message_id")
    );
    assert_eq!(revised.invocations.len(), old.invocations.len());
    assert_eq!(revised.invocations[0].name, old.invocations[0].name);
    assert_eq!(revised.invocations[0].call_id, old.invocations[0].call_id);
    assert_ne!(revised.content, old.content);
    assert_eq!(
        revised.content,
        "Looking first\nread_files: {\"paths\":[\"src/main.rs\"]}\ncomplete tool result with the needle\nNested assessment\nPreserve the original\nFound the needle\nFinal response appended to the same native message"
    );
    assert_eq!(shown(revised.extra.get("blocks")), finished[1]["blocks"].to_string());
    assert_eq!(revised.extra.get("isComplete").unwrap().as_bool(), Some(true));
    for idx in [0, 2, 3] {
        assert_eq!(show_message(&after.messages[idx]), show_message(&before.messages[idx]));
    }
}

#[test]
fn codebuff_roots_follow_the_surroundings() {
    let ctx = ScanContext::local_default(SourcePath::new("/data"), None);
    let mut s = nowhere();
    assert!(CodebuffConnector::roots(&ctx, &s).is_empty());
    s.home = Some(SourcePath::new("/home/me"));
    assert_eq!(CodebuffConnector::roots(&ctx, &s)[0].path.text(), "/home/me/.config/manicode/projects");
    s.variables.push(("CASS_CODEBUFF_DATA_ROOT".to_string(), "~/elsewhere".to_string()));
    assert_eq!(CodebuffConnector::roots(&ctx, &s)[0].path.text(), "/home/me/elsewhere");
}

#[test]
fn codebuff_streams() {
    assert!(CodebuffConnector::default().supports_streaming_scan());
    assert!(!CodebuffConnector::new().detect(None).detected);
}
