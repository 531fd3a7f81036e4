use agent_sessions::base32::decode_filename;
use agent_sessions::files::{FileEntry, FileKind, FileTable};
use agent_sessions::boundaries::{advance, begin, Event, Step};
use agent_sessions::grok_bot::{
    completion, event_of, parse_replica, replica_key, rules_for, GrokBotConnector, ReplicaError,
};
use agent_sessions::model::{Conversation, Message};
use agent_sessions::path::SourcePath;
use agent_sessions::scan::{DiscoveredSource, ScanContext, ScanRoot, SourceCompletion, Surroundings};

/// Files in memory, in the order in which a walk would find them.
struct Disk {
    entries: Vec<FileEntry>,
}

impl Disk {
    fn new() -> Disk {
        Disk { entries: Vec::new() }
    }

    fn put(&mut self, path: &str, kind: FileKind, content: Option<&[u8]>) {
        let at = SourcePath::new(path).text();
        if let Some(old) = self.entries.iter_mut().find(|e| e.path.text() == at) {
            old.kind = kind;
            old.content = content.map(|c| c.to_vec());
            return;
        }
        if let Some(parent) = SourcePath::new(path).parent() {
            if parent.text() != "" && !self.entries.iter().any(|e| e.path.text() == parent.text()) {
                self.put(&parent.text(), FileKind::Directory, None);
            }
        }
        self.entries.push(FileEntry {
            path: SourcePath::new(path),
            kind,
            canonical: SourcePath::new(path),
            fresh: true,
            content: content.map(|c| c.to_vec()),
        });
    }

    fn folder(&mut self, path: &str) {
        self.put(path, FileKind::Directory, None);
    }

    fn file(&mut self, path: &str, content: &str) {
        self.put(path, FileKind::File, Some(content.as_bytes()));
    }

    fn table(self) -> FileTable {
        FileTable { entries: self.entries }
    }
}

fn nowhere() -> Surroundings {
    Surroundings { home: None, data: None, local_data: None, config: None, variables: Vec::new() }
}

fn show_message(m: &Message) -> String {
    let calls: Vec<String> = m
        .invocations
        .iter()
        .map(|c| {
            format!(
                "{} {} {:?} {:?} {:?}",
                c.kind,
                c.name,
                c.raw_name,
                c.call_id,
                c.arguments.as_ref().map(|a| a.render())
            )
        })
        .collect();
    format!(
        "{} {} {:?} {:?} {:?} {} {:?}",
        m.idx,
        m.role,
        m.author,
        m.created_at,
        m.content,
        m.extra.render(),
        calls
    )
}

fn show(c: &Conversation) -> String {
    let messages: Vec<String> = c.messages.iter().map(show_message).collect();
    format!(
        "{} {:?} {:?} {:?} {} {:?} {:?} {} {:?}",
        c.agent_slug,
        c.external_id,
        c.title,
        c.workspace,
        c.source_path.text(),
        c.started_at,
        c.ended_at,
        c.metadata.render(),
        messages
    )
}

const KEY: &str = "sand.client.slice.account.auth0%7Cuser_00000000000000000000000000.transcript.replicas.81da155f-cc4c-58b3-aadf-770858d5e55c";

fn encode(key: &str) -> String {
    const ALPHABET: &[u8; 32] = b"abcdefghijklmnopqrstuvwxyz234567";
    let bits: Vec<bool> =
        key.bytes().flat_map(|byte| (0..8).rev().map(move |bit| byte & (1 << bit) != 0)).collect();
    bits.chunks(5)
        .map(|chunk| {
            let value = chunk.iter().fold(0_usize, |v, bit| (v << 1) | usize::from(*bit)) << (5 - chunk.len());
            char::from(ALPHABET[value])
        })
        .collect()
}

fn named(key: &str) -> String {
    format!("{}.blob", encode(key))
}

fn context(root: &str) -> ScanContext {
    ScanContext::with_roots(SourcePath::new(root), vec![ScanRoot::local(SourcePath::new(root))], None)
}

fn key_in(name: &str) -> Option<String> {
    replica_key(&SourcePath::new(name))
}

fn sample() -> &'static str {
    r#"{"schemaVersion":1,"value":{"entries":[
        {"kind":"secret-request","id":"s1","content":"secretRequest"},
        {"kind":"message","id":"t79t","role":"user","content":"hello","timestampMs":1767225622759,"richText":"x"},
        {"kind":"send-message","id":"t28y4","requestId":"r1","timestampMs":1767225700000,
         "message":{"type":"text","content":"hi","toAgent":"z"}},
        {"kind":"send-message","id":"p63f6","requestId":"r1","message":{"type":"text","content":"again"}},
        {"kind":"send-message","id":"f1","message":{"type":"file","content":"file_path"}},
        {"kind":"message","id":"h45w","role":"user","content":"bye","timestampMs":1767485345477}
    ]}}"#
}

fn scan_text(text: &str) -> Vec<Conversation> {
    let mut disk = Disk::new();
    let path = format!("/d/{}", named(KEY));
    disk.file(&path, text);
    GrokBotConnector::new().scan(&context(&path), &nowhere(), &disk.table())
}

fn error_of(text: &str) -> Option<ReplicaError> {
    let mut disk = Disk::new();
    let path = format!("/d/{}", named(KEY));
    disk.file(&path, text);
    let files = disk.table();
    let sources = GrokBotConnector::new().discover_source_files(&context(&path), &nowhere(), &files);
    parse_replica(&files, &sources[0]).err()
}

#[test]
fn grok_bot_chat_is_read_in_order_and_the_rest_is_left_out() {
    let conversations = scan_text(sample());
    assert_eq!(conversations.len(), 1);
    let conversation = &conversations[0];
    assert_eq!(conversation.external_id.as_deref(), Some(KEY));
    assert_eq!(conversation.agent_slug, "grok_bot");
    assert_eq!(conversation.workspace, None);
    assert_eq!(conversation.title.as_deref(), Some("Grok Bot rolling transcript"));
    assert_eq!(conversation.metadata.get("history_complete").unwrap().as_bool(), Some(false));
    assert_eq!(conversation.metadata.get("chat_only").unwrap().as_bool(), Some(true));
    assert_eq!(conversation.metadata.get("source_entry_count").unwrap().as_u64(), Some(6));
    assert_eq!(conversation.started_at, Some(1_767_225_622_759));
    assert_eq!(conversation.ended_at, Some(1_767_485_345_477));
    let messages = &conversation.messages;
    let ids: Vec<&str> = messages.iter().map(|m| m.extra.get_str("grok_bot_entry_id").unwrap()).collect();
    assert_eq!(ids, ["t79t", "t28y4", "p63f6", "h45w"]);
    let roles: Vec<&str> = messages.iter().map(|m| m.role.as_str()).collect();
    assert_eq!(roles, ["user", "assistant", "assistant", "user"]);
    assert_eq!(messages.iter().map(|m| m.idx).collect::<Vec<_>>(), (0..4).collect::<Vec<_>>());
    assert_eq!(messages[1].extra.get_str("request_id"), messages[2].extra.get_str("request_id"));
    assert!(messages[0].extra.get("request_id").is_none());
    let all = show(conversation);
    for excluded in ["secretRequest", "richText", "toAgent", "file_path"] {
        assert!(!all.contains(excluded), "{excluded}");
    }
}

#[test]
fn grok_bot_filename_admission_is_canonical_and_replica_only() {
    for (plain, encoded) in [
        ("f", "my"),
        ("fo", "mzxq"),
        ("foo", "mzxw6"),
        ("foob", "mzxw6yq"),
        ("fooba", "mzxw6ytb"),
        ("foobar", "mzxw6ytboi"),
    ] {
        assert_eq!(decode_filename(encoded).as_deref(), Some(plain));
        assert_eq!(encode(plain), encoded);
    }
    for malformed in ["", "m", "MY", "my======", "mz", "m0", "m1", "m8", "é"] {
        assert_eq!(decode_filename(malformed), None, "{malformed}");
    }
    assert_eq!(key_in(&named(KEY)).as_deref(), Some(KEY));
    for foreign in [
        KEY.replace("transcript.replicas", "roster.last-roster"),
        KEY.replace("transcript.replicas", "composer-drafts"),
        KEY.replace("account.", "accountx."),
        KEY.replace("auth0%7Cuser_", "auth0|user_"),
        KEY.replace("auth0%7Cuser_", "auth0%7cuser_"),
        KEY.replace("00000000000000000000000000", ""),
        KEY.replace("user_000", "user_800"),
        KEY.replace("81da155f", "81DA155F"),
        format!("{KEY}.extra"),
        format!("{KEY}/secret"),
    ] {
        assert_eq!(key_in(&named(&foreign)), None, "{foreign}");
    }
    for suffix in ["", ".json", ".BLOB", ".blob.json", ".blob.blob"] {
        assert_eq!(key_in(&format!("{}{suffix}", encode(KEY))), None);
    }
}

#[test]
fn grok_bot_roots_discovery_and_boundaries_preserve_provenance() {
    let config = "/t/Grok Bot 空間";
    let persistence = format!("{config}/sand-client-persistence");
    let path = format!("{persistence}/{}", named(KEY));
    let mut disk = Disk::new();
    disk.file(&path, sample());
    let foreign = named(&KEY.replace("transcript.replicas", "roster.last-roster"));
    disk.file(&format!("{persistence}/{foreign}"), sample());
    disk.file(&format!("{persistence}/unrelated/{}", named(KEY)), sample());
    let files = disk.table();
    let connector = GrokBotConnector::new();
    for root in [config, &persistence, &path] {
        let mut ctx = context(root);
        ctx.scan_roots[0].origin.source_id = "remote-fixture".to_string();
        let mut sources = connector.discover_source_files(&ctx, &nowhere(), &files);
        assert_eq!(sources.len(), 1);
        assert_eq!(sources[0].source_path.text(), path);
        assert_eq!(sources[0].scan_root.text(), root);
        assert_eq!(sources[0].origin.source_id, "remote-fixture");
        let conversations = connector.scan(&ctx, &nowhere(), &files);
        assert_eq!(conversations.len(), 1);
        assert_eq!(conversations[0].metadata.get_str("source_id"), Some("remote-fixture"));
        let read = parse_replica(&files, &sources[0]).map(|c| c.is_some());
        let told = completion(sources.remove(0), read, false).unwrap();
        assert_eq!(told.conversations_emitted, 1);
        assert_eq!(told.source.source_path.text(), path);
        assert!(told.required_sidecars.is_empty());
    }
    assert!(connector.scan(&context("/t"), &nowhere(), &files).is_empty(), "nothing deeper is searched");
    assert!(connector.scan(&context("/t/missing"), &nowhere(), &files).is_empty());
    let mut stale = Disk { entries: files.entries };
    for e in stale.entries.iter_mut() {
        e.fresh = false;
    }
    assert!(connector.scan(&context(&path), &nowhere(), &stale.table()).is_empty());
}

#[test]
fn grok_bot_malformed_empty_and_callback_failure_never_fake_completion() {
    let cases = [
        ("{", ReplicaError::InvalidJson),
        ("{}", ReplicaError::UnsupportedVersion),
        (r#"{"schemaVersion":2,"value":{"entries":[]}}"#, ReplicaError::UnsupportedVersion),
        (r#"{"schemaVersion":1,"value":{"entries":{}}}"#, ReplicaError::NoEntries),
        (
            r#"{"schemaVersion":1,"value":{"entries":[{"kind":"message","role":"user","content":"missing identity"}]}}"#,
            ReplicaError::NoNames,
        ),
    ];
    for (body, error) in cases {
        assert!(scan_text(body).is_empty());
        assert!(error_of(body) == Some(error));
        let mut disk = Disk::new();
        let path = format!("/d/{}", named(KEY));
        disk.file(&path, body);
        let mut sources =
            GrokBotConnector::new().discover_source_files(&context(&path), &nowhere(), &disk.table());
        assert!(completion(sources.remove(0), Err(error), false).is_none());
    }
    assert!(scan_text(r#"{"schemaVersion":1,"value":{"entries":[]}}"#).is_empty());
    assert!(error_of(r#"{"schemaVersion":1,"value":{"entries":[]}}"#).is_none());

    for body in [
        "{",
        "{}",
        r#"{"schemaVersion":2,"value":{"entries":[]}}"#,
        r#"{"schemaVersion":1,"value":{"entries":{}}}"#,
        r#"{"schemaVersion":1,"value":{"entries":[{"kind":"message","role":"user","content":"missing identity"}]}}"#,
    ] {
        let mut completions = 0;
        let outcome = go_through(
            &[(KEY, body)],
            &mut |_| true,
            &mut |_| panic!("malformed input emitted a conversation"),
            &mut |_| {
                completions += 1;
                Ok(())
            },
        );
        assert!(outcome.is_ok());
        assert_eq!(completions, 0);
    }
    let mut completions = 0;
    let error = go_through(
        &[(KEY, sample())],
        &mut |_| true,
        &mut |_| Err("host transaction failed".to_string()),
        &mut |_| {
            completions += 1;
            Ok(())
        },
    )
    .unwrap_err();
    assert!(error.contains("host transaction failed"));
    assert_eq!(completions, 0);
}

const OTHER_KEY: &str = "sand.client.slice.account.auth0%7Cuser_00000000000000000000000000.transcript.replicas.91da155f-cc4c-58b3-aadf-770858d5e55c";

/// Goes through replicas one by one, none of which changes meanwhile.
fn go_through(
    replicas: &[(&str, &str)],
    should_scan: &mut dyn FnMut(&DiscoveredSource) -> bool,
    emit: &mut dyn FnMut(Conversation) -> Result<(), String>,
    complete: &mut dyn FnMut(&SourceCompletion) -> Result<(), String>,
) -> Result<(), String> {
    let mut disk = Disk::new();
    for (key, body) in replicas {
        disk.file(&format!("/d/{}", named(key)), body);
    }
    let files = disk.table();
    let found = GrokBotConnector::new().discover_source_files(&context("/d"), &nowhere(), &files);
    let rules = rules_for(found.len());
    let mut held = None;
    let mut failure = Ok(());
    let mut at = begin(&rules);
    loop {
        let event = match at.step {
            Step::Ask => match should_scan(&found[at.source]) {
                true => Event::Accepted,
                false => Event::Refused,
            },
            Step::Read => {
                let outcome = parse_replica(&files, &found[at.source]);
                let event = event_of(&outcome);
                held = outcome.ok().flatten();
                event
            }
            Step::Emit => {
                failure = emit(held.take().unwrap());
                if failure.is_ok() { Event::Emitted } else { Event::EmitFailed }
            }
            Step::Check(_) => Event::Unchanged,
            Step::Complete(emitted) => {
                let told = completion(found[at.source].copy(), Ok(emitted == 1), false).unwrap();
                assert_eq!(told.conversations_emitted, emitted);
                failure = complete(&told);
                if failure.is_ok() { Event::Completed } else { Event::CompleteFailed }
            }
            Step::Done | Step::Failed => return failure,
        };
        at = advance(&rules, at, event);
    }
}

#[test]
fn grok_bot_sources_are_gone_through_in_order() {
    let empty = r#"{"schemaVersion":1,"value":{"entries":[]}}"#;
    let calls = std::cell::RefCell::new(Vec::new());
    let outcome = go_through(
        &[(KEY, sample()), (OTHER_KEY, empty)],
        &mut |_| {
            calls.borrow_mut().push("asked".to_string());
            true
        },
        &mut |_| {
            calls.borrow_mut().push("handed on".to_string());
            Ok(())
        },
        &mut |told| {
            calls.borrow_mut().push(format!("completed with {}", told.conversations_emitted));
            Ok(())
        },
    );
    assert!(outcome.is_ok());
    let mut calls = calls.into_inner();
    if calls[1] != "handed on" {
        calls.rotate_left(2);
    }
    assert_eq!(calls, ["asked", "handed on", "completed with 1", "asked", "completed with 0"]);
}

#[test]
fn grok_bot_refused_sources_get_no_call() {
    let outcome = go_through(
        &[(KEY, sample())],
        &mut |_| false,
        &mut |_| panic!("a refused source emitted a conversation"),
        &mut |_| panic!("a refused source was completed"),
    );
    assert!(outcome.is_ok());
}

#[test]
fn grok_bot_failing_completion_ends_the_scan() {
    let mut completions = 0;
    let outcome = go_through(
        &[(KEY, sample()), (OTHER_KEY, sample())],
        &mut |_| true,
        &mut |_| Ok(()),
        &mut |_| {
            completions += 1;
            Err("no".to_string())
        },
    );
    assert_eq!(outcome, Err("no".to_string()));
    assert_eq!(completions, 1);
}

#[test]
fn base32_names_are_read_back() {
    for text in ["a", "ab", "abc", "abcd", "abcde", "abcdef", "\u{e9}\u{1f600}", KEY] {
        let name = encode(text);
        assert_eq!(decode_filename(&name).as_deref(), Some(text));
        assert_eq!(decode_filename(&name.to_uppercase()), None);
        assert_eq!(decode_filename(&format!("{name}=")), None);
    }
    assert_eq!(decode_filename("me"), Some("a".to_string()));
    assert_eq!(decode_filename("mf"), None, "bits that are left over");
    assert_eq!(decode_filename(""), None);
}

#[test]
fn grok_bot_tells_unreadable_and_foreign_files_apart() {
    let mut disk = Disk::new();
    let path = format!("/d/{}", named(KEY));
    disk.put(&path, FileKind::File, Some(&[0xff]));
    disk.file("/d/notes.txt", sample());
    let files = disk.table();
    let mut sources = GrokBotConnector::new().discover_source_files(&context("/d"), &nowhere(), &files);
    assert_eq!(sources.len(), 1);
    assert!(parse_replica(&files, &sources[0]).err() == Some(ReplicaError::Unreadable));
    let mut one = sources.remove(0);
    one.source_path = SourcePath::new("/d/notes.txt");
    assert!(parse_replica(&files, &one).err() == Some(ReplicaError::NotAReplica));
    assert!(completion(one, Ok(true), true).is_none(), "a file that changed was not read");
}

#[test]
fn grok_bot_missing_native_ids_are_counted_and_do_not_expand_the_chat_allowlist() {
    let conversations = scan_text(
        r#"{"schemaVersion":1,"value":{"entries":[
            {"kind":"message","role":"user","content":"excluded missing identity"},
            {"kind":"send-message","id":"   ","message":{"type":"text","content":"excluded blank identity"}},
            {"kind":"message","id":"","role":"assistant","content":"excluded empty identity"},
            {"kind":"message","role":"system","content":"excluded system payload"},
            {"kind":"message","role":"assistant","content":{"text":"excluded structured content"}},
            {"kind":"send-message","message":{"content":"excluded missing type"}},
            {"kind":"send-message","id":"native-reply","message":{"type":"text","content":"outbound text","approval":{"proposedRule":"excluded adjacent permission"}}},
            {"kind":"message","role":"user","content":"   ","nested":{"content":"excluded recursive content"}}
        ]}}"#,
    );
    let messages = &conversations[0].messages;
    assert_eq!(messages.len(), 1);
    assert_eq!(conversations[0].metadata.get("missing_entry_id_count").unwrap().as_u64(), Some(3));
    assert_eq!(messages[0].content, "outbound text");
    assert_eq!(messages[0].created_at, None);
    assert_eq!(messages[0].extra.get_str("grok_bot_entry_id"), Some("native-reply"));
    assert!(!show(&conversations[0]).contains("excluded"));
}

fn window(start: u32) -> String {
    let entries: Vec<String> = (start..start + 200)
        .map(|i| {
            format!(
                r#"{{"kind":"send-message","id":"entry-{i}","message":{{"type":"text","content":"same-time identical chat"}},"timestampMs":1767225622759}}"#
            )
        })
        .collect();
    format!(r#"{{"schemaVersion":1,"value":{{"entries":[{}]}}}}"#, entries.join(","))
}

#[test]
fn grok_bot_fifo_rewrite_keeps_replica_and_entry_ids_without_claiming_full_history() {
    let first = scan_text(&window(1)).remove(0);
    let second = scan_text(&window(2)).remove(0);
    assert_eq!(first.external_id, second.external_id);
    assert_eq!(first.messages.len(), 200);
    assert_eq!(second.messages.len(), 200);
    assert_eq!(
        first.messages[1].extra.get_str("grok_bot_entry_id"),
        second.messages[0].extra.get_str("grok_bot_entry_id")
    );
    assert_eq!(second.messages[199].extra.get_str("grok_bot_entry_id"), Some("entry-201"));
    assert_eq!(second.metadata.get("history_complete").unwrap().as_bool(), Some(false));
    assert_eq!(second.metadata.get("observed_entry_cap").unwrap().as_u64(), Some(200));
    assert_eq!(show(&scan_text(&window(2))[0]), show(&second));
    for other in [KEY.replace("user_000", "user_001"), KEY.replace("81da155f", "91da155f")] {
        let mut disk = Disk::new();
        let path = format!("/d/{}", named(&other));
        disk.file(&path, &window(2));
        let found = GrokBotConnector::new().scan(&context(&path), &nowhere(), &disk.table());
        assert_ne!(found[0].external_id, first.external_id);
    }
}

#[test]
fn grok_bot_roots_follow_the_surroundings() {
    let ctx = ScanContext::local_default(SourcePath::new("/data"), None);
    let mut s = nowhere();
    assert!(GrokBotConnector::source_roots(&ctx, &s).is_empty());
    s.home = Some(SourcePath::new("/home/me"));
    assert_eq!(
        GrokBotConnector::source_roots(&ctx, &s)[0].path.text(),
        "/home/me/Library/Application Support/Grok Bot/sand-client-persistence"
    );
    s.variables.push(("CASS_GROK_BOT_DATA_ROOT".to_string(), " ~ ".to_string()));
    assert_eq!(GrokBotConnector::source_roots(&ctx, &s)[0].path.text(), "/home/me");
    let c = GrokBotConnector::default();
    assert!(c.supports_streaming_scan() && c.supports_source_boundaries());
    assert!(!c.detect(None).detected);
}
