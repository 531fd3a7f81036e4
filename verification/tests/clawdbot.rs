use agent_sessions::clawdbot::ClawdbotConnector;
use agent_sessions::files::{FileEntry, FileKind, FileTable};
use agent_sessions::path::SourcePath;
use agent_sessions::scan::{ScanContext, ScanRoot, Surroundings};

/// Files in memory, in the order in which a walk would find them.
struct Disk {
    entries: Vec<FileEntry>,
}

impl Disk {
    fn new() -> Disk {
        Disk { entries: Vec::new() }
    }

    fn put(&mut self, path: &str, kind: FileKind, content: Option<&[u8]>) {
        let at = SourcePath::new(path).text();
        if let Some(old) = self.entries.iter_mut().find(|e| e.path.text() == at) {
            old.kind = kind;
            old.content = content.map(|c| c.to_vec());
            return;
        }
        if let Some(parent) = SourcePath::new(path).parent() {
            if parent.text() != "" && !self.entries.iter().any(|e| e.path.text() == parent.text()) {
                self.put(&parent.text(), FileKind::Directory, None);
            }
        }
        self.entries.push(FileEntry {
            path: SourcePath::new(path),
            kind,
            canonical: SourcePath::new(path),
            fresh: true,
            content: content.map(|c| c.to_vec()),
        });
    }

    fn folder(&mut self, path: &str) {
        self.put(path, FileKind::Directory, None);
    }

    fn file(&mut self, path: &str, content: &str) {
        self.put(path, FileKind::File, Some(content.as_bytes()));
    }

    fn table(self) -> FileTable {
        FileTable { entries: self.entries }
    }
}

fn nowhere() -> Surroundings {
    Surroundings { home: None, data: None, local_data: None, config: None, variables: Vec::new() }
}

fn scan(disk: Disk, ctx: &ScanContext) -> Vec<agent_sessions::model::Conversation> {
    let files = disk.table();
    let found = ClawdbotConnector::new().scan(ctx, &nowhere(), &files);
    let sources = ClawdbotConnector::new().discover_source_files(ctx, &nowhere(), &files);
    for c in &found {
        assert!(sources.iter().any(|s| s.source_path.text() == c.source_path.text()));
    }
    found
}

#[test]
fn scan_parses_basic_jsonl() {
    let mut disk = Disk::new();
    disk.file(
        "/tmp/x/.clawdbot/sessions/session.jsonl",
        concat_lines(&[
            r#"{"role":"user","content":"Hello there","timestamp":"2025-01-27T03:30:00.000Z"}"#,
            r#"{"role":"assistant","content":"Hi","timestamp":"2025-01-27T03:30:05.000Z"}"#,
        ])
        .as_str(),
    );
    let ctx = ScanContext::local_default(SourcePath::new("/tmp/x/.clawdbot/sessions"), None);
    let convs = scan(disk, &ctx);
    assert_eq!(convs.len(), 1);
    assert_eq!(convs[0].agent_slug, "clawdbot");
    assert_eq!(convs[0].messages.len(), 2);
    assert_eq!(convs[0].title, Some("Hello there".to_string()));
    assert_eq!(convs[0].started_at, Some(1_737_948_600_000));
    assert_eq!(convs[0].ended_at, Some(1_737_948_605_000));
}

fn concat_lines(lines: &[&str]) -> String {
    lines.join("\n")
}

#[test]
fn scan_skips_invalid_and_empty_lines() {
    let mut disk = Disk::new();
    disk.file(
        "/tmp/x/.clawdbot/sessions/bad.jsonl",
        concat_lines(&[
            "",
            "not-json",
            r#"{"role":"user","content":"Line 1","timestamp":"2025-01-27T03:30:00.000Z"}"#,
            r#"{"role":"assistant","content":"","timestamp":"2025-01-27T03:30:05.000Z"}"#,
        ])
        .as_str(),
    );
    let ctx = ScanContext::local_default(SourcePath::new("/tmp/x/.clawdbot/sessions"), None);
    let convs = scan(disk, &ctx);
    assert_eq!(convs.len(), 1);
    assert_eq!(convs[0].messages.len(), 1);
    assert_eq!(convs[0].messages[0].role, "user");
    // The instants of messages that say nothing still count.
    assert_eq!(convs[0].messages[0].idx, 0);
}

#[test]
fn scan_with_clawdbot_root_scan_root() {
    let mut disk = Disk::new();
    disk.file(
        "/tmp/x/.clawdbot/sessions/root.jsonl",
        r#"{"role":"user","content":"From root","timestamp":1700000000000}"#,
    );
    let root = ScanRoot::local(SourcePath::new("/tmp/x/.clawdbot"));
    let ctx = ScanContext::with_roots(SourcePath::new(""), vec![root], None);
    let convs = scan(disk, &ctx);
    assert_eq!(convs.len(), 1);
    assert_eq!(convs[0].messages.len(), 1);
    assert_eq!(convs[0].messages[0].content, "From root");
    assert_eq!(convs[0].started_at, Some(1_700_000_000_000));
}

#[test]
fn session_files_returns_sorted_order() {
    let mut disk = Disk::new();
    disk.file("/tmp/x/.clawdbot/sessions/z-last.jsonl", r#"{"role":"user","content":"z"}"#);
    disk.file("/tmp/x/.clawdbot/sessions/a-first.jsonl", r#"{"role":"user","content":"a"}"#);
    disk.file("/tmp/x/.clawdbot/sessions/nested/m-middle.jsonl", r#"{"role":"user","content":"m"}"#);
    disk.file("/tmp/x/.clawdbot/sessions/notes.txt", "no session");
    let root = SourcePath::new("/tmp/x/.clawdbot/sessions");
    let files: Vec<String> =
        ClawdbotConnector::session_files(&disk.table(), &root).iter().map(|p| p.text()).collect();
    assert_eq!(
        files,
        vec![
            "/tmp/x/.clawdbot/sessions/a-first.jsonl",
            "/tmp/x/.clawdbot/sessions/nested/m-middle.jsonl",
            "/tmp/x/.clawdbot/sessions/z-last.jsonl",
        ]
    );
}

#[test]
fn clawdbot_stale_files_are_not_read() {
    let mut disk = Disk::new();
    disk.file("/h/.clawdbot/sessions/s.jsonl", r#"{"role":"user","content":"old"}"#);
    for e in disk.entries.iter_mut() {
        e.fresh = false;
    }
    let ctx = ScanContext::local_default(SourcePath::new("/h/.clawdbot/sessions"), Some(1));
    assert!(scan(disk, &ctx).is_empty());
}

#[test]
fn clawdbot_detection_is_handed_on() {
    let none = ClawdbotConnector::new().detect(None);
    assert!(!none.detected);
    assert!(none.root_paths.is_empty());
}

#[test]
fn clawdbot_explicit_roots_leave_out_the_usual_one() {
    let mut disk = Disk::new();
    disk.folder("/h/.clawdbot/sessions");
    let files = disk.table();
    let explicit = |base: &str| -> Vec<String> {
        let found = ClawdbotConnector::append_explicit_roots(&files, &SourcePath::new(base));
        found.iter().map(|p| p.text()).collect()
    };
    assert!(explicit("/h").is_empty());
    assert_eq!(explicit("/h/.clawdbot"), vec!["/h/.clawdbot/sessions"]);
    assert_eq!(explicit("/h/.clawdbot/sessions"), vec!["/h/.clawdbot/sessions"]);
    let root = ScanRoot::local(SourcePath::new("/h"));
    let ctx = ScanContext::with_roots(SourcePath::new(""), vec![root], None);
    let roots = ClawdbotConnector::source_roots(&ctx, &nowhere(), &files);
    let roots: Vec<String> = roots.iter().map(|r| r.path.text()).collect();
    assert_eq!(roots, vec!["/h/.clawdbot/sessions"]);
}

#[test]
fn clawdbot_documents_are_rendered_with_keys_in_order() {
    let mut disk = Disk::new();
    disk.file("/h/.clawdbot/sessions/s.jsonl", r#"{"role":"user","z":{"b":1,"a":-2},"content":"hi"}"#);
    let ctx = ScanContext::local_default(SourcePath::new("/h/.clawdbot/sessions"), None);
    let convs = scan(disk, &ctx);
    assert_eq!(convs[0].metadata.render(), r#"{"source":"clawdbot"}"#);
    assert_eq!(convs[0].messages[0].extra.render(), r#"{"content":"hi","role":"user","z":{"a":-2,"b":1}}"#);
}
