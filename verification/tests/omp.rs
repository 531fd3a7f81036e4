use agent_sessions::files::{FileEntry, FileKind, FileTable};
use agent_sessions::omp::OmpConnector;
use agent_sessions::path::SourcePath;
use agent_sessions::scan::{DetectionResult, Origin, ScanContext, ScanRoot, Surroundings};

/// Files in memory, in the order in which a walk would find them.
struct Disk {
    entries: Vec<FileEntry>,
}

impl Disk {
    fn new() -> Disk {
        Disk { entries: Vec::new() }
    }

    fn put(&mut self, path: &str, kind: FileKind, content: Option<&[u8]>) {
        let at = SourcePath::new(path).text();
        if let Some(old) = self.entries.iter_mut().find(|e| e.path.text() == at) {
            old.kind = kind;
            old.content = content.map(|c| c.to_vec());
            return;
        }
        if let Some(parent) = SourcePath::new(path).parent() {
            if parent.text() != "" && !self.entries.iter().any(|e| e.path.text() == parent.text()) {
                self.put(&parent.text(), FileKind::Directory, None);
            }
        }
        self.entries.push(FileEntry {
            path: SourcePath::new(path),
            kind,
            canonical: SourcePath::new(path),
            fresh: true,
            content: content.map(|c| c.to_vec()),
        });
    }

    fn folder(&mut self, path: &str) {
        self.put(path, FileKind::Directory, None);
    }

    fn file(&mut self, path: &str, content: &str) {
        self.put(path, FileKind::File, Some(content.as_bytes()));
    }

    fn table(self) -> FileTable {
        FileTable { entries: self.entries }
    }
}

fn nowhere() -> Surroundings {
    Surroundings { home: None, data: None, local_data: None, config: None, variables: Vec::new() }
}

fn env_of(pairs: &[(&str, &str)]) -> Surroundings {
    let mut s = nowhere();
    s.variables = pairs.iter().map(|(k, v)| (k.to_string(), v.to_string())).collect();
    s
}

fn shown(homes: &[(SourcePath, Option<String>)]) -> Vec<(String, Option<&str>)> {
    homes.iter().map(|(p, profile)| (p.text(), profile.as_deref())).collect()
}

fn place(path: &str, profile: Option<&'static str>) -> (String, Option<&'static str>) {
    (path.to_string(), profile)
}

fn v18(files: &FileTable, env: &Surroundings) -> Vec<(SourcePath, Option<String>)> {
    OmpConnector::v18_roots_from(Some(&SourcePath::new("/home/me")), env, files)
}

#[test]
fn omp_new_creates_connector() {
    let _ = OmpConnector::new();
}

#[test]
fn omp_default_creates_connector() {
    let _ = OmpConnector;
    let _ = OmpConnector::default();
}

#[test]
fn v18_roots_pin_the_canonical_omp_agent_dir_by_default() {
    let roots = v18(&Disk::new().table(), &env_of(&[]));
    assert_eq!(shown(&roots), vec![place("/home/me/.omp/agent", None)]);
}

#[test]
fn v18_roots_are_empty_without_a_home_or_env() {
    assert!(OmpConnector::v18_roots_from(None, &env_of(&[]), &Disk::new().table()).is_empty());
}

#[test]
fn normalize_profile_name_matches_upstream_rules() {
    let ok = |s: &str| OmpConnector::normalize_profile_name(s);
    assert_eq!(ok("work"), Some("work".to_string()));
    assert_eq!(ok("  work  "), Some("work".to_string()));
    assert_eq!(ok("a-1._x"), Some("a-1._x".to_string()));
    // The default profile.
    assert_eq!(ok(""), None);
    assert_eq!(ok("   "), None);
    assert_eq!(ok("default"), None);
    // No names at all.
    assert_eq!(ok("Work"), None);
    assert_eq!(ok("-work"), None);
    assert_eq!(ok("work."), None);
    assert_eq!(ok("."), None);
    assert_eq!(ok(".."), None);
    assert_eq!(ok(&"a".repeat(65)), None);
    assert_eq!(ok(&"a".repeat(64)), Some("a".repeat(64)));
    // Devices, with and without an extension.
    assert_eq!(ok("con"), None);
    assert_eq!(ok("con.txt"), None);
    assert_eq!(ok("com7"), None);
    assert_eq!(ok("lpt0.log"), None);
    // Names that are nearly devices.
    assert_eq!(ok("com77"), Some("com77".to_string()));
    assert_eq!(ok("console"), Some("console".to_string()));
}

#[test]
fn omp_profile_env_takes_precedence_including_explicit_empty() {
    let both = env_of(&[("OMP_PROFILE", "work"), ("PI_PROFILE", "legacy")]);
    assert_eq!(OmpConnector::active_profile(&both), Some("work".to_string()));

    let explicit_empty = env_of(&[("OMP_PROFILE", ""), ("PI_PROFILE", "legacy")]);
    assert_eq!(OmpConnector::active_profile(&explicit_empty), None);

    let legacy_only = env_of(&[("PI_PROFILE", "legacy")]);
    assert_eq!(OmpConnector::active_profile(&legacy_only), Some("legacy".to_string()));
}

#[test]
fn v18_roots_honor_pi_config_dir_rename() {
    let files = Disk::new().table();
    let roots = v18(&files, &env_of(&[("PI_CONFIG_DIR", ".pi2")]));
    assert_eq!(shown(&roots), vec![place("/home/me/.pi2/agent", None)]);

    let roots = v18(&files, &env_of(&[("PI_CONFIG_DIR", "/etc/omp-cfg")]));
    assert_eq!(shown(&roots), vec![place("/home/me/etc/omp-cfg/agent", None)]);
}

#[test]
fn v18_roots_include_named_profiles_under_home() {
    let mut disk = Disk::new();
    disk.folder("/home/me/.omp/profiles/work/agent");
    disk.folder("/home/me/.omp/profiles/play");
    disk.folder("/home/me/.omp/profiles/default");
    disk.folder("/home/me/.omp/profiles/Bad.Name.");
    let roots = v18(&disk.table(), &env_of(&[]));
    assert_eq!(
        shown(&roots),
        vec![
            place("/home/me/.omp/agent", None),
            place("/home/me/.omp/profiles/play/agent", Some("play")),
            place("/home/me/.omp/profiles/work/agent", Some("work")),
        ]
    );
}

#[test]
fn v18_roots_honor_agent_dir_override_only_without_a_named_profile() {
    let files = Disk::new().table();
    let roots = v18(&files, &env_of(&[("PI_CODING_AGENT_DIR", "/d/custom-agent")]));
    assert_eq!(shown(&roots)[0], place("/d/custom-agent", None));

    let with_profile = env_of(&[("PI_CODING_AGENT_DIR", "/d/custom-agent"), ("OMP_PROFILE", "work")]);
    let roots = v18(&files, &with_profile);
    assert!(!roots.iter().any(|(p, _)| p.text() == "/d/custom-agent"));
}

#[test]
fn v18_roots_put_the_direct_session_dir_first_with_profile_provenance() {
    let env = env_of(&[("PI_CODING_AGENT_SESSION_DIR", "/d/launch-sessions"), ("OMP_PROFILE", "work")]);
    let roots = v18(&Disk::new().table(), &env);
    assert_eq!(shown(&roots)[0], place("/d/launch-sessions", Some("work")));
}

#[test]
fn v18_roots_include_existing_xdg_default_and_profile_stores() {
    let mut disk = Disk::new();
    disk.folder("/d/xdg-data/omp/sessions");
    disk.folder("/d/xdg-data/omp/profiles/work/sessions");
    let files = disk.table();
    let roots = v18(&files, &env_of(&[("XDG_DATA_HOME", "/d/xdg-data")]));
    assert_eq!(
        shown(&roots),
        vec![
            place("/home/me/.omp/agent", None),
            place("/d/xdg-data/omp/profiles/work", Some("work")),
            place("/d/xdg-data/omp", None),
        ]
    );

    let roots = v18(&files, &env_of(&[("XDG_DATA_HOME", "/nonexistent-xdg-data-home")]));
    assert_eq!(shown(&roots), vec![place("/home/me/.omp/agent", None)]);
}

#[test]
fn looks_like_root_accepts_omp_agent_and_sessions_dirs() {
    assert!(OmpConnector::looks_like_root(&SourcePath::new("/d/.omp/agent")));
    assert!(OmpConnector::looks_like_root(&SourcePath::new("/d/.omp/agent/sessions")));
    assert!(!OmpConnector::looks_like_root(&SourcePath::new("/d/other-home")));
}

fn roots_of(files: &FileTable, ctx: &ScanContext, s: &Surroundings) -> Vec<(String, Option<String>)> {
    OmpConnector::source_roots(ctx, s, files).into_iter().map(|(r, p)| (r.path.text(), p)).collect()
}

fn local(path: &str) -> ScanRoot {
    ScanRoot::local(SourcePath::new(path))
}

#[test]
fn source_roots_use_default_home_when_ctx_data_dir_is_unrelated() {
    let ctx = ScanContext::local_default(SourcePath::new("/d/cass-state"), None);
    let mut s = nowhere();
    s.home = Some(SourcePath::new("/home/me"));
    let roots = roots_of(&Disk::new().table(), &ctx, &s);
    assert!(roots.iter().any(|(path, profile)| path == "/home/me/.omp/agent" && profile.is_none()));
}

#[test]
fn source_roots_prefer_an_omp_shaped_data_dir() {
    let mut disk = Disk::new();
    disk.folder("/d/.omp/agent");
    let ctx = ScanContext::local_default(SourcePath::new("/d/.omp/agent"), None);
    let roots = roots_of(&disk.table(), &ctx, &nowhere());
    assert_eq!(roots, vec![("/d/.omp/agent".to_string(), None)]);
}

#[test]
fn source_roots_expand_explicit_scan_roots_to_omp_layouts() {
    let mut disk = Disk::new();
    disk.folder("/d/another-home/.omp/agent/sessions/--data-projects-app--");
    let ctx =
        ScanContext::with_roots(SourcePath::new("/d/cass-state"), vec![local("/d/another-home")], None);
    let mut paths: Vec<String> =
        roots_of(&disk.table(), &ctx, &nowhere()).into_iter().map(|(p, _)| p).collect();
    paths.sort();
    assert_eq!(
        paths,
        vec!["/d/another-home/.omp/agent".to_string(), "/d/another-home/.omp/agent/sessions".to_string()]
    );
}

#[test]
fn source_roots_expand_explicit_scan_roots_to_profile_and_xdg_layouts() {
    let mut disk = Disk::new();
    disk.folder("/d/copied-home/.omp/profiles/work/agent");
    disk.folder("/d/copied-home/.local/share/omp/sessions");
    disk.folder("/d/copied-home/.local/share/omp/profiles/play/sessions");
    let ctx =
        ScanContext::with_roots(SourcePath::new("/d/cass-state"), vec![local("/d/copied-home")], None);
    let roots = roots_of(&disk.table(), &ctx, &nowhere());
    let find = |p: &str| roots.iter().find(|(root, _)| root == p).map(|(_, profile)| profile.clone());
    assert_eq!(find("/d/copied-home/.omp/profiles/work/agent"), Some(Some("work".to_string())));
    assert_eq!(find("/d/copied-home/.local/share/omp"), Some(None));
    assert_eq!(find("/d/copied-home/.local/share/omp/profiles/play"), Some(Some("play".to_string())));
}

#[test]
fn source_roots_accept_a_bare_sessions_dir_as_explicit_root() {
    let mut disk = Disk::new();
    disk.folder("/d/anywhere/sessions/--proj--");
    let ctx =
        ScanContext::with_roots(SourcePath::new("/d/state"), vec![local("/d/anywhere/sessions")], None);
    let roots = roots_of(&disk.table(), &ctx, &nowhere());
    assert_eq!(roots, vec![("/d/anywhere/sessions".to_string(), None)]);
}

#[test]
fn source_roots_demote_file_roots_to_their_parent() {
    let mut disk = Disk::new();
    let file = "/d/.omp/agent/sessions/2026-08-23T17-54-58-682Z_01a02fc2-ebfa-72f6-af9a-d40ae5078aa4.jsonl";
    disk.file(file, "{}");
    let ctx = ScanContext::with_roots(SourcePath::new("/d/state"), vec![local(file)], None);
    let roots = roots_of(&disk.table(), &ctx, &nowhere());
    assert_eq!(roots, vec![("/d/.omp/agent/sessions".to_string(), None)]);
}

#[test]
fn detect_returns_a_result_with_evidence() {
    let found = DetectionResult {
        detected: false,
        evidence: vec!["~/.omp is missing".to_string()],
        root_paths: Vec::new(),
    };
    let detection = OmpConnector::new().detect(Some(found));
    assert!(!detection.evidence.is_empty());
}

#[test]
fn omp_places_without_stores_are_harmless() {
    let mut disk = Disk::new();
    disk.folder("/d/not-omp");
    let files = disk.table();
    for place in ["/d/not-omp", "/d/missing-root"] {
        let ctx = ScanContext::with_roots(SourcePath::new("/d/state"), vec![local(place)], None);
        assert!(OmpConnector::new().scan_homes(&ctx, &nowhere(), &files).is_empty());
    }
}

#[test]
fn omp_roots_keep_where_they_come_from() {
    let mut disk = Disk::new();
    disk.folder("/copy/.omp/agent");
    let root = ScanRoot {
        path: SourcePath::new("/copy"),
        origin: Origin {
            source_id: "host-b".to_string(),
            detail: agent_sessions::json::parse_json(r#"{"host":"host-b.example"}"#).unwrap(),
        },
        platform: Some("macos".to_string()),
    };
    let ctx = ScanContext::with_roots(SourcePath::new("/nonexistent"), vec![root], None);
    let roots = OmpConnector::new().discovery_roots(&ctx, &nowhere(), &disk.table());
    assert_eq!(roots.len(), 1);
    assert_eq!(roots[0].path.text(), "/copy/.omp/agent");
    assert_eq!(roots[0].origin.source_id, "host-b");
    assert_eq!(roots[0].platform.as_deref(), Some("macos"));
}

#[test]
fn omp_stores_reached_twice_are_kept_once() {
    let mut disk = Disk::new();
    disk.folder("/copy/.omp/agent");
    disk.put("/other/.omp/agent", FileKind::LinkedDirectory, None);
    let last = disk.entries.len() - 1;
    disk.entries[last].canonical = SourcePath::new("/copy/.omp/agent");
    let ctx = ScanContext::with_roots(
        SourcePath::new("/nonexistent"),
        vec![local("/copy"), local("/other")],
        None,
    );
    let roots = roots_of(&disk.table(), &ctx, &nowhere());
    assert_eq!(roots, vec![("/copy/.omp/agent".to_string(), None)]);
}
