//! Goose: where its sessions stand, and how they are scanned.
use vstd::prelude::*;
use crate::canon::{canonical_conversations, conversations_grow, conversations_join};
use crate::databases::{
    database_at, distinct_paths, find_database, keep_database_files, list_sources, one_rooted, sources_of, Database,
    DatabaseView,
};
use crate::files::{
    canonical_path, children, find_directory, first_directory, keep_extension, only_extension, path_exists,
    path_is_file, path_is_fresh, text_at, walked_files, EntryView, FileTable,
};
use crate::goose_store::{
    extract, extract_from_sqlite, extracted, extracted_documents_are_canonical, log_conversation_is_canonical,
    log_session, parse_goose_jsonl, GooseRows, RowsView,
};
use crate::model::{Conversation, ConversationView};
use crate::order::keep_firsts;
use crate::path::{below, ends_in, extension, file_stem, is_named, SourcePath};
use crate::query::or_default;
use crate::scan::{
    default_detection, detected_or_nothing, detection_or_nothing, is_source, joined_paths, listed_paths, local_root,
    note_path, note_text, path_from_variable, path_if, push_conversation, push_if, push_path, push_rooted,
    push_source, rooted, seen_with, settle_rooted, settled_rooted, source, variable_path, was_seen, ContextView,
    DetectionResult, DiscoveredSource, RootView, RootedPath, ScanContext, ScanRoot, SourceRole, SourceView,
    Surroundings, SurroundingsView,
};

verus! {

pub struct GooseConnector;

impl Default for GooseConnector {
    fn default() -> (r: GooseConnector)
        ensures
            r == GooseConnector,
    {
        GooseConnector::new()
    }
}

/// Whether a directory looks like one of sessions: it holds the database, or a log.
pub open spec fn is_sessions(t: Seq<EntryView>, p: Seq<Seq<char>>) -> bool {
    path_exists(t, below(p, "sessions.db"@)) || exists|i: int|
        0 <= i < children(t, p).len() && extension(#[trigger] children(t, p)[i]) == Some("jsonl"@)
}

/// Whether a directory looks like one of sessions.
pub fn looks_like_goose_sessions(files: &FileTable, path: &SourcePath) -> (r: bool)
    ensures
        r == is_sessions(files.deep_view(), path.deep_view()),
{
    let ghost t = files.deep_view();
    let ghost p = path.deep_view();
    if files.has(&path.join("sessions.db")) {
        return true;
    }
    let list = files.list(path);
    let ghost all = list.deep_view();
    let mut i: usize = 0;
    while i < list.len()
        invariant
            i <= list@.len(),
            t == files.deep_view(),
            p == path.deep_view(),
            all == list.deep_view(),
            all == children(t, p),
            forall|k: int| 0 <= k < i ==> extension(#[trigger] all[k]) != Some("jsonl"@),
        decreases list.len() - i,
    {
        assert(all[i as int] == list@[i as int].deep_view());
        if list[i].has_extension("jsonl") {
            assert(extension(children(t, p)[i as int]) == Some("jsonl"@));
            return true;
        }
        i = i + 1;
    }
    false
}

/// A directory of an optional one, where sessions stand.
pub open spec fn sessions_below(directory: Option<Seq<Seq<char>>>, text: Seq<char>) -> Seq<Seq<Seq<char>>> {
    match directory {
        Some(d) => seq![below(d, text)],
        None => Seq::empty(),
    }
}

fn push_below(paths: &mut Vec<SourcePath>, directory: Option<&SourcePath>, text: &str)
    ensures
        final(paths).deep_view() == old(paths).deep_view() + sessions_below(directory.deep_view(), text@),
{
    match directory {
        Some(d) => {
            push_path(paths, d.join(text));
        },
        None => {},
    }
    assert(paths.deep_view() =~= old(paths).deep_view() + sessions_below(directory.deep_view(), text@));
}

/// The usual directories of sessions, the likeliest first.
pub open spec fn usual_directories(s: SurroundingsView) -> Seq<Seq<Seq<char>>> {
    sessions_below(variable_path(s, "GOOSE_PATH_ROOT"@), "data/sessions"@) + sessions_below(
        s.local_data,
        "goose/sessions"@,
    ) + sessions_below(s.home, ".local/share/goose/sessions"@) + sessions_below(s.home, ".goose/sessions"@)
}

/// The first of these that is a file.
pub open spec fn first_file(t: Seq<EntryView>, paths: Seq<Seq<Seq<char>>>) -> Option<Seq<Seq<char>>>
    decreases paths.len(),
{
    if paths.len() == 0 {
        None
    } else if path_is_file(t, paths[0]) {
        Some(paths[0])
    } else {
        first_file(t, paths.skip(1))
    }
}

/// The usual place of the database. The oldest place counts whatever stands there.
pub open spec fn usual_database(t: Seq<EntryView>, s: SurroundingsView) -> Option<Seq<Seq<char>>> {
    let newer = (match variable_path(s, "GOOSE_SQLITE_DB"@) {
        Some(p) => seq![p],
        None => Seq::empty(),
    }) + sessions_below(variable_path(s, "GOOSE_PATH_ROOT"@), "data/sessions/sessions.db"@) + sessions_below(
        s.local_data,
        "goose/sessions/sessions.db"@,
    ) + sessions_below(s.home, ".local/share/goose/sessions/sessions.db"@);
    match first_file(t, newer) {
        Some(p) => Some(p),
        None => match s.home {
            Some(home) => if path_exists(t, below(home, ".goose/sessions/sessions.db"@)) {
                Some(below(home, ".goose/sessions/sessions.db"@))
            } else {
                None
            },
            None => None,
        },
    }
}

fn find_file(files: &FileTable, paths: &Vec<SourcePath>) -> (r: Option<SourcePath>)
    ensures
        r.deep_view() == first_file(files.deep_view(), paths.deep_view()),
{
    let ghost t = files.deep_view();
    let ghost all = paths.deep_view();
    let mut i: usize = 0;
    assert(all.skip(0) =~= all);
    while i < paths.len()
        invariant
            i <= paths@.len(),
            t == files.deep_view(),
            all == paths.deep_view(),
            first_file(t, all) == first_file(t, all.skip(i as int)),
        decreases paths.len() - i,
    {
        assert(all.skip(i as int)[0] == paths@[i as int].deep_view());
        if files.is_file(&paths[i]) {
            return Some(paths[i].copy());
        }
        assert(all.skip(i as int).skip(1) =~= all.skip(i + 1));
        i = i + 1;
    }
    None
}

/// Whether a directory is one under which Goose or other applications keep data, so
/// that no such directory is looked for below it.
pub open spec fn is_known_root(p: Seq<Seq<char>>) -> bool {
    is_named(p, ".local"@) || ends_in(p, ".local"@, "share"@) || is_named(p, ".goose"@)
}

/// Two paths, or none.
pub open spec fn pair_if(wanted: bool, a: Seq<Seq<char>>, b: Seq<Seq<char>>) -> Seq<Seq<Seq<char>>> {
    if wanted {
        seq![a, b]
    } else {
        Seq::empty()
    }
}

/// Where a database may stand, if anywhere near a given place.
pub open spec fn database_candidates(base: Seq<Seq<char>>) -> Seq<Seq<Seq<char>>> {
    path_if(extension(base) == Some("db"@), base) + seq![
        below(base, "sessions.db"@),
        below(below(base, "sessions"@), "sessions.db"@),
    ] + path_if(is_named(base, ".local"@), below(base, "share/goose/sessions/sessions.db"@)) + path_if(
        ends_in(base, ".local"@, "share"@),
        below(base, "goose/sessions/sessions.db"@),
    ) + path_if(is_named(base, ".goose"@), below(base, "sessions/sessions.db"@)) + pair_if(
        !is_known_root(base),
        below(base, ".local/share/goose/sessions/sessions.db"@),
        below(base, ".goose/sessions/sessions.db"@),
    )
}

/// Where sessions may stand below a given place.
pub open spec fn directory_candidates(base: Seq<Seq<char>>) -> Seq<Seq<Seq<char>>> {
    seq![below(base, "sessions"@)] + path_if(is_named(base, ".local"@), below(base, "share/goose/sessions"@)) + path_if(
        ends_in(base, ".local"@, "share"@),
        below(base, "goose/sessions"@),
    ) + path_if(is_named(base, ".goose"@), below(base, "sessions"@)) + pair_if(
        !is_known_root(base),
        below(base, ".local/share/goose/sessions"@),
        below(base, ".goose/sessions"@),
    )
}

/// The directories of sessions that a place stands for.
pub open spec fn session_roots(t: Seq<EntryView>, base: Seq<Seq<char>>) -> Seq<Seq<Seq<char>>> {
    path_if(is_sessions(t, base), base) + directory_candidates(base).filter(
        |p: Seq<Seq<char>>| path_exists(t, p) && is_sessions(t, p),
    )
}

fn keep_sessions(files: &FileTable, paths: Vec<SourcePath>) -> (r: Vec<SourcePath>)
    ensures
        r.deep_view() == paths.deep_view().filter(
            |p: Seq<Seq<char>>| path_exists(files.deep_view(), p) && is_sessions(files.deep_view(), p),
        ),
{
    let ghost t = files.deep_view();
    let ghost wanted = |p: Seq<Seq<char>>| path_exists(t, p) && is_sessions(t, p);
    let ghost all = paths.deep_view();
    let mut out: Vec<SourcePath> = Vec::new();
    reveal(Seq::filter);
    assert(all.take(0) =~= Seq::empty());
    assert(out.deep_view() =~= all.take(0).filter(wanted));
    for p in it: paths
        invariant
            it.seq() == paths@,
            t == files.deep_view(),
            wanted == (|p: Seq<Seq<char>>| path_exists(t, p) && is_sessions(t, p)),
            all == paths.deep_view(),
            out.deep_view() == all.take(it.index() as int).filter(wanted),
    {
        reveal(Seq::filter);
        let ghost n = it.index() as int;
        assert(all.take(n + 1).drop_last() =~= all.take(n));
        assert(all.take(n + 1).last() == p.deep_view());
        if files.has(&p) && looks_like_goose_sessions(files, &p) {
            push_path(&mut out, p);
        }
    }
    assert(all.take(all.len() as int) =~= all);
    assert(wanted =~= (|p: Seq<Seq<char>>| path_exists(files.deep_view(), p) && is_sessions(files.deep_view(), p)));
    out
}

/// The database that the directory of a scan stands for, as a list.
pub open spec fn own_database(data_dir: Seq<Seq<char>>) -> Seq<Seq<Seq<char>>> {
    if extension(data_dir) == Some("db"@) {
        seq![data_dir]
    } else if data_dir.len() > 0 {
        seq![below(data_dir, "sessions.db"@)]
    } else {
        Seq::empty()
    }
}

/// The databases near given places, each with the place that names it.
pub open spec fn databases_near(places: Seq<RootView>) -> Seq<(RootView, Seq<Seq<char>>)>
    decreases places.len(),
{
    if places.len() == 0 {
        Seq::empty()
    } else {
        databases_near(places.drop_last()) + rooted(places.last(), database_candidates(places.last().path))
    }
}

/// Where a database may stand for a scan, with the root that names it.
pub open spec fn all_databases(t: Seq<EntryView>, ctx: ContextView, s: SurroundingsView) -> Seq<
    (RootView, Seq<Seq<char>>),
> {
    rooted(local_root(ctx.data_dir), own_database(ctx.data_dir)) + (if default_detection(ctx) {
        match usual_database(t, s) {
            Some(db) => seq![(local_root(db), db)],
            None => Seq::empty(),
        }
    } else {
        databases_near(ctx.scan_roots)
    })
}

/// The directories of sessions near given places, each with the place that names
/// it.
pub open spec fn directories_near(t: Seq<EntryView>, places: Seq<RootView>) -> Seq<(RootView, Seq<Seq<char>>)>
    decreases places.len(),
{
    if places.len() == 0 {
        Seq::empty()
    } else {
        directories_near(t, places.drop_last()) + rooted(places.last(), session_roots(t, places.last().path))
    }
}

/// The directories of sessions to scan, with the root that names each.
pub open spec fn all_directories(t: Seq<EntryView>, ctx: ContextView, s: SurroundingsView) -> Seq<
    (RootView, Seq<Seq<char>>),
> {
    settled_rooted(
        if default_detection(ctx) {
            if path_exists(t, ctx.data_dir) && is_sessions(t, ctx.data_dir) {
                seq![(local_root(ctx.data_dir), ctx.data_dir)]
            } else {
                match first_directory(t, usual_directories(s)) {
                    Some(d) => seq![(local_root(d), d)],
                    None => Seq::empty(),
                }
            }
        } else if path_exists(t, ctx.data_dir) {
            rooted(local_root(ctx.data_dir), session_roots(t, ctx.data_dir)) + directories_near(t, ctx.scan_roots)
        } else {
            directories_near(t, ctx.scan_roots)
        },
    )
}

/// The sessions of a database, where it could be read.
pub type GooseDatabase = Database<GooseRows>;

/// The conversations of databases; one that is missing or cannot be read is passed
/// over.
pub open spec fn database_conversations(
    t: Seq<EntryView>,
    dbs: Seq<DatabaseView<RowsView>>,
    all: Seq<(RootView, Seq<Seq<char>>)>,
    since: Option<i64>,
) -> Seq<ConversationView>
    decreases all.len(),
{
    if all.len() == 0 {
        Seq::empty()
    } else {
        let front = database_conversations(t, dbs, all.drop_last(), since);
        let path = all.last().1;
        if !path_exists(t, path) {
            front
        } else {
            match database_at(dbs, path) {
                None => front,
                Some(sessions) => match extracted(path, sessions, since) {
                    Ok(found) => front + found,
                    Err(_) => front,
                },
            }
        }
    }
}

/// The names of conversations.
pub open spec fn names_of(found: Seq<ConversationView>) -> Seq<Seq<char>>
    decreases found.len(),
{
    if found.len() == 0 {
        Seq::empty()
    } else {
        let front = names_of(found.drop_last());
        match found.last().external_id {
            Some(id) => if front.contains(id) {
                front
            } else {
                front.push(id)
            },
            None => front,
        }
    }
}

/// What was read of logs so far.
#[verifier::ext_equal]
pub struct ScanView {
    pub seen: Seq<Seq<Seq<char>>>,
    pub names: Seq<Seq<char>>,
    pub found: Seq<ConversationView>,
}

/// A log is read if it is new to the scan, changed, and of a name that is new. One
/// without messages counts for nothing.
pub open spec fn after_log(t: Seq<EntryView>, scan: ScanView, log: Seq<Seq<char>>) -> ScanView {
    let key = canonical_path(t, log);
    let seen = seen_with(scan.seen, key);
    let name = or_default(file_stem(log), "unknown"@);
    if was_seen(scan.seen, key) || !path_is_fresh(t, log) || scan.names.contains(name) {
        ScanView { seen, ..scan }
    } else {
        let names = scan.names.push(name);
        match log_session(t, log, name) {
            Ok(c) => if c.messages.len() > 0 {
                ScanView { seen, names, found: scan.found.push(c) }
            } else {
                ScanView { seen, names, ..scan }
            },
            Err(_) => ScanView { seen, names, ..scan },
        }
    }
}

pub open spec fn after_logs(t: Seq<EntryView>, scan: ScanView, all: Seq<Seq<Seq<char>>>) -> ScanView
    decreases all.len(),
{
    if all.len() == 0 {
        scan
    } else {
        after_log(t, after_logs(t, scan, all.drop_last()), all.last())
    }
}

/// The logs of a directory of sessions.
pub open spec fn logs_in(t: Seq<EntryView>, directory: Seq<Seq<char>>) -> Seq<Seq<Seq<char>>> {
    only_extension(walked_files(t, directory, 0, Some(2)), "jsonl"@)
}

pub open spec fn after_directories(
    t: Seq<EntryView>,
    scan: ScanView,
    all: Seq<(RootView, Seq<Seq<char>>)>,
) -> ScanView
    decreases all.len(),
{
    if all.len() == 0 {
        scan
    } else {
        after_logs(t, after_directories(t, scan, all.drop_last()), logs_in(t, all.last().1))
    }
}

/// The conversations that a scan finds: those of the databases, and those of logs
/// of other names.
pub open spec fn scanned(
    t: Seq<EntryView>,
    dbs: Seq<DatabaseView<RowsView>>,
    ctx: ContextView,
    s: SurroundingsView,
) -> Seq<ConversationView> {
    let found = database_conversations(t, dbs, distinct_paths(all_databases(t, ctx, s)), ctx.since_ts);
    after_directories(
        t,
        ScanView { seen: Seq::empty(), names: names_of(found), found },
        all_directories(t, ctx, s),
    ).found
}

/// The databases that a scan would read.
pub open spec fn database_sources(t: Seq<EntryView>, ctx: ContextView, s: SurroundingsView) -> Seq<SourceView> {
    sources_of("goose"@, distinct_paths(
        all_databases(t, ctx, s).filter(|c: (RootView, Seq<Seq<char>>)| path_is_file(t, c.1)),
    ))
}

/// What was discovered of logs so far: those that were met, and the sources.
pub open spec fn discovered_log(
    t: Seq<EntryView>,
    d: (Seq<Seq<Seq<char>>>, Seq<SourceView>),
    root: RootView,
    log: Seq<Seq<char>>,
) -> (Seq<Seq<Seq<char>>>, Seq<SourceView>) {
    let key = canonical_path(t, log);
    let seen = seen_with(d.0, key);
    if was_seen(d.0, key) || !path_is_fresh(t, log) {
        (seen, d.1)
    } else {
        (seen, d.1.push(source("goose"@, root, log, SourceRole::PrimarySessionLog, true)))
    }
}

pub open spec fn discovered_logs(
    t: Seq<EntryView>,
    d: (Seq<Seq<Seq<char>>>, Seq<SourceView>),
    root: RootView,
    all: Seq<Seq<Seq<char>>>,
) -> (Seq<Seq<Seq<char>>>, Seq<SourceView>)
    decreases all.len(),
{
    if all.len() == 0 {
        d
    } else {
        discovered_log(t, discovered_logs(t, d, root, all.drop_last()), root, all.last())
    }
}

pub open spec fn log_sources(t: Seq<EntryView>, all: Seq<(RootView, Seq<Seq<char>>)>) -> (
    Seq<Seq<Seq<char>>>,
    Seq<SourceView>,
)
    decreases all.len(),
{
    if all.len() == 0 {
        (Seq::empty(), Seq::empty())
    } else {
        discovered_logs(t, log_sources(t, all.drop_last()), all.last().0, logs_in(t, all.last().1))
    }
}

fn collect_names(found: &Vec<Conversation>) -> (r: Vec<String>)
    ensures
        r.deep_view() == names_of(found.deep_view()),
{
    let ghost all = found.deep_view();
    let mut names: Vec<String> = Vec::new();
    let mut i: usize = 0;
    assert(all.take(0) =~= Seq::empty());
    assert(names.deep_view() =~= Seq::empty());
    while i < found.len()
        invariant
            i <= found@.len(),
            all == found.deep_view(),
            names.deep_view() == names_of(all.take(i as int)),
        decreases found.len() - i,
    {
        assert(all.take(i + 1).drop_last() =~= all.take(i as int));
        assert(all.take(i + 1).last() == found@[i as int].deep_view());
        if let Some(id) = &found[i].external_id {
            let new = note_text(&mut names, id.as_str());
        }
        i = i + 1;
    }
    assert(all.take(all.len() as int) =~= all);
    names
}

impl GooseConnector {
    pub fn new() -> (r: GooseConnector)
        ensures
            r == GooseConnector,
    {
        GooseConnector
    }

    /// What the registry of agents found, or that nothing was found.
    pub fn detect(&self, found: Option<DetectionResult>) -> (r: DetectionResult)
        ensures
            r.deep_view() == detected_or_nothing(found.deep_view()),
    {
        detection_or_nothing(found)
    }

    /// The usual directory of sessions.
    pub fn sessions_dir(files: &FileTable, surroundings: &Surroundings) -> (r: Option<SourcePath>)
        ensures
            r.deep_view() == first_directory(files.deep_view(), usual_directories(surroundings.deep_view())),
    {
        let mut paths: Vec<SourcePath> = Vec::new();
        assert(paths.deep_view() =~= Seq::empty());
        let set = path_from_variable(surroundings, "GOOSE_PATH_ROOT");
        push_below(&mut paths, set.as_ref(), "data/sessions");
        push_below(&mut paths, surroundings.local_data.as_ref(), "goose/sessions");
        push_below(&mut paths, surroundings.home.as_ref(), ".local/share/goose/sessions");
        push_below(&mut paths, surroundings.home.as_ref(), ".goose/sessions");
        assert(paths.deep_view() =~= usual_directories(surroundings.deep_view()));
        find_directory(files, &paths)
    }

    /// The usual place of the database.
    pub fn sqlite_db_path(files: &FileTable, surroundings: &Surroundings) -> (r: Option<SourcePath>)
        ensures
            r.deep_view() == usual_database(files.deep_view(), surroundings.deep_view()),
    {
        let mut paths: Vec<SourcePath> = Vec::new();
        assert(paths.deep_view() =~= Seq::empty());
        if let Some(p) = path_from_variable(surroundings, "GOOSE_SQLITE_DB") {
            push_path(&mut paths, p);
        }
        assert(paths.deep_view() =~= match variable_path(surroundings.deep_view(), "GOOSE_SQLITE_DB"@) {
            Some(p) => seq![p],
            None => Seq::empty(),
        });
        let set = path_from_variable(surroundings, "GOOSE_PATH_ROOT");
        push_below(&mut paths, set.as_ref(), "data/sessions/sessions.db");
        push_below(&mut paths, surroundings.local_data.as_ref(), "goose/sessions/sessions.db");
        push_below(&mut paths, surroundings.home.as_ref(), ".local/share/goose/sessions/sessions.db");
        if let Some(p) = find_file(files, &paths) {
            return Some(p);
        }
        match &surroundings.home {
            Some(home) => {
                let db = home.join(".goose/sessions/sessions.db");
                if files.has(&db) {
                    Some(db)
                } else {
                    None
                }
            },
            None => None,
        }
    }

    /// Where a database may stand near a given place.
    pub fn append_db_candidates(base: &SourcePath) -> (r: Vec<SourcePath>)
        ensures
            r.deep_view() == database_candidates(base.deep_view()),
    {
        let ghost b = base.deep_view();
        let mut out: Vec<SourcePath> = Vec::new();
        assert(out.deep_view() =~= Seq::empty());
        let is_local = base.is_named(".local");
        let share = base.ends_in(".local", "share");
        let is_goose = base.is_named(".goose");
        push_if(&mut out, base.has_extension("db"), base.copy());
        push_path(&mut out, base.join("sessions.db"));
        push_path(&mut out, base.join("sessions").join("sessions.db"));
        push_if(&mut out, is_local, base.join("share/goose/sessions/sessions.db"));
        push_if(&mut out, share, base.join("goose/sessions/sessions.db"));
        push_if(&mut out, is_goose, base.join("sessions/sessions.db"));
        if !(is_local || share || is_goose) {
            push_path(&mut out, base.join(".local/share/goose/sessions/sessions.db"));
            push_path(&mut out, base.join(".goose/sessions/sessions.db"));
        }
        assert(out.deep_view() =~= database_candidates(b));
        out
    }

    /// The directories of sessions that a place stands for.
    pub fn append_session_roots(files: &FileTable, base: &SourcePath) -> (r: Vec<SourcePath>)
        ensures
            r.deep_view() == session_roots(files.deep_view(), base.deep_view()),
    {
        let ghost t = files.deep_view();
        let ghost b = base.deep_view();
        let mut candidates: Vec<SourcePath> = Vec::new();
        assert(candidates.deep_view() =~= Seq::empty());
        let is_local = base.is_named(".local");
        let share = base.ends_in(".local", "share");
        let is_goose = base.is_named(".goose");
        push_path(&mut candidates, base.join("sessions"));
        push_if(&mut candidates, is_local, base.join("share/goose/sessions"));
        push_if(&mut candidates, share, base.join("goose/sessions"));
        push_if(&mut candidates, is_goose, base.join("sessions"));
        if !(is_local || share || is_goose) {
            push_path(&mut candidates, base.join(".local/share/goose/sessions"));
            push_path(&mut candidates, base.join(".goose/sessions"));
        }
        assert(candidates.deep_view() =~= directory_candidates(b));
        let mut more = keep_sessions(files, candidates);
        let ghost rest = more.deep_view();
        let mut out: Vec<SourcePath> = Vec::new();
        assert(out.deep_view() =~= Seq::empty());
        let own = looks_like_goose_sessions(files, base);
        push_if(&mut out, own, base.copy());
        let ghost before = out.deep_view();
        out.append(&mut more);
        assert(out.deep_view() =~= before + rest);
        assert(before =~= path_if(is_sessions(t, b), b));
        out
    }

    /// Where a database may stand for a scan, with the root that names it.
    pub fn database_paths(ctx: &ScanContext, surroundings: &Surroundings, files: &FileTable) -> (r: Vec<RootedPath>)
        ensures
            r.deep_view() == all_databases(files.deep_view(), ctx.deep_view(), surroundings.deep_view()),
    {
        let ghost t = files.deep_view();
        let mut out: Vec<RootedPath> = Vec::new();
        assert(out.deep_view() =~= Seq::empty());
        let mut own: Vec<SourcePath> = Vec::new();
        assert(own.deep_view() =~= Seq::empty());
        assert(ctx.data_dir.parts@.len() == ctx.data_dir.deep_view().len());
        if ctx.data_dir.has_extension("db") {
            push_path(&mut own, ctx.data_dir.copy());
        } else if ctx.data_dir.parts.len() > 0 {
            push_path(&mut own, ctx.data_dir.join("sessions.db"));
        }
        assert(own.deep_view() =~= own_database(ctx.data_dir.deep_view()));
        push_rooted(&mut out, &ScanRoot::local(ctx.data_dir.copy()), &own);
        let ghost start = out.deep_view();
        assert(start =~= rooted(local_root(ctx.data_dir.deep_view()), own_database(ctx.data_dir.deep_view())));
        assert(start + Seq::<(RootView, Seq<Seq<char>>)>::empty() =~= start);
        if ctx.use_default_detection() {
            if let Some(db) = GooseConnector::sqlite_db_path(files, surroundings) {
                let ghost there = db.deep_view();
                let mut one = one_rooted(ScanRoot::local(db.copy()), db);
                let ghost added = one.deep_view();
                out.append(&mut one);
                assert(out.deep_view() =~= start + added);
            }
            return out;
        }
        let ghost places = ctx.scan_roots.deep_view();
        let mut i: usize = 0;
        assert(places.take(0) =~= Seq::empty());
        while i < ctx.scan_roots.len()
            invariant
                i <= ctx.scan_roots@.len(),
                places == ctx.scan_roots.deep_view(),
                out.deep_view() == start + databases_near(places.take(i as int)),
            decreases ctx.scan_roots.len() - i,
        {
            let place = &ctx.scan_roots[i];
            assert(places.take(i + 1).drop_last() =~= places.take(i as int));
            assert(places.take(i + 1).last() == place.deep_view());
            let near = GooseConnector::append_db_candidates(&place.path);
            push_rooted(&mut out, place, &near);
            assert(out.deep_view() =~= start + databases_near(places.take(i + 1)));
            i = i + 1;
        }
        assert(places.take(places.len() as int) =~= places);
        out
    }

    /// The directories of sessions to scan, with the root that names each.
    pub fn session_directories(ctx: &ScanContext, surroundings: &Surroundings, files: &FileTable) -> (r: Vec<
        RootedPath,
    >)
        ensures
            r.deep_view() == all_directories(files.deep_view(), ctx.deep_view(), surroundings.deep_view()),
    {
        let ghost t = files.deep_view();
        let mut out: Vec<RootedPath> = Vec::new();
        assert(out.deep_view() =~= Seq::empty());
        if ctx.use_default_detection() {
            if files.has(&ctx.data_dir) && looks_like_goose_sessions(files, &ctx.data_dir) {
                out = one_rooted(ScanRoot::local(ctx.data_dir.copy()), ctx.data_dir.copy());
            } else if let Some(d) = GooseConnector::sessions_dir(files, surroundings) {
                out = one_rooted(ScanRoot::local(d.copy()), d);
            }
            return settle_rooted(out);
        }
        let there = files.has(&ctx.data_dir);
        if there {
            let own = GooseConnector::append_session_roots(files, &ctx.data_dir);
            push_rooted(&mut out, &ScanRoot::local(ctx.data_dir.copy()), &own);
            assert(out.deep_view() =~= rooted(
                local_root(ctx.data_dir.deep_view()),
                session_roots(t, ctx.data_dir.deep_view()),
            ));
        }
        let ghost start = out.deep_view();
        let ghost places = ctx.scan_roots.deep_view();
        let mut i: usize = 0;
        assert(places.take(0) =~= Seq::empty());
        assert(start + directories_near(t, places.take(0)) =~= start);
        while i < ctx.scan_roots.len()
            invariant
                i <= ctx.scan_roots@.len(),
                t == files.deep_view(),
                places == ctx.scan_roots.deep_view(),
                out.deep_view() == start + directories_near(t, places.take(i as int)),
            decreases ctx.scan_roots.len() - i,
        {
            let place = &ctx.scan_roots[i];
            assert(places.take(i + 1).drop_last() =~= places.take(i as int));
            assert(places.take(i + 1).last() == place.deep_view());
            let near = GooseConnector::append_session_roots(files, &place.path);
            push_rooted(&mut out, place, &near);
            assert(out.deep_view() =~= start + directories_near(t, places.take(i + 1)));
            i = i + 1;
        }
        assert(places.take(places.len() as int) =~= places);
        assert(!there ==> start + directories_near(t, places) =~= directories_near(t, places));
        settle_rooted(out)
    }

    fn take_log(
        files: &FileTable,
        log: &SourcePath,
        seen: &mut Vec<SourcePath>,
        names: &mut Vec<String>,
        found: &mut Vec<Conversation>,
    )
        ensures
            after_log(
                files.deep_view(),
                (ScanView {
                    seen: old(seen).deep_view(),
                    names: old(names).deep_view(),
                    found: old(found).deep_view(),
                }),
                log.deep_view(),
            ) == (ScanView {
                seen: final(seen).deep_view(),
                names: final(names).deep_view(),
                found: final(found).deep_view(),
            }),
    {
        let key = files.canonical(log);
        if !note_path(seen, key) || !files.is_fresh(log) {
            return;
        }
        let name = match log.file_stem() {
            Some(stem) => stem,
            None => "unknown".to_owned(),
        };
        if !note_text(names, name.as_str()) {
            return;
        }
        if let Ok(c) = parse_goose_jsonl(files, log, name.as_str()) {
            if c.messages.len() > 0 {
                push_conversation(found, c);
            }
        }
    }

    /// Reads the sessions that changed.
    pub fn scan(
        &self,
        ctx: &ScanContext,
        surroundings: &Surroundings,
        files: &FileTable,
        databases: &Vec<GooseDatabase>,
    ) -> (r: Vec<Conversation>)
        ensures
            r.deep_view() == scanned(
                files.deep_view(),
                databases.deep_view(),
                ctx.deep_view(),
                surroundings.deep_view(),
            ),
    {
        let ghost t = files.deep_view();
        let ghost dbs = databases.deep_view();
        let list = keep_firsts(GooseConnector::database_paths(ctx, surroundings, files));
        let ghost all = list.deep_view();
        let mut found: Vec<Conversation> = Vec::new();
        let mut i: usize = 0;
        assert(all.take(0) =~= Seq::empty());
        assert(found.deep_view() =~= Seq::empty());
        while i < list.len()
            invariant
                i <= list@.len(),
                t == files.deep_view(),
                dbs == databases.deep_view(),
                all == list.deep_view(),
                found.deep_view() == database_conversations(t, dbs, all.take(i as int), ctx.since_ts),
            decreases list.len() - i,
        {
            let db = &list[i].path;
            let ghost before = found.deep_view();
            assert(all.take(i + 1).drop_last() =~= all.take(i as int));
            assert(all.take(i + 1).last() == list@[i as int].deep_view());
            if files.has(db) {
                if let Some(sessions) = find_database(databases, db) {
                    if let Ok(more) = extract_from_sqlite(db, sessions, ctx.since_ts) {
                        let mut more = more;
                        let ghost added = more.deep_view();
                        found.append(&mut more);
                        assert(found.deep_view() =~= before + added);
                    }
                }
            }
            i = i + 1;
        }
        assert(all.take(all.len() as int) =~= all);
        let mut names = collect_names(&found);
        let mut seen: Vec<SourcePath> = Vec::new();
        assert(seen.deep_view() =~= Seq::empty());
        let ghost start = ScanView { seen: seen.deep_view(), names: names.deep_view(), found: found.deep_view() };
        let directories = GooseConnector::session_directories(ctx, surroundings, files);
        let ghost ds = directories.deep_view();
        let mut k: usize = 0;
        assert(ds.take(0) =~= Seq::empty());
        while k < directories.len()
            invariant
                k <= directories@.len(),
                t == files.deep_view(),
                ds == directories.deep_view(),
                after_directories(t, start, ds.take(k as int)) == (ScanView {
                    seen: seen.deep_view(),
                    names: names.deep_view(),
                    found: found.deep_view(),
                }),
            decreases directories.len() - k,
        {
            let ghost before = after_directories(t, start, ds.take(k as int));
            assert(ds.take(k + 1).drop_last() =~= ds.take(k as int));
            assert(ds.take(k + 1).last() == directories@[k as int].deep_view());
            let logs = keep_extension(files.walk(&directories[k].path, 0, Some(2)), "jsonl");
            let ghost ls = logs.deep_view();
            let mut n: usize = 0;
            assert(ls.take(0) =~= Seq::empty());
            while n < logs.len()
                invariant
                    n <= logs@.len(),
                    t == files.deep_view(),
                    ls == logs.deep_view(),
                    after_logs(t, before, ls.take(n as int)) == (ScanView {
                        seen: seen.deep_view(),
                        names: names.deep_view(),
                        found: found.deep_view(),
                    }),
                decreases logs.len() - n,
            {
                assert(ls.take(n + 1).drop_last() =~= ls.take(n as int));
                assert(ls.take(n + 1).last() == logs@[n as int].deep_view());
                GooseConnector::take_log(files, &logs[n], &mut seen, &mut names, &mut found);
                n = n + 1;
            }
            assert(ls.take(ls.len() as int) =~= ls);
            k = k + 1;
        }
        assert(ds.take(ds.len() as int) =~= ds);
        found
    }

    /// The databases that a scan would read.
    pub fn discover_sqlite_sources(ctx: &ScanContext, surroundings: &Surroundings, files: &FileTable) -> (r: Vec<
        DiscoveredSource,
    >)
        ensures
            r.deep_view() == database_sources(files.deep_view(), ctx.deep_view(), surroundings.deep_view()),
    {
        let list = keep_firsts(
            keep_database_files(files, GooseConnector::database_paths(ctx, surroundings, files)),
        );
        list_sources("goose", &list)
    }

    /// The logs that a scan would read.
    pub fn discover_jsonl_sources(ctx: &ScanContext, surroundings: &Surroundings, files: &FileTable) -> (r: Vec<
        DiscoveredSource,
    >)
        ensures
            r.deep_view() == log_sources(
                files.deep_view(),
                all_directories(files.deep_view(), ctx.deep_view(), surroundings.deep_view()),
            ).1,
    {
        let ghost t = files.deep_view();
        let directories = GooseConnector::session_directories(ctx, surroundings, files);
        let ghost ds = directories.deep_view();
        let mut seen: Vec<SourcePath> = Vec::new();
        let mut out: Vec<DiscoveredSource> = Vec::new();
        let mut k: usize = 0;
        assert(ds.take(0) =~= Seq::empty());
        assert(seen.deep_view() =~= Seq::empty());
        assert(out.deep_view() =~= Seq::empty());
        while k < directories.len()
            invariant
                k <= directories@.len(),
                t == files.deep_view(),
                ds == directories.deep_view(),
                log_sources(t, ds.take(k as int)) == (seen.deep_view(), out.deep_view()),
            decreases directories.len() - k,
        {
            let root = &directories[k].root;
            let ghost before = log_sources(t, ds.take(k as int));
            assert(ds.take(k + 1).drop_last() =~= ds.take(k as int));
            assert(ds.take(k + 1).last() == directories@[k as int].deep_view());
            let logs = keep_extension(files.walk(&directories[k].path, 0, Some(2)), "jsonl");
            let ghost ls = logs.deep_view();
            let mut n: usize = 0;
            assert(ls.take(0) =~= Seq::empty());
            while n < logs.len()
                invariant
                    n <= logs@.len(),
                    t == files.deep_view(),
                    ls == logs.deep_view(),
                    discovered_logs(t, before, root.deep_view(), ls.take(n as int)) == (
                        seen.deep_view(),
                        out.deep_view(),
                    ),
                decreases logs.len() - n,
            {
                let log = &logs[n];
                assert(ls.take(n + 1).drop_last() =~= ls.take(n as int));
                assert(ls.take(n + 1).last() == log.deep_view());
                let key = files.canonical(log);
                if note_path(&mut seen, key) && files.is_fresh(log) {
                    push_source(
                        &mut out,
                        DiscoveredSource::new("goose", root, log.copy(), SourceRole::PrimarySessionLog, true),
                    );
                }
                n = n + 1;
            }
            assert(ls.take(ls.len() as int) =~= ls);
            k = k + 1;
        }
        assert(ds.take(ds.len() as int) =~= ds);
        out
    }

    /// The files that a scan would read.
    pub fn discover_source_files(&self, ctx: &ScanContext, surroundings: &Surroundings, files: &FileTable) -> (r: Vec<
        DiscoveredSource,
    >)
        ensures
            r.deep_view() == database_sources(files.deep_view(), ctx.deep_view(), surroundings.deep_view())
                + log_sources(
                files.deep_view(),
                all_directories(files.deep_view(), ctx.deep_view(), surroundings.deep_view()),
            ).1,
    {
        let mut out = GooseConnector::discover_sqlite_sources(ctx, surroundings, files);
        let mut more = GooseConnector::discover_jsonl_sources(ctx, surroundings, files);
        let ghost (x, y) = (out.deep_view(), more.deep_view());
        out.append(&mut more);
        assert(out.deep_view() =~= x + y);
        out
    }
}

/// Whether a conversation is of a name that was taken in between.
pub open spec fn new_name(before: Seq<Seq<char>>, after: Seq<Seq<char>>, c: ConversationView) -> bool {
    c.external_id is Some && !before.contains(c.external_id->0) && after.contains(c.external_id->0)
}

proof fn logs_bring_new_names(t: Seq<EntryView>, scan: ScanView, all: Seq<Seq<Seq<char>>>)
    ensures
        ({
            let after = after_logs(t, scan, all);
            &&& after.found.len() >= scan.found.len()
            &&& forall|i: int| 0 <= i < scan.found.len() ==> after.found[i] == #[trigger] scan.found[i]
            &&& forall|n: Seq<char>| #[trigger] scan.names.contains(n) ==> after.names.contains(n)
            &&& forall|i: int|
                scan.found.len() <= i < after.found.len() ==> new_name(scan.names, after.names, #[trigger] after.found[i])
        }),
    decreases all.len(),
{
    if all.len() > 0 {
        logs_bring_new_names(t, scan, all.drop_last());
        let before = after_logs(t, scan, all.drop_last());
        let after = after_logs(t, scan, all);
        let name = or_default(file_stem(all.last()), "unknown"@);
        assert forall|n: Seq<char>| before.names.contains(n) implies #[trigger] after.names.contains(n) by {
            let k = choose|k: int| 0 <= k < before.names.len() && before.names[k] == n;
            assert(after.names[k] == n);
        }
        if after.found.len() > before.found.len() {
            assert(after.names[before.names.len() as int] == name);
            assert(!scan.names.contains(name)) by {
                if scan.names.contains(name) {
                    assert(before.names.contains(name));
                }
            }
        }
    }
}

proof fn directories_bring_new_names(t: Seq<EntryView>, scan: ScanView, all: Seq<(RootView, Seq<Seq<char>>)>)
    ensures
        ({
            let after = after_directories(t, scan, all);
            &&& after.found.len() >= scan.found.len()
            &&& forall|i: int| 0 <= i < scan.found.len() ==> after.found[i] == #[trigger] scan.found[i]
            &&& forall|n: Seq<char>| #[trigger] scan.names.contains(n) ==> after.names.contains(n)
            &&& forall|i: int|
                scan.found.len() <= i < after.found.len() ==> new_name(scan.names, after.names, #[trigger] after.found[i])
        }),
    decreases all.len(),
{
    if all.len() > 0 {
        directories_bring_new_names(t, scan, all.drop_last());
        let before = after_directories(t, scan, all.drop_last());
        let after = after_directories(t, scan, all);
        logs_bring_new_names(t, before, logs_in(t, all.last().1));
        assert forall|i: int| scan.found.len() <= i < after.found.len() implies new_name(
            scan.names,
            after.names,
            #[trigger] after.found[i],
        ) by {
            if i < before.found.len() {
                assert(after.found[i] == before.found[i]);
                let id = before.found[i].external_id->0;
                assert(before.names.contains(id));
                assert(after.names.contains(id));
            } else {
                let id = after.found[i].external_id->0;
                assert(!before.names.contains(id));
                if scan.names.contains(id) {
                    assert(before.names.contains(id));
                }
            }
        }
    }
}

proof fn names_are_all(found: Seq<ConversationView>)
    ensures
        forall|i: int|
            0 <= i < found.len() && (#[trigger] found[i]).external_id is Some ==> names_of(found).contains(
                found[i].external_id->0,
            ),
    decreases found.len(),
{
    if found.len() > 0 {
        let front = found.drop_last();
        names_are_all(front);
        assert forall|i: int| 0 <= i < found.len() && (#[trigger] found[i]).external_id is Some implies names_of(
            found,
        ).contains(found[i].external_id->0) by {
            let id = found[i].external_id->0;
            if i < front.len() {
                assert(front[i] == found[i]);
                assert(names_of(front).contains(id));
                let k = choose|k: int| 0 <= k < names_of(front).len() && names_of(front)[k] == id;
                assert(names_of(found)[k] == id);
            } else if !names_of(front).contains(id) {
                assert(names_of(found)[names_of(front).len() as int] == id);
            }
        }
    }
}

/// A session that a database holds is not read again from a log: the conversations
/// of the databases come first and unchanged, and every one behind them is of a
/// name that none of them has.
pub proof fn logs_do_not_repeat_databases(
    t: Seq<EntryView>,
    dbs: Seq<DatabaseView<RowsView>>,
    ctx: ContextView,
    s: SurroundingsView,
)
    ensures
        ({
            let first = database_conversations(t, dbs, distinct_paths(all_databases(t, ctx, s)), ctx.since_ts);
            let all = scanned(t, dbs, ctx, s);
            &&& all.len() >= first.len()
            &&& forall|i: int| 0 <= i < first.len() ==> all[i] == #[trigger] first[i]
            &&& forall|i: int, j: int|
                0 <= i < first.len() <= j < all.len() ==> (#[trigger] first[i]).external_id != (
                #[trigger] all[j]).external_id
        }),
{
    let first = database_conversations(t, dbs, distinct_paths(all_databases(t, ctx, s)), ctx.since_ts);
    let start = ScanView { seen: Seq::empty(), names: names_of(first), found: first };
    let all = scanned(t, dbs, ctx, s);
    directories_bring_new_names(t, start, all_directories(t, ctx, s));
    names_are_all(first);
    assert forall|i: int, j: int| 0 <= i < first.len() <= j < all.len() implies (#[trigger] first[i]).external_id != (
    #[trigger] all[j]).external_id by {
        if first[i].external_id == all[j].external_id {
            assert(names_of(first).contains(first[i].external_id->0));
        }
    }
}

/// What relates a scan and a discovery of the same logs: they met the same files, and
/// what the scan found behind the first `n` conversations is among the sources.
spec fn is_covered(scan: ScanView, n: int, d: (Seq<Seq<Seq<char>>>, Seq<SourceView>)) -> bool {
    &&& scan.seen == d.0
    &&& 0 <= n <= scan.found.len()
    &&& forall|i: int| n <= i < scan.found.len() ==> is_source(d.1, (#[trigger] scan.found[i]).source_path)
}

proof fn log_is_covered(
    t: Seq<EntryView>,
    scan: ScanView,
    n: int,
    d: (Seq<Seq<Seq<char>>>, Seq<SourceView>),
    root: RootView,
    log: Seq<Seq<char>>,
)
    requires
        is_covered(scan, n, d),
    ensures
        is_covered(after_log(t, scan, log), n, discovered_log(t, d, root, log)),
{
    let s2 = after_log(t, scan, log);
    let d2 = discovered_log(t, d, root, log);
    assert forall|i: int| n <= i < s2.found.len() implies is_source(d2.1, (#[trigger] s2.found[i]).source_path) by {
        if i < scan.found.len() {
            assert(s2.found[i] == scan.found[i]);
            let path = scan.found[i].source_path;
            let k = choose|k: int| 0 <= k < d.1.len() && (#[trigger] d.1[k]).source_path == path;
            assert(d2.1[k] == d.1[k]);
        } else {
            assert(s2.found[i].source_path == log);
            assert(d2.1[d.1.len() as int].source_path == log);
        }
    }
}

proof fn logs_are_covered(
    t: Seq<EntryView>,
    scan: ScanView,
    n: int,
    d: (Seq<Seq<Seq<char>>>, Seq<SourceView>),
    root: RootView,
    all: Seq<Seq<Seq<char>>>,
)
    requires
        is_covered(scan, n, d),
    ensures
        is_covered(after_logs(t, scan, all), n, discovered_logs(t, d, root, all)),
    decreases all.len(),
{
    if all.len() > 0 {
        let front = all.drop_last();
        logs_are_covered(t, scan, n, d, root, front);
        log_is_covered(t, after_logs(t, scan, front), n, discovered_logs(t, d, root, front), root, all.last());
    }
}

proof fn directories_are_covered(t: Seq<EntryView>, scan: ScanView, all: Seq<(RootView, Seq<Seq<char>>)>)
    requires
        scan.seen.len() == 0,
    ensures
        is_covered(after_directories(t, scan, all), scan.found.len() as int, log_sources(t, all)),
    decreases all.len(),
{
    if all.len() > 0 {
        let front = all.drop_last();
        directories_are_covered(t, scan, front);
        logs_are_covered(
            t,
            after_directories(t, scan, front),
            scan.found.len() as int,
            log_sources(t, front),
            all.last().0,
            logs_in(t, all.last().1),
        );
    } else {
        assert(scan.seen =~= Seq::empty());
    }
}

/// Whatever log a scan reads, discovery names: each conversation behind those of the
/// databases comes from a file that is among the sources.
pub proof fn scanned_logs_are_discovered(
    t: Seq<EntryView>,
    dbs: Seq<DatabaseView<RowsView>>,
    ctx: ContextView,
    s: SurroundingsView,
)
    ensures
        ({
            let first = database_conversations(t, dbs, distinct_paths(all_databases(t, ctx, s)), ctx.since_ts);
            forall|i: int|
                first.len() <= i < scanned(t, dbs, ctx, s).len() ==> is_source(
                    log_sources(t, all_directories(t, ctx, s)).1,
                    (#[trigger] scanned(t, dbs, ctx, s)[i]).source_path,
                )
        }),
{
    let first = database_conversations(t, dbs, distinct_paths(all_databases(t, ctx, s)), ctx.since_ts);
    directories_are_covered(
        t,
        ScanView { seen: Seq::empty(), names: names_of(first), found: first },
        all_directories(t, ctx, s),
    );
}

proof fn database_conversations_are_canonical(
    t: Seq<EntryView>,
    dbs: Seq<DatabaseView<RowsView>>,
    all: Seq<(RootView, Seq<Seq<char>>)>,
    since: Option<i64>,
)
    ensures
        canonical_conversations(database_conversations(t, dbs, all, since)),
    decreases all.len(),
{
    if all.len() > 0 {
        let path = all.last().1;
        database_conversations_are_canonical(t, dbs, all.drop_last(), since);
        if let Some(sessions) = database_at(dbs, path) {
            extracted_documents_are_canonical(path, sessions, since);
            conversations_join(
                database_conversations(t, dbs, all.drop_last(), since),
                extract(path, sessions, since).found,
            );
        }
    }
}

proof fn logs_keep_canonical(t: Seq<EntryView>, scan: ScanView, all: Seq<Seq<Seq<char>>>)
    requires
        canonical_conversations(scan.found),
    ensures
        canonical_conversations(after_logs(t, scan, all).found),
    decreases all.len(),
{
    if all.len() > 0 {
        let log = all.last();
        let name = or_default(file_stem(log), "unknown"@);
        logs_keep_canonical(t, scan, all.drop_last());
        if let Some(text) = text_at(t, log) {
            log_conversation_is_canonical(log, text, name);
        }
        if let Ok(c) = log_session(t, log, name) {
            conversations_grow(after_logs(t, scan, all.drop_last()).found, c);
        }
    }
}

proof fn directories_keep_canonical(t: Seq<EntryView>, scan: ScanView, all: Seq<(RootView, Seq<Seq<char>>)>)
    requires
        canonical_conversations(scan.found),
    ensures
        canonical_conversations(after_directories(t, scan, all).found),
    decreases all.len(),
{
    if all.len() > 0 {
        directories_keep_canonical(t, scan, all.drop_last());
        logs_keep_canonical(t, after_directories(t, scan, all.drop_last()), logs_in(t, all.last().1));
    }
}

/// The documents of all conversations that a scan hands out are canonical, so that
/// each can be rendered.
pub proof fn scanned_documents_are_canonical(
    t: Seq<EntryView>,
    dbs: Seq<DatabaseView<RowsView>>,
    ctx: ContextView,
    s: SurroundingsView,
)
    ensures
        canonical_conversations(scanned(t, dbs, ctx, s)),
{
    let databases = distinct_paths(all_databases(t, ctx, s));
    let found = database_conversations(t, dbs, databases, ctx.since_ts);
    database_conversations_are_canonical(t, dbs, databases, ctx.since_ts);
    directories_keep_canonical(
        t,
        ScanView { seen: Seq::empty(), names: names_of(found), found },
        all_directories(t, ctx, s),
    );
}

/// The databases that can be read are read in their order: what one holds comes behind what
/// those before it hold.
pub proof fn databases_are_read_in_order(
    t: Seq<EntryView>,
    dbs: Seq<DatabaseView<RowsView>>,
    all: Seq<(RootView, Seq<Seq<char>>)>,
    next: (RootView, Seq<Seq<char>>),
    since: Option<i64>,
    sessions: Seq<RowsView>,
)
    requires
        path_exists(t, next.1),
        database_at(dbs, next.1) == Some(sessions),
    ensures
        extracted(next.1, sessions, since) matches Ok(found) ==> database_conversations(t, dbs, all.push(next), since)
            == database_conversations(t, dbs, all, since) + found,
        extracted(next.1, sessions, since) is Err ==> database_conversations(t, dbs, all.push(next), since)
            == database_conversations(t, dbs, all, since),
        database_conversations(t, dbs, Seq::empty(), since).len() == 0,
{
    assert(all.push(next).drop_last() =~= all);
}

/// A log that changed, was not seen and whose name was not met is read where it says
/// anything: its session has the name of the file.
pub proof fn logs_that_changed_are_read(t: Seq<EntryView>, scan: ScanView, log: Seq<Seq<char>>, text: Seq<char>, name: Seq<char>)
    requires
        path_is_fresh(t, log),
        !was_seen(scan.seen, canonical_path(t, log)),
        file_stem(log) == Some(name),
        !scan.names.contains(name),
        text_at(t, log) == Some(text),
    ensures
        ({
            let after = after_log(t, scan, log);
            let c = crate::goose_store::log_conversation(log, text, name);
            &&& c.messages.len() > 0 ==> after.found == scan.found.push(c)
            &&& c.messages.len() == 0 ==> after.found == scan.found
            &&& after.names == scan.names.push(name)
        }),
{
}

/// Near a place a database is looked for at the place itself where it is named like one, where
/// sessions stand right below it, and where they stand below a directory of that name; and
/// nowhere else.
pub proof fn databases_are_looked_for_near_a_place(base: Seq<Seq<char>>, p: Seq<Seq<char>>)
    ensures
        database_candidates(base).contains(p) <==> {
            ||| (extension(base) == Some("db"@)) && p == base
            ||| p == below(base, "sessions.db"@)
            ||| p == below(below(base, "sessions"@), "sessions.db"@)
            ||| (is_named(base, ".local"@)) && p == below(base, "share/goose/sessions/sessions.db"@)
            ||| (ends_in(base, ".local"@, "share"@)) && p == below(base, "goose/sessions/sessions.db"@)
            ||| (is_named(base, ".goose"@)) && p == below(base, "sessions/sessions.db"@)
            ||| (!is_named(base, ".local"@) && !ends_in(base, ".local"@, "share"@) && !is_named(base, ".goose"@)) && p == below(base, ".local/share/goose/sessions/sessions.db"@)
            ||| (!is_named(base, ".local"@) && !ends_in(base, ".local"@, "share"@) && !is_named(base, ".goose"@)) && p == below(base, ".goose/sessions/sessions.db"@)
        },
{
    let s0 = path_if(extension(base) == Some("db"@), base);
    let s1 = seq![
        below(base, "sessions.db"@),
        below(below(base, "sessions"@), "sessions.db"@),
    ];
    let s2 = path_if(is_named(base, ".local"@), below(base, "share/goose/sessions/sessions.db"@));
    let s3 = path_if(ends_in(base, ".local"@, "share"@), below(base, "goose/sessions/sessions.db"@));
    let s4 = path_if(is_named(base, ".goose"@), below(base, "sessions/sessions.db"@));
    let s5 = pair_if(
        !is_known_root(base),
        below(base, ".local/share/goose/sessions/sessions.db"@),
        below(base, ".goose/sessions/sessions.db"@),
    );
    listed_paths(base, base, base, base, p);
    listed_paths(below(base, "sessions.db"@), below(below(base, "sessions"@), "sessions.db"@), below(base, "sessions.db"@), below(below(base, "sessions"@), "sessions.db"@), p);
    listed_paths(below(base, "share/goose/sessions/sessions.db"@), below(base, "share/goose/sessions/sessions.db"@), below(base, "share/goose/sessions/sessions.db"@), below(base, "share/goose/sessions/sessions.db"@), p);
    listed_paths(below(base, "goose/sessions/sessions.db"@), below(base, "goose/sessions/sessions.db"@), below(base, "goose/sessions/sessions.db"@), below(base, "goose/sessions/sessions.db"@), p);
    listed_paths(below(base, "sessions/sessions.db"@), below(base, "sessions/sessions.db"@), below(base, "sessions/sessions.db"@), below(base, "sessions/sessions.db"@), p);
    listed_paths(below(base, ".local/share/goose/sessions/sessions.db"@), below(base, ".goose/sessions/sessions.db"@), below(base, ".local/share/goose/sessions/sessions.db"@), below(base, ".goose/sessions/sessions.db"@), p);
    joined_paths(s0, s1, p);
    joined_paths(s0 + s1, s2, p);
    joined_paths(s0 + s1 + s2, s3, p);
    joined_paths(s0 + s1 + s2 + s3, s4, p);
    joined_paths(s0 + s1 + s2 + s3 + s4, s5, p);
}

/// Near a place the directories of sessions are looked for right below it, and where they
/// stand below a directory of that name; and nowhere else.
pub proof fn sessions_are_looked_for_near_a_place(base: Seq<Seq<char>>, p: Seq<Seq<char>>)
    ensures
        directory_candidates(base).contains(p) <==> {
            ||| p == below(base, "sessions"@)
            ||| (is_named(base, ".local"@)) && p == below(base, "share/goose/sessions"@)
            ||| (ends_in(base, ".local"@, "share"@)) && p == below(base, "goose/sessions"@)
            ||| (is_named(base, ".goose"@)) && p == below(base, "sessions"@)
            ||| (!is_named(base, ".local"@) && !ends_in(base, ".local"@, "share"@) && !is_named(base, ".goose"@)) && p == below(base, ".local/share/goose/sessions"@)
            ||| (!is_named(base, ".local"@) && !ends_in(base, ".local"@, "share"@) && !is_named(base, ".goose"@)) && p == below(base, ".goose/sessions"@)
        },
{
    let s0 = seq![below(base, "sessions"@)];
    let s1 = path_if(is_named(base, ".local"@), below(base, "share/goose/sessions"@));
    let s2 = path_if(ends_in(base, ".local"@, "share"@), below(base, "goose/sessions"@));
    let s3 = path_if(is_named(base, ".goose"@), below(base, "sessions"@));
    let s4 = pair_if(
        !is_known_root(base),
        below(base, ".local/share/goose/sessions"@),
        below(base, ".goose/sessions"@),
    );
    listed_paths(below(base, "sessions"@), below(base, "sessions"@), below(base, "sessions"@), below(base, "sessions"@), p);
    listed_paths(below(base, "share/goose/sessions"@), below(base, "share/goose/sessions"@), below(base, "share/goose/sessions"@), below(base, "share/goose/sessions"@), p);
    listed_paths(below(base, "goose/sessions"@), below(base, "goose/sessions"@), below(base, "goose/sessions"@), below(base, "goose/sessions"@), p);
    listed_paths(below(base, "sessions"@), below(base, "sessions"@), below(base, "sessions"@), below(base, "sessions"@), p);
    listed_paths(below(base, ".local/share/goose/sessions"@), below(base, ".goose/sessions"@), below(base, ".local/share/goose/sessions"@), below(base, ".goose/sessions"@), p);
    joined_paths(s0, s1, p);
    joined_paths(s0 + s1, s2, p);
    joined_paths(s0 + s1 + s2, s3, p);
    joined_paths(s0 + s1 + s2 + s3, s4, p);
}

/// The first of given paths that is a file is taken.
pub proof fn first_files_are_taken(t: Seq<EntryView>, paths: Seq<Seq<Seq<char>>>, n: int)
    requires
        0 <= n <= paths.len(),
        forall|i: int| 0 <= i < n ==> !path_is_file(t, #[trigger] paths[i]),
        n < paths.len() ==> path_is_file(t, paths[n]),
    ensures
        n < paths.len() ==> first_file(t, paths) == Some(paths[n]),
        n == paths.len() ==> first_file(t, paths) is None,
    decreases n,
{
    if n > 0 {
        let rest = paths.skip(1);
        assert(!path_is_file(t, paths[0]));
        assert forall|i: int| 0 <= i < n - 1 implies !path_is_file(t, #[trigger] rest[i]) by {
            assert(!path_is_file(t, paths[i + 1]));
        }
        first_files_are_taken(t, rest, n - 1);
    }
}

/// The usual database is the one that the environment names where that is a file; and the
/// oldest place below the home counts last, whatever stands there.
pub proof fn usual_databases_come_in_order(t: Seq<EntryView>, s: SurroundingsView, db: Seq<Seq<char>>, home: Seq<Seq<char>>)
    ensures
        variable_path(s, "GOOSE_SQLITE_DB"@) == Some(db) && path_is_file(t, db) ==> usual_database(t, s) == Some(db),
        variable_path(s, "GOOSE_SQLITE_DB"@) is None && variable_path(s, "GOOSE_PATH_ROOT"@) == Some(db) && path_is_file(
            t,
            below(db, "data/sessions/sessions.db"@),
        ) ==> usual_database(t, s) == Some(below(db, "data/sessions/sessions.db"@)),
        variable_path(s, "GOOSE_SQLITE_DB"@) is None && variable_path(s, "GOOSE_PATH_ROOT"@) is None && s.local_data == Some(
            db,
        ) && path_is_file(t, below(db, "goose/sessions/sessions.db"@)) ==> usual_database(t, s) == Some(
            below(db, "goose/sessions/sessions.db"@),
        ),
        variable_path(s, "GOOSE_SQLITE_DB"@) is None && variable_path(s, "GOOSE_PATH_ROOT"@) is None && s.local_data is None
            && s.home == Some(home) && path_is_file(t, below(home, ".local/share/goose/sessions/sessions.db"@))
            ==> usual_database(t, s) == Some(below(home, ".local/share/goose/sessions/sessions.db"@)),
        variable_path(s, "GOOSE_SQLITE_DB"@) is None && variable_path(s, "GOOSE_PATH_ROOT"@) is None && s.local_data is None
            && s.home == Some(home) && !path_is_file(t, below(home, ".local/share/goose/sessions/sessions.db"@))
            && path_exists(t, below(home, ".goose/sessions/sessions.db"@)) ==> usual_database(t, s) == Some(
            below(home, ".goose/sessions/sessions.db"@),
        ),
{
    let newer = (match variable_path(s, "GOOSE_SQLITE_DB"@) {
        Some(p) => seq![p],
        None => Seq::empty(),
    }) + sessions_below(variable_path(s, "GOOSE_PATH_ROOT"@), "data/sessions/sessions.db"@) + sessions_below(
        s.local_data,
        "goose/sessions/sessions.db"@,
    ) + sessions_below(s.home, ".local/share/goose/sessions/sessions.db"@);
    if newer.len() > 0 && path_is_file(t, newer[0]) {
        first_files_are_taken(t, newer, 0);
    } else if newer.len() == 1 {
        first_files_are_taken(t, newer, 1);
    }
}

/// A scan reads the database at its own data first, then without given places the usual one,
/// and with given places those near them.
pub proof fn scans_read_their_databases(t: Seq<EntryView>, ctx: ContextView, s: SurroundingsView)
    ensures
        ({
            let all = all_databases(t, ctx, s);
            let own = ctx.data_dir;
            &&& own.len() > 0 && extension(own) == Some("db"@) ==> all.len() >= 1 && all[0] == (local_root(own), own)
            &&& own.len() > 0 && extension(own) != Some("db"@) ==> all.len() >= 1 && all[0] == (
                local_root(own),
                below(own, "sessions.db"@),
            )
            &&& ctx.scan_roots.len() == 0 ==> (usual_database(t, s) matches Some(db) ==> all.last() == (local_root(db), db))
        }),
        forall|place: RootView, places: Seq<RootView>|
            #![trigger databases_near(places.push(place))]
            databases_near(places.push(place)) == databases_near(places) + rooted(place, database_candidates(place.path)),
        forall|place: RootView, places: Seq<RootView>|
            #![trigger directories_near(t, places.push(place))]
            directories_near(t, places.push(place)) == directories_near(t, places) + rooted(
                place,
                session_roots(t, place.path),
            ),
{
    assert forall|place: RootView, places: Seq<RootView>|
        #![trigger databases_near(places.push(place))]
        databases_near(places.push(place)) == databases_near(places) + rooted(place, database_candidates(place.path)) by {
        assert(places.push(place).drop_last() =~= places);
    }
    assert forall|place: RootView, places: Seq<RootView>|
        #![trigger directories_near(t, places.push(place))]
        directories_near(t, places.push(place)) == directories_near(t, places) + rooted(
        place,
        session_roots(t, place.path),
    ) by {
        assert(places.push(place).drop_last() =~= places);
    }
}

/// A directory is one of sessions where it holds the database or lists a log.
pub proof fn directories_of_sessions_are_told(t: Seq<EntryView>, p: Seq<Seq<char>>, i: int)
    ensures
        path_exists(t, below(p, "sessions.db"@)) ==> is_sessions(t, p),
        0 <= i < children(t, p).len() && extension(children(t, p)[i]) == Some("jsonl"@) ==> is_sessions(t, p),
        !path_exists(t, below(p, "sessions.db"@)) && children(t, p).len() == 0 ==> !is_sessions(t, p),
{
}

/// Logs and directories of logs are read in their order, behind the databases; a log that
/// changed and was not met is a source that the scan needs.
pub proof fn logs_are_read_in_order(
    t: Seq<EntryView>,
    scan: ScanView,
    logs: Seq<Seq<Seq<char>>>,
    log: Seq<Seq<char>>,
    all: Seq<(RootView, Seq<Seq<char>>)>,
    next: (RootView, Seq<Seq<char>>),
    d: (Seq<Seq<Seq<char>>>, Seq<SourceView>),
    root: RootView,
)
    ensures
        after_logs(t, scan, logs.push(log)) == after_log(t, after_logs(t, scan, logs), log),
        after_logs(t, scan, Seq::empty()) == scan,
        after_directories(t, scan, all.push(next)) == after_logs(t, after_directories(t, scan, all), logs_in(t, next.1)),
        after_directories(t, scan, Seq::empty()) == scan,
        path_is_fresh(t, log) && !was_seen(d.0, canonical_path(t, log)) ==> {
            let after = discovered_log(t, d, root, log).1;
            &&& after.drop_last() == d.1
            &&& after.len() == d.1.len() + 1
            &&& after.last().source_path == log
            &&& after.last().role is PrimarySessionLog
            &&& after.last().required_for_reconstruction
            &&& after.last().provider_slug == "goose"@
        },
        !path_is_fresh(t, log) || was_seen(d.0, canonical_path(t, log)) ==> discovered_log(t, d, root, log).1 == d.1,
{
    assert(logs.push(log).drop_last() =~= logs);
    assert(all.push(next).drop_last() =~= all);
    let s = source("goose"@, root, log, SourceRole::PrimarySessionLog, true);
    assert(d.1.push(s).drop_last() =~= d.1);
}

/// The logs of a directory are the plain files up to two steps below it whose extension tells
/// of lines of documents.
pub proof fn logs_are_looked_for(t: Seq<EntryView>, directory: Seq<Seq<char>>, p: Seq<Seq<char>>)
    ensures
        logs_in(t, directory).contains(p) <==> extension(p) == Some("jsonl"@) && crate::files::can_walk_to(
            t,
            directory,
            0,
            Some(2),
            p,
        ),
{
    crate::files::walk_is_sound_and_complete(t, directory, 0, Some(2));
    crate::files::files_of_an_extension_are_kept(walked_files(t, directory, 0, Some(2)), "jsonl"@, p);
}

/// A place stands for itself where it is a directory of sessions, and for those of the places
/// near it that exist and are.
pub proof fn places_stand_for_directories_of_sessions(t: Seq<EntryView>, base: Seq<Seq<char>>, p: Seq<Seq<char>>)
    ensures
        session_roots(t, base).contains(p) <==> {
            ||| is_sessions(t, base) && p == base
            ||| directory_candidates(base).contains(p) && path_exists(t, p) && is_sessions(t, p)
        },
{
    let keep = |p: Seq<Seq<char>>| path_exists(t, p) && is_sessions(t, p);
    let near = directory_candidates(base).filter(keep);
    crate::files::filtering_keeps(directory_candidates(base), keep, p);
    listed_paths(base, base, base, base, p);
    joined_paths(path_if(is_sessions(t, base), base), near, p);
}

/// A scan hands out what the databases hold, and behind it what the directories of logs hold
/// that the databases do not name.
pub proof fn scans_hand_out_databases_and_logs(
    t: Seq<EntryView>,
    dbs: Seq<DatabaseView<RowsView>>,
    ctx: ContextView,
    s: SurroundingsView,
)
    ensures
        ({
            let found = database_conversations(t, dbs, distinct_paths(all_databases(t, ctx, s)), ctx.since_ts);
            scanned(t, dbs, ctx, s) == after_directories(
                t,
                ScanView { seen: Seq::empty(), names: names_of(found), found },
                all_directories(t, ctx, s),
            ).found
        }),
{
}

/// The names of conversations are those that each has, each once.
pub proof fn conversations_are_known_by_name(found: Seq<ConversationView>, c: ConversationView, id: Seq<char>)
    ensures
        names_of(found.push(c)).contains(id) <==> names_of(found).contains(id) || c.external_id == Some(id),
        !names_of(Seq::empty()).contains(id),
{
    assert(found.push(c).drop_last() =~= found);
    let front = names_of(found);
    if let Some(own) = c.external_id {
        let more = front.push(own);
        assert(more[front.len() as int] == own);
        if front.contains(id) {
            let k = choose|k: int| 0 <= k < front.len() && front[k] == id;
            assert(more[k] == id);
        }
        if more.contains(id) && id != own {
            let k = choose|k: int| 0 <= k < more.len() && more[k] == id;
            assert(front[k] == id);
        }
    }
}

} // verus!
