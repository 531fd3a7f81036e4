//! OpenCode: where its sessions stand, and how they are scanned.
use vstd::prelude::*;
use crate::canon::{canonical_conversations, conversations_grow};
use crate::databases::{database_at, find_database, Database, DatabaseView};
use crate::files::{
    canonical_path, children, find_directory, first_directory, keep_extension, only_extension, path_exists,
    path_is_file, path_is_fresh, walked_files, EntryView, FileTable,
};
use crate::model::{is_numbered, Conversation, ConversationView};
use crate::opencode_store::{
    are_in_time, conversation_from_database, conversation_from_files, database_conversation,
    database_conversation_is_canonical, file_messages_are_in_time, files_conversation,
    files_conversation_is_canonical, is_stale, load_messages, load_session_messages, load_session_parts, messages_in,
    messages_in_are_canonical, normalize_sqlite_ts_value, parse_session_file, session_file, session_messages,
    session_messages_are_in_time, MessageRow, MessageRowView, PartRow, PartRowView, SessionView, SqliteSession,
};
use crate::order::{firsts, keep_firsts, Kinded};
use crate::path::{below, ends_in, extension, file_stem, is_named, SourcePath};
use crate::query::{or_default, or_else};
use crate::scan::{
    default_detection, detected_or_nothing, detection_or_nothing, is_source, joined_paths, listed_paths, local_root,
    local_roots, note_path, note_text, path_from_variable, path_if, push_conversation, push_if, push_local_roots,
    push_path, push_root, push_roots, push_source, root_paths, roots_at, seen_with, settle_roots, settled_roots,
    source, variable_path, was_seen, ContextView, DetectionResult, DiscoveredSource, RootView, ScanContext, ScanRoot,
    SourceRole, SourceView, Surroundings, SurroundingsView,
};

verus! {

pub struct OpenCodeConnector;

impl Default for OpenCodeConnector {
    fn default() -> (r: OpenCodeConnector)
        ensures
            r == OpenCodeConnector,
    {
        OpenCodeConnector::new()
    }
}

/// Whether a directory is one under which applications keep data, so that no such
/// directory is looked for below it.
pub open spec fn is_application_root(p: Seq<Seq<char>>) -> bool {
    ||| is_named(p, ".config"@)
    ||| is_named(p, ".local"@)
    ||| ends_in(p, ".local"@, "share"@)
    ||| is_named(p, "Application Support"@)
    ||| ends_in(p, "AppData"@, "Roaming"@)
    ||| is_named(p, "opencode"@)
}

/// Where a database may stand, if anywhere near a given place.
pub open spec fn database_candidates(base: Seq<Seq<char>>) -> Seq<Seq<Seq<char>>> {
    seq![
        if extension(base) == Some("db"@) {
            base
        } else {
            below(base, "opencode.db"@)
        },
    ] + path_if(is_named(base, "opencode"@), below(base, "opencode.db"@)) + seq![
        below(base, "opencode/opencode.db"@),
    ] + path_if(is_named(base, ".local"@), below(base, "share/opencode/opencode.db"@)) + (if is_application_root(
        base,
    ) {
        Seq::empty()
    } else {
        seq![
            below(base, ".local/share/opencode/opencode.db"@),
            below(base, ".config/opencode/opencode.db"@),
            below(base, "Library/Application Support/opencode/opencode.db"@),
            below(base, "AppData/Roaming/opencode/opencode.db"@),
        ]
    })
}

/// Where the older files may stand, if anywhere near a given place.
pub open spec fn storage_candidates(base: Seq<Seq<char>>) -> Seq<Seq<Seq<char>>> {
    seq![base, below(base, "opencode/storage"@)] + path_if(is_named(base, "opencode"@), below(base, "storage"@))
        + path_if(is_named(base, ".local"@), below(base, "share/opencode/storage"@)) + (if is_application_root(base) {
        Seq::empty()
    } else {
        seq![
            below(base, ".local/share/opencode/storage"@),
            below(base, ".config/opencode/storage"@),
            below(base, "Library/Application Support/opencode/storage"@),
            below(base, "AppData/Roaming/opencode/storage"@),
        ]
    })
}

/// The paths of an optional directory.
pub open spec fn under(directory: Option<Seq<Seq<char>>>, text: Seq<char>) -> Seq<Seq<Seq<char>>> {
    match directory {
        Some(d) => seq![below(d, text)],
        None => Seq::empty(),
    }
}

/// The usual places of the database, each once, the likeliest first.
pub open spec fn usual_databases(
    explicit: Option<Seq<Seq<char>>>,
    home: Option<Seq<Seq<char>>>,
    data: Option<Seq<Seq<char>>>,
    config: Option<Seq<Seq<char>>>,
) -> Seq<Seq<Seq<char>>> {
    firsts(
        (match explicit {
            Some(p) => seq![p],
            None => Seq::empty(),
        }) + under(home, ".local/share/opencode/opencode.db"@) + under(home, ".config/opencode/opencode.db"@) + under(
            data,
            "opencode/opencode.db"@,
        ) + under(config, "opencode/opencode.db"@),
        |a: Seq<Seq<char>>, b: Seq<Seq<char>>| SourcePath::alike(a, b),
    )
}

/// The databases near given places.
pub open spec fn databases_near(places: Seq<RootView>) -> Seq<RootView>
    decreases places.len(),
{
    if places.len() == 0 {
        Seq::empty()
    } else {
        databases_near(places.drop_last()) + roots_at(places.last(), database_candidates(places.last().path))
    }
}

/// Where the database may stand for a scan, each path once, the likeliest first.
pub open spec fn sqlite_roots(ctx: ContextView, s: SurroundingsView) -> Seq<RootView> {
    let own: Seq<RootView> = if extension(ctx.data_dir) == Some("db"@) {
        seq![local_root(ctx.data_dir)]
    } else if ctx.data_dir.len() > 0 {
        seq![local_root(below(ctx.data_dir, "opencode.db"@))]
    } else {
        Seq::empty()
    };
    firsts(
        own + databases_near(ctx.scan_roots) + local_roots(
            usual_databases(variable_path(s, "OPENCODE_SQLITE_DB"@), s.home, s.local_data, s.config),
        ),
        |a: RootView, b: RootView| ScanRoot::alike(a, b),
    )
}

/// Whether a directory holds the older files.
pub open spec fn is_storage(t: Seq<EntryView>, p: Seq<Seq<char>>) -> bool {
    &&& path_exists(t, p)
    &&& path_exists(t, below(p, "session"@))
    &&& path_exists(t, below(p, "message"@))
}

/// The usual place of the older files.
pub open spec fn usual_storage(t: Seq<EntryView>, s: SurroundingsView) -> Option<Seq<Seq<char>>> {
    first_directory(
        t,
        (match variable_path(s, "OPENCODE_STORAGE_ROOT"@) {
            Some(p) => seq![p],
            None => Seq::empty(),
        }) + under(s.local_data, "opencode/storage"@) + under(s.config, "opencode/storage"@) + under(
            s.home,
            ".local/share/opencode/storage"@,
        ) + under(s.home, ".config/opencode/storage"@),
    )
}

/// The directories of older files near given places.
pub open spec fn storages_near(t: Seq<EntryView>, places: Seq<RootView>) -> Seq<RootView>
    decreases places.len(),
{
    if places.len() == 0 {
        Seq::empty()
    } else {
        storages_near(t, places.drop_last()) + roots_at(
            places.last(),
            storage_candidates(places.last().path).filter(|p: Seq<Seq<char>>| is_storage(t, p)),
        )
    }
}

/// Where the older files stand for a scan.
pub open spec fn storage_roots(t: Seq<EntryView>, ctx: ContextView, s: SurroundingsView) -> Seq<RootView> {
    settled_roots(
        if default_detection(ctx) {
            if is_storage(t, ctx.data_dir) {
                seq![local_root(ctx.data_dir)]
            } else {
                match usual_storage(t, s) {
                    Some(p) => seq![local_root(p)],
                    None => Seq::empty(),
                }
            }
        } else if is_storage(t, ctx.data_dir) {
            seq![local_root(ctx.data_dir)] + storages_near(t, ctx.scan_roots)
        } else {
            storages_near(t, ctx.scan_roots)
        },
    )
}

/// Whether a path is the file of a message.
pub open spec fn is_message_file(t: Seq<EntryView>, p: Seq<Seq<char>>) -> bool {
    path_is_file(t, p) && extension(p) == Some("json"@)
}

/// Whether a file of a directory changed.
pub open spec fn has_fresh_file(t: Seq<EntryView>, directory: Seq<Seq<char>>) -> bool {
    path_exists(t, directory) && exists|i: int|
        0 <= i < children(t, directory).len() && path_is_file(t, #[trigger] children(t, directory)[i])
            && path_is_fresh(t, children(t, directory)[i])
}

/// Whether a message or one of its parts changed.
pub open spec fn message_changed(t: Seq<EntryView>, p: Seq<Seq<char>>, part_root: Seq<Seq<char>>) -> bool {
    is_message_file(t, p) && (path_is_fresh(t, p) || (file_stem(p) matches Some(id) && has_fresh_file(
        t,
        below(part_root, id),
    )))
}

/// Whether anything of a session changed. Without a time to go by, everything did.
pub open spec fn session_changed(
    t: Seq<EntryView>,
    since: Option<i64>,
    file: Seq<Seq<char>>,
    message_root: Seq<Seq<char>>,
    part_root: Seq<Seq<char>>,
) -> bool {
    since is None || path_is_fresh(t, file) || match file_stem(file) {
        None => true,
        Some(id) => any_message_changed(t, below(message_root, id), part_root),
    }
}

/// Whether a message of a directory, or one of its parts, changed.
pub open spec fn any_message_changed(t: Seq<EntryView>, directory: Seq<Seq<char>>, part_root: Seq<Seq<char>>) -> bool {
    path_exists(t, directory) && exists|i: int|
        0 <= i < children(t, directory).len() && message_changed(
            t,
            #[trigger] children(t, directory)[i],
            part_root,
        )
}

fn fresh_file_in(files: &FileTable, directory: &SourcePath) -> (r: bool)
    ensures
        r == has_fresh_file(files.deep_view(), directory.deep_view()),
{
    if !files.has(directory) {
        return false;
    }
    let ghost t = files.deep_view();
    let list = files.list(directory);
    let ghost all = list.deep_view();
    let mut i: usize = 0;
    while i < list.len()
        invariant
            i <= list@.len(),
            t == files.deep_view(),
            all == list.deep_view(),
            all == children(t, directory.deep_view()),
            path_exists(t, directory.deep_view()),
            forall|k: int| 0 <= k < i ==> !(path_is_file(t, #[trigger] all[k]) && path_is_fresh(t, all[k])),
        decreases list.len() - i,
    {
        assert(all[i as int] == list@[i as int].deep_view());
        if files.is_file(&list[i]) && files.is_fresh(&list[i]) {
            return true;
        }
        i = i + 1;
    }
    false
}

fn changed_message_in(files: &FileTable, directory: &SourcePath, part_root: &SourcePath) -> (r: bool)
    ensures
        r == any_message_changed(files.deep_view(), directory.deep_view(), part_root.deep_view()),
{
    if !files.has(directory) {
        return false;
    }
    let ghost t = files.deep_view();
    let ghost parts = part_root.deep_view();
    let list = files.list(directory);
    let ghost all = list.deep_view();
    let mut i: usize = 0;
    while i < list.len()
        invariant
            i <= list@.len(),
            t == files.deep_view(),
            parts == part_root.deep_view(),
            all == list.deep_view(),
            all == children(t, directory.deep_view()),
            path_exists(t, directory.deep_view()),
            forall|k: int| 0 <= k < i ==> !message_changed(t, #[trigger] all[k], parts),
        decreases list.len() - i,
    {
        let path = &list[i];
        assert(all[i as int] == path.deep_view());
        if files.is_file(path) && path.has_extension("json") {
            let mut changed = files.is_fresh(path);
            if !changed {
                if let Some(stem) = path.file_stem() {
                    changed = fresh_file_in(files, &part_root.join(stem.as_str()));
                }
            }
            assert(changed == message_changed(t, all[i as int], parts));
            if changed {
                return true;
            }
        }
        i = i + 1;
    }
    false
}

/// Whether anything of a session changed.
pub fn session_has_updates(
    files: &FileTable,
    session_file: &SourcePath,
    message_root: &SourcePath,
    part_root: &SourcePath,
    since_ts: Option<i64>,
) -> (r: bool)
    ensures
        r == session_changed(
            files.deep_view(),
            since_ts,
            session_file.deep_view(),
            message_root.deep_view(),
            part_root.deep_view(),
        ),
{
    if since_ts.is_none() || files.is_fresh(session_file) {
        return true;
    }
    match session_file.file_stem() {
        Some(id) => changed_message_in(files, &message_root.join(id.as_str()), part_root),
        None => true,
    }
}

/// Whether a directory looks like one of the older files.
pub fn looks_like_opencode_storage(files: &FileTable, path: &SourcePath) -> (r: bool)
    ensures
        r == (path_exists(files.deep_view(), below(path.deep_view(), "session"@)) && path_exists(
            files.deep_view(),
            below(path.deep_view(), "message"@),
        )),
{
    files.has(&path.join("session")) && files.has(&path.join("message"))
}

/// Whether the tables that are read are empty while a newer one is not.
pub fn schema_has_drifted(message_rows: Option<i64>, session_message_rows: Option<i64>) -> (r: bool)
    ensures
        r == ((message_rows is None || message_rows == Some(0i64)) && (session_message_rows matches Some(n) && n > 0)),
{
    let empty = match message_rows {
        Some(n) => n == 0,
        None => true,
    };
    let newer = match session_message_rows {
        Some(n) => n > 0,
        None => false,
    };
    empty && newer
}

/// The rows of a session.
pub struct SessionTables {
    pub messages: Vec<MessageRow>,
    pub parts: Vec<PartRow>,
}

/// A session and its rows, where they could be read.
pub struct SessionRows {
    pub session: SqliteSession,
    pub tables: Option<SessionTables>,
}

/// The sessions of a database, where it could be read.
pub type OpenCodeDatabase = Database<SessionRows>;

#[verifier::ext_equal]
pub struct TablesView {
    pub messages: Seq<MessageRowView>,
    pub parts: Seq<PartRowView>,
}

#[verifier::ext_equal]
pub struct RowsView {
    pub session: SessionView,
    pub tables: Option<TablesView>,
}

impl DeepView for SessionTables {
    type V = TablesView;

    open spec fn deep_view(&self) -> TablesView {
        TablesView { messages: self.messages.deep_view(), parts: self.parts.deep_view() }
    }
}

impl DeepView for SessionRows {
    type V = RowsView;

    open spec fn deep_view(&self) -> RowsView {
        RowsView { session: self.session.deep_view(), tables: self.tables.deep_view() }
    }
}

/// What was read of sessions so far.
#[verifier::ext_equal]
pub struct StreamView {
    /// The names of the sessions that were taken.
    pub taken: Seq<Seq<char>>,
    pub found: Seq<ConversationView>,
    /// Whether the database could not be read any further.
    pub stopped: bool,
}

/// Whether a session is to be read: it is not stale, and none of its name was
/// taken before.
pub open spec fn is_wanted(taken: Seq<Seq<char>>, session: SessionView, since: Option<i64>) -> bool {
    !is_stale(session, since) && !taken.contains(session.id)
}

/// The conversation that the rows of a session make.
pub open spec fn rows_conversation(
    db: Seq<Seq<char>>,
    session: SessionView,
    tables: TablesView,
    since: Option<i64>,
) -> Option<ConversationView> {
    database_conversation(
        db,
        session,
        session_messages(tables.messages, tables.parts, session.id),
        since,
    )
}

/// A session that is wanted is taken and read.
pub open spec fn after_session(
    stream: StreamView,
    db: Seq<Seq<char>>,
    rows: RowsView,
    since: Option<i64>,
) -> StreamView {
    if stream.stopped || !is_wanted(stream.taken, rows.session, since) {
        stream
    } else {
        let taken = stream.taken.push(rows.session.id);
        match rows.tables {
            None => StreamView { taken, stopped: true, ..stream },
            Some(tables) => match rows_conversation(db, rows.session, tables, since) {
                Some(c) => StreamView { taken, found: stream.found.push(c), ..stream },
                None => StreamView { taken, ..stream },
            },
        }
    }
}

pub open spec fn after_sessions(
    stream: StreamView,
    db: Seq<Seq<char>>,
    all: Seq<RowsView>,
    since: Option<i64>,
) -> StreamView
    decreases all.len(),
{
    if all.len() == 0 {
        stream
    } else {
        after_session(after_sessions(stream, db, all.drop_last(), since), db, all.last(), since)
    }
}

/// What was read of databases so far.
#[verifier::ext_equal]
pub struct DatabasesView {
    /// The databases that were read, with their links resolved.
    pub read: Seq<Seq<Seq<char>>>,
    pub taken: Seq<Seq<char>>,
    pub found: Seq<ConversationView>,
}

/// A database is read once, by whatever path; one that cannot be read is passed
/// over.
pub open spec fn after_database(
    t: Seq<EntryView>,
    dbs: Seq<DatabaseView<RowsView>>,
    scan: DatabasesView,
    path: Seq<Seq<char>>,
    since: Option<i64>,
) -> DatabasesView {
    let key = canonical_path(t, path);
    if !path_is_file(t, path) || was_seen(scan.read, key) {
        scan
    } else {
        let read = scan.read.push(key);
        match database_at(dbs, path) {
            None => DatabasesView { read, ..scan },
            Some(sessions) => {
                let stream = after_sessions(
                    StreamView { taken: scan.taken, found: scan.found, stopped: false },
                    path,
                    sessions,
                    since,
                );
                DatabasesView { read, taken: stream.taken, found: stream.found }
            },
        }
    }
}

pub open spec fn after_databases(
    t: Seq<EntryView>,
    dbs: Seq<DatabaseView<RowsView>>,
    paths: Seq<Seq<Seq<char>>>,
    since: Option<i64>,
) -> DatabasesView
    decreases paths.len(),
{
    if paths.len() == 0 {
        DatabasesView { read: Seq::empty(), taken: Seq::empty(), found: Seq::empty() }
    } else {
        after_database(t, dbs, after_databases(t, dbs, paths.drop_last(), since), paths.last(), since)
    }
}

/// What was read of the older files so far.
#[verifier::ext_equal]
pub struct FilesView {
    /// The files that were met, with their links resolved.
    pub met: Seq<Seq<Seq<char>>>,
    pub taken: Seq<Seq<char>>,
    pub found: Seq<ConversationView>,
}

/// The messages of a session of the older files.
pub open spec fn legacy_messages(t: Seq<EntryView>, root: Seq<Seq<char>>, id: Seq<char>) -> Seq<
    crate::model::MessageView,
> {
    let directory = below(below(root, "message"@), id);
    if path_exists(t, directory) {
        messages_in(t, directory, below(root, "part"@))
    } else {
        Seq::empty()
    }
}

/// The file of a session is read if it is new to the scan, changed, and of a
/// session that was not taken.
pub open spec fn after_session_file(
    t: Seq<EntryView>,
    scan: FilesView,
    root: Seq<Seq<char>>,
    file: Seq<Seq<char>>,
    since: Option<i64>,
) -> FilesView {
    let key = canonical_path(t, file);
    let met = seen_with(scan.met, key);
    if was_seen(scan.met, key) || !session_changed(t, since, file, below(root, "message"@), below(root, "part"@)) {
        FilesView { met, ..scan }
    } else {
        match session_file(t, file) {
            Err(_) => FilesView { met, ..scan },
            Ok(info) => if scan.taken.contains(info.id) {
                FilesView { met, ..scan }
            } else {
                let taken = scan.taken.push(info.id);
                match files_conversation(file, info, legacy_messages(t, root, info.id)) {
                    Some(c) => FilesView { met, taken, found: scan.found.push(c) },
                    None => FilesView { met, taken, ..scan },
                }
            },
        }
    }
}

pub open spec fn after_session_files(
    t: Seq<EntryView>,
    scan: FilesView,
    root: Seq<Seq<char>>,
    all: Seq<Seq<Seq<char>>>,
    since: Option<i64>,
) -> FilesView
    decreases all.len(),
{
    if all.len() == 0 {
        scan
    } else {
        after_session_file(t, after_session_files(t, scan, root, all.drop_last(), since), root, all.last(), since)
    }
}

/// The files of sessions under a root.
pub open spec fn session_files(t: Seq<EntryView>, root: Seq<Seq<char>>) -> Seq<Seq<Seq<char>>> {
    if path_exists(t, below(root, "session"@)) {
        only_extension(walked_files(t, below(root, "session"@), 0, None), "json"@)
    } else {
        Seq::empty()
    }
}

pub open spec fn after_storages(t: Seq<EntryView>, roots: Seq<RootView>, since: Option<i64>) -> FilesView
    decreases roots.len(),
{
    if roots.len() == 0 {
        FilesView { met: Seq::empty(), taken: Seq::empty(), found: Seq::empty() }
    } else {
        after_session_files(
            t,
            after_storages(t, roots.drop_last(), since),
            roots.last().path,
            session_files(t, roots.last().path),
            since,
        )
    }
}

/// The conversations that a scan finds: those of the databases, and those of the
/// older files only where no database had a session to take.
pub open spec fn scanned(
    t: Seq<EntryView>,
    dbs: Seq<DatabaseView<RowsView>>,
    ctx: ContextView,
    s: SurroundingsView,
) -> Seq<ConversationView> {
    let databases = after_databases(
        t,
        dbs,
        sqlite_roots(ctx, s).map_values(|r: RootView| r.path),
        ctx.since_ts,
    );
    if databases.taken.len() > 0 {
        databases.found
    } else {
        after_storages(t, storage_roots(t, ctx, s), ctx.since_ts).found
    }
}

/// The databases that stand where one may stand, each once.
pub open spec fn database_sources(t: Seq<EntryView>, roots: Seq<RootView>) -> (Seq<Seq<Seq<char>>>, Seq<SourceView>)
    decreases roots.len(),
{
    if roots.len() == 0 {
        (Seq::empty(), Seq::empty())
    } else {
        let front = database_sources(t, roots.drop_last());
        let root = roots.last();
        let key = canonical_path(t, root.path);
        if !path_is_file(t, root.path) || was_seen(front.0, key) {
            front
        } else {
            (
                front.0.push(key),
                front.1.push(source("opencode"@, root, root.path, SourceRole::SqliteDatabase, true)),
            )
        }
    }
}

/// Sources of files that go with a session.
pub open spec fn sidecars(root: RootView, paths: Seq<Seq<Seq<char>>>) -> Seq<SourceView> {
    paths.map_values(
        |p: Seq<Seq<char>>| source("opencode"@, root, p, SourceRole::MetadataSidecar, true),
    )
}

/// The parts of a message.
pub open spec fn part_sources(
    t: Seq<EntryView>,
    root: RootView,
    message: Seq<Seq<char>>,
    part_dir: Seq<Seq<char>>,
) -> Seq<SourceView> {
    match file_stem(message) {
        Some(id) => sidecars(root, only_extension(walked_files(t, below(part_dir, id), 0, None), "json"@)),
        None => Seq::empty(),
    }
}

/// Messages, each with its parts.
pub open spec fn message_sources(
    t: Seq<EntryView>,
    root: RootView,
    messages: Seq<Seq<Seq<char>>>,
    part_dir: Seq<Seq<char>>,
) -> Seq<SourceView>
    decreases messages.len(),
{
    if messages.len() == 0 {
        Seq::empty()
    } else {
        let m = messages.last();
        message_sources(t, root, messages.drop_last(), part_dir) + seq![
            source("opencode"@, root, m, SourceRole::MetadataSidecar, true),
        ] + part_sources(t, root, m, part_dir)
    }
}

/// The messages of a session, each with its parts.
pub open spec fn session_sidecars(t: Seq<EntryView>, root: RootView, file: Seq<Seq<char>>) -> Seq<SourceView> {
    match file_stem(file) {
        None => Seq::empty(),
        Some(id) => {
            let directory = below(below(root.path, "message"@), id);
            if path_exists(t, directory) {
                message_sources(
                    t,
                    root,
                    only_extension(walked_files(t, directory, 0, None), "json"@),
                    below(root.path, "part"@),
                )
            } else {
                Seq::empty()
            }
        },
    }
}

/// What was discovered of the older files so far: the sessions that were met, and
/// the sources.
pub open spec fn discovered_session(
    t: Seq<EntryView>,
    d: (Seq<Seq<Seq<char>>>, Seq<SourceView>),
    root: RootView,
    file: Seq<Seq<char>>,
    since: Option<i64>,
) -> (Seq<Seq<Seq<char>>>, Seq<SourceView>) {
    let key = canonical_path(t, file);
    let met = seen_with(d.0, key);
    if was_seen(d.0, key) || !session_changed(
        t,
        since,
        file,
        below(root.path, "message"@),
        below(root.path, "part"@),
    ) {
        (met, d.1)
    } else {
        (
            met,
            d.1 + seq![source("opencode"@, root, file, SourceRole::PrimarySessionLog, true)] + session_sidecars(
                t,
                root,
                file,
            ),
        )
    }
}

pub open spec fn discovered_sessions(
    t: Seq<EntryView>,
    d: (Seq<Seq<Seq<char>>>, Seq<SourceView>),
    root: RootView,
    all: Seq<Seq<Seq<char>>>,
    since: Option<i64>,
) -> (Seq<Seq<Seq<char>>>, Seq<SourceView>)
    decreases all.len(),
{
    if all.len() == 0 {
        d
    } else {
        discovered_session(t, discovered_sessions(t, d, root, all.drop_last(), since), root, all.last(), since)
    }
}

pub open spec fn storage_sources(t: Seq<EntryView>, roots: Seq<RootView>, since: Option<i64>) -> (
    Seq<Seq<Seq<char>>>,
    Seq<SourceView>,
)
    decreases roots.len(),
{
    if roots.len() == 0 {
        (Seq::empty(), Seq::empty())
    } else {
        discovered_sessions(
            t,
            storage_sources(t, roots.drop_last(), since),
            roots.last(),
            session_files(t, roots.last().path),
            since,
        )
    }
}

/// The files that a scan would read: the databases, or the older files where there
/// is no database.
pub open spec fn discovered(t: Seq<EntryView>, ctx: ContextView, s: SurroundingsView) -> Seq<SourceView> {
    let databases = database_sources(t, sqlite_roots(ctx, s)).1;
    if databases.len() > 0 {
        databases
    } else {
        storage_sources(t, storage_roots(t, ctx, s), ctx.since_ts).1
    }
}

fn keep_storages(files: &FileTable, paths: Vec<SourcePath>) -> (r: Vec<SourcePath>)
    ensures
        r.deep_view() == paths.deep_view().filter(|p: Seq<Seq<char>>| is_storage(files.deep_view(), p)),
{
    reveal(Seq::filter);
    let ghost t = files.deep_view();
    let ghost wanted = |p: Seq<Seq<char>>| is_storage(t, p);
    let ghost all = paths.deep_view();
    let mut out: Vec<SourcePath> = Vec::new();
    assert(all.take(0) =~= Seq::empty());
    assert(out.deep_view() =~= all.take(0).filter(wanted));
    for p in it: paths
        invariant
            it.seq() == paths@,
            t == files.deep_view(),
            wanted == (|p: Seq<Seq<char>>| is_storage(t, p)),
            all == paths.deep_view(),
            out.deep_view() == all.take(it.index() as int).filter(wanted),
    {
        reveal(Seq::filter);
        let ghost n = it.index() as int;
        assert(all.take(n + 1).drop_last() =~= all.take(n));
        assert(all.take(n + 1).last() == p.deep_view());
        if files.has(&p) && looks_like_opencode_storage(files, &p) {
            push_path(&mut out, p);
        }
    }
    assert(all.take(all.len() as int) =~= all);
    assert(wanted =~= (|p: Seq<Seq<char>>| is_storage(files.deep_view(), p)));
    out
}

fn push_under(paths: &mut Vec<SourcePath>, directory: Option<&SourcePath>, text: &str)
    ensures
        final(paths).deep_view() == old(paths).deep_view() + under(directory.deep_view(), text@),
{
    match directory {
        Some(d) => {
            push_path(paths, d.join(text));
        },
        None => {},
    }
    assert(paths.deep_view() =~= old(paths).deep_view() + under(directory.deep_view(), text@));
}

impl OpenCodeConnector {
    pub fn new() -> (r: OpenCodeConnector)
        ensures
            r == OpenCodeConnector,
    {
        OpenCodeConnector
    }

    /// What the registry of agents found, or that nothing was found.
    pub fn detect(&self, found: Option<DetectionResult>) -> (r: DetectionResult)
        ensures
            r.deep_view() == detected_or_nothing(found.deep_view()),
    {
        detection_or_nothing(found)
    }

    /// Sessions can be handed on one by one.
    pub fn supports_streaming_scan(&self) -> (r: bool)
        ensures
            r,
    {
        true
    }

    /// The usual place of the older files.
    pub fn storage_root(files: &FileTable, surroundings: &Surroundings) -> (r: Option<SourcePath>)
        ensures
            r.deep_view() == usual_storage(files.deep_view(), surroundings.deep_view()),
    {
        let mut paths: Vec<SourcePath> = Vec::new();
        assert(paths.deep_view() =~= Seq::empty());
        if let Some(p) = path_from_variable(surroundings, "OPENCODE_STORAGE_ROOT") {
            push_path(&mut paths, p);
        }
        assert(paths.deep_view() =~= match variable_path(surroundings.deep_view(), "OPENCODE_STORAGE_ROOT"@) {
            Some(p) => seq![p],
            None => Seq::empty(),
        });
        push_under(&mut paths, surroundings.local_data.as_ref(), "opencode/storage");
        push_under(&mut paths, surroundings.config.as_ref(), "opencode/storage");
        push_under(&mut paths, surroundings.home.as_ref(), ".local/share/opencode/storage");
        push_under(&mut paths, surroundings.home.as_ref(), ".config/opencode/storage");
        find_directory(files, &paths)
    }

    /// The usual places of the database, each once, the likeliest first.
    pub fn sqlite_db_candidates_from(
        explicit_override: Option<SourcePath>,
        home: Option<&SourcePath>,
        xdg_data: Option<&SourcePath>,
        xdg_config: Option<&SourcePath>,
    ) -> (r: Vec<SourcePath>)
        ensures
            r.deep_view() == usual_databases(
                explicit_override.deep_view(),
                home.deep_view(),
                xdg_data.deep_view(),
                xdg_config.deep_view(),
            ),
    {
        let mut out: Vec<SourcePath> = Vec::new();
        assert(out.deep_view() =~= Seq::empty());
        let ghost given = explicit_override.deep_view();
        if let Some(p) = explicit_override {
            push_path(&mut out, p);
        }
        assert(out.deep_view() =~= match given {
            Some(p) => seq![p],
            None => Seq::empty(),
        });
        push_under(&mut out, home, ".local/share/opencode/opencode.db");
        push_under(&mut out, home, ".config/opencode/opencode.db");
        push_under(&mut out, xdg_data, "opencode/opencode.db");
        push_under(&mut out, xdg_config, "opencode/opencode.db");
        keep_firsts(out)
    }

    pub fn is_local_share_root(path: &SourcePath) -> (r: bool)
        ensures
            r == ends_in(path.deep_view(), ".local"@, "share"@),
    {
        path.ends_in(".local", "share")
    }

    pub fn is_appdata_roaming(path: &SourcePath) -> (r: bool)
        ensures
            r == ends_in(path.deep_view(), "AppData"@, "Roaming"@),
    {
        path.ends_in("AppData", "Roaming")
    }

    fn is_known_root(base: &SourcePath) -> (r: bool)
        ensures
            r == is_application_root(base.deep_view()),
    {
        base.is_named(".config") || base.is_named(".local") || OpenCodeConnector::is_local_share_root(base)
            || base.is_named("Application Support") || OpenCodeConnector::is_appdata_roaming(base) || base.is_named(
            "opencode",
        )
    }

    /// Where a database may stand near a given place.
    pub fn append_explicit_db_candidates(base: &SourcePath) -> (r: Vec<SourcePath>)
        ensures
            r.deep_view() == database_candidates(base.deep_view()),
    {
        let ghost b = base.deep_view();
        let mut out: Vec<SourcePath> = Vec::new();
        assert(out.deep_view() =~= Seq::empty());
        if base.has_extension("db") {
            push_path(&mut out, base.copy());
        } else {
            push_path(&mut out, base.join("opencode.db"));
        }
        push_if(&mut out, base.is_named("opencode"), base.join("opencode.db"));
        push_path(&mut out, base.join("opencode/opencode.db"));
        push_if(&mut out, base.is_named(".local"), base.join("share/opencode/opencode.db"));
        if !OpenCodeConnector::is_known_root(base) {
            push_path(&mut out, base.join(".local/share/opencode/opencode.db"));
            push_path(&mut out, base.join(".config/opencode/opencode.db"));
            push_path(&mut out, base.join("Library/Application Support/opencode/opencode.db"));
            push_path(&mut out, base.join("AppData/Roaming/opencode/opencode.db"));
        }
        assert(out.deep_view() =~= database_candidates(b));
        out
    }

    /// The place itself, and where the older files may stand near it.
    pub fn append_explicit_storage_candidates(base: &SourcePath) -> (r: Vec<SourcePath>)
        ensures
            r.deep_view() == storage_candidates(base.deep_view()),
    {
        let ghost b = base.deep_view();
        let mut out: Vec<SourcePath> = Vec::new();
        assert(out.deep_view() =~= Seq::empty());
        push_path(&mut out, base.copy());
        push_path(&mut out, base.join("opencode/storage"));
        push_if(&mut out, base.is_named("opencode"), base.join("storage"));
        push_if(&mut out, base.is_named(".local"), base.join("share/opencode/storage"));
        if !OpenCodeConnector::is_known_root(base) {
            push_path(&mut out, base.join(".local/share/opencode/storage"));
            push_path(&mut out, base.join(".config/opencode/storage"));
            push_path(&mut out, base.join("Library/Application Support/opencode/storage"));
            push_path(&mut out, base.join("AppData/Roaming/opencode/storage"));
        }
        assert(out.deep_view() =~= storage_candidates(b));
        out
    }

    /// Where the database may stand for a scan, each path once, the likeliest first.
    pub fn sqlite_source_roots(ctx: &ScanContext, surroundings: &Surroundings) -> (r: Vec<ScanRoot>)
        ensures
            r.deep_view() == sqlite_roots(ctx.deep_view(), surroundings.deep_view()),
    {
        let mut roots: Vec<ScanRoot> = Vec::new();
        assert(roots.deep_view() =~= Seq::empty());
        assert(ctx.data_dir.parts@.len() == ctx.data_dir.deep_view().len());
        if ctx.data_dir.has_extension("db") {
            push_root(&mut roots, ScanRoot::local(ctx.data_dir.copy()));
        } else if ctx.data_dir.parts.len() > 0 {
            push_root(&mut roots, ScanRoot::local(ctx.data_dir.join("opencode.db")));
        }
        let ghost own = roots.deep_view();
        let ghost places = ctx.scan_roots.deep_view();
        let mut i: usize = 0;
        assert(places.take(0) =~= Seq::empty());
        assert(own + databases_near(places.take(0)) =~= own);
        while i < ctx.scan_roots.len()
            invariant
                i <= ctx.scan_roots@.len(),
                places == ctx.scan_roots.deep_view(),
                roots.deep_view() == own + databases_near(places.take(i as int)),
            decreases ctx.scan_roots.len() - i,
        {
            let place = &ctx.scan_roots[i];
            assert(places.take(i + 1).drop_last() =~= places.take(i as int));
            assert(places.take(i + 1).last() == place.deep_view());
            let near = OpenCodeConnector::append_explicit_db_candidates(&place.path);
            push_roots(&mut roots, place, &near);
            assert(roots.deep_view() =~= own + databases_near(places.take(i + 1)));
            i = i + 1;
        }
        assert(places.take(places.len() as int) =~= places);
        let usual = OpenCodeConnector::sqlite_db_candidates_from(
            path_from_variable(surroundings, "OPENCODE_SQLITE_DB"),
            surroundings.home.as_ref(),
            surroundings.local_data.as_ref(),
            surroundings.config.as_ref(),
        );
        push_local_roots(&mut roots, &usual);
        assert(own =~= if extension(ctx.deep_view().data_dir) == Some("db"@) {
            seq![local_root(ctx.deep_view().data_dir)]
        } else if ctx.deep_view().data_dir.len() > 0 {
            seq![local_root(below(ctx.deep_view().data_dir, "opencode.db"@))]
        } else {
            Seq::empty()
        });
        keep_firsts(roots)
    }

    /// Where the older files stand for a scan.
    pub fn storage_source_roots(ctx: &ScanContext, surroundings: &Surroundings, files: &FileTable) -> (r: Vec<ScanRoot>)
        ensures
            r.deep_view() == storage_roots(files.deep_view(), ctx.deep_view(), surroundings.deep_view()),
    {
        let ghost t = files.deep_view();
        let mut roots: Vec<ScanRoot> = Vec::new();
        assert(roots.deep_view() =~= Seq::empty());
        let own = files.has(&ctx.data_dir) && looks_like_opencode_storage(files, &ctx.data_dir);
        if own {
            push_root(&mut roots, ScanRoot::local(ctx.data_dir.copy()));
            assert(roots.deep_view() =~= seq![local_root(ctx.data_dir.deep_view())]);
        }
        if ctx.use_default_detection() {
            if !own {
                if let Some(p) = OpenCodeConnector::storage_root(files, surroundings) {
                    let ghost there = p.deep_view();
                    push_root(&mut roots, ScanRoot::local(p));
                    assert(roots.deep_view() =~= seq![local_root(there)]);
                }
            }
            return settle_roots(roots);
        }
        let ghost start = roots.deep_view();
        let ghost places = ctx.scan_roots.deep_view();
        let mut i: usize = 0;
        assert(places.take(0) =~= Seq::empty());
        assert(start + storages_near(t, places.take(0)) =~= start);
        while i < ctx.scan_roots.len()
            invariant
                i <= ctx.scan_roots@.len(),
                t == files.deep_view(),
                places == ctx.scan_roots.deep_view(),
                roots.deep_view() == start + storages_near(t, places.take(i as int)),
            decreases ctx.scan_roots.len() - i,
        {
            let place = &ctx.scan_roots[i];
            assert(places.take(i + 1).drop_last() =~= places.take(i as int));
            assert(places.take(i + 1).last() == place.deep_view());
            let near = keep_storages(files, OpenCodeConnector::append_explicit_storage_candidates(&place.path));
            push_roots(&mut roots, place, &near);
            assert(roots.deep_view() =~= start + storages_near(t, places.take(i + 1)));
            i = i + 1;
        }
        assert(places.take(places.len() as int) =~= places);
        assert(start + storages_near(t, places) =~= if own {
            seq![local_root(ctx.data_dir.deep_view())] + storages_near(t, places)
        } else {
            storages_near(t, places)
        });
        settle_roots(roots)
    }

    /// Takes a session if it is wanted, and says whether it was.
    pub fn claim_session(session: &SqliteSession, since_ts: Option<i64>, taken: &mut Vec<String>) -> (r: bool)
        ensures
            r == is_wanted(old(taken).deep_view(), session.deep_view(), since_ts),
            final(taken).deep_view() == if r {
                old(taken).deep_view().push(session.id@)
            } else {
                old(taken).deep_view()
            },
    {
        if let Some(since) = since_ts {
            if let Some(updated) = normalize_sqlite_ts_value(&session.time_updated) {
                if updated < since {
                    return false;
                }
            }
        }
        note_text(taken, session.id.as_str())
    }

    /// The conversation that the rows of a session make.
    pub fn session_conversation(
        db: &SourcePath,
        session: &SqliteSession,
        messages: &Vec<MessageRow>,
        parts: &Vec<PartRow>,
        since_ts: Option<i64>,
    ) -> (r: Option<Conversation>)
        ensures
            r.deep_view() == rows_conversation(
                db.deep_view(),
                session.deep_view(),
                (TablesView { messages: messages.deep_view(), parts: parts.deep_view() }),
                since_ts,
            ),
    {
        let own = load_session_parts(parts);
        let read = load_session_messages(messages, session.id.as_str(), own);
        conversation_from_database(db, session, read, since_ts)
    }

    /// Reads the sessions of a database that are wanted.
    pub fn stream_from_sqlite(
        db_path: &SourcePath,
        sessions: &Vec<SessionRows>,
        since_ts: Option<i64>,
        taken: &mut Vec<String>,
        found: &mut Vec<Conversation>,
    )
        ensures
            ({
                let after = after_sessions(
                    StreamView { taken: old(taken).deep_view(), found: old(found).deep_view(), stopped: false },
                    db_path.deep_view(),
                    sessions.deep_view(),
                    since_ts,
                );
                final(taken).deep_view() == after.taken && final(found).deep_view() == after.found
            }),
    {
        let ghost all = sessions.deep_view();
        let ghost db = db_path.deep_view();
        let ghost start = StreamView { taken: taken.deep_view(), found: found.deep_view(), stopped: false };
        let mut stopped = false;
        let mut i: usize = 0;
        assert(all.take(0) =~= Seq::empty());
        while i < sessions.len()
            invariant
                i <= sessions@.len(),
                all == sessions.deep_view(),
                db == db_path.deep_view(),
                after_sessions(start, db, all.take(i as int), since_ts) == (StreamView {
                    taken: taken.deep_view(),
                    found: found.deep_view(),
                    stopped,
                }),
            decreases sessions.len() - i,
        {
            let rows = &sessions[i];
            assert(all.take(i + 1).drop_last() =~= all.take(i as int));
            assert(all.take(i + 1).last() == rows.deep_view());
            if !stopped && OpenCodeConnector::claim_session(&rows.session, since_ts, taken) {
                match &rows.tables {
                    None => {
                        stopped = true;
                    },
                    Some(tables) => {
                        let conv = OpenCodeConnector::session_conversation(
                            db_path,
                            &rows.session,
                            &tables.messages,
                            &tables.parts,
                            since_ts,
                        );
                        if let Some(c) = conv {
                            push_conversation(found, c);
                        }
                    },
                }
            }
            i = i + 1;
        }
        assert(all.take(all.len() as int) =~= all);
    }

    /// Reads the sessions that changed.
    pub fn scan(
        &self,
        ctx: &ScanContext,
        surroundings: &Surroundings,
        files: &FileTable,
        databases: &Vec<OpenCodeDatabase>,
    ) -> (r: Vec<Conversation>)
        ensures
            r.deep_view() == scanned(
                files.deep_view(),
                databases.deep_view(),
                ctx.deep_view(),
                surroundings.deep_view(),
            ),
    {
        let ghost t = files.deep_view();
        let ghost dbs = databases.deep_view();
        let paths = root_paths(&OpenCodeConnector::sqlite_source_roots(ctx, surroundings));
        let ghost all = paths.deep_view();
        let mut read: Vec<SourcePath> = Vec::new();
        let mut taken: Vec<String> = Vec::new();
        let mut found: Vec<Conversation> = Vec::new();
        let mut i: usize = 0;
        assert(all.take(0) =~= Seq::empty());
        assert(read.deep_view() =~= Seq::empty());
        assert(taken.deep_view() =~= Seq::empty());
        assert(found.deep_view() =~= Seq::empty());
        while i < paths.len()
            invariant
                i <= paths@.len(),
                t == files.deep_view(),
                dbs == databases.deep_view(),
                all == paths.deep_view(),
                after_databases(t, dbs, all.take(i as int), ctx.since_ts) == (DatabasesView {
                    read: read.deep_view(),
                    taken: taken.deep_view(),
                    found: found.deep_view(),
                }),
            decreases paths.len() - i,
        {
            let path = &paths[i];
            assert(all.take(i + 1).drop_last() =~= all.take(i as int));
            assert(all.take(i + 1).last() == path.deep_view());
            if files.is_file(path) {
                let key = files.canonical(path);
                if note_path(&mut read, key) {
                    if let Some(sessions) = find_database(databases, path) {
                        OpenCodeConnector::stream_from_sqlite(path, sessions, ctx.since_ts, &mut taken, &mut found);
                    }
                }
            }
            i = i + 1;
        }
        assert(all.take(all.len() as int) =~= all);
        if taken.len() > 0 {
            return found;
        }
        OpenCodeConnector::scan_storage(ctx, surroundings, files)
    }

    /// Reads the sessions of the older files that changed.
    fn scan_storage(ctx: &ScanContext, surroundings: &Surroundings, files: &FileTable) -> (r: Vec<Conversation>)
        ensures
            r.deep_view() == after_storages(
                files.deep_view(),
                storage_roots(files.deep_view(), ctx.deep_view(), surroundings.deep_view()),
                ctx.since_ts,
            ).found,
    {
        let ghost t = files.deep_view();
        let roots = OpenCodeConnector::storage_source_roots(ctx, surroundings, files);
        let ghost all = roots.deep_view();
        let mut met: Vec<SourcePath> = Vec::new();
        let mut taken: Vec<String> = Vec::new();
        let mut found: Vec<Conversation> = Vec::new();
        let mut i: usize = 0;
        assert(all.take(0) =~= Seq::empty());
        assert(met.deep_view() =~= Seq::empty());
        assert(taken.deep_view() =~= Seq::empty());
        assert(found.deep_view() =~= Seq::empty());
        while i < roots.len()
            invariant
                i <= roots@.len(),
                t == files.deep_view(),
                all == roots.deep_view(),
                after_storages(t, all.take(i as int), ctx.since_ts) == (FilesView {
                    met: met.deep_view(),
                    taken: taken.deep_view(),
                    found: found.deep_view(),
                }),
            decreases roots.len() - i,
        {
            let root = &roots[i].path;
            let ghost before = after_storages(t, all.take(i as int), ctx.since_ts);
            assert(all.take(i + 1).drop_last() =~= all.take(i as int));
            assert(all.take(i + 1).last() == roots@[i as int].deep_view());
            let list = OpenCodeConnector::session_files(files, root);
            let ghost fs = list.deep_view();
            let mut k: usize = 0;
            assert(fs.take(0) =~= Seq::empty());
            while k < list.len()
                invariant
                    k <= list@.len(),
                    t == files.deep_view(),
                    fs == list.deep_view(),
                    after_session_files(t, before, root.deep_view(), fs.take(k as int), ctx.since_ts) == (FilesView {
                        met: met.deep_view(),
                        taken: taken.deep_view(),
                        found: found.deep_view(),
                    }),
                decreases list.len() - k,
            {
                assert(fs.take(k + 1).drop_last() =~= fs.take(k as int));
                assert(fs.take(k + 1).last() == list@[k as int].deep_view());
                OpenCodeConnector::take_session_file(
                    files,
                    root,
                    &list[k],
                    ctx.since_ts,
                    &mut met,
                    &mut taken,
                    &mut found,
                );
                k = k + 1;
            }
            assert(fs.take(fs.len() as int) =~= fs);
            i = i + 1;
        }
        assert(all.take(all.len() as int) =~= all);
        found
    }

    /// The files of sessions under a root.
    fn session_files(files: &FileTable, root: &SourcePath) -> (r: Vec<SourcePath>)
        ensures
            r.deep_view() == session_files(files.deep_view(), root.deep_view()),
    {
        let directory = root.join("session");
        if files.has(&directory) {
            keep_extension(files.walk(&directory, 0, None), "json")
        } else {
            let none: Vec<SourcePath> = Vec::new();
            assert(none.deep_view() =~= Seq::empty());
            none
        }
    }

    fn take_session_file(
        files: &FileTable,
        root: &SourcePath,
        file: &SourcePath,
        since_ts: Option<i64>,
        met: &mut Vec<SourcePath>,
        taken: &mut Vec<String>,
        found: &mut Vec<Conversation>,
    )
        ensures
            after_session_file(
                files.deep_view(),
                (FilesView {
                    met: old(met).deep_view(),
                    taken: old(taken).deep_view(),
                    found: old(found).deep_view(),
                }),
                root.deep_view(),
                file.deep_view(),
                since_ts,
            ) == (FilesView {
                met: final(met).deep_view(),
                taken: final(taken).deep_view(),
                found: final(found).deep_view(),
            }),
    {
        let message_dir = root.join("message");
        let part_dir = root.join("part");
        let key = files.canonical(file);
        if !note_path(met, key) || !session_has_updates(files, file, &message_dir, &part_dir, since_ts) {
            return;
        }
        let info = match parse_session_file(files, file) {
            Ok(info) => info,
            Err(_) => return,
        };
        if !note_text(taken, info.id.as_str()) {
            return;
        }
        let directory = message_dir.join(info.id.as_str());
        let messages = if files.has(&directory) {
            load_messages(files, &directory, &part_dir)
        } else {
            let none: Vec<crate::model::Message> = Vec::new();
            assert(none.deep_view() =~= Seq::empty());
            none
        };
        if let Some(c) = conversation_from_files(file, info, messages) {
            push_conversation(found, c);
        }
    }

    /// The databases that stand where one may stand, each once.
    pub fn discover_sqlite_sources(ctx: &ScanContext, surroundings: &Surroundings, files: &FileTable) -> (r: Vec<
        DiscoveredSource,
    >)
        ensures
            r.deep_view() == database_sources(
                files.deep_view(),
                sqlite_roots(ctx.deep_view(), surroundings.deep_view()),
            ).1,
    {
        let ghost t = files.deep_view();
        let roots = OpenCodeConnector::sqlite_source_roots(ctx, surroundings);
        let ghost all = roots.deep_view();
        let mut seen: Vec<SourcePath> = Vec::new();
        let mut out: Vec<DiscoveredSource> = Vec::new();
        let mut i: usize = 0;
        assert(all.take(0) =~= Seq::empty());
        assert(seen.deep_view() =~= Seq::empty());
        assert(out.deep_view() =~= Seq::empty());
        while i < roots.len()
            invariant
                i <= roots@.len(),
                t == files.deep_view(),
                all == roots.deep_view(),
                database_sources(t, all.take(i as int)) == (seen.deep_view(), out.deep_view()),
            decreases roots.len() - i,
        {
            let root = &roots[i];
            assert(all.take(i + 1).drop_last() =~= all.take(i as int));
            assert(all.take(i + 1).last() == root.deep_view());
            if files.is_file(&root.path) {
                let key = files.canonical(&root.path);
                if note_path(&mut seen, key) {
                    push_source(
                        &mut out,
                        DiscoveredSource::new("opencode", root, root.path.copy(), SourceRole::SqliteDatabase, true),
                    );
                }
            }
            i = i + 1;
        }
        assert(all.take(all.len() as int) =~= all);
        out
    }

    fn push_sidecars(out: &mut Vec<DiscoveredSource>, root: &ScanRoot, paths: &Vec<SourcePath>)
        ensures
            final(out).deep_view() == old(out).deep_view() + sidecars(root.deep_view(), paths.deep_view()),
    {
        let ghost start = out.deep_view();
        let ghost more = sidecars(root.deep_view(), paths.deep_view());
        let mut i: usize = 0;
        assert(out.deep_view() =~= start + more.take(0));
        while i < paths.len()
            invariant
                i <= paths@.len(),
                start == old(out).deep_view(),
                more == sidecars(root.deep_view(), paths.deep_view()),
                out.deep_view() == start + more.take(i as int),
            decreases paths.len() - i,
        {
            push_source(
                out,
                DiscoveredSource::new("opencode", root, paths[i].copy(), SourceRole::MetadataSidecar, true),
            );
            assert(more[i as int] == source(
                "opencode"@,
                root.deep_view(),
                paths@[i as int].deep_view(),
                SourceRole::MetadataSidecar,
                true,
            ));
            assert(out.deep_view() =~= start + more.take(i + 1));
            i = i + 1;
        }
        assert(more.take(more.len() as int) =~= more);
    }

    fn discover_legacy_message_parts(
        files: &FileTable,
        root: &ScanRoot,
        message_file: &SourcePath,
        part_dir: &SourcePath,
        out: &mut Vec<DiscoveredSource>,
    )
        ensures
            final(out).deep_view() == old(out).deep_view() + part_sources(
                files.deep_view(),
                root.deep_view(),
                message_file.deep_view(),
                part_dir.deep_view(),
            ),
    {
        match message_file.file_stem() {
            Some(id) => {
                let paths = keep_extension(files.walk(&part_dir.join(id.as_str()), 0, None), "json");
                OpenCodeConnector::push_sidecars(out, root, &paths);
            },
            None => {
                assert(out.deep_view() =~= old(out).deep_view() + Seq::<SourceView>::empty());
            },
        }
    }

    fn discover_legacy_session_sidecars(
        files: &FileTable,
        root: &ScanRoot,
        session_file: &SourcePath,
        out: &mut Vec<DiscoveredSource>,
    )
        ensures
            final(out).deep_view() == old(out).deep_view() + session_sidecars(
                files.deep_view(),
                root.deep_view(),
                session_file.deep_view(),
            ),
    {
        let ghost t = files.deep_view();
        let ghost start = out.deep_view();
        assert(start =~= start + Seq::<SourceView>::empty());
        let id = match session_file.file_stem() {
            Some(id) => id,
            None => return,
        };
        let directory = root.path.join("message").join(id.as_str());
        if !files.has(&directory) {
            return;
        }
        let part_dir = root.path.join("part");
        let messages = keep_extension(files.walk(&directory, 0, None), "json");
        let ghost all = messages.deep_view();
        let mut i: usize = 0;
        assert(all.take(0) =~= Seq::empty());
        while i < messages.len()
            invariant
                i <= messages@.len(),
                t == files.deep_view(),
                all == messages.deep_view(),
                out.deep_view() == start + message_sources(
                    t,
                    root.deep_view(),
                    all.take(i as int),
                    part_dir.deep_view(),
                ),
            decreases messages.len() - i,
        {
            let m = &messages[i];
            assert(all.take(i + 1).drop_last() =~= all.take(i as int));
            assert(all.take(i + 1).last() == m.deep_view());
            push_source(out, DiscoveredSource::new("opencode", root, m.copy(), SourceRole::MetadataSidecar, true));
            OpenCodeConnector::discover_legacy_message_parts(files, root, m, &part_dir, out);
            assert(out.deep_view() =~= start + message_sources(
                t,
                root.deep_view(),
                all.take(i + 1),
                part_dir.deep_view(),
            ));
            i = i + 1;
        }
        assert(all.take(all.len() as int) =~= all);
    }

    /// The older files that a scan would read.
    pub fn discover_legacy_storage_sources(
        ctx: &ScanContext,
        surroundings: &Surroundings,
        files: &FileTable,
    ) -> (r: Vec<DiscoveredSource>)
        ensures
            r.deep_view() == storage_sources(
                files.deep_view(),
                storage_roots(files.deep_view(), ctx.deep_view(), surroundings.deep_view()),
                ctx.since_ts,
            ).1,
    {
        let ghost t = files.deep_view();
        let roots = OpenCodeConnector::storage_source_roots(ctx, surroundings, files);
        let ghost all = roots.deep_view();
        let mut met: Vec<SourcePath> = Vec::new();
        let mut out: Vec<DiscoveredSource> = Vec::new();
        let mut i: usize = 0;
        assert(all.take(0) =~= Seq::empty());
        assert(met.deep_view() =~= Seq::empty());
        assert(out.deep_view() =~= Seq::empty());
        while i < roots.len()
            invariant
                i <= roots@.len(),
                t == files.deep_view(),
                all == roots.deep_view(),
                storage_sources(t, all.take(i as int), ctx.since_ts) == (met.deep_view(), out.deep_view()),
            decreases roots.len() - i,
        {
            let root = &roots[i];
            let ghost before = storage_sources(t, all.take(i as int), ctx.since_ts);
            assert(all.take(i + 1).drop_last() =~= all.take(i as int));
            assert(all.take(i + 1).last() == root.deep_view());
            let message_dir = root.path.join("message");
            let part_dir = root.path.join("part");
            let list = OpenCodeConnector::session_files(files, &root.path);
            let ghost fs = list.deep_view();
            let mut k: usize = 0;
            assert(fs.take(0) =~= Seq::empty());
            while k < list.len()
                invariant
                    k <= list@.len(),
                    t == files.deep_view(),
                    fs == list.deep_view(),
                    message_dir.deep_view() == below(root.path.deep_view(), "message"@),
                    part_dir.deep_view() == below(root.path.deep_view(), "part"@),
                    discovered_sessions(t, before, root.deep_view(), fs.take(k as int), ctx.since_ts) == (
                        met.deep_view(),
                        out.deep_view(),
                    ),
                decreases list.len() - k,
            {
                let file = &list[k];
                assert(fs.take(k + 1).drop_last() =~= fs.take(k as int));
                assert(fs.take(k + 1).last() == file.deep_view());
                let key = files.canonical(file);
                if note_path(&mut met, key) && session_has_updates(files, file, &message_dir, &part_dir, ctx.since_ts) {
                    let ghost so_far = out.deep_view();
                    push_source(
                        &mut out,
                        DiscoveredSource::new("opencode", root, file.copy(), SourceRole::PrimarySessionLog, true),
                    );
                    OpenCodeConnector::discover_legacy_session_sidecars(files, root, file, &mut out);
                    assert(out.deep_view() =~= so_far + seq![
                        source("opencode"@, root.deep_view(), file.deep_view(), SourceRole::PrimarySessionLog, true),
                    ] + session_sidecars(t, root.deep_view(), file.deep_view()));
                }
                k = k + 1;
            }
            assert(fs.take(fs.len() as int) =~= fs);
            i = i + 1;
        }
        assert(all.take(all.len() as int) =~= all);
        out
    }

    /// The files that a scan would read.
    pub fn discover_source_files(&self, ctx: &ScanContext, surroundings: &Surroundings, files: &FileTable) -> (r: Vec<
        DiscoveredSource,
    >)
        ensures
            r.deep_view() == discovered(files.deep_view(), ctx.deep_view(), surroundings.deep_view()),
    {
        let databases = OpenCodeConnector::discover_sqlite_sources(ctx, surroundings, files);
        if databases.len() > 0 {
            databases
        } else {
            OpenCodeConnector::discover_legacy_storage_sources(ctx, surroundings, files)
        }
    }
}

/// What holds of conversations that were found: each is of a session that was
/// taken, no two are of one session, and each has messages, in time.
pub open spec fn is_sound(taken: Seq<Seq<char>>, found: Seq<ConversationView>) -> bool {
    &&& forall|i: int|
        0 <= i < found.len() ==> (#[trigger] found[i]).external_id is Some && taken.contains(found[i].external_id->0)
    &&& forall|i: int, j: int|
        0 <= i < j < found.len() ==> (#[trigger] found[i]).external_id != (#[trigger] found[j]).external_id
    &&& forall|i: int| 0 <= i < found.len() ==> (#[trigger] found[i]).messages.len() > 0 && are_in_time(found[i].messages)
}

proof fn sound_with_taken(taken: Seq<Seq<char>>, found: Seq<ConversationView>, id: Seq<char>)
    requires
        is_sound(taken, found),
    ensures
        is_sound(taken.push(id), found),
{
    assert forall|i: int| 0 <= i < found.len() implies (#[trigger] found[i]).external_id is Some && taken.push(
        id,
    ).contains(found[i].external_id->0) by {
        let own = found[i].external_id->0;
        assert(taken.contains(own));
        let k = choose|k: int| 0 <= k < taken.len() && taken[k] == own;
        assert(taken.push(id)[k] == own);
    }
}

proof fn sound_with_found(taken: Seq<Seq<char>>, found: Seq<ConversationView>, c: ConversationView)
    requires
        is_sound(taken, found),
        c.external_id is Some,
        !taken.contains(c.external_id->0),
        c.messages.len() > 0,
        are_in_time(c.messages),
    ensures
        is_sound(taken.push(c.external_id->0), found.push(c)),
{
    let id = c.external_id->0;
    sound_with_taken(taken, found, id);
    assert(taken.push(id)[taken.len() as int] == id);
    assert(taken.push(id).contains(id));
    assert forall|i: int, j: int| 0 <= i < j < found.push(c).len() implies (#[trigger] found.push(c)[i]).external_id != (
    #[trigger] found.push(c)[j]).external_id by {
        if j == found.len() {
            assert(taken.contains(found[i].external_id->0));
        }
    }
}

proof fn stream_is_sound(stream: StreamView, db: Seq<Seq<char>>, all: Seq<RowsView>, since: Option<i64>)
    requires
        is_sound(stream.taken, stream.found),
    ensures
        ({
            let after = after_sessions(stream, db, all, since);
            is_sound(after.taken, after.found)
        }),
    decreases all.len(),
{
    if all.len() > 0 {
        let before = after_sessions(stream, db, all.drop_last(), since);
        let rows = all.last();
        stream_is_sound(stream, db, all.drop_last(), since);
        sound_with_taken(before.taken, before.found, rows.session.id);
        if let Some(tables) = rows.tables {
            session_messages_are_in_time(tables.messages, tables.parts, rows.session.id);
            if let Some(c) = rows_conversation(db, rows.session, tables, since) {
                if is_wanted(before.taken, rows.session, since) {
                    sound_with_found(before.taken, before.found, c);
                }
            }
        }
    }
}

proof fn databases_are_sound(
    t: Seq<EntryView>,
    dbs: Seq<DatabaseView<RowsView>>,
    paths: Seq<Seq<Seq<char>>>,
    since: Option<i64>,
)
    ensures
        ({
            let after = after_databases(t, dbs, paths, since);
            is_sound(after.taken, after.found)
        }),
    decreases paths.len(),
{
    if paths.len() > 0 {
        databases_are_sound(t, dbs, paths.drop_last(), since);
        let before = after_databases(t, dbs, paths.drop_last(), since);
        if let Some(sessions) = database_at(dbs, paths.last()) {
            stream_is_sound(
                StreamView { taken: before.taken, found: before.found, stopped: false },
                paths.last(),
                sessions,
                since,
            );
        }
    }
}

proof fn session_files_are_sound(
    t: Seq<EntryView>,
    scan: FilesView,
    root: Seq<Seq<char>>,
    all: Seq<Seq<Seq<char>>>,
    since: Option<i64>,
)
    requires
        is_sound(scan.taken, scan.found),
    ensures
        ({
            let after = after_session_files(t, scan, root, all, since);
            is_sound(after.taken, after.found)
        }),
    decreases all.len(),
{
    if all.len() > 0 {
        session_files_are_sound(t, scan, root, all.drop_last(), since);
        let before = after_session_files(t, scan, root, all.drop_last(), since);
        if let Ok(info) = session_file(t, all.last()) {
            sound_with_taken(before.taken, before.found, info.id);
            file_messages_are_in_time(t, below(below(root, "message"@), info.id), below(root, "part"@));
            if let Some(c) = files_conversation(all.last(), info, legacy_messages(t, root, info.id)) {
                if !before.taken.contains(info.id) {
                    sound_with_found(before.taken, before.found, c);
                }
            }
        }
    }
}

proof fn storages_are_sound(t: Seq<EntryView>, roots: Seq<RootView>, since: Option<i64>)
    ensures
        ({
            let after = after_storages(t, roots, since);
            is_sound(after.taken, after.found)
        }),
    decreases roots.len(),
{
    if roots.len() > 0 {
        storages_are_sound(t, roots.drop_last(), since);
        session_files_are_sound(
            t,
            after_storages(t, roots.drop_last(), since),
            roots.last().path,
            session_files(t, roots.last().path),
            since,
        );
    }
}

/// A scan finds no session twice, whatever databases and files hold it, and each
/// conversation has messages, in time.
pub proof fn scanned_sessions_are_distinct(
    t: Seq<EntryView>,
    dbs: Seq<DatabaseView<RowsView>>,
    ctx: ContextView,
    s: SurroundingsView,
)
    ensures
        exists|taken: Seq<Seq<char>>| #[trigger] is_sound(taken, scanned(t, dbs, ctx, s)),
        forall|i: int, j: int|
            0 <= i < j < scanned(t, dbs, ctx, s).len() ==> (#[trigger] scanned(t, dbs, ctx, s)[i]).external_id != (
            #[trigger] scanned(t, dbs, ctx, s)[j]).external_id,
{
    let paths = sqlite_roots(ctx, s).map_values(|r: RootView| r.path);
    databases_are_sound(t, dbs, paths, ctx.since_ts);
    storages_are_sound(t, storage_roots(t, ctx, s), ctx.since_ts);
    let databases = after_databases(t, dbs, paths, ctx.since_ts);
    let storages = after_storages(t, storage_roots(t, ctx, s), ctx.since_ts);
    if databases.taken.len() > 0 {
        assert(is_sound(databases.taken, scanned(t, dbs, ctx, s)));
    } else {
        assert(is_sound(storages.taken, scanned(t, dbs, ctx, s)));
    }
}

/// A database from which a session was taken shuts out the older files.
pub proof fn databases_shut_out_files(
    t: Seq<EntryView>,
    dbs: Seq<DatabaseView<RowsView>>,
    ctx: ContextView,
    s: SurroundingsView,
)
    requires
        after_databases(t, dbs, sqlite_roots(ctx, s).map_values(|r: RootView| r.path), ctx.since_ts).taken.len() > 0,
    ensures
        scanned(t, dbs, ctx, s) == after_databases(
            t,
            dbs,
            sqlite_roots(ctx, s).map_values(|r: RootView| r.path),
            ctx.since_ts,
        ).found,
{
}

/// What relates a scan and a discovery of the same older files: they met the same
/// files, and what the scan found is among the sources.
spec fn is_covered(scan: FilesView, d: (Seq<Seq<Seq<char>>>, Seq<SourceView>)) -> bool {
    &&& scan.met == d.0
    &&& forall|i: int| 0 <= i < scan.found.len() ==> is_source(d.1, (#[trigger] scan.found[i]).source_path)
}

proof fn session_file_is_covered(
    t: Seq<EntryView>,
    scan: FilesView,
    d: (Seq<Seq<Seq<char>>>, Seq<SourceView>),
    root: RootView,
    file: Seq<Seq<char>>,
    since: Option<i64>,
)
    requires
        is_covered(scan, d),
    ensures
        is_covered(
            after_session_file(t, scan, root.path, file, since),
            discovered_session(t, d, root, file, since),
        ),
{
    let s2 = after_session_file(t, scan, root.path, file, since);
    let d2 = discovered_session(t, d, root, file, since);
    assert forall|i: int| 0 <= i < s2.found.len() implies is_source(d2.1, (#[trigger] s2.found[i]).source_path) by {
        if i < scan.found.len() {
            assert(s2.found[i] == scan.found[i]);
            let path = scan.found[i].source_path;
            let k = choose|k: int| 0 <= k < d.1.len() && (#[trigger] d.1[k]).source_path == path;
            assert(d2.1[k] == d.1[k]);
        } else {
            assert(s2.found[i].source_path == file);
            assert(d2.1[d.1.len() as int].source_path == file);
        }
    }
}

proof fn session_files_are_covered(
    t: Seq<EntryView>,
    scan: FilesView,
    d: (Seq<Seq<Seq<char>>>, Seq<SourceView>),
    root: RootView,
    all: Seq<Seq<Seq<char>>>,
    since: Option<i64>,
)
    requires
        is_covered(scan, d),
    ensures
        is_covered(
            after_session_files(t, scan, root.path, all, since),
            discovered_sessions(t, d, root, all, since),
        ),
    decreases all.len(),
{
    if all.len() > 0 {
        let front = all.drop_last();
        session_files_are_covered(t, scan, d, root, front, since);
        session_file_is_covered(
            t,
            after_session_files(t, scan, root.path, front, since),
            discovered_sessions(t, d, root, front, since),
            root,
            all.last(),
            since,
        );
    }
}

proof fn storages_are_covered(t: Seq<EntryView>, roots: Seq<RootView>, since: Option<i64>)
    ensures
        is_covered(after_storages(t, roots, since), storage_sources(t, roots, since)),
    decreases roots.len(),
{
    if roots.len() > 0 {
        let front = roots.drop_last();
        storages_are_covered(t, front, since);
        session_files_are_covered(
            t,
            after_storages(t, front, since),
            storage_sources(t, front, since),
            roots.last(),
            session_files(t, roots.last().path),
            since,
        );
    }
}

proof fn no_database_is_read(t: Seq<EntryView>, dbs: Seq<DatabaseView<RowsView>>, roots: Seq<RootView>, since: Option<i64>)
    requires
        database_sources(t, roots).1.len() == 0,
    ensures
        database_sources(t, roots).0.len() == 0,
        after_databases(t, dbs, roots.map_values(|r: RootView| r.path), since).taken.len() == 0,
    decreases roots.len(),
{
    let paths = roots.map_values(|r: RootView| r.path);
    if roots.len() > 0 {
        let front = roots.drop_last();
        assert(paths.drop_last() =~= front.map_values(|r: RootView| r.path));
        no_database_is_read(t, dbs, front, since);
        assert(!was_seen(database_sources(t, front).0, canonical_path(t, roots.last().path)));
        assert(!path_is_file(t, paths.last()));
    }
}

/// Whatever older file a scan reads, discovery names where there is no database: each
/// conversation comes from a file that is among the sources.
pub proof fn scanned_files_are_discovered(
    t: Seq<EntryView>,
    dbs: Seq<DatabaseView<RowsView>>,
    ctx: ContextView,
    s: SurroundingsView,
)
    requires
        database_sources(t, sqlite_roots(ctx, s)).1.len() == 0,
    ensures
        forall|i: int|
            0 <= i < scanned(t, dbs, ctx, s).len() ==> is_source(
                discovered(t, ctx, s),
                (#[trigger] scanned(t, dbs, ctx, s)[i]).source_path,
            ),
{
    no_database_is_read(t, dbs, sqlite_roots(ctx, s), ctx.since_ts);
    storages_are_covered(t, storage_roots(t, ctx, s), ctx.since_ts);
}

/// Whether a conversation is one that a stream may hand on: of a session that was not
/// taken before and is now, with messages that carry their places, and not older than
/// `since`.
pub open spec fn is_emittable(
    before: Seq<Seq<char>>,
    after: Seq<Seq<char>>,
    since: Option<i64>,
    c: ConversationView,
) -> bool {
    &&& c.external_id matches Some(id) && !before.contains(id) && after.contains(id)
    &&& c.messages.len() > 0
    &&& is_numbered(c.messages)
    &&& since matches Some(s) ==> or_default(or_else(c.ended_at, c.started_at), 0) >= s
}

/// Reading a database takes names and gives none back, and leaves what was found
/// before as it was. What it finds is of sessions that were not taken before and are
/// now, no two of one session, with messages that carry their places, and nothing is
/// older than `since`.
pub proof fn stream_hands_on_each_session_once(
    stream: StreamView,
    db: Seq<Seq<char>>,
    all: Seq<RowsView>,
    since: Option<i64>,
)
    ensures
        ({
            let after = after_sessions(stream, db, all, since);
            let n = stream.found.len();
            &&& stream.taken.len() <= after.taken.len()
            &&& after.taken.take(stream.taken.len() as int) == stream.taken
            &&& n <= after.found.len()
            &&& after.found.take(n as int) == stream.found
            &&& forall|i: int|
                n <= i < after.found.len() ==> is_emittable(
                    stream.taken,
                    after.taken,
                    since,
                    #[trigger] after.found[i],
                )
            &&& forall|i: int, j: int|
                n <= i < j < after.found.len() ==> (#[trigger] after.found[i]).external_id != (
                #[trigger] after.found[j]).external_id
        }),
    decreases all.len(),
{
    let n = stream.found.len() as int;
    let m = stream.taken.len() as int;
    if all.len() == 0 {
        assert(stream.taken.take(m) =~= stream.taken);
        assert(stream.found.take(n) =~= stream.found);
    } else {
        let rows = all.last();
        let before = after_sessions(stream, db, all.drop_last(), since);
        let after = after_sessions(stream, db, all, since);
        stream_hands_on_each_session_once(stream, db, all.drop_last(), since);
        assert(after.taken.take(m) =~= before.taken.take(m));
        assert(after.found.take(n) =~= before.found.take(n));
        let id = rows.session.id;
        assert forall|x: Seq<char>| #[trigger] before.taken.contains(x) implies after.taken.contains(x) by {
            let k = choose|k: int| 0 <= k < before.taken.len() && before.taken[k] == x;
            assert(after.taken[k] == x);
        }
        assert forall|x: Seq<char>| #[trigger] stream.taken.contains(x) implies before.taken.contains(x) by {
            let k = choose|k: int| 0 <= k < stream.taken.len() && stream.taken[k] == x;
            assert(before.taken.take(m)[k] == x);
            assert(before.taken[k] == x);
        }
        assert forall|i: int| n <= i < after.found.len() implies is_emittable(
            stream.taken,
            after.taken,
            since,
            #[trigger] after.found[i],
        ) by {
            if i < before.found.len() {
                assert(after.found[i] == before.found[i]);
                assert(is_emittable(stream.taken, before.taken, since, before.found[i]));
            } else {
                assert(after.taken[before.taken.len() as int] == id);
                let tables = rows.tables->0;
                session_messages_are_in_time(tables.messages, tables.parts, id);
            }
        }
        assert forall|i: int, j: int| n <= i < j < after.found.len() implies (#[trigger] after.found[i]).external_id
            != (#[trigger] after.found[j]).external_id by {
            assert(after.found[i] == before.found[i]);
            assert(is_emittable(stream.taken, before.taken, since, before.found[i]));
            if j < before.found.len() {
                assert(after.found[j] == before.found[j]);
            }
        }
    }
}

/// The paths of sources.
pub open spec fn source_paths(sources: Seq<SourceView>) -> Seq<Seq<Seq<char>>> {
    sources.map_values(|s: SourceView| s.source_path)
}

/// A scan reads the databases that discovery names and no other, each once by whatever
/// path: going through the sources alone finds the same.
pub proof fn discovered_databases_are_read(
    t: Seq<EntryView>,
    dbs: Seq<DatabaseView<RowsView>>,
    roots: Seq<RootView>,
    since: Option<i64>,
)
    ensures
        ({
            let all = after_databases(t, dbs, roots.map_values(|r: RootView| r.path), since);
            let found = database_sources(t, roots);
            &&& all.read == found.0
            &&& all == after_databases(t, dbs, source_paths(found.1), since)
        }),
    decreases roots.len(),
{
    let paths = roots.map_values(|r: RootView| r.path);
    let found = database_sources(t, roots);
    if roots.len() > 0 {
        let front = roots.drop_last();
        let before = database_sources(t, front);
        assert(paths.drop_last() =~= front.map_values(|r: RootView| r.path));
        assert(paths.last() == roots.last().path);
        discovered_databases_are_read(t, dbs, front, since);
        if found.1.len() > before.1.len() {
            assert(source_paths(found.1).drop_last() =~= source_paths(before.1));
            assert(source_paths(found.1).last() == roots.last().path);
        }
    } else {
        assert(source_paths(found.1) =~= Seq::empty());
    }
}

/// Reading further sessions of a database keeps the documents of what was found
/// canonical.
pub proof fn sessions_keep_canonical(
    stream: StreamView,
    db: Seq<Seq<char>>,
    all: Seq<RowsView>,
    since: Option<i64>,
)
    requires
        canonical_conversations(stream.found),
    ensures
        canonical_conversations(after_sessions(stream, db, all, since).found),
    decreases all.len(),
{
    if all.len() > 0 {
        let before = after_sessions(stream, db, all.drop_last(), since);
        let session = all.last().session;
        sessions_keep_canonical(stream, db, all.drop_last(), since);
        if let Some(tables) = all.last().tables {
            database_conversation_is_canonical(db, session, tables.messages, tables.parts, since);
            if let Some(c) = rows_conversation(db, session, tables, since) {
                conversations_grow(before.found, c);
            }
        }
    }
}

proof fn databases_are_canonical(
    t: Seq<EntryView>,
    dbs: Seq<DatabaseView<RowsView>>,
    paths: Seq<Seq<Seq<char>>>,
    since: Option<i64>,
)
    ensures
        canonical_conversations(after_databases(t, dbs, paths, since).found),
    decreases paths.len(),
{
    if paths.len() > 0 {
        let before = after_databases(t, dbs, paths.drop_last(), since);
        databases_are_canonical(t, dbs, paths.drop_last(), since);
        if let Some(sessions) = database_at(dbs, paths.last()) {
            sessions_keep_canonical(
                StreamView { taken: before.taken, found: before.found, stopped: false },
                paths.last(),
                sessions,
                since,
            );
        }
    }
}

proof fn session_files_keep_canonical(
    t: Seq<EntryView>,
    scan: FilesView,
    root: Seq<Seq<char>>,
    files: Seq<Seq<Seq<char>>>,
    since: Option<i64>,
)
    requires
        canonical_conversations(scan.found),
    ensures
        canonical_conversations(after_session_files(t, scan, root, files, since).found),
    decreases files.len(),
{
    if files.len() > 0 {
        let before = after_session_files(t, scan, root, files.drop_last(), since);
        session_files_keep_canonical(t, scan, root, files.drop_last(), since);
        if let Ok(info) = session_file(t, files.last()) {
            let messages = legacy_messages(t, root, info.id);
            messages_in_are_canonical(t, below(below(root, "message"@), info.id), below(root, "part"@));
            files_conversation_is_canonical(files.last(), info, messages);
            if let Some(c) = files_conversation(files.last(), info, messages) {
                conversations_grow(before.found, c);
            }
        }
    }
}

proof fn storages_are_canonical(t: Seq<EntryView>, roots: Seq<RootView>, since: Option<i64>)
    ensures
        canonical_conversations(after_storages(t, roots, since).found),
    decreases roots.len(),
{
    if roots.len() > 0 {
        storages_are_canonical(t, roots.drop_last(), since);
        session_files_keep_canonical(
            t,
            after_storages(t, roots.drop_last(), since),
            roots.last().path,
            session_files(t, roots.last().path),
            since,
        );
    }
}

/// The documents of all conversations that a scan hands out are canonical, so that
/// each can be rendered.
pub proof fn scanned_documents_are_canonical(
    t: Seq<EntryView>,
    dbs: Seq<DatabaseView<RowsView>>,
    ctx: ContextView,
    s: SurroundingsView,
)
    ensures
        canonical_conversations(scanned(t, dbs, ctx, s)),
{
    databases_are_canonical(t, dbs, sqlite_roots(ctx, s).map_values(|r: RootView| r.path), ctx.since_ts);
    storages_are_canonical(t, storage_roots(t, ctx, s), ctx.since_ts);
}

proof fn found_stays(stream: StreamView, db: Seq<Seq<char>>, all: Seq<RowsView>, since: Option<i64>, k: int, at: int)
    requires
        0 <= k <= all.len(),
        0 <= at < after_sessions(stream, db, all.take(k), since).found.len(),
    ensures
        at < after_sessions(stream, db, all, since).found.len(),
        after_sessions(stream, db, all, since).found[at] == after_sessions(stream, db, all.take(k), since).found[at],
    decreases all.len(),
{
    if k == all.len() {
        assert(all.take(k) =~= all);
    } else {
        let front = all.drop_last();
        assert(front.take(k) =~= all.take(k));
        found_stays(stream, db, front, since, k, at);
    }
}

proof fn untaken_before(stream: StreamView, db: Seq<Seq<char>>, all: Seq<RowsView>, since: Option<i64>, id: Seq<char>)
    requires
        !stream.stopped,
        !stream.taken.contains(id),
        forall|i: int| 0 <= i < all.len() ==> (#[trigger] all[i]).session.id != id && all[i].tables is Some,
    ensures
        !after_sessions(stream, db, all, since).stopped,
        !after_sessions(stream, db, all, since).taken.contains(id),
    decreases all.len(),
{
    if all.len() > 0 {
        let front = all.drop_last();
        assert forall|i: int| 0 <= i < front.len() implies (#[trigger] front[i]).session.id != id
            && front[i].tables is Some by {
            assert(all[i].session.id != id);
        }
        untaken_before(stream, db, front, since, id);
        let before = after_sessions(stream, db, front, since);
        let last = all[all.len() - 1];
        assert(last.session.id != id && last.tables is Some);
        let taken = before.taken.push(last.session.id);
        if taken.contains(id) {
            let k = choose|k: int| 0 <= k < taken.len() && taken[k] == id;
            assert(before.taken[k] == id);
        }
    }
}

/// A session of a database that was not taken before and was not last updated before the
/// given time is found, where the rows before it could be read and are of other sessions:
/// as the conversation that its own rows make.
pub proof fn sessions_of_a_database_are_found(
    stream: StreamView,
    db: Seq<Seq<char>>,
    all: Seq<RowsView>,
    since: Option<i64>,
    k: int,
    c: ConversationView,
) -> (at: int)
    requires
        0 <= k < all.len(),
        !stream.stopped,
        !stream.taken.contains(all[k].session.id),
        forall|i: int|
            0 <= i < k ==> (#[trigger] all[i]).session.id != all[k].session.id && all[i].tables is Some,
        all[k].tables is Some,
        !is_stale(all[k].session, since),
        database_conversation(
            db,
            all[k].session,
            session_messages(all[k].tables->0.messages, all[k].tables->0.parts, all[k].session.id),
            since,
        ) == Some(c),
    ensures
        stream.found.len() <= at < after_sessions(stream, db, all, since).found.len(),
        after_sessions(stream, db, all, since).found[at] == c,
{
    let front = all.take(k);
    let id = all[k].session.id;
    assert forall|i: int| 0 <= i < front.len() implies (#[trigger] front[i]).session.id != id
        && front[i].tables is Some by {
        assert(all[i].session.id != id);
    }
    untaken_before(stream, db, front, since, id);
    assert(all.take(k + 1).drop_last() =~= front);
    assert(all.take(k + 1).last() == all[k]);
    let before = after_sessions(stream, db, front, since);
    let n = before.found.len() as int;
    found_only_grows(stream, db, front, since);
    found_stays(stream, db, all, since, k + 1, n);
    n
}

proof fn found_only_grows(stream: StreamView, db: Seq<Seq<char>>, all: Seq<RowsView>, since: Option<i64>)
    ensures
        after_sessions(stream, db, all, since).found.len() >= stream.found.len(),
    decreases all.len(),
{
    if all.len() > 0 {
        found_only_grows(stream, db, all.drop_last(), since);
    }
}

/// A file of a session that was not met and whose session was not taken before is found
/// where anything of it changed and it has messages: with the messages in the directory of
/// its name and their parts.
pub proof fn session_files_are_found(
    t: Seq<EntryView>,
    scan: FilesView,
    root: Seq<Seq<char>>,
    file: Seq<Seq<char>>,
    since: Option<i64>,
    info: crate::opencode_store::InfoView,
)
    requires
        !was_seen(scan.met, canonical_path(t, file)),
        since is None || path_is_fresh(t, file),
        session_file(t, file) == Ok::<crate::opencode_store::InfoView, crate::scan::ReadError>(info),
        !scan.taken.contains(info.id),
        path_exists(t, below(below(root, "message"@), info.id)),
    ensures
        ({
            let messages = messages_in(t, below(below(root, "message"@), info.id), below(root, "part"@));
            let after = after_session_file(t, scan, root, file, since);
            &&& after.taken == scan.taken.push(info.id)
            &&& messages.len() == 0 ==> after.found == scan.found
            &&& messages.len() > 0 ==> {
                &&& after.found.len() == scan.found.len() + 1
                &&& after.found.drop_last() == scan.found
                &&& after.found.last().messages == messages
                &&& after.found.last().external_id == Some(info.id)
                &&& after.found.last().source_path == file
            }
        }),
{
    let messages = messages_in(t, below(below(root, "message"@), info.id), below(root, "part"@));
    let after = after_session_file(t, scan, root, file, since);
    assert(legacy_messages(t, root, info.id) == messages);
    if let Some(c) = files_conversation(file, info, messages) {
        assert(after.found =~= scan.found.push(c));
        assert(after.found.drop_last() =~= scan.found);
    }
}

/// Near a place the database is looked for at the place itself where it is named like one,
/// and else right below it; in a directory of the agent; and where applications keep their
/// data, unless the place is such a directory itself; and nowhere else.
pub proof fn databases_are_looked_for_near_a_place(base: Seq<Seq<char>>, p: Seq<Seq<char>>)
    ensures
        database_candidates(base).contains(p) <==> {
            ||| extension(base) == Some("db"@) && p == base
            ||| extension(base) != Some("db"@) && p == below(base, "opencode.db"@)
            ||| is_named(base, "opencode"@) && p == below(base, "opencode.db"@)
            ||| p == below(base, "opencode/opencode.db"@)
            ||| is_named(base, ".local"@) && p == below(base, "share/opencode/opencode.db"@)
            ||| (!is_named(base, ".config"@) && !is_named(base, ".local"@) && !ends_in(base, ".local"@, "share"@) && !is_named(
                base,
                "Application Support"@,
            ) && !ends_in(base, "AppData"@, "Roaming"@) && !is_named(base, "opencode"@)) && p == below(base, ".local/share/opencode/opencode.db"@)
            ||| (!is_named(base, ".config"@) && !is_named(base, ".local"@) && !ends_in(base, ".local"@, "share"@) && !is_named(
                base,
                "Application Support"@,
            ) && !ends_in(base, "AppData"@, "Roaming"@) && !is_named(base, "opencode"@)) && p == below(base, ".config/opencode/opencode.db"@)
            ||| (!is_named(base, ".config"@) && !is_named(base, ".local"@) && !ends_in(base, ".local"@, "share"@) && !is_named(
                base,
                "Application Support"@,
            ) && !ends_in(base, "AppData"@, "Roaming"@) && !is_named(base, "opencode"@)) && p == below(base, "Library/Application Support/opencode/opencode.db"@)
            ||| (!is_named(base, ".config"@) && !is_named(base, ".local"@) && !ends_in(base, ".local"@, "share"@) && !is_named(
                base,
                "Application Support"@,
            ) && !ends_in(base, "AppData"@, "Roaming"@) && !is_named(base, "opencode"@)) && p == below(base, "AppData/Roaming/opencode/opencode.db"@)
        },
{
    let own = if extension(base) == Some("db"@) {
        base
    } else {
        below(base, "opencode.db"@)
    };
    let s0 = seq![own];
    let s1 = path_if(is_named(base, "opencode"@), below(base, "opencode.db"@));
    let s2 = seq![below(base, "opencode/opencode.db"@)];
    let s3 = path_if(is_named(base, ".local"@), below(base, "share/opencode/opencode.db"@));
    let s4 = if is_application_root(base) {
        Seq::empty()
    } else {
        seq![
            below(base, ".local/share/opencode/opencode.db"@),
            below(base, ".config/opencode/opencode.db"@),
            below(base, "Library/Application Support/opencode/opencode.db"@),
            below(base, "AppData/Roaming/opencode/opencode.db"@),
        ]
    };
    listed_paths(own, own, own, own, p);
    listed_paths(below(base, "opencode.db"@), own, own, own, p);
    listed_paths(below(base, "opencode/opencode.db"@), own, own, own, p);
    listed_paths(below(base, "share/opencode/opencode.db"@), own, own, own, p);
    listed_paths(below(base, ".local/share/opencode/opencode.db"@), below(base, ".config/opencode/opencode.db"@), below(base, "Library/Application Support/opencode/opencode.db"@), below(base, "AppData/Roaming/opencode/opencode.db"@), p);
    joined_paths(s0, s1, p);
    joined_paths(s0 + s1, s2, p);
    joined_paths(s0 + s1 + s2, s3, p);
    joined_paths(s0 + s1 + s2 + s3, s4, p);
}

/// Near a place the older files are looked for at the place itself, in a directory of the
/// agent, and where applications keep their data, unless the place is such a directory
/// itself; and nowhere else.
pub proof fn storages_are_looked_for_near_a_place(base: Seq<Seq<char>>, p: Seq<Seq<char>>)
    ensures
        storage_candidates(base).contains(p) <==> {
            ||| p == base
            ||| p == below(base, "opencode/storage"@)
            ||| (is_named(base, "opencode"@)) && p == below(base, "storage"@)
            ||| (is_named(base, ".local"@)) && p == below(base, "share/opencode/storage"@)
            ||| (!is_named(base, ".config"@) && !is_named(base, ".local"@) && !ends_in(base, ".local"@, "share"@) && !is_named(
                base,
                "Application Support"@,
            ) && !ends_in(base, "AppData"@, "Roaming"@) && !is_named(base, "opencode"@)) && p == below(base, ".local/share/opencode/storage"@)
            ||| (!is_named(base, ".config"@) && !is_named(base, ".local"@) && !ends_in(base, ".local"@, "share"@) && !is_named(
                base,
                "Application Support"@,
            ) && !ends_in(base, "AppData"@, "Roaming"@) && !is_named(base, "opencode"@)) && p == below(base, ".config/opencode/storage"@)
            ||| (!is_named(base, ".config"@) && !is_named(base, ".local"@) && !ends_in(base, ".local"@, "share"@) && !is_named(
                base,
                "Application Support"@,
            ) && !ends_in(base, "AppData"@, "Roaming"@) && !is_named(base, "opencode"@)) && p == below(base, "Library/Application Support/opencode/storage"@)
            ||| (!is_named(base, ".config"@) && !is_named(base, ".local"@) && !ends_in(base, ".local"@, "share"@) && !is_named(
                base,
                "Application Support"@,
            ) && !ends_in(base, "AppData"@, "Roaming"@) && !is_named(base, "opencode"@)) && p == below(base, "AppData/Roaming/opencode/storage"@)
        },
{
    let s0 = seq![base, below(base, "opencode/storage"@)];
    let s1 = path_if(is_named(base, "opencode"@), below(base, "storage"@));
    let s2 = path_if(is_named(base, ".local"@), below(base, "share/opencode/storage"@));
    let s3 = if is_application_root(base) {
        Seq::empty()
    } else {
        seq![
            below(base, ".local/share/opencode/storage"@),
            below(base, ".config/opencode/storage"@),
            below(base, "Library/Application Support/opencode/storage"@),
            below(base, "AppData/Roaming/opencode/storage"@),
        ]
    };
    listed_paths(base, below(base, "opencode/storage"@), base, below(base, "opencode/storage"@), p);
    listed_paths(below(base, "storage"@), below(base, "storage"@), below(base, "storage"@), below(base, "storage"@), p);
    listed_paths(below(base, "share/opencode/storage"@), below(base, "share/opencode/storage"@), below(base, "share/opencode/storage"@), below(base, "share/opencode/storage"@), p);
    listed_paths(below(base, ".local/share/opencode/storage"@), below(base, ".config/opencode/storage"@), below(base, "Library/Application Support/opencode/storage"@), below(base, "AppData/Roaming/opencode/storage"@), p);
    joined_paths(s0, s1, p);
    joined_paths(s0 + s1, s2, p);
    joined_paths(s0 + s1 + s2, s3, p);
}

/// Databases are read in their order, each once by whatever path, with what was taken from
/// those before it; and storages in theirs, the files of each in theirs.
pub proof fn databases_and_storages_are_read_in_order(
    t: Seq<EntryView>,
    dbs: Seq<DatabaseView<RowsView>>,
    paths: Seq<Seq<Seq<char>>>,
    next: Seq<Seq<char>>,
    roots: Seq<RootView>,
    root: RootView,
    since: Option<i64>,
    sessions: Seq<RowsView>,
)
    ensures
        ({
            let before = after_databases(t, dbs, paths, since);
            let after = after_databases(t, dbs, paths.push(next), since);
            let met = was_seen(before.read, canonical_path(t, next));
            let stream = after_sessions(
                StreamView { taken: before.taken, found: before.found, stopped: false },
                next,
                sessions,
                since,
            );
            &&& !path_is_file(t, next) || met ==> after == before
            &&& path_is_file(t, next) && !met && database_at(dbs, next) == Some(sessions) ==> after.found == stream.found
                && after.taken == stream.taken && was_seen(after.read, canonical_path(t, next))
            &&& path_is_file(t, next) && !met && database_at(dbs, next) is None ==> after.found == before.found
                && after.taken == before.taken
        }),
        after_databases(t, dbs, Seq::empty(), since).found.len() == 0,
        after_databases(t, dbs, Seq::empty(), since).taken.len() == 0,
        after_storages(t, roots.push(root), since) == after_session_files(
            t,
            after_storages(t, roots, since),
            root.path,
            session_files(t, root.path),
            since,
        ),
        after_storages(t, Seq::empty(), since).found.len() == 0,
        after_storages(t, Seq::empty(), since).taken.len() == 0,
{
    assert(paths.push(next).drop_last() =~= paths);
    assert(roots.push(root).drop_last() =~= roots);
    let before = after_databases(t, dbs, paths, since);
    let key = canonical_path(t, next);
    if !was_seen(before.read, key) {
        crate::scan::seen_grows(before.read, key, key);
    }
}

/// The sessions of a database are read in their order, and the files of a storage in theirs.
pub proof fn sessions_are_read_in_order(
    stream: StreamView,
    db: Seq<Seq<char>>,
    all: Seq<RowsView>,
    rows: RowsView,
    since: Option<i64>,
    t: Seq<EntryView>,
    scan: FilesView,
    root: Seq<Seq<char>>,
    files: Seq<Seq<Seq<char>>>,
    file: Seq<Seq<char>>,
)
    ensures
        after_sessions(stream, db, all.push(rows), since) == after_session(
            after_sessions(stream, db, all, since),
            db,
            rows,
            since,
        ),
        after_sessions(stream, db, Seq::empty(), since) == stream,
        after_session_files(t, scan, root, files.push(file), since) == after_session_file(
            t,
            after_session_files(t, scan, root, files, since),
            root,
            file,
            since,
        ),
        after_session_files(t, scan, root, Seq::empty(), since) == scan,
{
    assert(all.push(rows).drop_last() =~= all);
    assert(files.push(file).drop_last() =~= files);
}

/// A scan hands out what it found in the databases where a session was taken from one, and
/// else what it found in the older files.
pub proof fn scans_hand_out_databases_or_files(
    t: Seq<EntryView>,
    dbs: Seq<DatabaseView<RowsView>>,
    ctx: ContextView,
    s: SurroundingsView,
)
    ensures
        ({
            let paths = sqlite_roots(ctx, s).map_values(|r: RootView| r.path);
            let databases = after_databases(t, dbs, paths, ctx.since_ts);
            &&& databases.taken.len() > 0 ==> scanned(t, dbs, ctx, s) == databases.found
            &&& databases.taken.len() == 0 ==> scanned(t, dbs, ctx, s) == after_storages(
                t,
                storage_roots(t, ctx, s),
                ctx.since_ts,
            ).found
        }),
{
}

/// A database that is there and was not met is a source that the scan needs.
pub proof fn databases_are_sources(t: Seq<EntryView>, roots: Seq<RootView>, next: RootView)
    ensures
        ({
            let before = database_sources(t, roots);
            let after = database_sources(t, roots.push(next));
            let met = was_seen(before.0, canonical_path(t, next.path));
            &&& !path_is_file(t, next.path) || met ==> after == before
            &&& path_is_file(t, next.path) && !met ==> {
                let s = after.1.last();
                &&& after.1 == before.1.push(s)
                &&& s.source_path == next.path
                &&& s.role is SqliteDatabase
                &&& s.required_for_reconstruction
                &&& s.provider_slug == "opencode"@
                &&& s.origin == next.origin
            }
        }),
        database_sources(t, Seq::empty()).1.len() == 0,
{
    assert(roots.push(next).drop_last() =~= roots);
}

/// A session of the older files that was not met and of which anything changed is a source,
/// and behind it come its messages and their parts.
pub proof fn session_files_are_sources(
    t: Seq<EntryView>,
    d: (Seq<Seq<Seq<char>>>, Seq<SourceView>),
    root: RootView,
    file: Seq<Seq<char>>,
    since: Option<i64>,
)
    requires
        !was_seen(d.0, canonical_path(t, file)),
        since is None || path_is_fresh(t, file),
    ensures
        ({
            let after = discovered_session(t, d, root, file, since).1;
            let n = d.1.len() as int;
            &&& after.len() >= n + 1
            &&& after.take(n) == d.1
            &&& after[n].source_path == file
            &&& after[n].role is PrimarySessionLog
            &&& after[n].required_for_reconstruction
            &&& after[n].origin == root.origin
            &&& after.skip(n + 1) == session_sidecars(t, root, file)
        }),
{
    let after = discovered_session(t, d, root, file, since).1;
    let n = d.1.len() as int;
    assert(after.take(n) =~= d.1);
    assert(after.skip(n + 1) =~= session_sidecars(t, root, file));
}

/// The messages of a session are sources that the scan needs, each with its parts behind it.
pub proof fn messages_and_parts_are_sources(
    t: Seq<EntryView>,
    root: RootView,
    messages: Seq<Seq<Seq<char>>>,
    m: Seq<Seq<char>>,
    part_dir: Seq<Seq<char>>,
)
    ensures
        ({
            let before = message_sources(t, root, messages, part_dir);
            let after = message_sources(t, root, messages.push(m), part_dir);
            let n = before.len() as int;
            &&& after.take(n) == before
            &&& after.len() >= n + 1
            &&& after[n].source_path == m
            &&& after[n].role is MetadataSidecar
            &&& after[n].required_for_reconstruction
            &&& after.skip(n + 1) == part_sources(t, root, m, part_dir)
        }),
{
    assert(messages.push(m).drop_last() =~= messages);
    let before = message_sources(t, root, messages, part_dir);
    let after = message_sources(t, root, messages.push(m), part_dir);
    let n = before.len() as int;
    assert(after.take(n) =~= before);
    assert(after.skip(n + 1) =~= part_sources(t, root, m, part_dir));
}

/// A directory holds the older files where it and its sessions and messages exist.
pub proof fn storages_hold_sessions_and_messages(t: Seq<EntryView>, p: Seq<Seq<char>>)
    ensures
        is_storage(t, p) <==> path_exists(t, p) && path_exists(t, below(p, "session"@)) && path_exists(
            t,
            below(p, "message"@),
        ),
{
}

/// Anything of a session changed where its file did, where one of its messages did, or where
/// a part of one did; and everything did where no time is given.
pub proof fn sessions_change_with_their_messages_and_parts(
    t: Seq<EntryView>,
    since: Option<i64>,
    file: Seq<Seq<char>>,
    message_root: Seq<Seq<char>>,
    part_root: Seq<Seq<char>>,
    id: Seq<char>,
    i: int,
    name: Seq<char>,
    k: int,
)
    ensures
        since is None || path_is_fresh(t, file) ==> session_changed(t, since, file, message_root, part_root),
        ({
            let directory = below(message_root, id);
            let m = children(t, directory)[i];
            let parts = below(part_root, name);
            &&& file_stem(file) == Some(id) && path_exists(t, directory) && 0 <= i < children(t, directory).len()
                && path_is_file(t, m) && extension(m) == Some("json"@) && path_is_fresh(t, m) ==> session_changed(
                t,
                since,
                file,
                message_root,
                part_root,
            )
            &&& file_stem(file) == Some(id) && path_exists(t, directory) && 0 <= i < children(t, directory).len()
                && path_is_file(t, m) && extension(m) == Some("json"@) && file_stem(m) == Some(name) && path_exists(t, parts)
                && 0 <= k < children(t, parts).len() && path_is_file(t, children(t, parts)[k]) && path_is_fresh(
                t,
                children(t, parts)[k],
            ) ==> session_changed(t, since, file, message_root, part_root)
            &&& since is Some && !path_is_fresh(t, file) && file_stem(file) == Some(id) && !path_exists(t, directory)
                ==> !session_changed(t, since, file, message_root, part_root)
        }),
{
    let directory = below(message_root, id);
    let m = children(t, directory)[i];
    let parts = below(part_root, name);
    if path_exists(t, parts) && 0 <= k < children(t, parts).len() && path_is_file(t, children(t, parts)[k])
        && path_is_fresh(t, children(t, parts)[k]) {
        assert(has_fresh_file(t, parts));
    }
    if 0 <= i < children(t, directory).len() && message_changed(t, m, part_root) {
        assert(path_exists(t, directory) ==> any_message_changed(t, directory, part_root));
    }
}

/// The database of a scan is looked for at its own data first; then near the given places;
/// then where the environment says and at the usual places of the user. No place is lost.
pub proof fn databases_of_a_scan_come_in_order(ctx: ContextView, s: SurroundingsView, db: Seq<Seq<char>>)
    ensures
        extension(ctx.data_dir) == Some("db"@) ==> sqlite_roots(ctx, s).len() > 0 && sqlite_roots(ctx, s)[0].path
            == ctx.data_dir,
        extension(ctx.data_dir) != Some("db"@) && ctx.data_dir.len() > 0 ==> sqlite_roots(ctx, s).len() > 0
            && sqlite_roots(ctx, s)[0].path == below(ctx.data_dir, "opencode.db"@),
        ctx.data_dir.len() == 0 && ctx.scan_roots.len() == 0 && variable_path(s, "OPENCODE_SQLITE_DB"@) == Some(db)
            ==> sqlite_roots(ctx, s).len() > 0 && sqlite_roots(ctx, s)[0].path == db,
        forall|place: RootView, places: Seq<RootView>|
            #![trigger databases_near(places.push(place))]
            databases_near(places.push(place)) == databases_near(places) + roots_at(place, database_candidates(place.path)),
{
    let own: Seq<RootView> = if extension(ctx.data_dir) == Some("db"@) {
        seq![local_root(ctx.data_dir)]
    } else if ctx.data_dir.len() > 0 {
        seq![local_root(below(ctx.data_dir, "opencode.db"@))]
    } else {
        Seq::empty()
    };
    let usual = usual_databases(variable_path(s, "OPENCODE_SQLITE_DB"@), s.home, s.local_data, s.config);
    let all = own + databases_near(ctx.scan_roots) + local_roots(usual);
    let same = |a: RootView, b: RootView| ScanRoot::alike(a, b);
    if all.len() > 0 {
        crate::order::first_item_is_kept(all, same);
    }
    if let Some(p) = variable_path(s, "OPENCODE_SQLITE_DB"@) {
        let named = (match variable_path(s, "OPENCODE_SQLITE_DB"@) {
            Some(p) => seq![p],
            None => Seq::empty(),
        }) + under(s.home, ".local/share/opencode/opencode.db"@) + under(s.home, ".config/opencode/opencode.db"@) + under(
            s.local_data,
            "opencode/opencode.db"@,
        ) + under(s.config, "opencode/opencode.db"@);
        assert(named[0] == p);
        crate::order::first_item_is_kept(named, |a: Seq<Seq<char>>, b: Seq<Seq<char>>| SourcePath::alike(a, b));
        assert(usual[0] == p);
    }
    assert forall|place: RootView, places: Seq<RootView>|
        #![trigger databases_near(places.push(place))]
        databases_near(places.push(place)) == databases_near(places) + roots_at(place, database_candidates(place.path)) by {
        assert(places.push(place).drop_last() =~= places);
    }
}

/// A scan would read the databases that it finds, or else the older files.
pub proof fn discovery_names_databases_or_files(t: Seq<EntryView>, ctx: ContextView, s: SurroundingsView)
    ensures
        ({
            let databases = database_sources(t, sqlite_roots(ctx, s)).1;
            &&& databases.len() > 0 ==> discovered(t, ctx, s) == databases
            &&& databases.len() == 0 ==> discovered(t, ctx, s) == storage_sources(
                t,
                storage_roots(t, ctx, s),
                ctx.since_ts,
            ).1
        }),
        forall|roots: Seq<RootView>, root: RootView, since: Option<i64>|
            #![trigger storage_sources(t, roots.push(root), since)]
            storage_sources(t, roots.push(root), since) == discovered_sessions(
                t,
                storage_sources(t, roots, since),
                root,
                session_files(t, root.path),
                since,
            ),
{
    assert forall|roots: Seq<RootView>, root: RootView, since: Option<i64>|
        #![trigger storage_sources(t, roots.push(root), since)]
        storage_sources(t, roots.push(root), since) == discovered_sessions(
        t,
        storage_sources(t, roots, since),
        root,
        session_files(t, root.path),
        since,
    ) by {
        assert(roots.push(root).drop_last() =~= roots);
    }
}

/// The files of sessions are the documents below the sessions of a storage, at any depth.
pub proof fn session_files_are_looked_for(t: Seq<EntryView>, root: Seq<Seq<char>>, p: Seq<Seq<char>>)
    ensures
        path_exists(t, below(root, "session"@)) ==> (session_files(t, root).contains(p) <==> extension(p) == Some("json"@)
            && crate::files::can_walk_to(t, below(root, "session"@), 0, None, p)),
        !path_exists(t, below(root, "session"@)) ==> session_files(t, root).len() == 0,
{
    let all = walked_files(t, below(root, "session"@), 0, None);
    crate::files::walk_is_sound_and_complete(t, below(root, "session"@), 0, None);
    crate::files::files_of_an_extension_are_kept(all, "json"@, p);
}

} // verus!
