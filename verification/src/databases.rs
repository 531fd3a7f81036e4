//! Databases that a scan may read, each with the root that names it.
use vstd::prelude::*;
use crate::files::{path_is_file, FileTable};
use crate::model::ConversationView;
use crate::order::{firsts, Kinded};
use crate::path::SourcePath;
use crate::scan::{push_source, source, DiscoveredSource, RootView, RootedPath, ScanRoot, SourceRole, SourceView};

verus! {

/// The databases, each path once.
pub open spec fn distinct_paths(all: Seq<(RootView, Seq<Seq<char>>)>) -> Seq<(RootView, Seq<Seq<char>>)> {
    firsts(all, |a: (RootView, Seq<Seq<char>>), b: (RootView, Seq<Seq<char>>)| RootedPath::alike(a, b))
}

/// Those that are files.
pub fn keep_database_files(files: &FileTable, all: Vec<RootedPath>) -> (r: Vec<RootedPath>)
    ensures
        r.deep_view() == all.deep_view().filter(|c: (RootView, Seq<Seq<char>>)| path_is_file(files.deep_view(), c.1)),
{
    let ghost t = files.deep_view();
    let ghost wanted = |c: (RootView, Seq<Seq<char>>)| path_is_file(t, c.1);
    let ghost given = all.deep_view();
    let mut out: Vec<RootedPath> = Vec::new();
    reveal(Seq::filter);
    assert(given.take(0) =~= Seq::empty());
    assert(out.deep_view() =~= given.take(0).filter(wanted));
    for c in it: all
        invariant
            it.seq() == all@,
            t == files.deep_view(),
            wanted == (|c: (RootView, Seq<Seq<char>>)| path_is_file(t, c.1)),
            given == all.deep_view(),
            out.deep_view() == given.take(it.index() as int).filter(wanted),
    {
        reveal(Seq::filter);
        let ghost n = it.index() as int;
        let ghost before = out.deep_view();
        let ghost here = c.deep_view();
        assert(given.take(n + 1).drop_last() =~= given.take(n));
        assert(given.take(n + 1).last() == here);
        if files.is_file(&c.path) {
            out.push(c);
            assert(out.deep_view() =~= before.push(here));
        }
    }
    assert(given.take(given.len() as int) =~= given);
    assert(wanted =~= (|c: (RootView, Seq<Seq<char>>)| path_is_file(files.deep_view(), c.1)));
    out
}

pub fn one_rooted(root: ScanRoot, path: SourcePath) -> (r: Vec<RootedPath>)
    ensures
        r.deep_view() == seq![(root.deep_view(), path.deep_view())],
{
    let ghost seen = (root.deep_view(), path.deep_view());
    let mut out: Vec<RootedPath> = Vec::new();
    out.push(RootedPath { root, path });
    assert(out.deep_view() =~= seq![seen]);
    out
}

/// Databases as sources.
pub open spec fn sources_of(slug: Seq<char>, all: Seq<(RootView, Seq<Seq<char>>)>) -> Seq<SourceView> {
    all.map_values(|c: (RootView, Seq<Seq<char>>)| source(slug, c.0, c.1, SourceRole::SqliteDatabase, true))
}

/// Databases as sources.
pub fn list_sources(slug: &str, list: &Vec<RootedPath>) -> (r: Vec<DiscoveredSource>)
    ensures
        r.deep_view() == sources_of(slug@, list.deep_view()),
{
    let ghost wanted = sources_of(slug@, list.deep_view());
    let mut out: Vec<DiscoveredSource> = Vec::new();
    let mut i: usize = 0;
    assert(out.deep_view() =~= wanted.take(0));
    while i < list.len()
        invariant
            i <= list@.len(),
            wanted == sources_of(slug@, list.deep_view()),
            out.deep_view() == wanted.take(i as int),
        decreases list.len() - i,
    {
        push_source(
            &mut out,
            DiscoveredSource::new(slug, &list[i].root, list[i].path.copy(), SourceRole::SqliteDatabase, true),
        );
        assert(wanted[i as int] == source(
            slug@,
            list@[i as int].root.deep_view(),
            list@[i as int].path.deep_view(),
            SourceRole::SqliteDatabase,
            true,
        ));
        assert(out.deep_view() =~= wanted.take(i + 1));
        i = i + 1;
    }
    assert(wanted.take(wanted.len() as int) =~= wanted);
    out
}

/// What was read of a database so far: the names of the sessions that were met, and
/// the conversations.
#[verifier::ext_equal]
pub struct ExtractView {
    pub seen: Seq<Seq<char>>,
    pub found: Seq<ConversationView>,
    pub failed: bool,
}

/// Each conversation is of a session that was met, and no two are of one session.
pub open spec fn names_are_distinct(x: ExtractView) -> bool {
    &&& forall|i: int|
        0 <= i < x.found.len() ==> (#[trigger] x.found[i]).external_id is Some && x.seen.contains(
            x.found[i].external_id->0,
        )
    &&& forall|i: int, j: int|
        0 <= i < j < x.found.len() ==> (#[trigger] x.found[i]).external_id != (#[trigger] x.found[j]).external_id
}

/// Names stay distinct where a session is met that was not before, whether or not
/// it makes a conversation.
pub proof fn names_stay_distinct(before: ExtractView, id: Seq<char>, after: ExtractView)
    requires
        names_are_distinct(before),
        !before.seen.contains(id),
        after.seen == before.seen.push(id),
        after.found == before.found || exists|c: ConversationView|
            after.found == #[trigger] before.found.push(c) && c.external_id == Some(id),
    ensures
        names_are_distinct(after),
{
    assert(after.seen[before.seen.len() as int] == id);
    assert forall|i: int| 0 <= i < after.found.len() implies (#[trigger] after.found[i]).external_id is Some
        && after.seen.contains(after.found[i].external_id->0) by {
        if i < before.found.len() {
            assert(after.found[i] == before.found[i]);
            let name = before.found[i].external_id->0;
            let k = choose|k: int| 0 <= k < before.seen.len() && before.seen[k] == name;
            assert(after.seen[k] == name);
        }
    }
    assert forall|i: int, j: int| 0 <= i < j < after.found.len() implies (#[trigger] after.found[i]).external_id != (
    #[trigger] after.found[j]).external_id by {
        assert(after.found[i] == before.found[i]);
        if j < before.found.len() {
            assert(after.found[j] == before.found[j]);
        }
    }
}

/// The rows of a database by its sessions, where it could be read.
pub struct Database<R> {
    pub path: SourcePath,
    pub sessions: Option<Vec<R>>,
}

#[verifier::ext_equal]
pub struct DatabaseView<V> {
    pub path: Seq<Seq<char>>,
    pub sessions: Option<Seq<V>>,
}

impl<R: DeepView> DeepView for Database<R> {
    type V = DatabaseView<R::V>;

    open spec fn deep_view(&self) -> DatabaseView<R::V> {
        DatabaseView { path: self.path.deep_view(), sessions: self.sessions.deep_view() }
    }
}

/// What is known of the database of that path.
pub open spec fn database_at<V>(dbs: Seq<DatabaseView<V>>, p: Seq<Seq<char>>) -> Option<Seq<V>>
    decreases dbs.len(),
{
    if dbs.len() == 0 {
        None
    } else if dbs[0].path == p {
        dbs[0].sessions
    } else {
        database_at(dbs.skip(1), p)
    }
}

/// What is known of the database of that path.
pub fn find_database<'a, R: DeepView>(databases: &'a Vec<Database<R>>, path: &SourcePath) -> (r: Option<&'a Vec<R>>)
    ensures
        r.deep_view() == database_at(databases.deep_view(), path.deep_view()),
{
    let ghost all = databases.deep_view();
    let ghost p = path.deep_view();
    let mut i: usize = 0;
    assert(all.skip(0) =~= all);
    while i < databases.len()
        invariant
            i <= databases@.len(),
            all == databases.deep_view(),
            p == path.deep_view(),
            database_at(all, p) == database_at(all.skip(i as int), p),
        decreases databases.len() - i,
    {
        assert(all.skip(i as int)[0] == databases@[i as int].deep_view());
        if databases[i].path.is_like(path) {
            return match &databases[i].sessions {
                Some(sessions) => Some(sessions),
                None => None,
            };
        }
        assert(all.skip(i as int).skip(1) =~= all.skip(i + 1));
        i = i + 1;
    }
    None
}

/// The rows of a database are those of the first of that path.
pub proof fn databases_are_found_by_path<V>(dbs: Seq<DatabaseView<V>>, path: Seq<Seq<char>>, n: int)
    requires
        0 <= n <= dbs.len(),
        forall|i: int| 0 <= i < n ==> (#[trigger] dbs[i]).path != path,
        n < dbs.len() ==> dbs[n].path == path,
    ensures
        n < dbs.len() ==> database_at(dbs, path) == dbs[n].sessions,
        n == dbs.len() ==> database_at(dbs, path) is None,
    decreases n,
{
    if n > 0 {
        let rest = dbs.skip(1);
        assert(dbs[0].path != path);
        assert forall|i: int| 0 <= i < n - 1 implies (#[trigger] rest[i]).path != path by {
            assert(dbs[i + 1].path != path);
        }
        databases_are_found_by_path(rest, path, n - 1);
    }
}

/// Databases are kept in their order, each path once, with the first root that names it.
pub proof fn first_databases_are_kept(all: Seq<(RootView, Seq<Seq<char>>)>, next: (RootView, Seq<Seq<char>>))
    ensures
        (exists|i: int| 0 <= i < all.len() && (#[trigger] all[i]).1 == next.1) ==> distinct_paths(all.push(next))
            == distinct_paths(all),
        (forall|i: int| 0 <= i < all.len() ==> (#[trigger] all[i]).1 != next.1) ==> distinct_paths(all.push(next))
            == distinct_paths(all).push(next),
        distinct_paths(Seq::empty()).len() == 0,
{
    let same = |a: (RootView, Seq<Seq<char>>), b: (RootView, Seq<Seq<char>>)| RootedPath::alike(a, b);
    crate::order::firsts_come_in_order(all, next, same);
    if exists|i: int| 0 <= i < all.len() && (#[trigger] all[i]).1 == next.1 {
        let i = choose|i: int| 0 <= i < all.len() && (#[trigger] all[i]).1 == next.1;
        assert(same(all[i], next));
    } else {
        assert forall|i: int| 0 <= i < all.len() implies !same(#[trigger] all[i], next) by {
            assert(all[i].1 != next.1);
        }
    }
}

/// A database is a source that the scan needs, of the root that names it.
pub proof fn databases_are_sources(slug: Seq<char>, all: Seq<(RootView, Seq<Seq<char>>)>, i: int)
    requires
        0 <= i < all.len(),
    ensures
        ({
            let s = sources_of(slug, all)[i];
            &&& sources_of(slug, all).len() == all.len()
            &&& s.provider_slug == slug
            &&& s.source_path == all[i].1
            &&& s.scan_root == all[i].0.path
            &&& s.origin == all[i].0.origin
            &&& s.role is SqliteDatabase
            &&& s.required_for_reconstruction
        }),
{
}

} // verus!
