//! What a scan is given, and what it discovers.
use vstd::prelude::*;
use crate::files::{canonical_path, EntryView};
use crate::json::{Json, JsonView};
use crate::model::Conversation;
use crate::order::{
    any_like, firsts, firsts_are_distinct_and_complete, firsts_keep_order, firsts_stay, has_kind, is_order,
    keep_firsts, sort, sorted, sorted_is_ordered_permutation, sorted_members, sorted_stays, Kinded, Ranked,
};
use crate::path::{path_order, path_order_laws, SourcePath};
use crate::query::{object, put, text_json};
use crate::text::same_text;

verus! {

/// Where a root was collected.
pub struct Origin {
    pub source_id: String,
    /// The whole of what is known of the origin.
    pub detail: Json,
}

#[verifier::ext_equal]
pub struct OriginView {
    pub source_id: Seq<char>,
    pub detail: JsonView,
}

impl DeepView for Origin {
    type V = OriginView;

    open spec fn deep_view(&self) -> OriginView {
        OriginView { source_id: self.source_id@, detail: self.detail@ }
    }
}

/// This machine.
pub open spec fn local_origin() -> OriginView {
    OriginView {
        source_id: "local"@,
        detail: JsonView::Object(seq![("source_id"@, JsonView::Text("local"@))]),
    }
}

impl Origin {
    /// This machine.
    pub fn local() -> (r: Origin)
        ensures
            r.deep_view() == local_origin(),
    {
        let mut members: Vec<(String, Json)> = Vec::new();
        put(&mut members, "source_id", text_json("local"));
        assert(members.deep_view() =~= seq![("source_id"@, JsonView::Text("local"@))]);
        Origin { source_id: "local".to_owned(), detail: object(members) }
    }

    pub fn copy(&self) -> (r: Origin)
        ensures
            r.deep_view() == self.deep_view(),
    {
        Origin { source_id: self.source_id.clone(), detail: self.detail.copy() }
    }
}

/// A place to scan.
pub struct ScanRoot {
    pub path: SourcePath,
    pub origin: Origin,
    pub platform: Option<String>,
}

#[verifier::ext_equal]
pub struct RootView {
    pub path: Seq<Seq<char>>,
    pub origin: OriginView,
    pub platform: Option<Seq<char>>,
}

impl DeepView for ScanRoot {
    type V = RootView;

    open spec fn deep_view(&self) -> RootView {
        RootView {
            path: self.path.deep_view(),
            origin: self.origin.deep_view(),
            platform: self.platform.deep_view(),
        }
    }
}

/// A place on this machine.
pub open spec fn local_root(path: Seq<Seq<char>>) -> RootView {
    RootView { path, origin: local_origin(), platform: None }
}

/// Another place of the same origin.
pub open spec fn root_at(root: RootView, path: Seq<Seq<char>>) -> RootView {
    RootView { path, ..root }
}

/// Places of one origin.
pub open spec fn roots_at(root: RootView, paths: Seq<Seq<Seq<char>>>) -> Seq<RootView> {
    paths.map_values(|path: Seq<Seq<char>>| root_at(root, path))
}

/// Places on this machine.
pub open spec fn local_roots(paths: Seq<Seq<Seq<char>>>) -> Seq<RootView> {
    paths.map_values(|path: Seq<Seq<char>>| local_root(path))
}

impl ScanRoot {
    /// A place on this machine.
    pub fn local(path: SourcePath) -> (r: ScanRoot)
        ensures
            r.deep_view() == local_root(path.deep_view()),
    {
        ScanRoot { path, origin: Origin::local(), platform: None }
    }

    /// Another place of the same origin.
    pub fn with_path(&self, path: SourcePath) -> (r: ScanRoot)
        ensures
            r.deep_view() == root_at(self.deep_view(), path.deep_view()),
    {
        ScanRoot { path, origin: self.origin.copy(), platform: self.platform.clone() }
    }

    pub fn copy(&self) -> (r: ScanRoot)
        ensures
            r.deep_view() == self.deep_view(),
    {
        self.with_path(self.path.copy())
    }
}

impl Ranked for ScanRoot {
    open spec fn rank(a: RootView, b: RootView) -> int {
        path_order(a.path, b.path)
    }

    fn rank_with(&self, other: &ScanRoot) -> (r: i8) {
        self.path.rank_with(&other.path)
    }
}

impl Kinded for ScanRoot {
    open spec fn alike(a: RootView, b: RootView) -> bool {
        a.path == b.path
    }

    proof fn alike_is_equivalence() {
    }

    fn is_like(&self, other: &ScanRoot) -> (r: bool) {
        self.path.is_like(&other.path)
    }
}

/// The roots in the order of their paths, each path once, with the first origin
/// that named it.
pub open spec fn settled_roots(roots: Seq<RootView>) -> Seq<RootView> {
    firsts(
        sorted(roots, |a: RootView, b: RootView| ScanRoot::rank(a, b)),
        |a: RootView, b: RootView| ScanRoot::alike(a, b),
    )
}

pub fn settle_roots(roots: Vec<ScanRoot>) -> (r: Vec<ScanRoot>)
    ensures
        r.deep_view() == settled_roots(roots.deep_view()),
{
    keep_firsts(sort(roots))
}

/// The paths in order.
pub open spec fn sorted_paths(paths: Seq<Seq<Seq<char>>>) -> Seq<Seq<Seq<char>>> {
    sorted(paths, |a: Seq<Seq<char>>, b: Seq<Seq<char>>| SourcePath::rank(a, b))
}

/// The paths in order, each once.
pub open spec fn settled_paths(paths: Seq<Seq<Seq<char>>>) -> Seq<Seq<Seq<char>>> {
    firsts(
        sorted(paths, |a: Seq<Seq<char>>, b: Seq<Seq<char>>| SourcePath::rank(a, b)),
        |a: Seq<Seq<char>>, b: Seq<Seq<char>>| SourcePath::alike(a, b),
    )
}

pub fn settle_paths(paths: Vec<SourcePath>) -> (r: Vec<SourcePath>)
    ensures
        r.deep_view() == settled_paths(paths.deep_view()),
{
    keep_firsts(sort(paths))
}

/// The order of roots is one.
pub proof fn root_order_laws()
    ensures
        is_order(|a: RootView, b: RootView| ScanRoot::rank(a, b)),
{
    path_order_laws();
    let paths = |a: Seq<Seq<char>>, b: Seq<Seq<char>>| path_order(a, b);
    let order = |a: RootView, b: RootView| ScanRoot::rank(a, b);
    assert forall|a: RootView, b: RootView| #[trigger] order(a, b) == -order(b, a) by {
        assert(paths(a.path, b.path) == -paths(b.path, a.path));
    }
    assert forall|a: RootView, b: RootView, c: RootView|
        #[trigger] order(a, b) <= 0 && #[trigger] order(b, c) <= 0 implies order(a, c) <= 0 by {
        assert(paths(a.path, b.path) <= 0 && paths(b.path, c.path) <= 0);
        assert(paths(a.path, c.path) <= 0);
    }
}

/// Settled roots are roots that were given, in the order of their paths, no two
/// of one path, and every path that was given is there.
pub proof fn settled_roots_are_distinct_and_complete(roots: Seq<RootView>)
    ensures
        forall|i: int, j: int|
            0 <= i < j < settled_roots(roots).len() ==> path_order(
                (#[trigger] settled_roots(roots)[i]).path,
                (#[trigger] settled_roots(roots)[j]).path,
            ) < 0,
        forall|i: int| 0 <= i < settled_roots(roots).len() ==> roots.contains(#[trigger] settled_roots(roots)[i]),
        forall|i: int|
            0 <= i < roots.len() ==> exists|k: int|
                0 <= k < settled_roots(roots).len() && (#[trigger] settled_roots(roots)[k]).path == (
                #[trigger] roots[i]).path,
{
    let order = |a: RootView, b: RootView| ScanRoot::rank(a, b);
    let same = |a: RootView, b: RootView| ScanRoot::alike(a, b);
    let all = sorted(roots, order);
    let kept = settled_roots(roots);
    ScanRoot::alike_is_equivalence();
    root_order_laws();
    path_order_laws();
    let paths = |a: Seq<Seq<char>>, b: Seq<Seq<char>>| path_order(a, b);
    sorted_is_ordered_permutation(roots, order);
    firsts_are_distinct_and_complete(all, same);
    firsts_keep_order(all, same, order);
    assert forall|x: RootView| #[trigger] all.contains(x) <==> roots.contains(x) by {
        broadcast use vstd::seq_lib::group_to_multiset_ensures;

        assert(all.to_multiset().count(x) == roots.to_multiset().count(x));
    }
    assert forall|i: int, j: int| 0 <= i < j < kept.len() implies path_order(
        (#[trigger] kept[i]).path,
        (#[trigger] kept[j]).path,
    ) < 0 by {
        assert(!same(kept[i], kept[j]));
        assert(order(kept[i], kept[j]) <= 0);
        assert(paths(kept[i].path, kept[j].path) != 0);
    }
    assert forall|i: int| 0 <= i < kept.len() implies roots.contains(#[trigger] kept[i]) by {
        assert(all.contains(kept[i]));
    }
    assert forall|i: int| 0 <= i < roots.len() implies exists|k: int|
        0 <= k < kept.len() && (#[trigger] kept[k]).path == (#[trigger] roots[i]).path by {
        assert(roots.contains(roots[i]));
        assert(all.contains(roots[i]));
        let m = choose|m: int| 0 <= m < all.len() && all[m] == roots[i];
        assert(has_kind(kept, all[m], same));
        let k = choose|k: int| 0 <= k < kept.len() && same(#[trigger] kept[k], all[m]);
        assert(kept[k].path == roots[i].path);
    }
}

/// Every settled path was there before.
pub proof fn settled_paths_are_given(paths: Seq<Seq<Seq<char>>>)
    ensures
        forall|i: int| 0 <= i < settled_paths(paths).len() ==> paths.contains(#[trigger] settled_paths(paths)[i]),
{
    let order = |a: Seq<Seq<char>>, b: Seq<Seq<char>>| SourcePath::rank(a, b);
    let same = |a: Seq<Seq<char>>, b: Seq<Seq<char>>| SourcePath::alike(a, b);
    let all = sorted(paths, order);
    sorted_members(paths, order);
    firsts_are_distinct_and_complete(all, same);
    assert forall|i: int| 0 <= i < settled_paths(paths).len() implies paths.contains(
        #[trigger] settled_paths(paths)[i],
    ) by {
        assert(all.contains(firsts(all, same)[i]));
    }
}

/// Paths that ascend are settled.
pub proof fn ascending_paths_stay(paths: Seq<Seq<Seq<char>>>)
    requires
        forall|i: int, j: int|
            0 <= i < j < paths.len() ==> path_order(#[trigger] paths[i], #[trigger] paths[j]) < 0,
    ensures
        settled_paths(paths) == paths,
{
    let order = |a: Seq<Seq<char>>, b: Seq<Seq<char>>| SourcePath::rank(a, b);
    let same = |a: Seq<Seq<char>>, b: Seq<Seq<char>>| SourcePath::alike(a, b);
    path_order_laws();
    let paths_order = |a: Seq<Seq<char>>, b: Seq<Seq<char>>| path_order(a, b);
    assert forall|i: int, j: int| 0 <= i < j < paths.len() implies #[trigger] order(paths[i], paths[j]) <= 0 by {
        assert(path_order(paths[i], paths[j]) < 0);
    }
    assert forall|i: int, j: int| 0 <= i < j < paths.len() implies !(#[trigger] same(paths[i], paths[j])) by {
        assert(path_order(paths[i], paths[j]) < 0);
        assert(paths_order(paths[i], paths[i]) == -paths_order(paths[i], paths[i]));
    }
    sorted_stays(paths, order);
    firsts_stay(paths, same);
}

/// Whether a path is among those seen.
pub open spec fn was_seen(seen: Seq<Seq<Seq<char>>>, key: Seq<Seq<char>>) -> bool {
    has_kind(seen, key, |a: Seq<Seq<char>>, b: Seq<Seq<char>>| SourcePath::alike(a, b))
}

/// The paths seen, with another one.
pub open spec fn seen_with(seen: Seq<Seq<Seq<char>>>, key: Seq<Seq<char>>) -> Seq<Seq<Seq<char>>> {
    if was_seen(seen, key) {
        seen
    } else {
        seen.push(key)
    }
}

/// What was seen stays seen.
pub proof fn seen_grows(seen: Seq<Seq<Seq<char>>>, key: Seq<Seq<char>>, other: Seq<Seq<char>>)
    ensures
        was_seen(seen_with(seen, key), key),
        was_seen(seen, other) ==> was_seen(seen_with(seen, key), other),
{
    let alike = |a: Seq<Seq<char>>, b: Seq<Seq<char>>| SourcePath::alike(a, b);
    let after = seen_with(seen, key);
    if !was_seen(seen, key) {
        assert(alike(after[seen.len() as int], key));
    }
    if was_seen(seen, other) {
        let i = choose|i: int| 0 <= i < seen.len() && alike(#[trigger] seen[i], other);
        assert(alike(after[i], other));
    }
}

/// Notes a path, and says whether it was new.
pub fn note_path(seen: &mut Vec<SourcePath>, key: SourcePath) -> (r: bool)
    ensures
        r == !was_seen(old(seen).deep_view(), key.deep_view()),
        final(seen).deep_view() == seen_with(old(seen).deep_view(), key.deep_view()),
{
    if any_like(seen, &key) {
        false
    } else {
        let ghost before = seen.deep_view();
        seen.push(key);
        assert(seen.deep_view() =~= before.push(key.deep_view()));
        true
    }
}

/// Notes a name, and says whether it was new.
pub fn note_text(seen: &mut Vec<String>, key: &str) -> (r: bool)
    ensures
        r == !old(seen).deep_view().contains(key@),
        final(seen).deep_view() == if r {
            old(seen).deep_view().push(key@)
        } else {
            old(seen).deep_view()
        },
{
    let name = key.to_owned();
    let ghost before = seen.deep_view();
    let ghost same = |a: Seq<char>, b: Seq<char>| String::alike(a, b);
    if any_like(seen, &name) {
        proof {
            let i = choose|i: int| 0 <= i < before.len() && same(#[trigger] before[i], key@);
            assert(before[i] == key@);
        }
        false
    } else {
        proof {
            if before.contains(key@) {
                let i = choose|i: int| 0 <= i < before.len() && before[i] == key@;
                assert(same(before[i], key@));
            }
        }
        seen.push(name);
        assert(seen.deep_view() =~= before.push(key@));
        true
    }
}

/// Puts a path behind others.
pub fn push_path(paths: &mut Vec<SourcePath>, path: SourcePath)
    ensures
        final(paths).deep_view() == old(paths).deep_view().push(path.deep_view()),
{
    let ghost before = paths.deep_view();
    paths.push(path);
    assert(paths.deep_view() =~= before.push(path.deep_view()));
}

/// Puts a root behind others.
pub fn push_root(roots: &mut Vec<ScanRoot>, root: ScanRoot)
    ensures
        final(roots).deep_view() == old(roots).deep_view().push(root.deep_view()),
{
    let ghost before = roots.deep_view();
    roots.push(root);
    assert(roots.deep_view() =~= before.push(root.deep_view()));
}

/// Puts a source behind others.
pub fn push_source(sources: &mut Vec<DiscoveredSource>, found: DiscoveredSource)
    ensures
        final(sources).deep_view() == old(sources).deep_view().push(found.deep_view()),
{
    let ghost before = sources.deep_view();
    sources.push(found);
    assert(sources.deep_view() =~= before.push(found.deep_view()));
}

/// Puts a conversation behind others.
pub fn push_conversation(found: &mut Vec<Conversation>, c: Conversation)
    ensures
        final(found).deep_view() == old(found).deep_view().push(c.deep_view()),
{
    let ghost before = found.deep_view();
    found.push(c);
    assert(found.deep_view() =~= before.push(c.deep_view()));
}

/// The paths of roots.
pub fn root_paths(roots: &Vec<ScanRoot>) -> (r: Vec<SourcePath>)
    ensures
        r.deep_view() == roots.deep_view().map_values(|r: RootView| r.path),
{
    let ghost all = roots.deep_view().map_values(|r: RootView| r.path);
    let mut out: Vec<SourcePath> = Vec::new();
    let mut i: usize = 0;
    assert(out.deep_view() =~= all.take(0));
    while i < roots.len()
        invariant
            i <= roots@.len(),
            all == roots.deep_view().map_values(|r: RootView| r.path),
            out.deep_view() == all.take(i as int),
        decreases roots.len() - i,
    {
        let ghost before = out.deep_view();
        out.push(roots[i].path.copy());
        assert(out.deep_view() =~= before.push(all[i as int]));
        assert(out.deep_view() =~= all.take(i + 1));
        i = i + 1;
    }
    assert(all.take(all.len() as int) =~= all);
    out
}

/// Copies of places.
pub fn copy_roots(roots: &Vec<ScanRoot>) -> (r: Vec<ScanRoot>)
    ensures
        r.deep_view() == roots.deep_view(),
{
    let ghost all = roots.deep_view();
    let mut out: Vec<ScanRoot> = Vec::new();
    let mut i: usize = 0;
    assert(out.deep_view() =~= all.take(0));
    while i < roots.len()
        invariant
            i <= roots@.len(),
            all == roots.deep_view(),
            out.deep_view() == all.take(i as int),
        decreases roots.len() - i,
    {
        let ghost before = out.deep_view();
        out.push(roots[i].copy());
        assert(out.deep_view() =~= before.push(all[i as int]));
        assert(out.deep_view() =~= all.take(i + 1));
        i = i + 1;
    }
    assert(all.take(all.len() as int) =~= all);
    out
}

/// Adds places of one origin.
pub fn push_roots(roots: &mut Vec<ScanRoot>, root: &ScanRoot, paths: &Vec<SourcePath>)
    ensures
        final(roots).deep_view() == old(roots).deep_view() + roots_at(root.deep_view(), paths.deep_view()),
{
    let ghost start = roots.deep_view();
    let ghost more = roots_at(root.deep_view(), paths.deep_view());
    let mut i: usize = 0;
    assert(roots.deep_view() =~= start + more.take(0));
    while i < paths.len()
        invariant
            i <= paths@.len(),
            start == old(roots).deep_view(),
            more == roots_at(root.deep_view(), paths.deep_view()),
            roots.deep_view() == start + more.take(i as int),
        decreases paths.len() - i,
    {
        let ghost before = roots.deep_view();
        roots.push(root.with_path(paths[i].copy()));
        assert(roots.deep_view() =~= before.push(more[i as int]));
        assert(roots.deep_view() =~= start + more.take(i + 1));
        i = i + 1;
    }
    assert(more.take(more.len() as int) =~= more);
}

/// Adds places on this machine.
pub fn push_local_roots(roots: &mut Vec<ScanRoot>, paths: &Vec<SourcePath>)
    ensures
        final(roots).deep_view() == old(roots).deep_view() + local_roots(paths.deep_view()),
{
    let ghost start = roots.deep_view();
    let ghost more = local_roots(paths.deep_view());
    let mut i: usize = 0;
    assert(roots.deep_view() =~= start + more.take(0));
    while i < paths.len()
        invariant
            i <= paths@.len(),
            start == old(roots).deep_view(),
            more == local_roots(paths.deep_view()),
            roots.deep_view() == start + more.take(i as int),
        decreases paths.len() - i,
    {
        let ghost before = roots.deep_view();
        roots.push(ScanRoot::local(paths[i].copy()));
        assert(roots.deep_view() =~= before.push(more[i as int]));
        assert(roots.deep_view() =~= start + more.take(i + 1));
        i = i + 1;
    }
    assert(more.take(more.len() as int) =~= more);
}

/// A path, and the root that names it.
pub struct RootedPath {
    pub root: ScanRoot,
    pub path: SourcePath,
}

impl DeepView for RootedPath {
    type V = (RootView, Seq<Seq<char>>);

    open spec fn deep_view(&self) -> (RootView, Seq<Seq<char>>) {
        (self.root.deep_view(), self.path.deep_view())
    }
}

impl Ranked for RootedPath {
    open spec fn rank(a: (RootView, Seq<Seq<char>>), b: (RootView, Seq<Seq<char>>)) -> int {
        path_order(a.1, b.1)
    }

    fn rank_with(&self, other: &RootedPath) -> (r: i8) {
        self.path.rank_with(&other.path)
    }
}

impl Kinded for RootedPath {
    open spec fn alike(a: (RootView, Seq<Seq<char>>), b: (RootView, Seq<Seq<char>>)) -> bool {
        a.1 == b.1
    }

    proof fn alike_is_equivalence() {
    }

    fn is_like(&self, other: &RootedPath) -> (r: bool) {
        self.path.is_like(&other.path)
    }
}

/// Paths, each under the root that names it.
pub open spec fn rooted(root: RootView, paths: Seq<Seq<Seq<char>>>) -> Seq<(RootView, Seq<Seq<char>>)> {
    paths.map_values(|p: Seq<Seq<char>>| (root, p))
}

/// The paths in order, each once, with the first root that names it.
pub open spec fn settled_rooted(all: Seq<(RootView, Seq<Seq<char>>)>) -> Seq<(RootView, Seq<Seq<char>>)> {
    firsts(
        sorted(all, |a: (RootView, Seq<Seq<char>>), b: (RootView, Seq<Seq<char>>)| RootedPath::rank(a, b)),
        |a: (RootView, Seq<Seq<char>>), b: (RootView, Seq<Seq<char>>)| RootedPath::alike(a, b),
    )
}

pub fn settle_rooted(all: Vec<RootedPath>) -> (r: Vec<RootedPath>)
    ensures
        r.deep_view() == settled_rooted(all.deep_view()),
{
    keep_firsts(sort(all))
}

/// Adds paths under a root.
pub fn push_rooted(out: &mut Vec<RootedPath>, root: &ScanRoot, paths: &Vec<SourcePath>)
    ensures
        final(out).deep_view() == old(out).deep_view() + rooted(root.deep_view(), paths.deep_view()),
{
    let ghost start = out.deep_view();
    let ghost more = rooted(root.deep_view(), paths.deep_view());
    let mut i: usize = 0;
    assert(out.deep_view() =~= start + more.take(0));
    while i < paths.len()
        invariant
            i <= paths@.len(),
            start == old(out).deep_view(),
            more == rooted(root.deep_view(), paths.deep_view()),
            out.deep_view() == start + more.take(i as int),
        decreases paths.len() - i,
    {
        let ghost before = out.deep_view();
        out.push(RootedPath { root: root.copy(), path: paths[i].copy() });
        assert(out.deep_view() =~= before.push(more[i as int]));
        assert(out.deep_view() =~= start + more.take(i + 1));
        i = i + 1;
    }
    assert(more.take(more.len() as int) =~= more);
}

/// What to scan.
pub struct ScanContext {
    pub data_dir: SourcePath,
    pub scan_roots: Vec<ScanRoot>,
    /// Only what changed since then, in milliseconds.
    pub since_ts: Option<i64>,
}

#[verifier::ext_equal]
pub struct ContextView {
    pub data_dir: Seq<Seq<char>>,
    pub scan_roots: Seq<RootView>,
    pub since_ts: Option<i64>,
}

impl DeepView for ScanContext {
    type V = ContextView;

    open spec fn deep_view(&self) -> ContextView {
        ContextView {
            data_dir: self.data_dir.deep_view(),
            scan_roots: self.scan_roots.deep_view(),
            since_ts: self.since_ts,
        }
    }
}

/// Whether the places that an agent uses by default are to be scanned.
pub open spec fn default_detection(ctx: ContextView) -> bool {
    ctx.scan_roots.len() == 0
}

impl ScanContext {
    /// A scan of the places that an agent uses by default.
    pub fn local_default(data_dir: SourcePath, since_ts: Option<i64>) -> (r: ScanContext)
        ensures
            r.deep_view() == (ContextView {
                data_dir: data_dir.deep_view(),
                scan_roots: Seq::empty(),
                since_ts,
            }),
    {
        let scan_roots: Vec<ScanRoot> = Vec::new();
        assert(scan_roots.deep_view() =~= Seq::empty());
        ScanContext { data_dir, scan_roots, since_ts }
    }

    /// A scan of given places.
    pub fn with_roots(data_dir: SourcePath, scan_roots: Vec<ScanRoot>, since_ts: Option<i64>) -> (r: ScanContext)
        ensures
            r.deep_view() == (ContextView {
                data_dir: data_dir.deep_view(),
                scan_roots: scan_roots.deep_view(),
                since_ts,
            }),
    {
        ScanContext { data_dir, scan_roots, since_ts }
    }

    pub fn use_default_detection(&self) -> (r: bool)
        ensures
            r == default_detection(self.deep_view()),
    {
        self.scan_roots.len() == 0
    }
}

/// What the process knows of the user's machine.
pub struct Surroundings {
    /// The user's home directory.
    pub home: Option<SourcePath>,
    /// Where applications keep data of the user.
    pub data: Option<SourcePath>,
    /// Where applications keep data that stays on the machine.
    pub local_data: Option<SourcePath>,
    /// Where applications keep settings.
    pub config: Option<SourcePath>,
    /// The environment variables.
    pub variables: Vec<(String, String)>,
}

#[verifier::ext_equal]
pub struct SurroundingsView {
    pub home: Option<Seq<Seq<char>>>,
    pub data: Option<Seq<Seq<char>>>,
    pub local_data: Option<Seq<Seq<char>>>,
    pub config: Option<Seq<Seq<char>>>,
    pub variables: Seq<(Seq<char>, Seq<char>)>,
}

impl DeepView for Surroundings {
    type V = SurroundingsView;

    open spec fn deep_view(&self) -> SurroundingsView {
        SurroundingsView {
            home: self.home.deep_view(),
            data: self.data.deep_view(),
            local_data: self.local_data.deep_view(),
            config: self.config.deep_view(),
            variables: self.variables.deep_view(),
        }
    }
}

/// The value of an environment variable.
pub open spec fn variable(variables: Seq<(Seq<char>, Seq<char>)>, name: Seq<char>) -> Option<Seq<char>>
    decreases variables.len(),
{
    if variables.len() == 0 {
        None
    } else if variables[0].0 == name {
        Some(variables[0].1)
    } else {
        variable(variables.skip(1), name)
    }
}

/// The value of an environment variable that is neither absent nor blank, at
/// both ends without white space.
pub open spec fn set_variable(s: SurroundingsView, name: Seq<char>) -> Option<Seq<char>> {
    match variable(s.variables, name) {
        Some(value) => if crate::text::trim(value).len() > 0 {
            Some(crate::text::trim(value))
        } else {
            None
        },
        None => None,
    }
}

impl Surroundings {
    /// The value of an environment variable.
    pub fn variable(&self, name: &str) -> (r: Option<&str>)
        ensures
            r.deep_view() == variable(self.deep_view().variables, name@),
    {
        let ghost all = self.variables.deep_view();
        let mut i: usize = 0;
        assert(all.skip(0) =~= all);
        while i < self.variables.len()
            invariant
                i <= self.variables@.len(),
                all == self.variables.deep_view(),
                variable(all, name@) == variable(all.skip(i as int), name@),
            decreases self.variables.len() - i,
        {
            assert(all.skip(i as int)[0] == (self.variables@[i as int].0@, self.variables@[i as int].1@));
            if same_text(self.variables[i].0.as_str(), name) {
                return Some(self.variables[i].1.as_str());
            }
            assert(all.skip(i as int).skip(1) =~= all.skip(i + 1));
            i = i + 1;
        }
        None
    }

    /// The value of an environment variable that is neither absent nor blank.
    pub fn set_variable(&self, name: &str) -> (r: Option<String>)
        ensures
            r.deep_view() == set_variable(self.deep_view(), name@),
    {
        match self.variable(name) {
            Some(value) => {
                let short = crate::text::trimmed(value);
                if short.as_str().is_empty() {
                    None
                } else {
                    Some(short)
                }
            },
            None => None,
        }
    }
}

/// The path that an environment variable names.
pub open spec fn variable_path(s: SurroundingsView, name: Seq<char>) -> Option<Seq<Seq<char>>> {
    match set_variable(s, name) {
        Some(text) => Some(crate::path::components(text)),
        None => None,
    }
}

pub fn path_from_variable(surroundings: &Surroundings, name: &str) -> (r: Option<SourcePath>)
    ensures
        r.deep_view() == variable_path(surroundings.deep_view(), name@),
{
    match surroundings.set_variable(name) {
        Some(text) => Some(SourcePath::new(text.as_str())),
        None => None,
    }
}

/// A path that may start at the user's home, by a tilde.
pub open spec fn expanded_path(text: Seq<char>, home: Option<Seq<Seq<char>>>) -> Seq<Seq<char>> {
    match home {
        Some(home) => if text == "~"@ {
            home
        } else {
            match crate::text::behind_prefix(text, "~/"@) {
                Some(rest) => crate::path::below(home, rest),
                None => crate::path::components(text),
            }
        },
        None => crate::path::components(text),
    }
}

/// A path that may start at the user's home, by a tilde.
pub fn expand_leading_tilde(text: &str, home: Option<&SourcePath>) -> (r: SourcePath)
    ensures
        r.deep_view() == expanded_path(text@, home.deep_view()),
{
    match home {
        Some(home) => if same_text(text, "~") {
            home.copy()
        } else {
            match crate::text::strip_prefix(text, "~/") {
                Some(rest) => home.join(rest.as_str()),
                None => SourcePath::new(text),
            }
        },
        None => SourcePath::new(text),
    }
}

/// The part that a source plays.
#[derive(Clone, Copy)]
pub enum SourceRole {
    PrimarySessionLog,
    MetadataSidecar,
    SqliteDatabase,
}

/// A file that a conversation is read from.
pub struct DiscoveredSource {
    pub provider_slug: String,
    pub scan_root: SourcePath,
    pub source_path: SourcePath,
    pub role: SourceRole,
    pub required_for_reconstruction: bool,
    pub origin: Origin,
    pub platform: Option<String>,
}

#[verifier::ext_equal]
pub struct SourceView {
    pub provider_slug: Seq<char>,
    pub scan_root: Seq<Seq<char>>,
    pub source_path: Seq<Seq<char>>,
    pub role: SourceRole,
    pub required_for_reconstruction: bool,
    pub origin: OriginView,
    pub platform: Option<Seq<char>>,
}

impl DeepView for DiscoveredSource {
    type V = SourceView;

    open spec fn deep_view(&self) -> SourceView {
        SourceView {
            provider_slug: self.provider_slug@,
            scan_root: self.scan_root.deep_view(),
            source_path: self.source_path.deep_view(),
            role: self.role,
            required_for_reconstruction: self.required_for_reconstruction,
            origin: self.origin.deep_view(),
            platform: self.platform.deep_view(),
        }
    }
}

/// A file found under a root.
pub open spec fn source(
    slug: Seq<char>,
    root: RootView,
    path: Seq<Seq<char>>,
    role: SourceRole,
    required: bool,
) -> SourceView {
    SourceView {
        provider_slug: slug,
        scan_root: root.path,
        source_path: path,
        role,
        required_for_reconstruction: required,
        origin: root.origin,
        platform: root.platform,
    }
}

impl DiscoveredSource {
    /// A file found under a root.
    pub fn new(slug: &str, root: &ScanRoot, path: SourcePath, role: SourceRole, required: bool) -> (r: DiscoveredSource)
        ensures
            r.deep_view() == source(slug@, root.deep_view(), path.deep_view(), role, required),
    {
        DiscoveredSource {
            provider_slug: slug.to_owned(),
            scan_root: root.path.copy(),
            source_path: path,
            role,
            required_for_reconstruction: required,
            origin: root.origin.copy(),
            platform: root.platform.clone(),
        }
    }

    pub fn copy(&self) -> (r: DiscoveredSource)
        ensures
            r.deep_view() == self.deep_view(),
    {
        DiscoveredSource {
            provider_slug: self.provider_slug.clone(),
            scan_root: self.scan_root.copy(),
            source_path: self.source_path.copy(),
            role: self.role,
            required_for_reconstruction: self.required_for_reconstruction,
            origin: self.origin.copy(),
            platform: self.platform.clone(),
        }
    }
}

impl Ranked for DiscoveredSource {
    open spec fn rank(a: SourceView, b: SourceView) -> int {
        path_order(a.source_path, b.source_path)
    }

    fn rank_with(&self, other: &DiscoveredSource) -> (r: i8) {
        self.source_path.rank_with(&other.source_path)
    }
}

/// The sources in the order of their paths.
pub open spec fn sorted_sources(sources: Seq<SourceView>) -> Seq<SourceView> {
    sorted(sources, |a: SourceView, b: SourceView| DiscoveredSource::rank(a, b))
}

/// The order of sources is one.
pub proof fn source_order_laws()
    ensures
        is_order(|a: SourceView, b: SourceView| DiscoveredSource::rank(a, b)),
{
    path_order_laws();
    let paths = |a: Seq<Seq<char>>, b: Seq<Seq<char>>| path_order(a, b);
    let order = |a: SourceView, b: SourceView| DiscoveredSource::rank(a, b);
    assert forall|a: SourceView, b: SourceView| #[trigger] order(a, b) == -order(b, a) by {
        assert(paths(a.source_path, b.source_path) == -paths(b.source_path, a.source_path));
    }
    assert forall|a: SourceView, b: SourceView, c: SourceView|
        #[trigger] order(a, b) <= 0 && #[trigger] order(b, c) <= 0 implies order(a, c) <= 0 by {
        assert(paths(a.source_path, b.source_path) <= 0 && paths(b.source_path, c.source_path) <= 0);
        assert(paths(a.source_path, c.source_path) <= 0);
    }
}

/// Whether an agent is installed, and by what one can tell.
pub struct DetectionResult {
    pub detected: bool,
    pub evidence: Vec<String>,
    pub root_paths: Vec<SourcePath>,
}

#[verifier::ext_equal]
pub struct DetectionView {
    pub detected: bool,
    pub evidence: Seq<Seq<char>>,
    pub root_paths: Seq<Seq<Seq<char>>>,
}

impl DeepView for DetectionResult {
    type V = DetectionView;

    open spec fn deep_view(&self) -> DetectionView {
        DetectionView {
            detected: self.detected,
            evidence: self.evidence.deep_view(),
            root_paths: self.root_paths.deep_view(),
        }
    }
}

/// Nothing was found.
pub open spec fn nothing_found() -> DetectionView {
    DetectionView { detected: false, evidence: Seq::empty(), root_paths: Seq::empty() }
}

/// What was found, or that nothing was.
pub open spec fn detected_or_nothing(found: Option<DetectionView>) -> DetectionView {
    match found {
        Some(d) => d,
        None => nothing_found(),
    }
}

impl DetectionResult {
    pub fn not_found() -> (r: DetectionResult)
        ensures
            r.deep_view() == nothing_found(),
    {
        let evidence: Vec<String> = Vec::new();
        let root_paths: Vec<SourcePath> = Vec::new();
        assert(evidence.deep_view() =~= Seq::empty());
        assert(root_paths.deep_view() =~= Seq::empty());
        DetectionResult { detected: false, evidence, root_paths }
    }
}

/// What was found, or that nothing was.
pub fn detection_or_nothing(found: Option<DetectionResult>) -> (r: DetectionResult)
    ensures
        r.deep_view() == detected_or_nothing(found.deep_view()),
{
    match found {
        Some(d) => d,
        None => DetectionResult::not_found(),
    }
}

/// Why nothing could be read.
#[derive(Clone, Copy, Debug, PartialEq, Eq, Structural)]
pub enum ReadError {
    /// The file cannot be read.
    Unreadable,
    /// The file is not what it should be.
    Malformed,
}

/// Notice that all of a source was read.
pub struct SourceCompletion {
    pub source: DiscoveredSource,
    /// What else the conversations were read from.
    pub required_sidecars: Vec<DiscoveredSource>,
    pub conversations_emitted: usize,
}

#[verifier::ext_equal]
pub struct CompletionView {
    pub source: SourceView,
    pub required_sidecars: Seq<SourceView>,
    pub conversations_emitted: int,
}

impl DeepView for SourceCompletion {
    type V = CompletionView;

    open spec fn deep_view(&self) -> CompletionView {
        CompletionView {
            source: self.source.deep_view(),
            required_sidecars: self.required_sidecars.deep_view(),
            conversations_emitted: self.conversations_emitted as int,
        }
    }
}

/// The user's home, or the place where one is.
pub open spec fn home_or_here(home: Option<Seq<Seq<char>>>) -> Seq<Seq<char>> {
    match home {
        Some(home) => home,
        None => Seq::empty(),
    }
}

pub fn home_or_here_of(home: Option<&SourcePath>) -> (r: SourcePath)
    ensures
        r.deep_view() == home_or_here(home.deep_view()),
{
    match home {
        Some(home) => home.copy(),
        None => {
            let here = SourcePath { parts: Vec::new() };
            assert(here.deep_view() =~= Seq::empty());
            here
        },
    }
}

/// One path, or none.
pub open spec fn path_if(wanted: bool, p: Seq<Seq<char>>) -> Seq<Seq<Seq<char>>> {
    if wanted {
        seq![p]
    } else {
        Seq::empty()
    }
}

/// Puts a path behind others where it is wanted.
pub fn push_if(paths: &mut Vec<SourcePath>, wanted: bool, path: SourcePath)
    ensures
        final(paths).deep_view() == old(paths).deep_view() + path_if(wanted, path.deep_view()),
{
    if wanted {
        push_path(paths, path);
    }
    assert(paths.deep_view() =~= old(paths).deep_view() + path_if(wanted, path.deep_view()));
}

/// Whether a file is among the sources.
pub open spec fn is_source(sources: Seq<SourceView>, path: Seq<Seq<char>>) -> bool {
    exists|k: int| 0 <= k < sources.len() && (#[trigger] sources[k]).source_path == path
}

/// Whether a file is among the sources, by whatever path.
pub open spec fn names_place(t: Seq<EntryView>, found: Seq<SourceView>, key: Seq<Seq<char>>) -> bool {
    exists|k: int| 0 <= k < found.len() && canonical_path(t, (#[trigger] found[k]).source_path) == key
}

/// What is among the sources stays there.
pub proof fn places_stay_named(t: Seq<EntryView>, found: Seq<SourceView>, more: SourceView)
    ensures
        forall|key: Seq<Seq<char>>| #[trigger] names_place(t, found, key) ==> names_place(t, found.push(more), key),
        names_place(t, found.push(more), canonical_path(t, more.source_path)),
{
    let after = found.push(more);
    assert(after[found.len() as int] == more);
    assert forall|key: Seq<Seq<char>>| #[trigger] names_place(t, found, key) implies names_place(t, after, key) by {
        let k = choose|k: int| 0 <= k < found.len() && canonical_path(t, (#[trigger] found[k]).source_path) == key;
        assert(after[k] == found[k]);
    }
}

/// Nothing but the path that is added comes to be seen.
pub proof fn seen_pushed(seen: Seq<Seq<Seq<char>>>, key: Seq<Seq<char>>)
    ensures
        forall|other: Seq<Seq<char>>| #[trigger] was_seen(seen.push(key), other) ==> was_seen(seen, other) || other == key,
{
    let alike = |a: Seq<Seq<char>>, b: Seq<Seq<char>>| SourcePath::alike(a, b);
    let after = seen.push(key);
    assert forall|other: Seq<Seq<char>>| #[trigger] was_seen(after, other) implies was_seen(seen, other) || other
        == key by {
        let i = choose|i: int| 0 <= i < after.len() && alike(#[trigger] after[i], other);
        if i < seen.len() {
            assert(alike(seen[i], other));
        }
    }
}

/// Sorting paths keeps them, and puts none before an earlier one.
pub proof fn sorting_paths_keeps_them(paths: Seq<Seq<Seq<char>>>, p: Seq<Seq<char>>)
    ensures
        sorted_paths(paths).len() == paths.len(),
        sorted_paths(paths).contains(p) <==> paths.contains(p),
        forall|i: int, j: int|
            0 <= i < j < paths.len() ==> path_order(#[trigger] sorted_paths(paths)[i], #[trigger] sorted_paths(paths)[j])
                <= 0,
{
    let order = |a: Seq<Seq<char>>, b: Seq<Seq<char>>| SourcePath::rank(a, b);
    crate::path::path_order_laws();
    assert(order =~= (|a: Seq<Seq<char>>, b: Seq<Seq<char>>| path_order(a, b)));
    let places = crate::order::sorted_is_arrangement(paths, order);
    let r = sorted_paths(paths);
    if paths.contains(p) {
        let k = choose|k: int| 0 <= k < paths.len() && paths[k] == p;
        let at = crate::order::every_place_is_taken(places, k);
        assert(r[at] == p);
    }
    if r.contains(p) {
        let i = choose|i: int| 0 <= i < r.len() && r[i] == p;
        assert(paths[places[i]] == p);
    }
    assert forall|i: int, j: int| 0 <= i < j < paths.len() implies path_order(#[trigger] r[i], #[trigger] r[j]) <= 0 by {
        assert(order(paths[places[i]], paths[places[j]]) <= 0);
    }
}

/// A variable of the environment has the value of its first entry, and one that is set is
/// neither absent nor blank.
pub proof fn variables_are_found_by_name(variables: Seq<(Seq<char>, Seq<char>)>, name: Seq<char>, n: int)
    requires
        0 <= n <= variables.len(),
        forall|i: int| 0 <= i < n ==> (#[trigger] variables[i]).0 != name,
        n < variables.len() ==> variables[n].0 == name,
    ensures
        n < variables.len() ==> variable(variables, name) == Some(variables[n].1),
        n == variables.len() ==> variable(variables, name) is None,
    decreases n,
{
    if n > 0 {
        let rest = variables.skip(1);
        assert(variables[0].0 != name);
        assert forall|i: int| 0 <= i < n - 1 implies (#[trigger] rest[i]).0 != name by {
            assert(variables[i + 1].0 != name);
        }
        variables_are_found_by_name(rest, name, n - 1);
    }
}

/// A source tells the file, what it is for, whether the scan needs it, and the root that
/// names it, with its origin and platform.
pub proof fn sources_tell_where_they_come_from(
    slug: Seq<char>,
    root: RootView,
    path: Seq<Seq<char>>,
    role: SourceRole,
    required: bool,
)
    ensures
        ({
            let s = source(slug, root, path, role, required);
            &&& s.provider_slug == slug
            &&& s.scan_root == root.path
            &&& s.source_path == path
            &&& s.role == role
            &&& s.required_for_reconstruction == required
            &&& s.origin == root.origin
            &&& s.platform == root.platform
        }),
{
}

/// A tilde stands for the user's home, by itself or before a slash, and for nothing
/// elsewhere.
pub proof fn tildes_stand_for_the_home(home: Seq<Seq<char>>, rest: Seq<char>)
    ensures
        expanded_path("~"@, Some(home)) == home,
        expanded_path("~/"@ + rest, Some(home)) == crate::path::below(home, rest),
        forall|text: Seq<char>| expanded_path(text, None) == crate::path::components(text),
        forall|text: Seq<char>|
            text.len() > 0 && text[0] != '~' ==> expanded_path(text, Some(home)) == crate::path::components(text),
{
    reveal_strlit("~");
    reveal_strlit("~/");
    let text = "~/"@ + rest;
    assert(text.len() >= 2 && "~"@.len() == 1);
    assert(text.take(2) =~= "~/"@);
    assert(text.skip(2) =~= rest);
    assert forall|text: Seq<char>| text.len() > 0 && text[0] != '~' implies expanded_path(text, Some(home))
        == crate::path::components(text) by {
        assert("~"@[0] == '~');
        if text.len() >= 2 {
            assert(text.take(2)[0] == text[0]);
            assert("~/"@[0] == '~');
        }
    }
}

/// Whether a path was seen tells whether it is among those that were noted.
pub proof fn seen_paths_are_those_noted(seen: Seq<Seq<Seq<char>>>, key: Seq<Seq<char>>)
    ensures
        was_seen(seen, key) <==> seen.contains(key),
{
    if was_seen(seen, key) {
        let same = |a: Seq<Seq<char>>, b: Seq<Seq<char>>| SourcePath::alike(a, b);
        let i = choose|i: int| 0 <= i < seen.len() && same(#[trigger] seen[i], key);
        assert(seen[i] == key);
    }
    if seen.contains(key) {
        let same = |a: Seq<Seq<char>>, b: Seq<Seq<char>>| SourcePath::alike(a, b);
        let i = choose|i: int| 0 <= i < seen.len() && seen[i] == key;
        assert(same(seen[i], key));
    }
}

/// Of two lists of paths one behind the other, each path is in one of them.
pub proof fn joined_paths(a: Seq<Seq<Seq<char>>>, b: Seq<Seq<Seq<char>>>, p: Seq<Seq<char>>)
    ensures
        (a + b).contains(p) <==> a.contains(p) || b.contains(p),
{
    let all = a + b;
    if a.contains(p) {
        let k = choose|k: int| 0 <= k < a.len() && a[k] == p;
        assert(all[k] == p);
    }
    if b.contains(p) {
        let k = choose|k: int| 0 <= k < b.len() && b[k] == p;
        assert(all[a.len() + k] == p);
    }
    if all.contains(p) {
        let k = choose|k: int| 0 <= k < all.len() && all[k] == p;
        if k < a.len() {
            assert(a[k] == p);
        } else {
            assert(b[k - a.len()] == p);
        }
    }
}

/// A list of one path, of two or of four holds these and no others.
pub proof fn listed_paths(a: Seq<Seq<char>>, b: Seq<Seq<char>>, c: Seq<Seq<char>>, d: Seq<Seq<char>>, p: Seq<Seq<char>>)
    ensures
        seq![a].contains(p) <==> p == a,
        seq![a, b].contains(p) <==> p == a || p == b,
        seq![a, b, c, d].contains(p) <==> p == a || p == b || p == c || p == d,
        !Seq::<Seq<Seq<char>>>::empty().contains(p),
{
    assert(seq![a][0] == a);
    assert(seq![a, b][0] == a && seq![a, b][1] == b);
    let four = seq![a, b, c, d];
    assert(four[0] == a && four[1] == b && four[2] == c && four[3] == d);
}

/// One root is settled as it is.
pub proof fn one_root_is_settled(r: RootView)
    ensures
        settled_roots(seq![r]) == seq![r],
        settled_roots(Seq::empty()).len() == 0,
{
    let one = seq![r];
    let order = |a: RootView, b: RootView| ScanRoot::rank(a, b);
    let same = |a: RootView, b: RootView| ScanRoot::alike(a, b);
    let none = Seq::<RootView>::empty();
    assert(one.drop_last() =~= none);
    assert(sorted(none, order) =~= none);
    assert(sorted(one, order) =~= one);
    assert(firsts(none, same) =~= none);
    assert(firsts(one.drop_last(), same) =~= none);
    assert(!crate::order::has_kind(none, r, same));
    assert(firsts(one, same) =~= one);
}

/// Where something was found, that is told, and else that nothing was.
pub proof fn detections_are_handed_on(found: DetectionView)
    ensures
        detected_or_nothing(Some(found)) == found,
        !detected_or_nothing(None).detected,
        detected_or_nothing(None).evidence.len() == 0,
        detected_or_nothing(None).root_paths.len() == 0,
{
}

/// Places of one origin keep it, and places on this machine are of this machine.
pub proof fn roots_keep_their_origin(root: RootView, paths: Seq<Seq<Seq<char>>>, i: int)
    requires
        0 <= i < paths.len(),
    ensures
        roots_at(root, paths).len() == paths.len(),
        roots_at(root, paths)[i] == (RootView { path: paths[i], ..root }),
        local_roots(paths).len() == paths.len(),
        local_roots(paths)[i].path == paths[i],
        local_roots(paths)[i].origin.source_id == "local"@,
        local_roots(paths)[i].platform is None,
        rooted(root, paths).len() == paths.len(),
        rooted(root, paths)[i] == (root, paths[i]),
{
}

/// Of roots of one path the one that was given first is kept, with its origin and platform.
pub proof fn first_roots_are_kept(roots: Seq<RootView>, n: int)
    requires
        0 <= n < roots.len(),
        forall|i: int| 0 <= i < n ==> (#[trigger] roots[i]).path != roots[n].path,
    ensures
        settled_roots(roots).contains(roots[n]),
{
    let order = |a: RootView, b: RootView| ScanRoot::rank(a, b);
    let same = |a: RootView, b: RootView| ScanRoot::alike(a, b);
    root_order_laws();
    ScanRoot::alike_is_equivalence();
    path_order_laws();
    let paths = |a: Seq<Seq<char>>, b: Seq<Seq<char>>| path_order(a, b);
    assert forall|a: RootView, b: RootView| #[trigger] same(a, b) <==> order(a, b) == 0 by {
        assert(paths(a.path, b.path) == 0 <==> a.path == b.path);
    }
    assert forall|i: int| 0 <= i < n implies !same(#[trigger] roots[i], roots[n]) by {
        assert(roots[i].path != roots[n].path);
    }
    crate::order::settled_items_are_the_first_given(roots, order, same, n);
}

/// Settled paths are the given ones, each once and in their order.
pub proof fn settled_paths_are_distinct_and_complete(paths: Seq<Seq<Seq<char>>>, p: Seq<Seq<char>>)
    ensures
        settled_paths(paths).contains(p) <==> paths.contains(p),
        forall|i: int, j: int|
            0 <= i < j < settled_paths(paths).len() ==> path_order(
                #[trigger] settled_paths(paths)[i],
                #[trigger] settled_paths(paths)[j],
            ) < 0,
{
    let order = |a: Seq<Seq<char>>, b: Seq<Seq<char>>| SourcePath::rank(a, b);
    let same = |a: Seq<Seq<char>>, b: Seq<Seq<char>>| SourcePath::alike(a, b);
    let all = sorted_paths(paths);
    let kept = settled_paths(paths);
    path_order_laws();
    SourcePath::alike_is_equivalence();
    assert(order =~= (|a: Seq<Seq<char>>, b: Seq<Seq<char>>| path_order(a, b)));
    sorting_paths_keeps_them(paths, p);
    sorted_is_ordered_permutation(paths, order);
    firsts_are_distinct_and_complete(all, same);
    firsts_keep_order(all, same, order);
    if all.contains(p) {
        let i = choose|i: int| 0 <= i < all.len() && all[i] == p;
        assert(has_kind(kept, all[i], same));
        let k = choose|k: int| 0 <= k < kept.len() && same(#[trigger] kept[k], all[i]);
        assert(kept[k] == p);
    }
    if kept.contains(p) {
        let k = choose|k: int| 0 <= k < kept.len() && kept[k] == p;
        assert(all.contains(kept[k]));
    }
    assert forall|i: int, j: int| 0 <= i < j < kept.len() implies path_order(#[trigger] kept[i], #[trigger] kept[j]) < 0 by {
        assert(!same(kept[i], kept[j]));
        assert(order(kept[i], kept[j]) <= 0);
        assert(order(kept[i], kept[j]) == 0 <==> kept[i] == kept[j]);
    }
}

/// Of paths that roots name, the first root that names one is kept with it, and no path is
/// lost.
pub proof fn first_rooted_paths_are_kept(all: Seq<(RootView, Seq<Seq<char>>)>, n: int)
    requires
        0 <= n < all.len(),
        forall|i: int| 0 <= i < n ==> (#[trigger] all[i]).1 != all[n].1,
    ensures
        settled_rooted(all).contains(all[n]),
{
    let order = |a: (RootView, Seq<Seq<char>>), b: (RootView, Seq<Seq<char>>)| RootedPath::rank(a, b);
    let same = |a: (RootView, Seq<Seq<char>>), b: (RootView, Seq<Seq<char>>)| RootedPath::alike(a, b);
    RootedPath::alike_is_equivalence();
    path_order_laws();
    let paths = |a: Seq<Seq<char>>, b: Seq<Seq<char>>| path_order(a, b);
    assert(is_order(order)) by {
        assert forall|a: (RootView, Seq<Seq<char>>), b: (RootView, Seq<Seq<char>>)| #[trigger] order(a, b) == -order(
            b,
            a,
        ) by {
            assert(paths(a.1, b.1) == -paths(b.1, a.1));
        }
        assert forall|
            a: (RootView, Seq<Seq<char>>),
            b: (RootView, Seq<Seq<char>>),
            c: (RootView, Seq<Seq<char>>),
        | #[trigger]
            order(a, b) <= 0 && #[trigger] order(b, c) <= 0 implies order(a, c) <= 0 by {
            assert(paths(a.1, b.1) <= 0 && paths(b.1, c.1) <= 0);
            assert(paths(a.1, c.1) <= 0);
        }
    }
    assert forall|a: (RootView, Seq<Seq<char>>), b: (RootView, Seq<Seq<char>>)| #[trigger] same(a, b) <==> order(a, b)
        == 0 by {
        assert(paths(a.1, b.1) == 0 <==> a.1 == b.1);
    }
    assert forall|i: int| 0 <= i < n implies !same(#[trigger] all[i], all[n]) by {
        assert(all[i].1 != all[n].1);
    }
    crate::order::settled_items_are_the_first_given(all, order, same, n);
}

} // verus!
