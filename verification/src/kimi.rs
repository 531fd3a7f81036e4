//! Sessions of Kimi Code, in the layout of today and in the older one.
use vstd::prelude::*;
use crate::canon::{
    canonical_call, canonical_conversation, canonical_conversations, canonical_messages, comes_before,
    conversations_grow, inner_canonical, messages_grow, nullables_are_canonical, numbered_canonical,
    rising_members_are_canonical,
};
use crate::files::{
    canonical_path, keep_named, lines_at, only_existing, only_named, path_exists, path_is_dir, path_is_file,
    path_is_fresh, text_at, walked_files, EntryView, FileTable,
};
use crate::json::{canonical, document_in, parse_json, Json, JsonView};
use crate::kimi_code::{
    code_session, modern_layout, modern_wire_layout, parse_kimi_code_session, state_in, wire_conversation,
    wire_conversation_is_canonical, LayoutView,
};
use crate::model::{
    flat_text_in, flatten_in, is_numbered, make_message, numbered, numbering, reindex_messages, simple_message,
    tool_label, tool_label_is_not_blank, tool_label_of, update_time_bounds, user_caption, user_caption_of,
    Conversation, ConversationView, Invocation, InvocationView, Message, MessageView,
};
use crate::order::{firsts, firsts_keep_order, sort, Kinded};
use crate::path::{below, components, file_name, parent, path_order, path_order_laws, SourcePath};
use crate::query::{
    copied, either, get_in, is_text, member, member_canonical, member_is_the_first_of_its_key, member_of,
    member_text, nullable_text, nullable_text_json, object, or_default, or_else, put, str_in, str_or, text_in,
    text_json,
};
use crate::scan::{
    ascending_paths_stay, default_detection, detected_or_nothing, detection_or_nothing, local_root, local_roots,
    names_place, note_path, places_stay_named, push_local_roots, push_roots, root_paths, roots_at, seen_grows,
    seen_pushed, seen_with, set_variable, settle_paths, settle_roots, settled_paths, settled_roots,
    settled_roots_are_distinct_and_complete, sorted_paths, source, variable_path, was_seen, ContextView,
    DetectionResult, DiscoveredSource, ReadError, RootView, ScanContext, ScanRoot, SourceRole, SourceView,
    Surroundings, SurroundingsView,
};
use crate::stamp::{earlier, fractional_timestamp_in, fractional_timestamp_of, later, spans};
use crate::text::{blank, is_blank, lowercase, lowercased, same_text};

verus! {

pub struct KimiConnector;

impl Default for KimiConnector {
    fn default() -> (r: KimiConnector)
        ensures
            r == KimiConnector,
    {
        KimiConnector::new()
    }
}

/// Where sessions may stand: under the home that is set, or else under the two
/// homes that are usual.
pub open spec fn session_roots(
    override_home: Option<Seq<Seq<char>>>,
    home: Option<Seq<Seq<char>>>,
) -> Seq<Seq<Seq<char>>> {
    match override_home {
        Some(set) => seq![below(set, "sessions"@)],
        None => match home {
            Some(home) => seq![
                below(below(home, ".kimi-code"@), "sessions"@),
                below(below(home, ".kimi"@), "sessions"@),
            ],
            None => Seq::empty(),
        },
    }
}

/// Whether a name in small letters is that of a home of Kimi.
pub open spec fn is_home_name(lower: Seq<char>) -> bool {
    lower == ".kimi"@ || lower == ".kimi-code"@
}

/// Whether a name in small letters is that of a home of Kimi.
pub fn names_home(lower: &str) -> (r: bool)
    ensures
        r == is_home_name(lower@),
{
    same_text(lower, ".kimi") || same_text(lower, ".kimi-code")
}

/// Whether a component is a home of Kimi.
pub open spec fn is_kimi_home(part: Seq<char>) -> bool {
    is_home_name(lowercased(part))
}

/// Whether a path is a home of Kimi, or has the sessions of one as a whole
/// component in it.
pub open spec fn is_kimi_storage(p: Seq<Seq<char>>) -> bool {
    ||| exists|i: int| 0 <= i < p.len() - 1 && is_kimi_home(#[trigger] p[i]) && lowercased(p[i + 1]) == "sessions"@
    ||| p.len() > 0 && is_kimi_home(p.last())
}

/// The children of a directory that hold sessions.
pub open spec fn kimi_children(t: Seq<EntryView>, base: Seq<Seq<char>>) -> Seq<Seq<Seq<char>>> {
    only_existing(
        t,
        seq![below(below(base, ".kimi-code"@), "sessions"@), below(below(base, ".kimi"@), "sessions"@)],
    )
}

/// The roots that a path stands for.
pub open spec fn roots_from(t: Seq<EntryView>, base: Seq<Seq<char>>) -> Seq<Seq<Seq<char>>> {
    if file_name(base) == Some("wire.jsonl"@) && path_is_file(t, base) {
        match parent(base) {
            Some(dir) => seq![dir],
            None => Seq::empty(),
        }
    } else if file_name(base) == Some(".kimi"@) || file_name(base) == Some(".kimi-code"@) {
        only_existing(t, seq![below(base, "sessions"@)])
    } else if is_kimi_storage(base) {
        seq![base]
    } else if kimi_children(t, base).len() > 0 {
        kimi_children(t, base)
    } else if path_is_file(t, below(base, "wire.jsonl"@)) || path_is_dir(t, below(base, "agents"@)) {
        seq![base]
    } else {
        Seq::empty()
    }
}

/// The wire logs under a root, in order.
pub open spec fn wires(t: Seq<EntryView>, root: Seq<Seq<char>>) -> Seq<Seq<Seq<char>>> {
    if path_exists(t, root) {
        sorted_paths(only_named(walked_files(t, root, 0, None), "wire.jsonl"@))
    } else {
        Seq::empty()
    }
}

/// The roots of all these places.
pub open spec fn roots_from_all(t: Seq<EntryView>, places: Seq<RootView>) -> Seq<RootView>
    decreases places.len(),
{
    if places.len() == 0 {
        Seq::empty()
    } else {
        roots_from_all(t, places.drop_last()) + roots_at(places.last(), roots_from(t, places.last().path))
    }
}

/// The roots before any is left out.
pub open spec fn all_roots(t: Seq<EntryView>, ctx: ContextView, s: SurroundingsView) -> Seq<RootView> {
    if default_detection(ctx) {
        if is_kimi_storage(ctx.data_dir) && path_exists(t, ctx.data_dir) {
            local_roots(seq![ctx.data_dir])
        } else {
            local_roots(
                only_existing(
                    t,
                    session_roots(
                        match set_variable(s, "KIMI_CODE_HOME"@) {
                            Some(text) => Some(components(text)),
                            None => None,
                        },
                        s.home,
                    ),
                ),
            )
        }
    } else if path_exists(t, ctx.data_dir) {
        roots_from_all(t, ctx.scan_roots) + local_roots(roots_from(t, ctx.data_dir))
    } else {
        roots_from_all(t, ctx.scan_roots)
    }
}

/// Roots that lead to one place once their links are resolved.
pub open spec fn one_place(t: Seq<EntryView>) -> spec_fn(RootView, RootView) -> bool {
    |a: RootView, b: RootView| canonical_path(t, a.path) == canonical_path(t, b.path)
}

/// The roots to scan: in order, and no two that lead to one place.
pub open spec fn kimi_roots(t: Seq<EntryView>, ctx: ContextView, s: SurroundingsView) -> Seq<RootView> {
    firsts(settled_roots(all_roots(t, ctx, s)), one_place(t))
}

/// No two roots to scan lead to one place.
pub proof fn kimi_roots_are_distinct_places(t: Seq<EntryView>, ctx: ContextView, s: SurroundingsView)
    ensures
        forall|i: int, j: int|
            0 <= i < j < kimi_roots(t, ctx, s).len() ==> canonical_path(
                t,
                (#[trigger] kimi_roots(t, ctx, s)[i]).path,
            ) != canonical_path(t, (#[trigger] kimi_roots(t, ctx, s)[j]).path),
{
    let settled = settled_roots(all_roots(t, ctx, s));
    let same = one_place(t);
    crate::order::firsts_are_distinct_and_complete(settled, same);
    let kept = kimi_roots(t, ctx, s);
    assert forall|i: int, j: int| 0 <= i < j < kept.len() implies canonical_path(t, (#[trigger] kept[i]).path)
        != canonical_path(t, (#[trigger] kept[j]).path) by {
        assert(!same(kept[i], kept[j]));
    }
}

/// The roots that lead to a place to which none before leads.
fn keep_places(files: &FileTable, roots: Vec<ScanRoot>) -> (r: Vec<ScanRoot>)
    ensures
        r.deep_view() == firsts(roots.deep_view(), one_place(files.deep_view())),
{
    let ghost t = files.deep_view();
    let ghost same = one_place(t);
    let ghost all = roots.deep_view();
    let mut out: Vec<ScanRoot> = Vec::new();
    let mut seen: Vec<SourcePath> = Vec::new();
    assert(all.take(0) =~= Seq::empty());
    assert(out.deep_view() =~= firsts(all.take(0), same));
    for root in it: roots
        invariant
            it.seq() == roots@,
            t == files.deep_view(),
            same == one_place(t),
            all == roots.deep_view(),
            out.deep_view() == firsts(all.take(it.index() as int), same),
            forall|key: Seq<Seq<char>>| #[trigger]
                was_seen(seen.deep_view(), key) <==> exists|k: int|
                    0 <= k < it.index() && canonical_path(t, (#[trigger] all[k]).path) == key,
    {
        let ghost n = it.index() as int;
        let ghost before = out.deep_view();
        let ghost noted = seen.deep_view();
        let ghost key = canonical_path(t, root.path.deep_view());
        assert(all.take(n + 1).drop_last() =~= all.take(n));
        assert(all.take(n + 1).last() == root.deep_view());
        proof {
            if was_seen(noted, key) {
                let k = choose|k: int| 0 <= k < n && canonical_path(t, (#[trigger] all[k]).path) == key;
                assert(same(all.take(n)[k], root.deep_view()));
            }
            if crate::order::has_kind(all.take(n), root.deep_view(), same) {
                let k = choose|k: int| 0 <= k < n && same(#[trigger] all.take(n)[k], root.deep_view());
                assert(canonical_path(t, all[k].path) == key);
            }
        }
        let target = files.canonical(&root.path);
        let new = note_path(&mut seen, target);
        if new {
            out.push(root);
            assert(out.deep_view() =~= before.push(root.deep_view()));
        }
        proof {
            let same_path = |a: Seq<Seq<char>>, b: Seq<Seq<char>>| SourcePath::alike(a, b);
            assert forall|other: Seq<Seq<char>>| #[trigger] was_seen(seen.deep_view(), other) <==> exists|k: int|
                0 <= k < n + 1 && canonical_path(t, (#[trigger] all[k]).path) == other by {
                if was_seen(seen.deep_view(), other) {
                    let m = choose|m: int|
                        0 <= m < seen.deep_view().len() && same_path(#[trigger] seen.deep_view()[m], other);
                    if m < noted.len() {
                        assert(same_path(noted[m], other));
                        assert(was_seen(noted, other));
                    } else {
                        assert(canonical_path(t, all[n].path) == other);
                    }
                }
                if exists|k: int| 0 <= k < n + 1 && canonical_path(t, (#[trigger] all[k]).path) == other {
                    let k = choose|k: int| 0 <= k < n + 1 && canonical_path(t, (#[trigger] all[k]).path) == other;
                    if k < n {
                        assert(was_seen(noted, other));
                        let m = choose|m: int| 0 <= m < noted.len() && same_path(#[trigger] noted[m], other);
                        assert(same_path(seen.deep_view()[m], other));
                    } else if new {
                        assert(same_path(seen.deep_view()[noted.len() as int], other));
                    } else {
                        assert(was_seen(noted, other));
                    }
                }
            }
        }
    }
    assert(all.take(all.len() as int) =~= all);
    out
}

/// Whether a component is a home of Kimi.
fn is_home(part: &str) -> (r: bool)
    ensures
        r == is_kimi_home(part@),
{
    names_home(lowercase(part).as_str())
}

/// What was read of sessions so far.
#[verifier::ext_equal]
pub struct ScanView {
    pub seen: Seq<Seq<Seq<char>>>,
    pub found: Seq<ConversationView>,
}

/// What a wire log reads as, in whatever layout.
pub open spec fn session(t: Seq<EntryView>, wire: Seq<Seq<char>>) -> Result<Option<ConversationView>, ReadError> {
    match modern_layout(wire) {
        Some(layout) => code_session(t, wire, layout),
        None => legacy_session(t, wire),
    }
}

/// A wire log is read if it is new to the scan and changed since the one before.
pub open spec fn after_wire(t: Seq<EntryView>, scan: ScanView, wire: Seq<Seq<char>>) -> ScanView {
    let key = canonical_path(t, wire);
    let seen = seen_with(scan.seen, key);
    if was_seen(scan.seen, key) || !path_is_fresh(t, wire) {
        ScanView { seen, ..scan }
    } else {
        match session(t, wire) {
            Ok(Some(c)) => ScanView { seen, found: scan.found.push(c) },
            _ => ScanView { seen, ..scan },
        }
    }
}

/// The scan after all these wire logs.
pub open spec fn after_wires(t: Seq<EntryView>, scan: ScanView, all: Seq<Seq<Seq<char>>>) -> ScanView
    decreases all.len(),
{
    if all.len() == 0 {
        scan
    } else {
        after_wire(t, after_wires(t, scan, all.drop_last()), all.last())
    }
}

/// The scan of all these roots.
pub open spec fn scan_of(t: Seq<EntryView>, roots: Seq<Seq<Seq<char>>>) -> ScanView
    decreases roots.len(),
{
    if roots.len() == 0 {
        ScanView { seen: Seq::empty(), found: Seq::empty() }
    } else {
        after_wires(t, scan_of(t, roots.drop_last()), wires(t, roots.last()))
    }
}

/// The conversations that a scan finds.
pub open spec fn scanned(t: Seq<EntryView>, ctx: ContextView, s: SurroundingsView) -> Seq<ConversationView> {
    scan_of(t, settled_paths(kimi_roots(t, ctx, s).map_values(|r: RootView| r.path))).found
}

/// What was discovered so far.
#[verifier::ext_equal]
pub struct DiscoveryView {
    pub seen: Seq<Seq<Seq<char>>>,
    pub found: Seq<SourceView>,
}

/// Where the state that goes with a wire log stands.
pub open spec fn state_path(wire: Seq<Seq<char>>) -> Option<Seq<Seq<char>>> {
    match modern_layout(wire) {
        Some(layout) => Some(below(layout.session_root, "state.json"@)),
        None => match parent(wire) {
            Some(dir) => Some(below(dir, "state.json"@)),
            None => None,
        },
    }
}

/// A wire log is a source, and the state that goes with it is another.
pub open spec fn discovered_wire(
    t: Seq<EntryView>,
    d: DiscoveryView,
    root: RootView,
    wire: Seq<Seq<char>>,
) -> DiscoveryView {
    let key = canonical_path(t, wire);
    let seen = seen_with(d.seen, key);
    if was_seen(d.seen, key) || !path_is_fresh(t, wire) {
        DiscoveryView { seen, ..d }
    } else {
        let found = d.found.push(source("kimi"@, root, wire, SourceRole::PrimarySessionLog, true));
        match state_path(wire) {
            None => DiscoveryView { seen, found },
            Some(state) => {
                let state_key = canonical_path(t, state);
                if path_exists(t, state) && !was_seen(seen, state_key) {
                    DiscoveryView {
                        seen: seen.push(state_key),
                        found: found.push(source("kimi"@, root, state, SourceRole::MetadataSidecar, false)),
                    }
                } else {
                    DiscoveryView { seen, found }
                }
            },
        }
    }
}

pub open spec fn discovered_wires(
    t: Seq<EntryView>,
    d: DiscoveryView,
    root: RootView,
    all: Seq<Seq<Seq<char>>>,
) -> DiscoveryView
    decreases all.len(),
{
    if all.len() == 0 {
        d
    } else {
        discovered_wire(t, discovered_wires(t, d, root, all.drop_last()), root, all.last())
    }
}

/// What the roots hold.
pub open spec fn discovery_of(t: Seq<EntryView>, roots: Seq<RootView>) -> DiscoveryView
    decreases roots.len(),
{
    if roots.len() == 0 {
        DiscoveryView { seen: Seq::empty(), found: Seq::empty() }
    } else {
        discovered_wires(t, discovery_of(t, roots.drop_last()), roots.last(), wires(t, roots.last().path))
    }
}

impl KimiConnector {
    pub fn new() -> (r: KimiConnector)
        ensures
            r == KimiConnector,
    {
        KimiConnector
    }

    /// What the registry of agents found, or that nothing was found.
    pub fn detect(&self, found: Option<DetectionResult>) -> (r: DetectionResult)
        ensures
            r.deep_view() == detected_or_nothing(found.deep_view()),
    {
        detection_or_nothing(found)
    }

    /// Where sessions may stand, the likeliest first.
    pub fn kimi_session_roots_from(override_home: Option<SourcePath>, home: Option<&SourcePath>) -> (r: Vec<SourcePath>)
        ensures
            r.deep_view() == session_roots(override_home.deep_view(), home.deep_view()),
    {
        let mut out: Vec<SourcePath> = Vec::new();
        match override_home {
            Some(set) => {
                let sessions = set.join("sessions");
                let ghost there = sessions.deep_view();
                out.push(sessions);
                assert(out.deep_view() =~= seq![there]);
            },
            None => match home {
                Some(home) => {
                    let a = home.join(".kimi-code").join("sessions");
                    let b = home.join(".kimi").join("sessions");
                    let ghost (x, y) = (a.deep_view(), b.deep_view());
                    out.push(a);
                    out.push(b);
                    assert(out.deep_view() =~= seq![x, y]);
                },
                None => {
                    assert(out.deep_view() =~= Seq::empty());
                },
            },
        }
        out
    }

    /// Whether a path looks like storage of Kimi.
    pub fn looks_like_kimi_storage(path: &SourcePath) -> (r: bool)
        ensures
            r == is_kimi_storage(path.deep_view()),
    {
        let ghost p = path.deep_view();
        let n = path.parts.len();
        let mut i: usize = 0;
        while i < n
            invariant
                i <= n,
                n == path.parts@.len(),
                p == path.deep_view(),
                forall|k: int|
                    0 <= k < i && k < n - 1 ==> !(is_kimi_home(#[trigger] p[k]) && lowercased(p[k + 1])
                        == "sessions"@),
            decreases n - i,
        {
            assert(p[i as int] == path.parts@[i as int]@);
            if i + 1 < n {
                assert(p[i + 1] == path.parts@[i + 1]@);
                if is_home(path.parts[i].as_str()) && same_text(
                    lowercase(path.parts[i + 1].as_str()).as_str(),
                    "sessions",
                ) {
                    return true;
                }
            }
            i = i + 1;
        }
        if n > 0 {
            assert(p.last() == path.parts@[n - 1]@);
            is_home(path.parts[n - 1].as_str())
        } else {
            false
        }
    }

    /// The roots that a path stands for.
    pub fn append_kimi_roots(files: &FileTable, base: &SourcePath) -> (r: Vec<SourcePath>)
        ensures
            r.deep_view() == roots_from(files.deep_view(), base.deep_view()),
    {
        let ghost t = files.deep_view();
        let ghost b = base.deep_view();
        let mut roots: Vec<SourcePath> = Vec::new();
        if base.is_named("wire.jsonl") && files.is_file(base) {
            match base.parent() {
                Some(dir) => {
                    let ghost there = dir.deep_view();
                    roots.push(dir);
                    assert(roots.deep_view() =~= seq![there]);
                },
                None => {
                    assert(roots.deep_view() =~= Seq::empty());
                },
            }
            return roots;
        }
        if base.is_named(".kimi") || base.is_named(".kimi-code") {
            let sessions = base.join("sessions");
            let ghost there = sessions.deep_view();
            roots.push(sessions);
            assert(roots.deep_view() =~= seq![there]);
            return files.keep_existing(roots);
        }
        if KimiConnector::looks_like_kimi_storage(base) {
            roots.push(base.copy());
            assert(roots.deep_view() =~= seq![b]);
            return roots;
        }
        let mut children: Vec<SourcePath> = Vec::new();
        let x = base.join(".kimi-code").join("sessions");
        let y = base.join(".kimi").join("sessions");
        let ghost (xv, yv) = (x.deep_view(), y.deep_view());
        children.push(x);
        children.push(y);
        assert(children.deep_view() =~= seq![xv, yv]);
        let children = files.keep_existing(children);
        if children.len() > 0 {
            return children;
        }
        if files.is_file(&base.join("wire.jsonl")) || files.is_dir(&base.join("agents")) {
            roots.push(base.copy());
            assert(roots.deep_view() =~= seq![b]);
        } else {
            assert(roots.deep_view() =~= Seq::empty());
        }
        roots
    }

    /// The wire logs under a root, in order.
    pub fn wire_files(files: &FileTable, root: &SourcePath) -> (r: Vec<SourcePath>)
        ensures
            r.deep_view() == wires(files.deep_view(), root.deep_view()),
    {
        if !files.has(root) {
            let none: Vec<SourcePath> = Vec::new();
            assert(none.deep_view() =~= Seq::empty());
            return none;
        }
        sort(keep_named(files.walk(root, 0, None), "wire.jsonl"))
    }

    /// The roots to scan.
    pub fn source_roots(ctx: &ScanContext, surroundings: &Surroundings, files: &FileTable) -> (r: Vec<ScanRoot>)
        ensures
            r.deep_view() == kimi_roots(files.deep_view(), ctx.deep_view(), surroundings.deep_view()),
    {
        let ghost t = files.deep_view();
        let mut roots: Vec<ScanRoot> = Vec::new();
        assert(roots.deep_view() =~= Seq::empty());
        if ctx.use_default_detection() {
            if KimiConnector::looks_like_kimi_storage(&ctx.data_dir) && files.has(&ctx.data_dir) {
                let mut own: Vec<SourcePath> = Vec::new();
                own.push(ctx.data_dir.copy());
                assert(own.deep_view() =~= seq![ctx.data_dir.deep_view()]);
                push_local_roots(&mut roots, &own);
            } else {
                let set = match surroundings.set_variable("KIMI_CODE_HOME") {
                    Some(text) => Some(SourcePath::new(text.as_str())),
                    None => None,
                };
                let candidates = KimiConnector::kimi_session_roots_from(set, surroundings.home.as_ref());
                push_local_roots(&mut roots, &files.keep_existing(candidates));
            }
            assert(roots.deep_view() =~= all_roots(t, ctx.deep_view(), surroundings.deep_view()));
        } else {
            let ghost places = ctx.scan_roots.deep_view();
            let mut i: usize = 0;
            assert(places.take(0) =~= Seq::empty());
            while i < ctx.scan_roots.len()
                invariant
                    i <= ctx.scan_roots@.len(),
                    t == files.deep_view(),
                    places == ctx.scan_roots.deep_view(),
                    roots.deep_view() == roots_from_all(t, places.take(i as int)),
                decreases ctx.scan_roots.len() - i,
            {
                let place = &ctx.scan_roots[i];
                assert(places.take(i + 1).drop_last() =~= places.take(i as int));
                assert(places.take(i + 1).last() == place.deep_view());
                let candidates = KimiConnector::append_kimi_roots(files, &place.path);
                push_roots(&mut roots, place, &candidates);
                i = i + 1;
            }
            assert(places.take(places.len() as int) =~= places);
            if files.has(&ctx.data_dir) {
                let candidates = KimiConnector::append_kimi_roots(files, &ctx.data_dir);
                push_local_roots(&mut roots, &candidates);
            }
        }
        keep_places(files, settle_roots(roots))
    }

    /// Reads the sessions that changed.
    pub fn scan(&self, ctx: &ScanContext, surroundings: &Surroundings, files: &FileTable) -> (r: Vec<Conversation>)
        ensures
            r.deep_view() == scanned(files.deep_view(), ctx.deep_view(), surroundings.deep_view()),
    {
        let ghost t = files.deep_view();
        let found = KimiConnector::source_roots(ctx, surroundings, files);
        let paths = root_paths(&found);
        let roots = settle_paths(paths);
        let ghost all = roots.deep_view();
        let mut seen: Vec<SourcePath> = Vec::new();
        let mut convs: Vec<Conversation> = Vec::new();
        let mut i: usize = 0;
        assert(all.take(0) =~= Seq::empty());
        assert(seen.deep_view() =~= Seq::empty());
        assert(convs.deep_view() =~= Seq::empty());
        while i < roots.len()
            invariant
                i <= roots@.len(),
                t == files.deep_view(),
                all == roots.deep_view(),
                scan_of(t, all.take(i as int)) == (ScanView { seen: seen.deep_view(), found: convs.deep_view() }),
            decreases roots.len() - i,
        {
            let ghost before = scan_of(t, all.take(i as int));
            assert(all.take(i + 1).drop_last() =~= all.take(i as int));
            assert(all.take(i + 1).last() == roots@[i as int].deep_view());
            let logs = KimiConnector::wire_files(files, &roots[i]);
            let ghost ws = logs.deep_view();
            let mut k: usize = 0;
            assert(ws.take(0) =~= Seq::empty());
            while k < logs.len()
                invariant
                    k <= logs@.len(),
                    t == files.deep_view(),
                    ws == logs.deep_view(),
                    after_wires(t, before, ws.take(k as int)) == (ScanView {
                        seen: seen.deep_view(),
                        found: convs.deep_view(),
                    }),
                decreases logs.len() - k,
            {
                let wire = &logs[k];
                let ghost here = after_wires(t, before, ws.take(k as int));
                assert(ws.take(k + 1).drop_last() =~= ws.take(k as int));
                assert(ws.take(k + 1).last() == wire.deep_view());
                let key = files.canonical(wire);
                if note_path(&mut seen, key) && files.is_fresh(wire) {
                    let parsed = match modern_wire_layout(wire) {
                        Some(layout) => parse_kimi_code_session(files, wire, &layout),
                        None => parse_kimi_session(files, wire),
                    };
                    if let Ok(Some(conv)) = parsed {
                        let ghost c = conv.deep_view();
                        let ghost so_far = convs.deep_view();
                        convs.push(conv);
                        assert(convs.deep_view() =~= so_far.push(c));
                    }
                }
                k = k + 1;
            }
            assert(ws.take(ws.len() as int) =~= ws);
            i = i + 1;
        }
        assert(all.take(all.len() as int) =~= all);
        convs
    }

    /// The files that a scan would read.
    pub fn discover_source_files(
        &self,
        ctx: &ScanContext,
        surroundings: &Surroundings,
        files: &FileTable,
    ) -> (r: Vec<DiscoveredSource>)
        ensures
            r.deep_view() == discovery_of(
                files.deep_view(),
                kimi_roots(files.deep_view(), ctx.deep_view(), surroundings.deep_view()),
            ).found,
    {
        let ghost t = files.deep_view();
        let roots = KimiConnector::source_roots(ctx, surroundings, files);
        let ghost all = roots.deep_view();
        let mut seen: Vec<SourcePath> = Vec::new();
        let mut out: Vec<DiscoveredSource> = Vec::new();
        let mut i: usize = 0;
        assert(all.take(0) =~= Seq::empty());
        assert(seen.deep_view() =~= Seq::empty());
        assert(out.deep_view() =~= Seq::empty());
        while i < roots.len()
            invariant
                i <= roots@.len(),
                t == files.deep_view(),
                all == roots.deep_view(),
                discovery_of(t, all.take(i as int)) == (DiscoveryView {
                    seen: seen.deep_view(),
                    found: out.deep_view(),
                }),
            decreases roots.len() - i,
        {
            let root = &roots[i];
            let ghost before = discovery_of(t, all.take(i as int));
            assert(all.take(i + 1).drop_last() =~= all.take(i as int));
            assert(all.take(i + 1).last() == root.deep_view());
            let logs = KimiConnector::wire_files(files, &root.path);
            let ghost ws = logs.deep_view();
            let mut k: usize = 0;
            assert(ws.take(0) =~= Seq::empty());
            while k < logs.len()
                invariant
                    k <= logs@.len(),
                    t == files.deep_view(),
                    ws == logs.deep_view(),
                    discovered_wires(t, before, root.deep_view(), ws.take(k as int)) == (DiscoveryView {
                        seen: seen.deep_view(),
                        found: out.deep_view(),
                    }),
                decreases logs.len() - k,
            {
                let wire = &logs[k];
                assert(ws.take(k + 1).drop_last() =~= ws.take(k as int));
                assert(ws.take(k + 1).last() == wire.deep_view());
                discover_wire(files, root, wire, &mut seen, &mut out);
                k = k + 1;
            }
            assert(ws.take(ws.len() as int) =~= ws);
            i = i + 1;
        }
        assert(all.take(all.len() as int) =~= all);
        out
    }
}

fn discover_wire(
    files: &FileTable,
    root: &ScanRoot,
    wire: &SourcePath,
    seen: &mut Vec<SourcePath>,
    out: &mut Vec<DiscoveredSource>,
)
    ensures
        discovered_wire(
            files.deep_view(),
            (DiscoveryView { seen: old(seen).deep_view(), found: old(out).deep_view() }),
            root.deep_view(),
            wire.deep_view(),
        ) == (DiscoveryView { seen: final(seen).deep_view(), found: final(out).deep_view() }),
{
    let key = files.canonical(wire);
    if !note_path(seen, key) || !files.is_fresh(wire) {
        return;
    }
    let ghost before = out.deep_view();
    let log = DiscoveredSource::new("kimi", root, wire.copy(), SourceRole::PrimarySessionLog, true);
    let ghost first = log.deep_view();
    out.push(log);
    assert(out.deep_view() =~= before.push(first));
    let state = match modern_wire_layout(wire) {
        Some(layout) => layout.session_root.join("state.json"),
        None => match wire.parent() {
            Some(dir) => dir.join("state.json"),
            None => return,
        },
    };
    let state_key = files.canonical(&state);
    if files.has(&state) && note_path(seen, state_key) {
        let side = DiscoveredSource::new("kimi", root, state, SourceRole::MetadataSidecar, false);
        let ghost second = side.deep_view();
        let ghost so_far = out.deep_view();
        out.push(side);
        assert(out.deep_view() =~= so_far.push(second));
    }
}

/// The workspace that a document of the state names.
pub open spec fn workspace_in(v: JsonView) -> Option<Seq<char>> {
    or_else(
        named_text(v, "cwd"@),
        or_else(
            named_text(v, "workspace"@),
            or_else(named_text(v, "workspacePath"@), named_text(v, "projectPath"@)),
        ),
    )
}

/// A text under a key that is not empty.
pub open spec fn named_text(v: JsonView, key: Seq<char>) -> Option<Seq<char>> {
    match member_text(v, key) {
        Some(t) => if t.len() == 0 {
            None
        } else {
            Some(t)
        },
        None => None,
    }
}

pub fn find_named_text(v: &Json, key: &str) -> (r: Option<String>)
    ensures
        r.deep_view() == named_text(v@, key@),
{
    match v.get_str(key) {
        Some(t) => if t.is_empty() {
            None
        } else {
            Some(t.to_owned())
        },
        None => None,
    }
}

/// The workspace of the session of a wire log, by the state beside it.
pub open spec fn legacy_workspace(t: Seq<EntryView>, wire: Seq<Seq<char>>) -> Option<Seq<char>> {
    match parent(wire) {
        None => None,
        Some(dir) => match text_at(t, below(dir, "state.json"@)) {
            None => None,
            Some(text) => match document_in(text) {
                None => None,
                Some(v) => workspace_in(v),
            },
        },
    }
}

/// The workspace of the session of a wire log, by the state beside it.
pub fn infer_workspace(files: &FileTable, wire_path: &SourcePath) -> (r: Option<String>)
    ensures
        r.deep_view() == legacy_workspace(files.deep_view(), wire_path.deep_view()),
{
    let dir = match wire_path.parent() {
        Some(dir) => dir,
        None => return None,
    };
    let text = match files.read_text(&dir.join("state.json")) {
        Some(text) => text,
        None => return None,
    };
    match parse_json(text.as_str()) {
        Some(v) => workspace_from(&v),
        None => None,
    }
}

/// The workspace that a document of the state names.
pub fn workspace_from(v: &Json) -> (r: Option<String>)
    ensures
        r.deep_view() == workspace_in(v@),
{
    if let Some(t) = find_named_text(v, "cwd") {
        return Some(t);
    }
    if let Some(t) = find_named_text(v, "workspace") {
        return Some(t);
    }
    if let Some(t) = find_named_text(v, "workspacePath") {
        return Some(t);
    }
    find_named_text(v, "projectPath")
}

/// The name of the directory of a wire log.
pub open spec fn legacy_id(wire: Seq<Seq<char>>) -> Option<Seq<char>> {
    match parent(wire) {
        Some(dir) => file_name(dir),
        None => None,
    }
}

pub fn infer_session_id(wire_path: &SourcePath) -> (r: Option<String>)
    ensures
        r.deep_view() == legacy_id(wire_path.deep_view()),
{
    match wire_path.parent() {
        Some(dir) => match dir.file_name() {
            Some(name) => Some(name.to_owned()),
            None => None,
        },
        None => None,
    }
}

/// The text of a part: the first of its content, text and value that is not
/// empty.
pub open spec fn part_text(payload: JsonView) -> Seq<char> {
    let content = flat_text_in(member(payload, "content"@));
    if content.len() > 0 {
        content
    } else {
        or_default(or_else(named_text(payload, "text"@), named_text(payload, "value"@)), Seq::empty())
    }
}

pub fn extract_content_part_text(payload: &Json) -> (r: String)
    ensures
        r@ == part_text(payload@),
{
    let content = flatten_in(payload.get("content"));
    if !content.as_str().is_empty() {
        return content;
    }
    if let Some(t) = find_named_text(payload, "text") {
        return t;
    }
    if let Some(t) = find_named_text(payload, "value") {
        return t;
    }
    let none = String::new();
    assert(none@ =~= Seq::empty());
    none
}

/// The name of the tool that a payload calls.
pub open spec fn payload_tool(payload: JsonView) -> Seq<char> {
    or_default(text_in(or_else(member(payload, "name"@), member(payload, "toolName"@))), "unknown"@)
}

/// What a call is about, by its payload.
pub open spec fn payload_about(payload: JsonView) -> Seq<char> {
    let input = member(payload, "input"@);
    or_default(
        or_else(
            text_in(
                or_else(
                    member_of(input, "description"@),
                    or_else(member_of(input, "file_path"@), member_of(input, "command"@)),
                ),
            ),
            or_else(member_text(payload, "arguments"@), member_text(payload, "parameters"@)),
        ),
        ""@,
    )
}

fn tool_of<'a>(payload: &'a Json) -> (r: &'a str)
    ensures
        r@ == payload_tool(payload@),
{
    str_or(str_in(either(payload.get("name"), payload.get("toolName"))), "unknown")
}

/// How a call of a tool reads.
pub fn extract_tool_call_text(payload: &Json) -> (r: String)
    ensures
        r@ == tool_label(payload_tool(payload@), payload_about(payload@)),
{
    let input = payload.get("input");
    let told = str_in(
        either(get_in(input, "description"), either(get_in(input, "file_path"), get_in(input, "command"))),
    );
    let about = match told {
        Some(t) => t,
        None => match payload.get_str("arguments") {
            Some(t) => t,
            None => str_or(payload.get_str("parameters"), ""),
        },
    };
    tool_label_of(tool_of(payload), about)
}

/// What was read of an older log so far.
#[verifier::ext_equal]
pub struct LegacyView {
    pub messages: Seq<MessageView>,
    pub started_at: Option<i64>,
    pub ended_at: Option<i64>,
}

pub open spec fn legacy_said(log: LegacyView, m: MessageView) -> LegacyView {
    LegacyView { messages: log.messages.push(m), ..log }
}

/// The message with which a turn begins, unless it is blank.
pub open spec fn after_turn(log: LegacyView, val: JsonView, payload: Option<JsonView>, created: Option<i64>) -> LegacyView {
    match payload {
        None => log,
        Some(payload) => {
            let said_by = member_text(payload, "role"@);
            let role = if said_by == Some("human"@) || said_by == Some("user"@) {
                "user"@
            } else {
                "assistant"@
            };
            let content = part_text(payload);
            if blank(content) {
                log
            } else {
                legacy_said(log, simple_message(role, created, content, val))
            }
        },
    }
}

/// A part of the answer, unless it is blank.
pub open spec fn after_legacy_part(
    log: LegacyView,
    val: JsonView,
    payload: Option<JsonView>,
    created: Option<i64>,
) -> LegacyView {
    match payload {
        None => log,
        Some(payload) => if blank(part_text(payload)) {
            log
        } else {
            legacy_said(log, simple_message("assistant"@, created, part_text(payload), val))
        },
    }
}

/// The message of a call of a tool.
pub open spec fn legacy_call(val: JsonView, payload: Option<JsonView>, created: Option<i64>) -> MessageView {
    match payload {
        None => simple_message("assistant"@, created, tool_label("unknown"@, ""@), val),
        Some(payload) => MessageView {
            invocations: seq![
                InvocationView {
                    kind: "tool"@,
                    name: payload_tool(payload),
                    raw_name: None,
                    call_id: None,
                    arguments: or_else(
                        member(payload, "input"@),
                        or_else(member(payload, "arguments"@), member(payload, "parameters"@)),
                    ),
                },
            ],
            ..simple_message(
                "assistant"@,
                created,
                tool_label(payload_tool(payload), payload_about(payload)),
                val,
            )
        },
    }
}

/// The log after a record.
pub open spec fn after_record(log: LegacyView, val: JsonView) -> LegacyView {
    let created = fractional_timestamp_in(member(val, "timestamp"@));
    let log = LegacyView {
        started_at: earlier(log.started_at, created),
        ended_at: later(log.ended_at, created),
        ..log
    };
    let message = member(val, "message"@);
    let kind = text_in(member_of(message, "type"@));
    let payload = member_of(message, "payload"@);
    if kind == Some("TurnBegin"@) {
        after_turn(log, val, payload, created)
    } else if kind == Some("ContentPart"@) {
        after_legacy_part(log, val, payload, created)
    } else if kind == Some("ToolCall"@) {
        legacy_said(log, legacy_call(val, payload, created))
    } else {
        log
    }
}

/// A text without the byte order marks in front.
pub open spec fn without_marks(s: Seq<char>) -> Seq<char>
    decreases s.len(),
{
    if s.len() > 0 && s[0] == '\u{feff}' {
        without_marks(s.skip(1))
    } else {
        s
    }
}

/// The text without the byte order marks in front.
pub fn strip_marks(text: &str) -> (r: String)
    ensures
        r@ == without_marks(text@),
{
    let chars = crate::text::chars_of(text);
    let mut from: usize = 0;
    assert(chars@.skip(0) =~= chars@);
    while from < chars.len() && chars[from] == '\u{feff}'
        invariant
            from <= chars@.len(),
            without_marks(chars@) == without_marks(chars@.skip(from as int)),
        decreases chars.len() - from,
    {
        assert(chars@.skip(from as int).skip(1) =~= chars@.skip(from + 1));
        from = from + 1;
    }
    assert(chars@.skip(from as int) =~= chars@.subrange(from as int, chars@.len() as int));
    crate::text::text_of(&chars, from, chars.len())
}

/// The log after a line: one that cannot be read, is blank or is no document
/// changes nothing.
pub open spec fn after_legacy_line(log: LegacyView, line: Option<Seq<char>>) -> LegacyView {
    match line {
        None => log,
        Some(text) => if blank(text) {
            log
        } else {
            match document_in(without_marks(text)) {
                Some(val) => after_record(log, val),
                None => log,
            }
        },
    }
}

pub open spec fn legacy_log(lines: Seq<Option<Seq<char>>>) -> LegacyView
    decreases lines.len(),
{
    if lines.len() == 0 {
        LegacyView { messages: Seq::empty(), started_at: None, ended_at: None }
    } else {
        after_legacy_line(legacy_log(lines.drop_last()), lines.last())
    }
}

/// The conversation that an older log holds: none where nothing was said.
pub open spec fn legacy_conversation(
    wire: Seq<Seq<char>>,
    lines: Seq<Option<Seq<char>>>,
    workspace: Option<Seq<char>>,
) -> Option<ConversationView> {
    let log = legacy_log(lines);
    if log.messages.len() == 0 {
        None
    } else {
        let messages = numbered(log.messages);
        Some(
            ConversationView {
                agent_slug: "kimi"@,
                external_id: legacy_id(wire),
                title: user_caption(messages, 100),
                workspace,
                source_path: wire,
                started_at: log.started_at,
                ended_at: log.ended_at,
                metadata: JsonView::Object(
                    seq![("sessionId"@, nullable_text(legacy_id(wire))), ("source"@, JsonView::Text("kimi"@))],
                ),
                messages,
            },
        )
    }
}

/// What an older wire log reads as.
pub open spec fn legacy_session(t: Seq<EntryView>, wire: Seq<Seq<char>>) -> Result<
    Option<ConversationView>,
    ReadError,
> {
    match lines_at(t, wire) {
        None => Err(ReadError::Unreadable),
        Some(lines) => Ok(legacy_conversation(wire, lines, legacy_workspace(t, wire))),
    }
}

/// What was read of an older log so far.
pub struct LegacyLog {
    pub messages: Vec<Message>,
    pub started_at: Option<i64>,
    pub ended_at: Option<i64>,
}

impl DeepView for LegacyLog {
    type V = LegacyView;

    open spec fn deep_view(&self) -> LegacyView {
        LegacyView {
            messages: self.messages.deep_view(),
            started_at: self.started_at,
            ended_at: self.ended_at,
        }
    }
}

impl LegacyLog {
    fn say(&mut self, m: Message)
        ensures
            final(self).deep_view() == legacy_said(old(self).deep_view(), m.deep_view()),
    {
        let ghost before = self.messages.deep_view();
        self.messages.push(m);
        assert(self.messages.deep_view() =~= before.push(m.deep_view()));
    }

    fn take_turn(&mut self, val: &Json, payload: Option<&Json>, created: Option<i64>)
        ensures
            final(self).deep_view() == after_turn(old(self).deep_view(), val@, payload.deep_view(), created),
    {
        let payload = match payload {
            Some(payload) => payload,
            None => return,
        };
        let said_by = payload.get_str("role");
        let role = if is_text(said_by, "human") || is_text(said_by, "user") {
            "user"
        } else {
            "assistant"
        };
        let content = extract_content_part_text(payload);
        if !is_blank(content.as_str()) {
            self.say(make_message(role, created, content, val.copy()));
        }
    }

    fn take_part(&mut self, val: &Json, payload: Option<&Json>, created: Option<i64>)
        ensures
            final(self).deep_view() == after_legacy_part(old(self).deep_view(), val@, payload.deep_view(), created),
    {
        if let Some(payload) = payload {
            let content = extract_content_part_text(payload);
            if !is_blank(content.as_str()) {
                self.say(make_message("assistant", created, content, val.copy()));
            }
        }
    }

    fn take_call(&mut self, val: &Json, payload: Option<&Json>, created: Option<i64>)
        ensures
            final(self).deep_view() == legacy_said(
                old(self).deep_view(),
                legacy_call(val@, payload.deep_view(), created),
            ),
    {
        match payload {
            None => {
                let content = tool_label_of("unknown", "");
                self.say(make_message("assistant", created, content, val.copy()));
            },
            Some(payload) => {
                let content = extract_tool_call_text(payload);
                let mut m = make_message("assistant", created, content, val.copy());
                let call = Invocation {
                    kind: "tool".to_owned(),
                    name: tool_of(payload).to_owned(),
                    raw_name: None,
                    call_id: None,
                    arguments: copied(
                        either(payload.get("input"), either(payload.get("arguments"), payload.get("parameters"))),
                    ),
                };
                let ghost seen = call.deep_view();
                let mut invocations: Vec<Invocation> = Vec::new();
                invocations.push(call);
                assert(invocations.deep_view() =~= seq![seen]);
                m.invocations = invocations;
                self.say(m);
            },
        }
    }

    /// Reads a record.
    pub fn take_record(&mut self, val: &Json)
        ensures
            final(self).deep_view() == after_record(old(self).deep_view(), val@),
    {
        let created = fractional_timestamp_of(val.get("timestamp"));
        update_time_bounds(&mut self.started_at, &mut self.ended_at, created);
        let message = val.get("message");
        let kind = str_in(get_in(message, "type"));
        let payload = get_in(message, "payload");
        if is_text(kind, "TurnBegin") {
            self.take_turn(val, payload, created);
        } else if is_text(kind, "ContentPart") {
            self.take_part(val, payload, created);
        } else if is_text(kind, "ToolCall") {
            self.take_call(val, payload, created);
        }
    }

    fn take_line(&mut self, line: &Option<String>)
        ensures
            final(self).deep_view() == after_legacy_line(old(self).deep_view(), line.deep_view()),
    {
        if let Some(text) = line {
            if !is_blank(text.as_str()) {
                if let Some(val) = parse_json(strip_marks(text.as_str()).as_str()) {
                    self.take_record(&val);
                }
            }
        }
    }
}

/// Reads the conversation of an older wire log: it fails exactly where the log
/// cannot be read, and there is none exactly where nothing was said.
pub fn parse_kimi_session(files: &FileTable, path: &SourcePath) -> (r: Result<Option<Conversation>, ReadError>)
    ensures
        match r {
            Ok(c) => legacy_session(files.deep_view(), path.deep_view()) == Ok::<Option<ConversationView>, ReadError>(
                c.deep_view(),
            ),
            Err(e) => legacy_session(files.deep_view(), path.deep_view()) == Err::<
                Option<ConversationView>,
                ReadError,
            >(e),
        },
{
    let lines = match files.read_lines(path) {
        Some(lines) => lines,
        None => return Err(ReadError::Unreadable),
    };
    let ghost all = lines.deep_view();
    let messages: Vec<Message> = Vec::new();
    assert(messages.deep_view() =~= Seq::empty());
    let mut log = LegacyLog { messages, started_at: None, ended_at: None };
    let mut i: usize = 0;
    assert(all.take(0) =~= Seq::empty());
    while i < lines.len()
        invariant
            i <= lines@.len(),
            all == lines.deep_view(),
            log.deep_view() == legacy_log(all.take(i as int)),
        decreases lines.len() - i,
    {
        assert(all.take(i + 1).drop_last() =~= all.take(i as int));
        assert(all.take(i + 1).last() == lines@[i as int].deep_view());
        log.take_line(&lines[i]);
        i = i + 1;
    }
    assert(all.take(all.len() as int) =~= all);
    let mut messages = log.messages;
    reindex_messages(&mut messages);
    if messages.len() == 0 {
        assert(messages.deep_view().len() == log.deep_view().messages.len());
        return Ok(None);
    }
    let session_id = infer_session_id(path);
    let workspace = infer_workspace(files, path);
    let title = user_caption_of(&messages, 100);
    let mut metadata: Vec<(String, Json)> = Vec::new();
    put(&mut metadata, "sessionId", nullable_text_json(&session_id));
    put(&mut metadata, "source", text_json("kimi"));
    assert(metadata.deep_view() =~= seq![
        ("sessionId"@, nullable_text(session_id.deep_view())),
        ("source"@, JsonView::Text("kimi"@)),
    ]);
    Ok(
        Some(
            Conversation {
                agent_slug: "kimi".to_owned(),
                external_id: session_id,
                title,
                workspace,
                source_path: path.copy(),
                started_at: log.started_at,
                ended_at: log.ended_at,
                metadata: object(metadata),
                messages,
            },
        ),
    )
}

/// What holds of an older log at any time.
pub open spec fn legacy_is_sound(log: LegacyView) -> bool {
    &&& forall|i: int| 0 <= i < log.messages.len() ==> !blank((#[trigger] log.messages[i]).content)
    &&& spans(log.started_at, log.ended_at)
}

proof fn legacy_log_is_sound(lines: Seq<Option<Seq<char>>>)
    ensures
        legacy_is_sound(legacy_log(lines)),
    decreases lines.len(),
{
    if lines.len() > 0 {
        legacy_log_is_sound(lines.drop_last());
        if let Some(text) = lines.last() {
            if let Some(val) = document_in(without_marks(text)) {
                if let Some(payload) = member_of(member(val, "message"@), "payload"@) {
                    tool_label_is_not_blank(payload_tool(payload), payload_about(payload));
                }
                tool_label_is_not_blank("unknown"@, ""@);
            }
        }
    }
}

/// A conversation of an older log has messages, each at its place and none blank,
/// and ended where it started or later.
pub proof fn legacy_conversation_is_sound(
    wire: Seq<Seq<char>>,
    lines: Seq<Option<Seq<char>>>,
    workspace: Option<Seq<char>>,
)
    ensures
        legacy_conversation(wire, lines, workspace) matches Some(c) ==> {
            &&& c.messages.len() > 0
            &&& is_numbered(c.messages)
            &&& forall|i: int| 0 <= i < c.messages.len() ==> !blank((#[trigger] c.messages[i]).content)
            &&& spans(c.started_at, c.ended_at)
        },
{
    legacy_log_is_sound(lines);
    numbering(legacy_log(lines).messages);
}

/// What relates a scan and a discovery of the same wire logs.
spec fn is_covered(t: Seq<EntryView>, scan: ScanView, d: DiscoveryView) -> bool {
    &&& forall|key: Seq<Seq<char>>| #[trigger]
        was_seen(d.seen, key) ==> was_seen(scan.seen, key) || names_place(t, d.found, key)
    &&& forall|i: int|
        0 <= i < scan.found.len() ==> names_place(
            t,
            d.found,
            canonical_path(t, (#[trigger] scan.found[i]).source_path),
        )
}

proof fn wire_is_covered(t: Seq<EntryView>, scan: ScanView, d: DiscoveryView, root: RootView, wire: Seq<Seq<char>>)
    requires
        is_covered(t, scan, d),
    ensures
        is_covered(t, after_wire(t, scan, wire), discovered_wire(t, d, root, wire)),
{
    let key = canonical_path(t, wire);
    let s2 = after_wire(t, scan, wire);
    let d2 = discovered_wire(t, d, root, wire);
    let seen = seen_with(d.seen, key);
    let log = source("kimi"@, root, wire, SourceRole::PrimarySessionLog, true);
    assert forall|other: Seq<Seq<char>>| #[trigger] was_seen(scan.seen, other) implies was_seen(s2.seen, other) by {
        seen_grows(scan.seen, key, other);
    }
    seen_grows(scan.seen, key, key);
    seen_pushed(d.seen, key);
    places_stay_named(t, d.found, log);
    if !was_seen(d.seen, key) && path_is_fresh(t, wire) {
        if let Some(state) = state_path(wire) {
            let sidecar = source("kimi"@, root, state, SourceRole::MetadataSidecar, false);
            places_stay_named(t, d.found.push(log), sidecar);
            seen_pushed(seen, canonical_path(t, state));
        }
        assert(names_place(t, d2.found, key));
    }
    assert forall|other: Seq<Seq<char>>| #[trigger] names_place(t, d.found, other) implies names_place(
        t,
        d2.found,
        other,
    ) by {}
    assert forall|other: Seq<Seq<char>>| #[trigger] was_seen(d2.seen, other) implies was_seen(s2.seen, other)
        || names_place(t, d2.found, other) by {}
    assert forall|i: int| 0 <= i < s2.found.len() implies names_place(
        t,
        d2.found,
        canonical_path(t, (#[trigger] s2.found[i]).source_path),
    ) by {
        if i < scan.found.len() {
            assert(s2.found[i] == scan.found[i]);
        } else {
            assert(s2.found[i].source_path == wire);
        }
    }
}

proof fn wires_are_covered(
    t: Seq<EntryView>,
    scan: ScanView,
    d: DiscoveryView,
    root: RootView,
    all: Seq<Seq<Seq<char>>>,
)
    requires
        is_covered(t, scan, d),
    ensures
        is_covered(t, after_wires(t, scan, all), discovered_wires(t, d, root, all)),
    decreases all.len(),
{
    if all.len() > 0 {
        wires_are_covered(t, scan, d, root, all.drop_last());
        wire_is_covered(
            t,
            after_wires(t, scan, all.drop_last()),
            discovered_wires(t, d, root, all.drop_last()),
            root,
            all.last(),
        );
    }
}

proof fn roots_are_covered(t: Seq<EntryView>, roots: Seq<RootView>)
    ensures
        is_covered(t, scan_of(t, roots.map_values(|r: RootView| r.path)), discovery_of(t, roots)),
    decreases roots.len(),
{
    let paths = roots.map_values(|r: RootView| r.path);
    if roots.len() > 0 {
        let front = roots.drop_last();
        roots_are_covered(t, front);
        assert(paths.drop_last() =~= front.map_values(|r: RootView| r.path));
        wires_are_covered(
            t,
            scan_of(t, paths.drop_last()),
            discovery_of(t, front),
            roots.last(),
            wires(t, roots.last().path),
        );
    }
}

/// Whatever a scan reads, discovery names: each conversation comes from a file that
/// is, its links resolved, among the sources.
pub proof fn scanned_files_are_discovered(t: Seq<EntryView>, ctx: ContextView, s: SurroundingsView)
    ensures
        forall|i: int|
            0 <= i < scanned(t, ctx, s).len() ==> names_place(
                t,
                discovery_of(t, kimi_roots(t, ctx, s)).found,
                canonical_path(t, (#[trigger] scanned(t, ctx, s)[i]).source_path),
            ),
{
    let all = all_roots(t, ctx, s);
    let settled = settled_roots(all);
    let roots = kimi_roots(t, ctx, s);
    let order = |a: RootView, b: RootView| path_order(a.path, b.path);
    settled_roots_are_distinct_and_complete(all);
    firsts_keep_order(settled, one_place(t), order);
    kimi_roots_are_distinct_places(t, ctx, s);
    let paths = roots.map_values(|r: RootView| r.path);
    path_order_laws();
    assert forall|i: int, j: int| 0 <= i < j < paths.len() implies path_order(
        #[trigger] paths[i],
        #[trigger] paths[j],
    ) < 0 by {
        assert(order(roots[i], roots[j]) <= 0);
        assert(canonical_path(t, roots[i].path) != canonical_path(t, roots[j].path));
        let strict = |a: Seq<Seq<char>>, b: Seq<Seq<char>>| path_order(a, b);
        assert(strict(paths[i], paths[j]) == 0 <==> paths[i] == paths[j]);
    }
    ascending_paths_stay(paths);
    roots_are_covered(t, roots);
}

proof fn record_keeps_canonical(log: LegacyView, val: JsonView)
    requires
        canonical_messages(log.messages),
        canonical(val),
    ensures
        canonical_messages(after_record(log, val).messages),
{
    let message = member(val, "message"@);
    let payload = member_of(message, "payload"@);
    let after = after_record(log, val);
    member_canonical(val, "message"@);
    inner_canonical(message, "payload"@);
    inner_canonical(payload, "input"@);
    inner_canonical(payload, "arguments"@);
    inner_canonical(payload, "parameters"@);
    if after.messages != log.messages {
        let m = after.messages.last();
        assert(forall|i: int| 0 <= i < m.invocations.len() ==> canonical_call(#[trigger] m.invocations[i]));
        messages_grow(log.messages, m);
    }
}

proof fn legacy_log_is_canonical(lines: Seq<Option<Seq<char>>>)
    ensures
        canonical_messages(legacy_log(lines).messages),
    decreases lines.len(),
{
    if lines.len() > 0 {
        legacy_log_is_canonical(lines.drop_last());
        if let Some(text) = lines.last() {
            if let Some(val) = document_in(without_marks(text)) {
                record_keeps_canonical(legacy_log(lines.drop_last()), val);
            }
        }
    }
}

/// The documents of a conversation that was read are canonical.
pub proof fn legacy_conversation_is_canonical(
    wire: Seq<Seq<char>>,
    lines: Seq<Option<Seq<char>>>,
    workspace: Option<Seq<char>>,
)
    ensures
        legacy_conversation(wire, lines, workspace) matches Some(c) ==> canonical_conversation(c),
{
    legacy_log_is_canonical(lines);
    numbered_canonical(legacy_log(lines).messages);
    nullables_are_canonical(legacy_id(wire), None);
    reveal_strlit("sessionId");
    reveal_strlit("source");
    comes_before("sessionId"@, "source"@, 1);
    rising_members_are_canonical(
        seq![("sessionId"@, nullable_text(legacy_id(wire))), ("source"@, JsonView::Text("kimi"@))],
    );
}

proof fn wires_keep_canonical(t: Seq<EntryView>, scan: ScanView, all: Seq<Seq<Seq<char>>>)
    requires
        canonical_conversations(scan.found),
    ensures
        canonical_conversations(after_wires(t, scan, all).found),
    decreases all.len(),
{
    if all.len() > 0 {
        let before = after_wires(t, scan, all.drop_last());
        let wire = all.last();
        wires_keep_canonical(t, scan, all.drop_last());
        if let Some(lines) = lines_at(t, wire) {
            match modern_layout(wire) {
                Some(layout) => {
                    let state = state_in(text_at(t, below(layout.session_root, "state.json"@)));
                    wire_conversation_is_canonical(wire, layout, lines, state);
                },
                None => {
                    legacy_conversation_is_canonical(wire, lines, legacy_workspace(t, wire));
                },
            }
        }
        if let Ok(Some(c)) = session(t, wire) {
            conversations_grow(before.found, c);
        }
    }
}

proof fn scan_is_canonical(t: Seq<EntryView>, roots: Seq<Seq<Seq<char>>>)
    ensures
        canonical_conversations(scan_of(t, roots).found),
    decreases roots.len(),
{
    if roots.len() > 0 {
        scan_is_canonical(t, roots.drop_last());
        wires_keep_canonical(t, scan_of(t, roots.drop_last()), wires(t, roots.last()));
    }
}

/// The documents of all conversations that a scan hands out are canonical, so that
/// each can be rendered.
pub proof fn scanned_documents_are_canonical(t: Seq<EntryView>, ctx: ContextView, s: SurroundingsView)
    ensures
        canonical_conversations(scanned(t, ctx, s)),
{
    scan_is_canonical(t, settled_paths(kimi_roots(t, ctx, s).map_values(|r: RootView| r.path)));
}

proof fn record_kinds_differ()
    ensures
        "TurnBegin"@ != "ContentPart"@,
        "TurnBegin"@ != "ToolCall"@,
        "ContentPart"@ != "ToolCall"@,
{
    reveal_strlit("TurnBegin");
    reveal_strlit("ContentPart");
    reveal_strlit("ToolCall");
    assert("TurnBegin"@.len() == 9 && "ContentPart"@.len() == 11 && "ToolCall"@.len() == 8);
}

/// A turn of an older log is said by the user or by the assistant, as its role tells, and a
/// part of an answer by the assistant: with its own content and at its own time.
pub proof fn turns_are_said_at_their_own_time(log: LegacyView, val: JsonView, message: JsonView, payload: JsonView)
    requires
        member(val, "message"@) == Some(message),
        member(message, "payload"@) == Some(payload),
        member_text(message, "type"@) == Some("TurnBegin"@) || member_text(message, "type"@) == Some("ContentPart"@),
        !blank(part_text(payload)),
    ensures
        ({
            let after = after_record(log, val);
            let m = after.messages.last();
            let role = member_text(payload, "role"@);
            let is_turn = member_text(message, "type"@) == Some("TurnBegin"@);
            &&& after.messages == log.messages.push(m)
            &&& m.content == part_text(payload)
            &&& m.created_at == fractional_timestamp_in(member(val, "timestamp"@))
            &&& m.extra == val
            &&& m.author is None
            &&& m.invocations.len() == 0
            &&& is_turn && (role == Some("user"@) || role == Some("human"@)) ==> m.role == "user"@
            &&& !is_turn || !(role == Some("user"@) || role == Some("human"@)) ==> m.role == "assistant"@
        }),
{
    record_kinds_differ();
}

/// A call of a tool in an older log is said by the assistant at its own time, and names the
/// tool, what it is about and its arguments.
pub proof fn legacy_calls_are_said_at_their_own_time(log: LegacyView, val: JsonView, message: JsonView, payload: JsonView)
    requires
        member(val, "message"@) == Some(message),
        member(message, "payload"@) == Some(payload),
        member_text(message, "type"@) == Some("ToolCall"@),
    ensures
        ({
            let after = after_record(log, val);
            let m = after.messages.last();
            &&& after.messages == log.messages.push(m)
            &&& m.role == "assistant"@
            &&& m.created_at == fractional_timestamp_in(member(val, "timestamp"@))
            &&& m.extra == val
            &&& m.content == tool_label(m.invocations[0].name, payload_about(payload))
            &&& m.invocations.len() == 1
            &&& m.invocations[0].kind == "tool"@
            &&& m.invocations[0].call_id is None
            &&& member_text(payload, "name"@) matches Some(name) ==> m.invocations[0].name == name
            &&& member(payload, "name"@) is None ==> (member_text(payload, "toolName"@) matches Some(name)
                ==> m.invocations[0].name == name)
            &&& member(payload, "name"@) is None && member(payload, "toolName"@) is None ==> m.invocations[0].name
                == "unknown"@
            &&& member(payload, "input"@) matches Some(input) ==> m.invocations[0].arguments == Some(input)
            &&& member(payload, "input"@) is None ==> (member(payload, "arguments"@) matches Some(arguments)
                ==> m.invocations[0].arguments == Some(arguments))
        }),
{
    record_kinds_differ();
}

/// What a call is about is its description, or else the file it names, or else its command,
/// or else its arguments as a text.
pub proof fn legacy_calls_are_about_their_input(payload: JsonView, input: JsonView, t: Seq<char>)
    requires
        member(payload, "input"@) == Some(input),
    ensures
        member_text(input, "description"@) == Some(t) ==> payload_about(payload) == t,
        member(input, "description"@) is None && member_text(input, "file_path"@) == Some(t) ==> payload_about(payload)
            == t,
        member(input, "description"@) is None && member(input, "file_path"@) is None && member_text(input, "command"@)
            == Some(t) ==> payload_about(payload) == t,
        member(input, "description"@) is None && member(input, "file_path"@) is None && member(input, "command"@) is None
            && member_text(payload, "arguments"@) == Some(t) ==> payload_about(payload) == t,
{
}

/// What a part says is its content, or else its text, or else its value.
pub proof fn parts_say_their_content(payload: JsonView, t: Seq<char>)
    requires
        t.len() > 0,
    ensures
        member_text(payload, "content"@) == Some(t) ==> part_text(payload) == t,
        member(payload, "content"@) is None && member_text(payload, "text"@) == Some(t) ==> part_text(payload) == t,
        member(payload, "content"@) is None && member(payload, "text"@) is None && member_text(payload, "value"@)
            == Some(t) ==> part_text(payload) == t,
{
}

/// Whatever record comes next, what was said stays, and no more than one message comes
/// behind it. The span of the log widens to hold the time of the record, and holds no other.
pub proof fn records_keep_what_was_said(log: LegacyView, val: JsonView)
    ensures
        ({
            let after = after_record(log, val);
            let time = fractional_timestamp_in(member(val, "timestamp"@));
            &&& after.messages == log.messages || after.messages == log.messages.push(after.messages.last())
            &&& after.started_at == log.started_at || after.started_at == time
            &&& after.ended_at == log.ended_at || after.ended_at == time
            &&& time is Some ==> after.started_at is Some && after.ended_at is Some && after.started_at->0 <= time->0
                && time->0 <= after.ended_at->0
            &&& log.started_at is Some ==> after.started_at is Some && after.started_at->0 <= log.started_at->0
            &&& log.ended_at is Some ==> after.ended_at is Some && after.ended_at->0 >= log.ended_at->0
        }),
{
}

/// An older log is read line by line, in the order of the lines: a line that holds a
/// document is the next record.
pub proof fn legacy_lines_are_read_in_order(lines: Seq<Option<Seq<char>>>, text: Seq<char>, val: JsonView)
    requires
        !blank(text),
        document_in(without_marks(text)) == Some(val),
    ensures
        legacy_log(lines.push(Some(text))) == after_record(legacy_log(lines), val),
        legacy_log(Seq::empty()).messages.len() == 0,
        legacy_log(Seq::empty()).started_at is None,
        legacy_log(Seq::empty()).ended_at is None,
{
    let more = lines.push(Some(text));
    assert(more.drop_last() =~= lines);
    assert(more.last() == Some(text));
}

/// A conversation of an older log holds what was said in it, spans its time, has the
/// caption of the user's first message for its title and tells the file that it comes from.
pub proof fn legacy_conversations_are_told_of(
    wire: Seq<Seq<char>>,
    lines: Seq<Option<Seq<char>>>,
    workspace: Option<Seq<char>>,
)
    ensures
        legacy_conversation(wire, lines, workspace) is None <==> legacy_log(lines).messages.len() == 0,
        legacy_conversation(wire, lines, workspace) matches Some(c) ==> {
            let log = legacy_log(lines);
            &&& c.agent_slug == "kimi"@
            &&& c.external_id == legacy_id(wire)
            &&& c.source_path == wire
            &&& c.workspace == workspace
            &&& c.title == user_caption(c.messages, 100)
            &&& c.started_at == log.started_at
            &&& c.ended_at == log.ended_at
            &&& c.messages.len() == log.messages.len()
            &&& forall|i: int|
                0 <= i < log.messages.len() && i <= i64::MAX ==> #[trigger] c.messages[i] == (MessageView {
                    idx: i as i64,
                    ..log.messages[i]
                })
            &&& member(c.metadata, "source"@) == Some(JsonView::Text("kimi"@))
        },
{
    let log = legacy_log(lines);
    numbering(log.messages);
    let members = seq![("sessionId"@, nullable_text(legacy_id(wire))), ("source"@, JsonView::Text("kimi"@))];
    reveal_strlit("sessionId");
    reveal_strlit("source");
    assert("sessionId"@.len() == 9 && "source"@.len() == 6);
    member_is_the_first_of_its_key(JsonView::Null, members, "source"@, 1);
}

/// A log that changed and was not seen is read: by the newer layout where its path follows
/// that, and else as an older log, and what it makes comes behind what was found before.
pub proof fn logs_that_changed_are_read(t: Seq<EntryView>, scan: ScanView, wire: Seq<Seq<char>>, lines: Seq<Option<Seq<char>>>)
    requires
        lines_at(t, wire) == Some(lines),
        path_is_fresh(t, wire),
        !was_seen(scan.seen, canonical_path(t, wire)),
    ensures
        ({
            let after = after_wire(t, scan, wire);
            let c = match modern_layout(wire) {
                Some(layout) => wire_conversation(
                    wire,
                    layout,
                    lines,
                    state_in(text_at(t, below(layout.session_root, "state.json"@))),
                ),
                None => legacy_conversation(wire, lines, legacy_workspace(t, wire)),
            };
            &&& c matches Some(c) ==> after.found == scan.found.push(c)
            &&& c is None ==> after.found == scan.found
            &&& was_seen(after.seen, canonical_path(t, wire))
        }),
{
    crate::scan::seen_grows(scan.seen, canonical_path(t, wire), wire);
}

/// A session of the older layout has the name of the directory of its log, and works where
/// the state beside the log says: under whichever name that is given, none of them empty.
pub proof fn legacy_sessions_are_named_by_their_directory(dir: Seq<Seq<char>>, file: Seq<char>, v: JsonView, t: Seq<char>)
    requires
        file.len() > 0,
        t.len() > 0,
    ensures
        legacy_id(dir.push(file)) == file_name(dir),
        member_text(v, "cwd"@) == Some(t) ==> workspace_in(v) == Some(t),
        member(v, "cwd"@) is None && member_text(v, "workspace"@) == Some(t) ==> workspace_in(v) == Some(t),
        member(v, "cwd"@) is None && member(v, "workspace"@) is None && member_text(v, "workspacePath"@) == Some(t)
            ==> workspace_in(v) == Some(t),
        member(v, "cwd"@) is None && member(v, "workspace"@) is None && member(v, "workspacePath"@) is None
            && member_text(v, "projectPath"@) == Some(t) ==> workspace_in(v) == Some(t),
{
    assert(dir.push(file).drop_last() =~= dir);
}

/// Marks of the byte order in front of a line are passed over, and nothing else is.
pub proof fn byte_order_marks_are_passed_over(s: Seq<char>)
    ensures
        without_marks(seq!['\u{feff}'] + s) == without_marks(s),
        s.len() == 0 || s[0] != '\u{feff}' ==> without_marks(s) == s,
{
    let marked = seq!['\u{feff}'] + s;
    assert(marked.skip(1) =~= s);
}

/// Below a root, the logs are the plain files named `wire.jsonl`, at any depth.
pub proof fn wires_are_found_at_any_depth(t: Seq<EntryView>, root: Seq<Seq<char>>, p: Seq<Seq<char>>)
    requires
        path_exists(t, root),
    ensures
        wires(t, root).contains(p) <==> file_name(p) == Some("wire.jsonl"@) && crate::files::can_walk_to(
            t,
            root,
            0,
            None,
            p,
        ),
{
    crate::files::walk_is_sound_and_complete(t, root, 0, None);
    let all = walked_files(t, root, 0, None);
    crate::files::named_files_are_kept(all, "wire.jsonl"@, p);
    crate::scan::sorting_paths_keeps_them(only_named(all, "wire.jsonl"@), p);
}

/// The sessions of the user stand below the home that is set, or else below the two usual
/// ones, the newer first.
pub proof fn sessions_stand_below_the_home(set: Seq<Seq<char>>, home: Seq<Seq<char>>)
    ensures
        session_roots(Some(set), Some(home)) == seq![below(set, "sessions"@)],
        session_roots(Some(set), None) == seq![below(set, "sessions"@)],
        session_roots(None, Some(home)) == seq![
            below(below(home, ".kimi-code"@), "sessions"@),
            below(below(home, ".kimi"@), "sessions"@),
        ],
        session_roots(None, None).len() == 0,
{
}

/// A log stands for its directory, a home of the agent for its sessions, storage of the
/// agent for itself, a directory above such homes for their sessions, and the directory of a
/// session for itself.
pub proof fn places_stand_for_roots(t: Seq<EntryView>, base: Seq<Seq<char>>, dir: Seq<Seq<char>>)
    ensures
        file_name(base) == Some("wire.jsonl"@) && path_is_file(t, base) && parent(base) == Some(dir) ==> roots_from(t, base)
            == seq![dir],
        (file_name(base) == Some(".kimi"@) || file_name(base) == Some(".kimi-code"@)) && path_exists(
            t,
            below(base, "sessions"@),
        ) ==> roots_from(t, base).contains(below(base, "sessions"@)),
        !path_is_file(t, base) && file_name(base) != Some(".kimi"@) && file_name(base) != Some(".kimi-code"@)
            && is_kimi_storage(base) ==> roots_from(t, base) == seq![base],
        !path_is_file(t, base) && file_name(base) != Some(".kimi"@) && file_name(base) != Some(".kimi-code"@)
            && !is_kimi_storage(base) && path_exists(t, below(below(base, ".kimi-code"@), "sessions"@)) ==> roots_from(
            t,
            base,
        ).contains(below(below(base, ".kimi-code"@), "sessions"@)),
        !path_is_file(t, base) && file_name(base) != Some(".kimi"@) && file_name(base) != Some(".kimi-code"@)
            && !is_kimi_storage(base) && path_exists(t, below(below(base, ".kimi"@), "sessions"@)) ==> roots_from(
            t,
            base,
        ).contains(below(below(base, ".kimi"@), "sessions"@)),
{
    reveal_strlit("wire.jsonl");
    reveal_strlit(".kimi");
    reveal_strlit(".kimi-code");
    assert("wire.jsonl"@.len() == 10 && ".kimi"@.len() == 5 && ".kimi-code"@.len() == 10);
    assert("wire.jsonl"@[0] != ".kimi-code"@[0]);
    let own = below(base, "sessions"@);
    let newer = below(below(base, ".kimi-code"@), "sessions"@);
    let older = below(below(base, ".kimi"@), "sessions"@);
    crate::files::paths_that_exist_are_kept(t, seq![own], own);
    crate::scan::listed_paths(own, own, own, own, own);
    crate::files::paths_that_exist_are_kept(t, seq![newer, older], newer);
    crate::files::paths_that_exist_are_kept(t, seq![newer, older], older);
    crate::scan::listed_paths(newer, older, newer, older, newer);
    crate::scan::listed_paths(newer, older, newer, older, older);
}

/// A log that changed and was not met is a source that the scan needs, and the state that
/// goes with it one that it can do without, where that exists and was not met.
pub proof fn logs_and_their_states_are_sources(t: Seq<EntryView>, d: DiscoveryView, root: RootView, wire: Seq<Seq<char>>)
    requires
        path_is_fresh(t, wire),
        !was_seen(d.seen, canonical_path(t, wire)),
    ensures
        ({
            let after = discovered_wire(t, d, root, wire);
            let n = d.found.len() as int;
            &&& after.found.len() >= n + 1
            &&& after.found.take(n) == d.found
            &&& after.found[n].source_path == wire
            &&& after.found[n].role is PrimarySessionLog
            &&& after.found[n].required_for_reconstruction
            &&& after.found[n].provider_slug == "kimi"@
            &&& after.found[n].origin == root.origin
            &&& after.found.len() <= n + 2
            &&& after.found.len() == n + 2 ==> {
                &&& Some(after.found[n + 1].source_path) == state_path(wire)
                &&& after.found[n + 1].role is MetadataSidecar
                &&& !after.found[n + 1].required_for_reconstruction
                &&& path_exists(t, after.found[n + 1].source_path)
            }
            &&& state_path(wire) matches Some(state) ==> (path_exists(t, state) && !was_seen(
                seen_with(d.seen, canonical_path(t, wire)),
                canonical_path(t, state),
            ) ==> after.found.len() == n + 2)
        }),
{
    let after = discovered_wire(t, d, root, wire);
    assert(after.found.take(d.found.len() as int) =~= d.found);
}

/// Roots are read in their order, and the logs of each in theirs.
pub proof fn roots_are_read_in_order(t: Seq<EntryView>, roots: Seq<Seq<Seq<char>>>, next: Seq<Seq<char>>, wires_of: Seq<Seq<Seq<char>>>, wire: Seq<Seq<char>>, scan: ScanView)
    ensures
        scan_of(t, roots.push(next)) == after_wires(t, scan_of(t, roots), wires(t, next)),
        scan_of(t, Seq::empty()).found.len() == 0,
        after_wires(t, scan, wires_of.push(wire)) == after_wire(t, after_wires(t, scan, wires_of), wire),
        after_wires(t, scan, Seq::empty()) == scan,
{
    assert(roots.push(next).drop_last() =~= roots);
    assert(wires_of.push(wire).drop_last() =~= wires_of);
}

/// The state that goes with a log stands in the directory of its session.
pub proof fn states_stand_with_their_session(wire: Seq<Seq<char>>, dir: Seq<Seq<char>>, layout: LayoutView)
    ensures
        modern_layout(wire) == Some(layout) ==> state_path(wire) == Some(below(layout.session_root, "state.json"@)),
        modern_layout(wire) is None && parent(wire) == Some(dir) ==> state_path(wire) == Some(below(dir, "state.json"@)),
{
}

/// A path is storage of the agent where it is one of its homes, in capital or in small
/// letters, or leads through the sessions of one; and nowhere else.
pub proof fn storage_is_told_by_its_names(p: Seq<Seq<char>>, i: int)
    ensures
        p.len() > 0 && (lowercased(p.last()) == ".kimi"@ || lowercased(p.last()) == ".kimi-code"@) ==> is_kimi_storage(p),
        0 <= i < p.len() - 1 && (lowercased(p[i]) == ".kimi"@ || lowercased(p[i]) == ".kimi-code"@) && lowercased(p[i + 1])
            == "sessions"@ ==> is_kimi_storage(p),
        is_kimi_storage(p) ==> exists|k: int|
            0 <= k < p.len() && ((#[trigger] lowercased(p[k])) == ".kimi"@ || lowercased(p[k]) == ".kimi-code"@),
{
    if 0 <= i < p.len() - 1 && is_kimi_home(p[i]) && lowercased(p[i + 1]) == "sessions"@ {
        assert(is_kimi_storage(p));
    }
    if is_kimi_storage(p) {
        if p.len() > 0 && is_kimi_home(p.last()) {
            assert(lowercased(p[p.len() - 1]) == ".kimi"@ || lowercased(p[p.len() - 1]) == ".kimi-code"@);
        } else {
            let k = choose|k: int|
                0 <= k < p.len() - 1 && is_kimi_home(#[trigger] p[k]) && lowercased(p[k + 1]) == "sessions"@;
            assert(lowercased(p[k]) == ".kimi"@ || lowercased(p[k]) == ".kimi-code"@);
        }
    }
}

/// Without given places a scan reads its own data where they are storage and exist, and else
/// the sessions of the user that exist; with given places it reads what they stand for, and
/// behind that what its own data stand for where they exist.
pub proof fn scans_read_their_roots(t: Seq<EntryView>, ctx: ContextView, s: SurroundingsView)
    ensures
        ctx.scan_roots.len() == 0 && is_kimi_storage(ctx.data_dir) && path_exists(t, ctx.data_dir) ==> all_roots(t, ctx, s)
            == seq![local_root(ctx.data_dir)],
        ctx.scan_roots.len() == 0 && !is_kimi_storage(ctx.data_dir) ==> (variable_path(s, "KIMI_CODE_HOME"@) matches Some(
            set,
        ) ==> all_roots(t, ctx, s) == local_roots(only_existing(t, seq![below(set, "sessions"@)]))),
        ctx.scan_roots.len() > 0 && !path_exists(t, ctx.data_dir) ==> all_roots(t, ctx, s) == roots_from_all(
            t,
            ctx.scan_roots,
        ),
        ctx.scan_roots.len() > 0 && path_exists(t, ctx.data_dir) ==> all_roots(t, ctx, s) == roots_from_all(
            t,
            ctx.scan_roots,
        ) + local_roots(roots_from(t, ctx.data_dir)),
        forall|place: RootView, places: Seq<RootView>|
            #![trigger roots_from_all(t, places.push(place))]
            roots_from_all(t, places.push(place)) == roots_from_all(t, places) + roots_at(
                place,
                roots_from(t, place.path),
            ),
{
    assert(local_roots(seq![ctx.data_dir]) =~= seq![local_root(ctx.data_dir)]);
    assert forall|place: RootView, places: Seq<RootView>|
        #![trigger roots_from_all(t, places.push(place))]
        roots_from_all(t, places.push(place)) == roots_from_all(t, places) + roots_at(
        place,
        roots_from(t, place.path),
    ) by {
        assert(places.push(place).drop_last() =~= places);
    }
}

/// Lines of an older log that cannot be read, are blank or are no document change nothing.
pub proof fn other_lines_change_nothing(lines: Seq<Option<Seq<char>>>, line: Option<Seq<char>>)
    ensures
        line is None || blank(line->0) || document_in(without_marks(line->0)) is None ==> legacy_log(lines.push(line))
            == legacy_log(lines),
{
    assert(lines.push(line).drop_last() =~= lines);
}

} // verus!
