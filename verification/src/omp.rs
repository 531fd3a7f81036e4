//! Where the stores of Oh My Pi stand: by home, by profile, by the base directories
//! of the desktop and by what the environment overrides.
use vstd::prelude::*;
use crate::files::{canonical_path, children, path_exists, path_is_dir, path_is_file, EntryView, FileTable};
use crate::order::{order_texts, sort, sorted, sorted_members, text_order, Ranked};
use crate::path::{below, components, file_name, parent, path_order, path_text, SourcePath};
use crate::scan::{
    default_detection, detected_or_nothing, detection_or_nothing, local_root, note_path, push_root, root_at,
    seen_grows, seen_with, variable, was_seen, ContextView, DetectionResult, RootView, ScanContext, ScanRoot,
    Surroundings, SurroundingsView,
};
use crate::text::{
    chars_of, contains_text, find_from, find_from_sound, has_text, is_white, parted, same_text, split_once, starts,
    starts_with, text_of, trim, trimmed,
};

verus! {

pub struct OmpConnector;

impl Default for OmpConnector {
    fn default() -> (r: OmpConnector)
        ensures
            r == OmpConnector,
    {
        OmpConnector::new()
    }
}

/// Small letters and digits.
pub open spec fn is_plain(c: char) -> bool {
    'a' <= c <= 'z' || '0' <= c <= '9'
}

/// Characters that may stand in the name of a profile.
pub open spec fn is_name_char(c: char) -> bool {
    is_plain(c) || c == '.' || c == '_' || c == '-'
}

/// Names that stand for devices, whatever follows a dot.
pub open spec fn is_device(base: Seq<char>) -> bool {
    ||| base == "con"@
    ||| base == "prn"@
    ||| base == "aux"@
    ||| base == "nul"@
    ||| base.len() == 4 && (starts(base, "com"@) || starts(base, "lpt"@)) && '0' <= base[3] <= '9'
}

/// What stands before the first dot.
pub open spec fn before_dot(name: Seq<char>) -> Seq<char> {
    match parted(name, "."@) {
        Some(p) => p.0,
        None => name,
    }
}

/// Whether a name is one of a profile other than the default.
pub open spec fn is_profile(name: Seq<char>) -> bool {
    &&& 0 < name.len() <= 64
    &&& name != "default"@
    &&& is_plain(name[0])
    &&& name.last() != '.'
    &&& forall|i: int| 0 <= i < name.len() ==> is_name_char(#[trigger] name[i])
    &&& !is_device(before_dot(name))
}

/// The profile that a text names: none for the default, or for no name at all.
pub open spec fn profile_named(text: Seq<char>) -> Option<Seq<char>> {
    if is_profile(trim(text)) {
        Some(trim(text))
    } else {
        None
    }
}

/// The active profile: a setting of its own, even an empty one, shuts out the older
/// one.
pub open spec fn profile_set(variables: Seq<(Seq<char>, Seq<char>)>) -> Option<Seq<char>> {
    match variable(variables, "OMP_PROFILE"@) {
        Some(text) => profile_named(text),
        None => match variable(variables, "PI_PROFILE"@) {
            Some(text) => profile_named(text),
            None => None,
        },
    }
}

/// A profile and its directory.
pub struct Profile {
    pub name: String,
    pub path: SourcePath,
}

#[verifier::ext_equal]
pub struct ProfileView {
    pub name: Seq<char>,
    pub path: Seq<Seq<char>>,
}

impl DeepView for Profile {
    type V = ProfileView;

    open spec fn deep_view(&self) -> ProfileView {
        ProfileView { name: self.name@, path: self.path.deep_view() }
    }
}

impl Ranked for Profile {
    open spec fn rank(a: ProfileView, b: ProfileView) -> int {
        if text_order(a.name, b.name) != 0 {
            text_order(a.name, b.name)
        } else {
            path_order(a.path, b.path)
        }
    }

    fn rank_with(&self, other: &Profile) -> (r: i8) {
        let by_name = order_texts(self.name.as_str(), other.name.as_str());
        assert(Profile::rank(self.deep_view(), other.deep_view()) == if text_order(self.name@, other.name@) != 0 {
            text_order(self.name@, other.name@)
        } else {
            path_order(self.path.deep_view(), other.path.deep_view())
        });
        if by_name != 0 {
            by_name
        } else {
            self.path.rank_with(&other.path)
        }
    }
}

/// The directories among these that are named like profiles.
pub open spec fn profiles_among(t: Seq<EntryView>, paths: Seq<Seq<Seq<char>>>) -> Seq<ProfileView>
    decreases paths.len(),
{
    if paths.len() == 0 {
        Seq::empty()
    } else {
        let front = profiles_among(t, paths.drop_last());
        match profile_at(t, paths.last()) {
            Some(p) => front.push(p),
            None => front,
        }
    }
}

/// The profile that a directory stands for.
pub open spec fn profile_at(t: Seq<EntryView>, path: Seq<Seq<char>>) -> Option<ProfileView> {
    if !path_is_dir(t, path) {
        None
    } else {
        match file_name(path) {
            Some(raw) => match profile_named(raw) {
                Some(name) => Some(ProfileView { name, path }),
                None => None,
            },
            None => None,
        }
    }
}

/// The profiles of a directory, in the order of their names.
pub open spec fn profiles_in(t: Seq<EntryView>, root: Seq<Seq<char>>) -> Seq<ProfileView> {
    sorted(profiles_among(t, children(t, root)), |a: ProfileView, b: ProfileView| Profile::rank(a, b))
}

/// A place where a store may stand, and the profile that it belongs to.
pub type HomeView = (Seq<Seq<char>>, Option<Seq<char>>);

/// The directories of profiles as stores.
pub open spec fn profile_homes(profiles: Seq<ProfileView>) -> Seq<HomeView> {
    profiles.map_values(|p: ProfileView| (p.path, Some(p.name)))
}

/// The agents in the directories of profiles as stores.
pub open spec fn agent_homes(profiles: Seq<ProfileView>) -> Seq<HomeView> {
    profiles.map_values(|p: ProfileView| (below(p.path, "agent"@), Some(p.name)))
}

/// The value of a variable that is not empty.
pub open spec fn filled_variable(variables: Seq<(Seq<char>, Seq<char>)>, name: Seq<char>) -> Option<Seq<char>> {
    match variable(variables, name) {
        Some(text) => if text.len() == 0 {
            None
        } else {
            Some(text)
        },
        None => None,
    }
}

/// A text without the separators that it starts with.
pub open spec fn without_separators(s: Seq<char>) -> Seq<char>
    decreases s.len(),
{
    if s.len() > 0 && (s[0] == '/' || s[0] == '\\') {
        without_separators(s.skip(1))
    } else {
        s
    }
}

/// The directory of sessions that the environment names.
pub open spec fn named_sessions(variables: Seq<(Seq<char>, Seq<char>)>) -> Seq<HomeView> {
    match filled_variable(variables, "PI_CODING_AGENT_SESSION_DIR"@) {
        Some(text) => seq![(components(text), profile_set(variables))],
        None => Seq::empty(),
    }
}

/// The agent that the environment names, unless a profile is active.
pub open spec fn named_agent(variables: Seq<(Seq<char>, Seq<char>)>) -> Seq<HomeView> {
    match (profile_set(variables), filled_variable(variables, "PI_CODING_AGENT_DIR"@)) {
        (None, Some(text)) => seq![(components(text), None)],
        _ => Seq::empty(),
    }
}

/// The directory of settings under the user's home.
pub open spec fn settings_of(home: Seq<Seq<char>>, variables: Seq<(Seq<char>, Seq<char>)>) -> Seq<Seq<char>> {
    below(
        home,
        match filled_variable(variables, "PI_CONFIG_DIR"@) {
            Some(text) => without_separators(text),
            None => ".omp"@,
        },
    )
}

/// The stores under the user's home: the default one, and those of profiles.
pub open spec fn home_stores(
    t: Seq<EntryView>,
    home: Option<Seq<Seq<char>>>,
    variables: Seq<(Seq<char>, Seq<char>)>,
) -> Seq<HomeView> {
    match home {
        Some(home) => {
            let base = settings_of(home, variables);
            seq![(below(base, "agent"@), None)] + agent_homes(profiles_in(t, below(base, "profiles"@)))
        },
        None => Seq::empty(),
    }
}

/// The stores in the base directory of the desktop, if they are there: those of
/// profiles, and behind them the one that holds them all.
pub open spec fn desktop_stores(t: Seq<EntryView>, variables: Seq<(Seq<char>, Seq<char>)>) -> Seq<HomeView> {
    match filled_variable(variables, "XDG_DATA_HOME"@) {
        Some(text) => {
            let app = below(components(text), "omp"@);
            if path_is_dir(t, app) {
                profile_homes(profiles_in(t, below(app, "profiles"@))).push((app, None))
            } else {
                Seq::empty()
            }
        },
        None => Seq::empty(),
    }
}

/// All places where a store may stand, the more special ones first.
pub open spec fn homes_from(
    t: Seq<EntryView>,
    home: Option<Seq<Seq<char>>>,
    variables: Seq<(Seq<char>, Seq<char>)>,
) -> Seq<HomeView> {
    named_sessions(variables) + named_agent(variables) + home_stores(t, home, variables) + desktop_stores(
        t,
        variables,
    )
}

/// Whether a path looks like a store.
pub open spec fn is_store(path: Seq<Seq<char>>) -> bool {
    ||| file_name(path) == Some("sessions"@)
    ||| file_name(path) == Some("omp"@)
    ||| has_text(path_text(path), ".omp"@)
}

/// Where a store may stand under a given place.
pub open spec fn candidates(t: Seq<EntryView>, root: Seq<Seq<char>>) -> Seq<HomeView> {
    (seq![(root, None), (below(root, ".omp/agent"@), None), (below(root, ".omp/agent/sessions"@), None)]
        + agent_homes(profiles_in(t, below(root, ".omp/profiles"@))) + profile_homes(
        profiles_in(t, below(root, ".local/share/omp/profiles"@)),
    )).push((below(root, ".local/share/omp"@), None))
}

/// A root with the profile that it belongs to.
pub type TaggedView = (RootView, Option<Seq<char>>);

/// The candidates that are there and are known to be, or look like, stores.
pub open spec fn kept_candidates(t: Seq<EntryView>, root: RootView, all: Seq<HomeView>) -> Seq<TaggedView>
    decreases all.len(),
{
    if all.len() == 0 {
        Seq::empty()
    } else {
        let front = kept_candidates(t, root, all.drop_last());
        let c = all.last();
        if path_exists(t, c.0) && (c.1 is Some || is_store(c.0)) {
            front.push((root_at(root, c.0), c.1))
        } else {
            front
        }
    }
}

pub open spec fn stores_near(t: Seq<EntryView>, places: Seq<RootView>) -> Seq<TaggedView>
    decreases places.len(),
{
    if places.len() == 0 {
        Seq::empty()
    } else {
        stores_near(t, places.drop_last()) + kept_candidates(t, places.last(), candidates(t, places.last().path))
    }
}

/// Places on this machine as roots.
pub open spec fn local_tagged(homes: Seq<HomeView>) -> Seq<TaggedView> {
    homes.map_values(|h: HomeView| (local_root(h.0), h.1))
}

/// All the stores that a scan may read.
pub open spec fn all_stores(t: Seq<EntryView>, ctx: ContextView, s: SurroundingsView) -> Seq<TaggedView> {
    let own = seq![(local_root(ctx.data_dir), None)];
    if default_detection(ctx) {
        if has_text(path_text(ctx.data_dir), ".omp/agent"@) {
            own
        } else {
            local_tagged(homes_from(t, s.home, s.variables))
        }
    } else {
        (if is_store(ctx.data_dir) {
            own
        } else {
            Seq::empty()
        }) + stores_near(t, ctx.scan_roots)
    }
}

/// The directory that a root stands for: of a file, the one that holds it.
pub open spec fn directory_of(t: Seq<EntryView>, root: RootView) -> RootView {
    if path_is_file(t, root.path) {
        match parent(root.path) {
            Some(p) => root_at(root, p),
            None => root,
        }
    } else {
        root
    }
}

/// The places seen so far, and the stores that were kept.
#[verifier::ext_equal]
pub struct KeptView {
    pub seen: Seq<Seq<Seq<char>>>,
    pub kept: Seq<TaggedView>,
}

/// A store is kept unless it was reached before, by whatever path.
pub open spec fn after_store(t: Seq<EntryView>, k: KeptView, store: TaggedView) -> KeptView {
    let root = directory_of(t, store.0);
    let key = canonical_path(t, root.path);
    KeptView {
        seen: seen_with(k.seen, key),
        kept: if was_seen(k.seen, key) {
            k.kept
        } else {
            k.kept.push((root, store.1))
        },
    }
}

pub open spec fn kept_stores(t: Seq<EntryView>, all: Seq<TaggedView>) -> KeptView
    decreases all.len(),
{
    if all.len() == 0 {
        KeptView { seen: Seq::empty(), kept: Seq::empty() }
    } else {
        after_store(t, kept_stores(t, all.drop_last()), all.last())
    }
}

/// The stores that a scan reads.
pub open spec fn omp_roots(t: Seq<EntryView>, ctx: ContextView, s: SurroundingsView) -> Seq<TaggedView> {
    kept_stores(t, all_stores(t, ctx, s)).kept
}

/// The places that a scan reads, each with its profile.
pub open spec fn scanned_homes(t: Seq<EntryView>, ctx: ContextView, s: SurroundingsView) -> Seq<HomeView> {
    omp_roots(t, ctx, s).map_values(|r: TaggedView| (r.0.path, r.1))
}

/// The roots under which a scan finds its files.
pub open spec fn discovered_roots(t: Seq<EntryView>, ctx: ContextView, s: SurroundingsView) -> Seq<RootView> {
    omp_roots(t, ctx, s).map_values(|r: TaggedView| r.0)
}

fn name_ok(text: &str) -> (r: bool)
    ensures
        r == is_profile(text@),
{
    let name = chars_of(text);
    let n = name.len();
    if n == 0 || n > 64 || same_text(text, "default") || name[n - 1] == '.' {
        return false;
    }
    let first = name[0];
    if !('a' <= first && first <= 'z' || '0' <= first && first <= '9') {
        return false;
    }
    let mut i: usize = 0;
    while i < name.len()
        invariant
            i <= name@.len(),
            name@ == text@,
            forall|k: int| 0 <= k < i ==> is_name_char(#[trigger] name@[k]),
        decreases name.len() - i,
    {
        let c = name[i];
        if !('a' <= c && c <= 'z' || '0' <= c && c <= '9' || c == '.' || c == '_' || c == '-') {
            assert(!is_name_char(name@[i as int]));
            return false;
        }
        i = i + 1;
    }
    let base = match split_once(text, ".") {
        Some((base, _)) => base,
        None => text.to_owned(),
    };
    let b = base.as_str();
    let chars = chars_of(b);
    let device = same_text(b, "con") || same_text(b, "prn") || same_text(b, "aux") || same_text(b, "nul") || chars.len()
        == 4 && (starts_with(b, "com") || starts_with(b, "lpt")) && '0' <= chars[3] && chars[3] <= '9';
    !device
}

fn strip_separators(text: &str) -> (r: String)
    ensures
        r@ == without_separators(text@),
{
    let chars = chars_of(text);
    let ghost s = text@;
    let mut i: usize = 0;
    assert(s.skip(0) =~= s);
    while i < chars.len() && (chars[i] == '/' || chars[i] == '\\')
        invariant
            i <= chars@.len(),
            chars@ == s,
            s == text@,
            without_separators(s) == without_separators(s.skip(i as int)),
        decreases chars.len() - i,
    {
        assert(s.skip(i as int).skip(1) =~= s.skip(i + 1));
        i = i + 1;
    }
    assert(i < s.len() ==> s.skip(i as int)[0] == s[i as int]);
    assert(s.subrange(i as int, s.len() as int) =~= s.skip(i as int));
    text_of(&chars, i, chars.len())
}

fn filled<'a>(env: &'a Surroundings, name: &str) -> (r: Option<&'a str>)
    ensures
        r.deep_view() == filled_variable(env.deep_view().variables, name@),
{
    match env.variable(name) {
        Some(text) => if text.is_empty() {
            None
        } else {
            Some(text)
        },
        None => None,
    }
}

fn push_home(homes: &mut Vec<(SourcePath, Option<String>)>, path: SourcePath, profile: Option<String>)
    ensures
        final(homes).deep_view() == old(homes).deep_view().push((path.deep_view(), profile.deep_view())),
{
    let ghost before = homes.deep_view();
    let ghost one = (path.deep_view(), profile.deep_view());
    homes.push((path, profile));
    assert(homes.deep_view() =~= before.push(one));
}

fn push_profile_homes(homes: &mut Vec<(SourcePath, Option<String>)>, profiles: &Vec<Profile>)
    ensures
        final(homes).deep_view() == old(homes).deep_view() + profile_homes(profiles.deep_view()),
{
    let ghost start = homes.deep_view();
    let ghost wanted = profile_homes(profiles.deep_view());
    let mut i: usize = 0;
    assert(homes.deep_view() =~= start + wanted.take(0));
    while i < profiles.len()
        invariant
            i <= profiles@.len(),
            wanted == profile_homes(profiles.deep_view()),
            homes.deep_view() == start + wanted.take(i as int),
        decreases profiles.len() - i,
    {
        let p = &profiles[i];
        assert(wanted[i as int] == (p.path.deep_view(), Some(p.name@)));
        push_home(homes, p.path.copy(), Some(p.name.clone()));
        assert(homes.deep_view() =~= start + wanted.take(i + 1));
        i = i + 1;
    }
    assert(wanted.take(wanted.len() as int) =~= wanted);
}

fn push_agent_homes(homes: &mut Vec<(SourcePath, Option<String>)>, profiles: &Vec<Profile>)
    ensures
        final(homes).deep_view() == old(homes).deep_view() + agent_homes(profiles.deep_view()),
{
    let ghost start = homes.deep_view();
    let ghost wanted = agent_homes(profiles.deep_view());
    let mut i: usize = 0;
    assert(homes.deep_view() =~= start + wanted.take(0));
    while i < profiles.len()
        invariant
            i <= profiles@.len(),
            wanted == agent_homes(profiles.deep_view()),
            homes.deep_view() == start + wanted.take(i as int),
        decreases profiles.len() - i,
    {
        let p = &profiles[i];
        assert(wanted[i as int] == (below(p.path.deep_view(), "agent"@), Some(p.name@)));
        push_home(homes, p.path.join("agent"), Some(p.name.clone()));
        assert(homes.deep_view() =~= start + wanted.take(i + 1));
        i = i + 1;
    }
    assert(wanted.take(wanted.len() as int) =~= wanted);
}

fn push_tagged(stores: &mut Vec<(ScanRoot, Option<String>)>, root: ScanRoot, profile: Option<String>)
    ensures
        final(stores).deep_view() == old(stores).deep_view().push((root.deep_view(), profile.deep_view())),
{
    let ghost before = stores.deep_view();
    let ghost one = (root.deep_view(), profile.deep_view());
    stores.push((root, profile));
    assert(stores.deep_view() =~= before.push(one));
}

impl OmpConnector {
    pub fn new() -> (r: OmpConnector)
        ensures
            r == OmpConnector,
    {
        OmpConnector
    }

    /// What the registry of agents found, or that nothing was found.
    pub fn detect(&self, found: Option<DetectionResult>) -> (r: DetectionResult)
        ensures
            r.deep_view() == detected_or_nothing(found.deep_view()),
    {
        detection_or_nothing(found)
    }

    /// The profile that a text names.
    pub fn normalize_profile_name(profile: &str) -> (r: Option<String>)
        ensures
            r.deep_view() == profile_named(profile@),
    {
        let name = trimmed(profile);
        if name_ok(name.as_str()) {
            Some(name)
        } else {
            None
        }
    }

    /// The active profile.
    pub fn active_profile(env: &Surroundings) -> (r: Option<String>)
        ensures
            r.deep_view() == profile_set(env.deep_view().variables),
    {
        match env.variable("OMP_PROFILE") {
            Some(text) => OmpConnector::normalize_profile_name(text),
            None => match env.variable("PI_PROFILE") {
                Some(text) => OmpConnector::normalize_profile_name(text),
                None => None,
            },
        }
    }

    /// The profiles of a directory, in the order of their names.
    pub fn enumerate_profiles(files: &FileTable, root: &SourcePath) -> (r: Vec<Profile>)
        ensures
            r.deep_view() == profiles_in(files.deep_view(), root.deep_view()),
    {
        let ghost t = files.deep_view();
        let list = files.list(root);
        let ghost all = list.deep_view();
        let mut out: Vec<Profile> = Vec::new();
        let mut i: usize = 0;
        assert(all.take(0) =~= Seq::empty());
        assert(out.deep_view() =~= Seq::empty());
        while i < list.len()
            invariant
                i <= list@.len(),
                t == files.deep_view(),
                all == list.deep_view(),
                out.deep_view() == profiles_among(t, all.take(i as int)),
            decreases list.len() - i,
        {
            let path = &list[i];
            let ghost before = out.deep_view();
            assert(all.take(i + 1).drop_last() =~= all.take(i as int));
            assert(all.take(i + 1).last() == path.deep_view());
            if files.is_dir(path) {
                if let Some(raw) = path.file_name() {
                    if let Some(name) = OmpConnector::normalize_profile_name(raw) {
                        let p = Profile { name, path: path.copy() };
                        let ghost made = p.deep_view();
                        out.push(p);
                        assert(out.deep_view() =~= before.push(made));
                    }
                }
            }
            i = i + 1;
        }
        assert(all.take(all.len() as int) =~= all);
        sort(out)
    }

    /// All places where a store may stand, each with its profile, the more special
    /// ones first.
    pub fn v18_roots_from(home: Option<&SourcePath>, env: &Surroundings, files: &FileTable) -> (r: Vec<
        (SourcePath, Option<String>),
    >)
        ensures
            r.deep_view() == homes_from(files.deep_view(), home.deep_view(), env.deep_view().variables),
    {
        let ghost t = files.deep_view();
        let ghost vars = env.deep_view().variables;
        let mut out: Vec<(SourcePath, Option<String>)> = Vec::new();
        assert(out.deep_view() =~= Seq::empty());
        let profile = OmpConnector::active_profile(env);
        let named = profile.is_some();
        if let Some(text) = filled(env, "PI_CODING_AGENT_SESSION_DIR") {
            push_home(&mut out, SourcePath::new(text), profile);
        }
        assert(out.deep_view() =~= named_sessions(vars));
        if !named {
            if let Some(text) = filled(env, "PI_CODING_AGENT_DIR") {
                push_home(&mut out, SourcePath::new(text), None);
            }
        }
        assert(out.deep_view() =~= named_sessions(vars) + named_agent(vars));
        let ghost before = out.deep_view();
        if let Some(home) = home {
            let base = match filled(env, "PI_CONFIG_DIR") {
                Some(text) => home.join(strip_separators(text).as_str()),
                None => home.join(".omp"),
            };
            push_home(&mut out, base.join("agent"), None);
            push_agent_homes(&mut out, &OmpConnector::enumerate_profiles(files, &base.join("profiles")));
        }
        assert(out.deep_view() =~= before + home_stores(t, home.deep_view(), vars));
        let ghost before = out.deep_view();
        if let Some(text) = filled(env, "XDG_DATA_HOME") {
            let app = SourcePath::new(text).join("omp");
            if files.is_dir(&app) {
                push_profile_homes(&mut out, &OmpConnector::enumerate_profiles(files, &app.join("profiles")));
                push_home(&mut out, app, None);
            }
        }
        assert(out.deep_view() =~= before + desktop_stores(t, vars));
        out
    }

    /// Whether a path looks like a store.
    pub fn looks_like_root(path: &SourcePath) -> (r: bool)
        ensures
            r == is_store(path.deep_view()),
    {
        path.is_named("sessions") || path.is_named("omp") || contains_text(path.text().as_str(), ".omp")
    }

    /// Where a store may stand under a given place.
    pub fn explicit_root_candidates(files: &FileTable, root: &SourcePath) -> (r: Vec<(SourcePath, Option<String>)>)
        ensures
            r.deep_view() == candidates(files.deep_view(), root.deep_view()),
    {
        let mut out: Vec<(SourcePath, Option<String>)> = Vec::new();
        assert(out.deep_view() =~= Seq::empty());
        push_home(&mut out, root.copy(), None);
        push_home(&mut out, root.join(".omp/agent"), None);
        push_home(&mut out, root.join(".omp/agent/sessions"), None);
        push_agent_homes(&mut out, &OmpConnector::enumerate_profiles(files, &root.join(".omp/profiles")));
        push_profile_homes(
            &mut out,
            &OmpConnector::enumerate_profiles(files, &root.join(".local/share/omp/profiles")),
        );
        push_home(&mut out, root.join(".local/share/omp"), None);
        assert(out.deep_view() =~= candidates(files.deep_view(), root.deep_view()));
        out
    }

    fn push_kept(files: &FileTable, root: &ScanRoot, all: &Vec<(SourcePath, Option<String>)>, out: &mut Vec<
        (ScanRoot, Option<String>),
    >)
        ensures
            final(out).deep_view() == old(out).deep_view() + kept_candidates(
                files.deep_view(),
                root.deep_view(),
                all.deep_view(),
            ),
    {
        let ghost t = files.deep_view();
        let ghost given = all.deep_view();
        let ghost start = out.deep_view();
        let mut i: usize = 0;
        assert(given.take(0) =~= Seq::empty());
        assert(start + kept_candidates(t, root.deep_view(), given.take(0)) =~= start);
        while i < all.len()
            invariant
                i <= all@.len(),
                t == files.deep_view(),
                given == all.deep_view(),
                out.deep_view() == start + kept_candidates(t, root.deep_view(), given.take(i as int)),
            decreases all.len() - i,
        {
            let path = &all[i].0;
            assert(given.take(i + 1).drop_last() =~= given.take(i as int));
            assert(given.take(i + 1).last() == (path.deep_view(), all@[i as int].1.deep_view()));
            if files.has(path) && (all[i].1.is_some() || OmpConnector::looks_like_root(path)) {
                push_tagged(out, root.with_path(path.copy()), all[i].1.clone());
            }
            assert(out.deep_view() =~= start + kept_candidates(t, root.deep_view(), given.take(i + 1)));
            i = i + 1;
        }
        assert(given.take(given.len() as int) =~= given);
    }

    fn list_stores(ctx: &ScanContext, surroundings: &Surroundings, files: &FileTable) -> (r: Vec<
        (ScanRoot, Option<String>),
    >)
        ensures
            r.deep_view() == all_stores(files.deep_view(), ctx.deep_view(), surroundings.deep_view()),
    {
        let ghost t = files.deep_view();
        let mut out: Vec<(ScanRoot, Option<String>)> = Vec::new();
        assert(out.deep_view() =~= Seq::empty());
        if ctx.use_default_detection() {
            if contains_text(ctx.data_dir.text().as_str(), ".omp/agent") {
                push_tagged(&mut out, ScanRoot::local(ctx.data_dir.copy()), None);
                assert(out.deep_view() =~= seq![(local_root(ctx.deep_view().data_dir), None)]);
                return out;
            }
            let homes = OmpConnector::v18_roots_from(surroundings.home.as_ref(), surroundings, files);
            let ghost wanted = local_tagged(homes.deep_view());
            let mut i: usize = 0;
            assert(out.deep_view() =~= wanted.take(0));
            while i < homes.len()
                invariant
                    i <= homes@.len(),
                    wanted == local_tagged(homes.deep_view()),
                    out.deep_view() == wanted.take(i as int),
                decreases homes.len() - i,
            {
                assert(wanted[i as int] == (
                    local_root(homes@[i as int].0.deep_view()),
                    homes@[i as int].1.deep_view(),
                ));
                push_tagged(&mut out, ScanRoot::local(homes[i].0.copy()), homes[i].1.clone());
                assert(out.deep_view() =~= wanted.take(i + 1));
                i = i + 1;
            }
            assert(wanted.take(wanted.len() as int) =~= wanted);
            return out;
        }
        if OmpConnector::looks_like_root(&ctx.data_dir) {
            push_tagged(&mut out, ScanRoot::local(ctx.data_dir.copy()), None);
        }
        let ghost start = out.deep_view();
        assert(start =~= if is_store(ctx.deep_view().data_dir) {
            seq![(local_root(ctx.deep_view().data_dir), None::<Seq<char>>)]
        } else {
            Seq::empty()
        });
        let ghost places = ctx.scan_roots.deep_view();
        let mut i: usize = 0;
        assert(places.take(0) =~= Seq::empty());
        assert(start + stores_near(t, places.take(0)) =~= start);
        while i < ctx.scan_roots.len()
            invariant
                i <= ctx.scan_roots@.len(),
                t == files.deep_view(),
                places == ctx.scan_roots.deep_view(),
                out.deep_view() == start + stores_near(t, places.take(i as int)),
            decreases ctx.scan_roots.len() - i,
        {
            let place = &ctx.scan_roots[i];
            assert(places.take(i + 1).drop_last() =~= places.take(i as int));
            assert(places.take(i + 1).last() == place.deep_view());
            let near = OmpConnector::explicit_root_candidates(files, &place.path);
            OmpConnector::push_kept(files, place, &near, &mut out);
            assert(out.deep_view() =~= start + stores_near(t, places.take(i + 1)));
            i = i + 1;
        }
        assert(places.take(places.len() as int) =~= places);
        out
    }

    /// The stores that a scan reads, each with its profile.
    pub fn source_roots(ctx: &ScanContext, surroundings: &Surroundings, files: &FileTable) -> (r: Vec<
        (ScanRoot, Option<String>),
    >)
        ensures
            r.deep_view() == omp_roots(files.deep_view(), ctx.deep_view(), surroundings.deep_view()),
    {
        let ghost t = files.deep_view();
        let stores = OmpConnector::list_stores(ctx, surroundings, files);
        let ghost all = stores.deep_view();
        let mut seen: Vec<SourcePath> = Vec::new();
        let mut kept: Vec<(ScanRoot, Option<String>)> = Vec::new();
        let mut i: usize = 0;
        assert(all.take(0) =~= Seq::empty());
        assert(seen.deep_view() =~= Seq::empty());
        assert(kept.deep_view() =~= Seq::empty());
        while i < stores.len()
            invariant
                i <= stores@.len(),
                t == files.deep_view(),
                all == stores.deep_view(),
                kept_stores(t, all.take(i as int)) == (KeptView { seen: seen.deep_view(), kept: kept.deep_view() }),
            decreases stores.len() - i,
        {
            let root = &stores[i].0;
            assert(all.take(i + 1).drop_last() =~= all.take(i as int));
            assert(all.take(i + 1).last() == (root.deep_view(), stores@[i as int].1.deep_view()));
            let directory = if files.is_file(&root.path) {
                match root.path.parent() {
                    Some(p) => root.with_path(p),
                    None => root.copy(),
                }
            } else {
                root.copy()
            };
            assert(directory.deep_view() == directory_of(t, root.deep_view()));
            if note_path(&mut seen, files.canonical(&directory.path)) {
                push_tagged(&mut kept, directory, stores[i].1.clone());
            }
            i = i + 1;
        }
        assert(all.take(all.len() as int) =~= all);
        kept
    }

    /// The places that a scan reads, each with its profile.
    pub fn scan_homes(&self, ctx: &ScanContext, surroundings: &Surroundings, files: &FileTable) -> (r: Vec<
        (SourcePath, Option<String>),
    >)
        ensures
            r.deep_view() == scanned_homes(files.deep_view(), ctx.deep_view(), surroundings.deep_view()),
    {
        let roots = OmpConnector::source_roots(ctx, surroundings, files);
        let ghost wanted = scanned_homes(files.deep_view(), ctx.deep_view(), surroundings.deep_view());
        let mut out: Vec<(SourcePath, Option<String>)> = Vec::new();
        let mut i: usize = 0;
        assert(out.deep_view() =~= wanted.take(0));
        while i < roots.len()
            invariant
                i <= roots@.len(),
                wanted == roots.deep_view().map_values(|r: TaggedView| (r.0.path, r.1)),
                out.deep_view() == wanted.take(i as int),
            decreases roots.len() - i,
        {
            assert(wanted[i as int] == (roots@[i as int].0.path.deep_view(), roots@[i as int].1.deep_view()));
            push_home(&mut out, roots[i].0.path.copy(), roots[i].1.clone());
            assert(out.deep_view() =~= wanted.take(i + 1));
            i = i + 1;
        }
        assert(wanted.take(wanted.len() as int) =~= wanted);
        out
    }

    /// The roots under which a scan finds its files, with where they come from.
    pub fn discovery_roots(&self, ctx: &ScanContext, surroundings: &Surroundings, files: &FileTable) -> (r: Vec<
        ScanRoot,
    >)
        ensures
            r.deep_view() == discovered_roots(files.deep_view(), ctx.deep_view(), surroundings.deep_view()),
    {
        let roots = OmpConnector::source_roots(ctx, surroundings, files);
        let ghost wanted = discovered_roots(files.deep_view(), ctx.deep_view(), surroundings.deep_view());
        let mut out: Vec<ScanRoot> = Vec::new();
        let mut i: usize = 0;
        assert(out.deep_view() =~= wanted.take(0));
        while i < roots.len()
            invariant
                i <= roots@.len(),
                wanted == roots.deep_view().map_values(|r: TaggedView| r.0),
                out.deep_view() == wanted.take(i as int),
            decreases roots.len() - i,
        {
            assert(wanted[i as int] == roots@[i as int].0.deep_view());
            push_root(&mut out, roots[i].0.copy());
            assert(out.deep_view() =~= wanted.take(i + 1));
            i = i + 1;
        }
        assert(wanted.take(wanted.len() as int) =~= wanted);
        out
    }
}

proof fn trimmed_stays(s: Seq<char>)
    requires
        s.len() > 0,
        !is_white(s[0]),
        !is_white(s.last()),
    ensures
        trim(s) == s,
{
}

/// The name of a profile is one already: naming it again gives the same.
pub proof fn profile_names_are_stable(text: Seq<char>)
    ensures
        profile_named(text) matches Some(name) ==> profile_named(name) == Some(name),
{
    if let Some(name) = profile_named(text) {
        assert(is_name_char(name[0]));
        assert(is_name_char(name[name.len() - 1]));
        trimmed_stays(name);
    }
}

/// A setting of its own, even an empty one, shuts out the older setting.
pub proof fn own_setting_shuts_out_the_older(
    a: Seq<(Seq<char>, Seq<char>)>,
    b: Seq<(Seq<char>, Seq<char>)>,
)
    requires
        variable(a, "OMP_PROFILE"@) is Some,
        variable(a, "OMP_PROFILE"@) == variable(b, "OMP_PROFILE"@),
    ensures
        profile_set(a) == profile_set(b),
        variable(a, "OMP_PROFILE"@) == Some(Seq::<char>::empty()) ==> profile_set(a) is None,
{
    if variable(a, "OMP_PROFILE"@) == Some(Seq::<char>::empty()) {
        assert(trim(Seq::<char>::empty()).len() == 0);
    }
}

/// The agent that the environment names is passed over while a profile is active.
pub proof fn named_agent_gives_way_to_a_profile(variables: Seq<(Seq<char>, Seq<char>)>)
    requires
        profile_set(variables) is Some,
    ensures
        named_agent(variables).len() == 0,
{
}

/// The directory of sessions that the environment names comes first, with the
/// active profile.
pub proof fn named_sessions_come_first(
    t: Seq<EntryView>,
    home: Option<Seq<Seq<char>>>,
    variables: Seq<(Seq<char>, Seq<char>)>,
)
    requires
        filled_variable(variables, "PI_CODING_AGENT_SESSION_DIR"@) is Some,
    ensures
        homes_from(t, home, variables).len() > 0,
        homes_from(t, home, variables)[0] == (
            components(filled_variable(variables, "PI_CODING_AGENT_SESSION_DIR"@)->0),
            profile_set(variables),
        ),
{
}

/// Of the stores in the base directory of the desktop, those of profiles come before
/// the one that holds them all.
pub proof fn profiles_come_before_the_app(t: Seq<EntryView>, variables: Seq<(Seq<char>, Seq<char>)>)
    ensures
        forall|i: int|
            0 <= i < desktop_stores(t, variables).len() ==> ((#[trigger] desktop_stores(t, variables)[i]).1 is None
                <==> i == desktop_stores(t, variables).len() - 1),
{
}

/// Whatever is listed as a profile is a directory with the name of one.
pub proof fn listed_profiles_are_named(t: Seq<EntryView>, root: Seq<Seq<char>>)
    ensures
        forall|i: int|
            0 <= i < profiles_in(t, root).len() ==> is_profile((#[trigger] profiles_in(t, root)[i]).name) && path_is_dir(
                t,
                profiles_in(t, root)[i].path,
            ),
{
    let found = profiles_among(t, children(t, root));
    found_profiles_are_named(t, children(t, root));
    sorted_members(found, |a: ProfileView, b: ProfileView| Profile::rank(a, b));
    assert forall|i: int| 0 <= i < profiles_in(t, root).len() implies is_profile(
        (#[trigger] profiles_in(t, root)[i]).name,
    ) && path_is_dir(t, profiles_in(t, root)[i].path) by {
        assert(found.contains(profiles_in(t, root)[i]));
    }
}

proof fn found_profiles_are_named(t: Seq<EntryView>, paths: Seq<Seq<Seq<char>>>)
    ensures
        forall|i: int|
            0 <= i < profiles_among(t, paths).len() ==> is_profile((#[trigger] profiles_among(t, paths)[i]).name)
                && path_is_dir(t, profiles_among(t, paths)[i].path),
    decreases paths.len(),
{
    if paths.len() > 0 {
        found_profiles_are_named(t, paths.drop_last());
        let front = profiles_among(t, paths.drop_last());
        let all = profiles_among(t, paths);
        assert forall|i: int| 0 <= i < all.len() implies is_profile((#[trigger] all[i]).name) && path_is_dir(
            t,
            all[i].path,
        ) by {
            if i < front.len() {
                assert(all[i] == front[i]);
            }
        }
    }
}

proof fn kept_candidates_are_there(t: Seq<EntryView>, root: RootView, all: Seq<HomeView>)
    ensures
        forall|i: int|
            0 <= i < kept_candidates(t, root, all).len() ==> path_exists(
                t,
                (#[trigger] kept_candidates(t, root, all)[i]).0.path,
            ) && kept_candidates(t, root, all)[i].0.origin == root.origin && kept_candidates(
                t,
                root,
                all,
            )[i].0.platform == root.platform,
    decreases all.len(),
{
    if all.len() > 0 {
        kept_candidates_are_there(t, root, all.drop_last());
    }
}

/// Given places make up no stores: each that is found under them is there.
pub proof fn stores_near_are_there(t: Seq<EntryView>, places: Seq<RootView>)
    ensures
        forall|i: int|
            0 <= i < stores_near(t, places).len() ==> path_exists(t, (#[trigger] stores_near(t, places)[i]).0.path),
    decreases places.len(),
{
    if places.len() > 0 {
        stores_near_are_there(t, places.drop_last());
        let front = stores_near(t, places.drop_last());
        let last = kept_candidates(t, places.last(), candidates(t, places.last().path));
        kept_candidates_are_there(t, places.last(), candidates(t, places.last().path));
        assert forall|i: int| 0 <= i < stores_near(t, places).len() implies path_exists(
            t,
            (#[trigger] stores_near(t, places)[i]).0.path,
        ) by {
            if i < front.len() {
                assert(stores_near(t, places)[i] == front[i]);
            } else {
                assert(stores_near(t, places)[i] == last[i - front.len()]);
            }
        }
    }
}

/// No place is kept twice.
pub open spec fn kept_are_distinct(t: Seq<EntryView>, k: KeptView) -> bool {
    &&& forall|i: int| 0 <= i < k.kept.len() ==> was_seen(k.seen, canonical_path(t, (#[trigger] k.kept[i]).0.path))
    &&& forall|i: int, j: int|
        0 <= i < j < k.kept.len() ==> canonical_path(t, (#[trigger] k.kept[i]).0.path) != canonical_path(
            t,
            (#[trigger] k.kept[j]).0.path,
        )
}

/// No store is read twice, by whatever path it can be reached; the first to name it
/// says what profile it belongs to.
pub proof fn kept_stores_are_distinct(t: Seq<EntryView>, all: Seq<TaggedView>)
    ensures
        kept_are_distinct(t, kept_stores(t, all)),
    decreases all.len(),
{
    if all.len() > 0 {
        kept_stores_are_distinct(t, all.drop_last());
        let before = kept_stores(t, all.drop_last());
        let after = kept_stores(t, all);
        let key = canonical_path(t, directory_of(t, all.last().0).path);
        assert forall|i: int| 0 <= i < after.kept.len() implies was_seen(
            after.seen,
            canonical_path(t, (#[trigger] after.kept[i]).0.path),
        ) by {
            seen_grows(before.seen, key, canonical_path(t, after.kept[i].0.path));
            if i < before.kept.len() {
                assert(after.kept[i] == before.kept[i]);
            }
        }
        assert forall|i: int, j: int| 0 <= i < j < after.kept.len() implies canonical_path(
            t,
            (#[trigger] after.kept[i]).0.path,
        ) != canonical_path(t, (#[trigger] after.kept[j]).0.path) by {
            assert(after.kept[i] == before.kept[i]);
            if j < before.kept.len() {
                assert(after.kept[j] == before.kept[j]);
            }
        }
    }
}

/// The name of a profile is made of small letters, digits, dots, lines and hyphens, begins
/// with a letter or digit, ends in no dot, is not too long, and is neither the default's nor
/// that of a device. A text names the profile that it is without the space around it.
pub proof fn profiles_are_named_plainly(name: Seq<char>, i: int)
    ensures
        profile_named(name) matches Some(p) ==> p == trim(name),
        is_profile(name) && 0 <= i < name.len() ==> ('a' <= name[i] <= 'z' || '0' <= name[i] <= '9' || name[i] == '.'
            || name[i] == '_' || name[i] == '-'),
        is_profile(name) ==> 1 <= name.len() <= 64 && name != "default"@ && name.last() != '.' && name[0] != '.' && name[0]
            != '-' && name[0] != '_',
        0 < name.len() <= 64 && name.len() != 3 && name.len() != 4 && name != "default"@ && (forall|k: int|
            0 <= k < name.len() ==> 'a' <= (#[trigger] name[k]) <= 'z') ==> is_profile(name),
        is_profile(trim(name)) ==> profile_named(name) == Some(trim(name)),
{
    if 0 < name.len() <= 64 && name.len() != 3 && name.len() != 4 && name != "default"@ && (forall|k: int|
        0 <= k < name.len() ==> 'a' <= (#[trigger] name[k]) <= 'z') {
        reveal_strlit(".");
        reveal_strlit("con");
        reveal_strlit("prn");
        reveal_strlit("aux");
        reveal_strlit("nul");
        find_from_sound(name, "."@, 0);
        if let Some(at) = find_from(name, "."@, 0) {
            assert(name.subrange(at, at + 1)[0] == name[at]);
            assert("."@[0] == '.');
            assert(false);
        }
        assert(before_dot(name) == name);
        assert("con"@.len() == 3 && "prn"@.len() == 3 && "aux"@.len() == 3 && "nul"@.len() == 3);
        assert(is_plain(name[0]));
        assert(name[name.len() - 1] == name.last());
    }
}

/// The stores of the user are, in this order: the directory of sessions and the agent that
/// the environment names; the agent below the settings of the home, then those of profiles;
/// and those of the desktop.
pub proof fn stores_come_in_order(
    t: Seq<EntryView>,
    home: Seq<Seq<char>>,
    variables: Seq<(Seq<char>, Seq<char>)>,
    text: Seq<char>,
)
    ensures
        homes_from(t, Some(home), variables) == named_sessions(variables) + named_agent(variables) + home_stores(
            t,
            Some(home),
            variables,
        ) + desktop_stores(t, variables),
        filled_variable(variables, "PI_CODING_AGENT_SESSION_DIR"@) is None ==> named_sessions(variables).len() == 0,
        profile_set(variables) is None && filled_variable(variables, "PI_CODING_AGENT_DIR"@) == Some(text) ==> named_agent(
            variables,
        ) == seq![(components(text), None::<Seq<char>>)],
        filled_variable(variables, "PI_CODING_AGENT_DIR"@) is None ==> named_agent(variables).len() == 0,
        filled_variable(variables, "PI_CONFIG_DIR"@) is None ==> home_stores(t, Some(home), variables)[0] == (
            below(below(home, ".omp"@), "agent"@),
            None::<Seq<char>>,
        ),
        filled_variable(variables, "PI_CONFIG_DIR"@) == Some(text) ==> home_stores(t, Some(home), variables)[0] == (
            below(below(home, without_separators(text)), "agent"@),
            None::<Seq<char>>,
        ),
        home_stores(t, None, variables).len() == 0,
        home_stores(t, Some(home), variables).len() >= 1,
{
}

/// A profile below the settings of the home has its agent for a store.
pub proof fn profiles_below_the_home_are_stores(t: Seq<EntryView>, home: Seq<Seq<char>>, variables: Seq<(Seq<char>, Seq<char>)>, i: int)
    ensures
        ({
            let profiles = profiles_in(t, below(settings_of(home, variables), "profiles"@));
            let stores = home_stores(t, Some(home), variables);
            &&& stores.len() == profiles.len() + 1
            &&& 0 <= i < profiles.len() ==> stores[i + 1] == (
                below(profiles[i].path, "agent"@),
                Some(profiles[i].name),
            )
        }),
{
}

/// The profiles of a directory are its directories that are named like one, each by its own
/// name.
pub proof fn profiles_are_listed(t: Seq<EntryView>, paths: Seq<Seq<Seq<char>>>, path: Seq<Seq<char>>, raw: Seq<char>)
    ensures
        path_is_dir(t, path) && file_name(path) == Some(raw) && is_profile(trim(raw)) ==> profiles_among(t, paths.push(path))
            == profiles_among(t, paths).push(ProfileView { name: trim(raw), path }),
        !path_is_dir(t, path) || file_name(path) is None ==> profiles_among(t, paths.push(path)) == profiles_among(t, paths),
        file_name(path) == Some(raw) && !is_profile(trim(raw)) ==> profiles_among(t, paths.push(path)) == profiles_among(
            t,
            paths,
        ),
        profiles_among(t, Seq::empty()).len() == 0,
{
    assert(paths.push(path).drop_last() =~= paths);
}

/// Under a given place a store is kept where it is there and belongs to a profile or is named
/// like one; it is of the origin of the place.
pub proof fn stores_under_a_place_are_kept(t: Seq<EntryView>, root: RootView, all: Seq<HomeView>, c: HomeView)
    ensures
        ({
            let named = file_name(c.0) == Some("sessions"@) || file_name(c.0) == Some("omp"@) || has_text(
                path_text(c.0),
                ".omp"@,
            );
            let wanted = path_exists(t, c.0) && (c.1 is Some || named);
            let before = kept_candidates(t, root, all);
            let after = kept_candidates(t, root, all.push(c));
            &&& wanted ==> after == before.push((RootView { path: c.0, ..root }, c.1))
            &&& !wanted ==> after == before
        }),
        kept_candidates(t, root, Seq::empty()).len() == 0,
{
    assert(all.push(c).drop_last() =~= all);
}

/// Under a given place a store is looked for at the place itself, at the usual agent and its
/// sessions, at the profiles beside them, and in the usual base directory of the desktop.
pub proof fn stores_are_looked_for_under_a_place(t: Seq<EntryView>, root: Seq<Seq<char>>, i: int)
    ensures
        ({
            let all = candidates(t, root);
            let own = profiles_in(t, below(root, ".omp/profiles"@));
            let desktop = profiles_in(t, below(root, ".local/share/omp/profiles"@));
            &&& all.len() == 4 + own.len() + desktop.len()
            &&& all[0] == (root, None::<Seq<char>>)
            &&& all[1] == (below(root, ".omp/agent"@), None::<Seq<char>>)
            &&& all[2] == (below(root, ".omp/agent/sessions"@), None::<Seq<char>>)
            &&& 0 <= i < own.len() ==> all[3 + i] == (below(own[i].path, "agent"@), Some(own[i].name))
            &&& 0 <= i < desktop.len() ==> all[3 + own.len() + i] == (desktop[i].path, Some(desktop[i].name))
            &&& all.last() == (below(root, ".local/share/omp"@), None::<Seq<char>>)
        }),
{
}

/// A scan without given places reads its own data where they are an agent's, and else the
/// stores of the user; with given places it reads the stores under them, behind its own data
/// where these look like a store.
pub proof fn scans_read_their_stores(t: Seq<EntryView>, ctx: ContextView, s: SurroundingsView, i: int)
    ensures
        ctx.scan_roots.len() == 0 && has_text(path_text(ctx.data_dir), ".omp/agent"@) ==> all_stores(t, ctx, s) == seq![
            (local_root(ctx.data_dir), None::<Seq<char>>),
        ],
        ctx.scan_roots.len() == 0 && !has_text(path_text(ctx.data_dir), ".omp/agent"@) ==> all_stores(t, ctx, s).len()
            == homes_from(t, s.home, s.variables).len() && (0 <= i < homes_from(t, s.home, s.variables).len() ==> all_stores(
            t,
            ctx,
            s,
        )[i] == (local_root(homes_from(t, s.home, s.variables)[i].0), homes_from(t, s.home, s.variables)[i].1)),
        ctx.scan_roots.len() > 0 && !is_store(ctx.data_dir) ==> all_stores(t, ctx, s) == stores_near(t, ctx.scan_roots),
        ctx.scan_roots.len() > 0 && is_store(ctx.data_dir) ==> all_stores(t, ctx, s) == seq![
            (local_root(ctx.data_dir), None::<Seq<char>>),
        ] + stores_near(t, ctx.scan_roots),
{
    assert(Seq::<TaggedView>::empty() + stores_near(t, ctx.scan_roots) =~= stores_near(t, ctx.scan_roots));
}

/// Stores are read in their order, the directory of a file in its place, and one that was
/// reached before is not read again.
pub proof fn stores_are_read_in_order(t: Seq<EntryView>, all: Seq<TaggedView>, store: TaggedView)
    ensures
        ({
            let before = kept_stores(t, all);
            let after = kept_stores(t, all.push(store));
            let root = directory_of(t, store.0);
            let met = was_seen(before.seen, canonical_path(t, root.path));
            &&& !path_is_file(t, store.0.path) ==> root == store.0
            &&& path_is_file(t, store.0.path) ==> (parent(store.0.path) matches Some(dir) ==> root == (RootView {
                path: dir,
                ..store.0
            }))
            &&& met ==> after.kept == before.kept
            &&& !met ==> after.kept == before.kept.push((root, store.1))
        }),
        kept_stores(t, Seq::empty()).kept.len() == 0,
{
    assert(all.push(store).drop_last() =~= all);
}

/// Separators in front of a text are passed over, and nothing else is.
pub proof fn separators_in_front_are_passed_over(s: Seq<char>)
    ensures
        without_separators(seq!['/'] + s) == without_separators(s),
        without_separators(seq!['\\'] + s) == without_separators(s),
        s.len() == 0 || (s[0] != '/' && s[0] != '\\') ==> without_separators(s) == s,
{
    assert((seq!['/'] + s).skip(1) =~= s);
    assert((seq!['\\'] + s).skip(1) =~= s);
}

} // verus!
