//! Sessions of Clawdbot: one message per line.
use vstd::prelude::*;
use crate::canon::{
    canonical_conversation, canonical_conversations, canonical_messages, conversations_grow, conversations_join,
    messages_grow, one_member_is_canonical,
};
use crate::files::{
    keep_extension, lines_at, only_existing, only_extension, path_exists, path_is_file, path_is_fresh, walked_files,
    EntryView, FileTable,
};
use crate::json::{document_in, parse_json, Json, JsonView};
use crate::lines::{headline, headline_of};
use crate::model::{
    at_place, caption, first_of_role, flat_text_in, flatten_in, is_numbered, make_message, place, place_of,
    simple_message, update_time_bounds, user_caption, user_caption_of, Conversation, ConversationView, Message,
    MessageView,
};
use crate::order::sort;
use crate::path::{
    below, extension, file_name, file_stem, parent, path_text, relative_to, without_extension, SourcePath,
};
use crate::query::{member, member_is_the_first_of_its_key, member_text, object, or_default, put, str_or, text_json};
use crate::scan::{
    default_detection, detected_or_nothing, detection_or_nothing, home_or_here, home_or_here_of, is_source,
    local_root, local_roots, push_conversation, push_local_roots, push_path, push_roots, push_source, roots_at,
    settle_roots, settled_roots, sorted_paths, source, ContextView, DetectionResult, DiscoveredSource, RootView,
    ScanContext, ScanRoot, SourceRole, SourceView, Surroundings, SurroundingsView,
};
use crate::stamp::{earlier, later, spans, timestamp_in, timestamp_of};
use crate::text::{blank, contains_text, has_text, is_blank, lowercase, lowercased};

verus! {

pub struct ClawdbotConnector;

impl Default for ClawdbotConnector {
    fn default() -> (r: ClawdbotConnector)
        ensures
            r == ClawdbotConnector,
    {
        ClawdbotConnector::new()
    }
}

/// Whether a text of small letters tells of the sessions of Clawdbot.
pub open spec fn tells_of_sessions(lower: Seq<char>) -> bool {
    has_text(lower, "clawdbot"@) && has_text(lower, "sessions"@)
}

/// Whether a text of small letters tells of the sessions of Clawdbot.
pub fn is_told_of_sessions(lower: &str) -> (r: bool)
    ensures
        r == tells_of_sessions(lower@),
{
    contains_text(lower, "clawdbot") && contains_text(lower, "sessions")
}

/// Whether a path looks like storage of Clawdbot.
pub open spec fn is_clawdbot_storage(p: Seq<Seq<char>>) -> bool {
    tells_of_sessions(lowercased(path_text(p)))
}

/// Where the sessions of a user stand.
pub open spec fn sessions_of(home: Option<Seq<Seq<char>>>) -> Seq<Seq<char>> {
    below(below(home_or_here(home), ".clawdbot"@), "sessions"@)
}

/// The roots that a place stands for by itself.
pub open spec fn explicit_roots(t: Seq<EntryView>, base: Seq<Seq<char>>) -> Seq<Seq<Seq<char>>> {
    (if path_exists(t, base) && is_clawdbot_storage(base) {
        seq![base]
    } else {
        Seq::empty()
    }) + (if file_name(base) == Some(".clawdbot"@) {
        only_existing(t, seq![below(base, "sessions"@)])
    } else {
        Seq::empty()
    })
}

/// The roots of a place: the usual one below it, and those that it stands for by itself.
pub open spec fn roots_from(t: Seq<EntryView>, base: Seq<Seq<char>>) -> Seq<Seq<Seq<char>>> {
    only_existing(t, seq![below(below(base, ".clawdbot"@), "sessions"@)]) + explicit_roots(t, base)
}

pub open spec fn roots_from_all(t: Seq<EntryView>, places: Seq<RootView>) -> Seq<RootView>
    decreases places.len(),
{
    if places.len() == 0 {
        Seq::empty()
    } else {
        roots_from_all(t, places.drop_last()) + roots_at(places.last(), roots_from(t, places.last().path))
    }
}

/// The roots to scan.
pub open spec fn clawdbot_roots(t: Seq<EntryView>, ctx: ContextView, s: SurroundingsView) -> Seq<RootView> {
    settled_roots(
        if default_detection(ctx) {
            if is_clawdbot_storage(ctx.data_dir) && path_exists(t, ctx.data_dir) {
                local_roots(seq![ctx.data_dir])
            } else {
                local_roots(only_existing(t, seq![sessions_of(s.home)]))
            }
        } else {
            roots_from_all(t, ctx.scan_roots)
        },
    )
}

/// The files of sessions under a root, in order.
pub open spec fn sessions_under(t: Seq<EntryView>, root: Seq<Seq<char>>) -> Seq<Seq<Seq<char>>> {
    if path_exists(t, root) {
        sorted_paths(only_extension(walked_files(t, root, 0, None), "jsonl"@))
    } else {
        Seq::empty()
    }
}

/// The directory to walk: that of a file where the root is one.
pub open spec fn walk_start(t: Seq<EntryView>, root: Seq<Seq<char>>) -> Seq<Seq<char>> {
    if path_is_file(t, root) {
        or_default(parent(root), root)
    } else {
        root
    }
}

/// The name of a session: its path below the root, without the extension.
pub open spec fn session_name(file: Seq<Seq<char>>, root: Seq<Seq<char>>) -> Option<Seq<char>> {
    match relative_to(file, root) {
        Some(rest) => Some(path_text(without_extension(rest))),
        None => file_stem(file),
    }
}

/// What was read of a session so far.
#[verifier::ext_equal]
pub struct LogView {
    pub messages: Seq<MessageView>,
    pub started_at: Option<i64>,
    pub ended_at: Option<i64>,
}

/// A message is said, unless it is blank.
pub open spec fn after_message(log: LogView, val: JsonView) -> LogView {
    let content = flat_text_in(member(val, "content"@));
    if blank(content) {
        log
    } else {
        let created = timestamp_in(member(val, "timestamp"@));
        LogView {
            messages: log.messages.push(
                at_place(
                    simple_message(or_default(member_text(val, "role"@), "assistant"@), created, content, val),
                    log.messages.len() as int,
                ),
            ),
            started_at: earlier(log.started_at, created),
            ended_at: later(log.ended_at, created),
        }
    }
}

pub open spec fn after_line(log: LogView, line: Option<Seq<char>>) -> LogView {
    match line {
        None => log,
        Some(text) => if blank(text) {
            log
        } else {
            match document_in(text) {
                Some(val) => after_message(log, val),
                None => log,
            }
        },
    }
}

/// The log after all these lines: those that cannot be read, are blank or are no
/// document change nothing.
pub open spec fn log_of(lines: Seq<Option<Seq<char>>>) -> LogView
    decreases lines.len(),
{
    if lines.len() == 0 {
        LogView { messages: Seq::empty(), started_at: None, ended_at: None }
    } else {
        after_line(log_of(lines.drop_last()), lines.last())
    }
}

/// The title: what the user said first, or else what was said first.
pub open spec fn title_of(messages: Seq<MessageView>) -> Option<Seq<char>> {
    match user_caption(messages, 100) {
        Some(t) => Some(t),
        None => if messages.len() == 0 {
            None
        } else {
            headline(messages[0].content, 100)
        },
    }
}

/// The conversation of a session: none where nothing was said.
pub open spec fn conversation(
    file: Seq<Seq<char>>,
    root: Seq<Seq<char>>,
    lines: Seq<Option<Seq<char>>>,
) -> Option<ConversationView> {
    let log = log_of(lines);
    if log.messages.len() == 0 {
        None
    } else {
        Some(
            ConversationView {
                agent_slug: "clawdbot"@,
                external_id: session_name(file, root),
                title: title_of(log.messages),
                workspace: None,
                source_path: file,
                started_at: log.started_at,
                ended_at: log.ended_at,
                metadata: JsonView::Object(seq![("source"@, JsonView::Text("clawdbot"@))]),
                messages: log.messages,
            },
        )
    }
}

/// The conversations of these files that changed and can be read.
pub open spec fn conversations_of(t: Seq<EntryView>, root: Seq<Seq<char>>, all: Seq<Seq<Seq<char>>>) -> Seq<
    ConversationView,
>
    decreases all.len(),
{
    if all.len() == 0 {
        Seq::empty()
    } else {
        let front = conversations_of(t, root, all.drop_last());
        let file = all.last();
        if !path_is_fresh(t, file) {
            front
        } else {
            match lines_at(t, file) {
                None => front,
                Some(lines) => match conversation(file, root, lines) {
                    Some(c) => front.push(c),
                    None => front,
                },
            }
        }
    }
}

/// The conversations under these roots.
pub open spec fn conversations_under(t: Seq<EntryView>, roots: Seq<RootView>) -> Seq<ConversationView>
    decreases roots.len(),
{
    if roots.len() == 0 {
        Seq::empty()
    } else {
        let root = walk_start(t, roots.last().path);
        conversations_under(t, roots.drop_last()) + conversations_of(t, root, sessions_under(t, root))
    }
}

/// The sources of these files that changed.
pub open spec fn sources_of(t: Seq<EntryView>, root: RootView, all: Seq<Seq<Seq<char>>>) -> Seq<SourceView>
    decreases all.len(),
{
    if all.len() == 0 {
        Seq::empty()
    } else {
        let front = sources_of(t, root, all.drop_last());
        if path_is_fresh(t, all.last()) {
            front.push(source("clawdbot"@, root, all.last(), SourceRole::PrimarySessionLog, true))
        } else {
            front
        }
    }
}

/// The sources under these roots.
pub open spec fn sources_under(t: Seq<EntryView>, roots: Seq<RootView>) -> Seq<SourceView>
    decreases roots.len(),
{
    if roots.len() == 0 {
        Seq::empty()
    } else {
        let root = RootView { path: walk_start(t, roots.last().path), ..roots.last() };
        sources_under(t, roots.drop_last()) + sources_of(t, root, sessions_under(t, root.path))
    }
}

/// What was read of a session so far.
pub struct SessionLog {
    pub messages: Vec<Message>,
    pub started_at: Option<i64>,
    pub ended_at: Option<i64>,
}

impl DeepView for SessionLog {
    type V = LogView;

    open spec fn deep_view(&self) -> LogView {
        LogView { messages: self.messages.deep_view(), started_at: self.started_at, ended_at: self.ended_at }
    }
}

impl SessionLog {
    /// Reads a message.
    pub fn take_message(&mut self, val: Json)
        ensures
            final(self).deep_view() == after_message(old(self).deep_view(), val@),
    {
        let content = flatten_in(val.get("content"));
        if is_blank(content.as_str()) {
            return;
        }
        let created = timestamp_of(val.get("timestamp"));
        let role = str_or(val.get_str("role"), "assistant").to_owned();
        update_time_bounds(&mut self.started_at, &mut self.ended_at, created);
        let ghost before = self.messages.deep_view();
        let mut m = make_message(role.as_str(), created, content, val);
        m.idx = place_of(self.messages.len());
        let ghost said = m.deep_view();
        self.messages.push(m);
        assert(self.messages.deep_view() =~= before.push(said));
    }

    /// Reads a line.
    pub fn take_line(&mut self, line: &Option<String>)
        ensures
            final(self).deep_view() == after_line(old(self).deep_view(), line.deep_view()),
    {
        if let Some(text) = line {
            if !is_blank(text.as_str()) {
                if let Some(val) = parse_json(text.as_str()) {
                    self.take_message(val);
                }
            }
        }
    }
}

fn read_log(lines: &Vec<Option<String>>) -> (r: SessionLog)
    ensures
        r.deep_view() == log_of(lines.deep_view()),
{
    let ghost all = lines.deep_view();
    let messages: Vec<Message> = Vec::new();
    assert(messages.deep_view() =~= Seq::empty());
    let mut log = SessionLog { messages, started_at: None, ended_at: None };
    let mut i: usize = 0;
    assert(all.take(0) =~= Seq::empty());
    while i < lines.len()
        invariant
            i <= lines@.len(),
            all == lines.deep_view(),
            log.deep_view() == log_of(all.take(i as int)),
        decreases lines.len() - i,
    {
        assert(all.take(i + 1).drop_last() =~= all.take(i as int));
        assert(all.take(i + 1).last() == lines@[i as int].deep_view());
        log.take_line(&lines[i]);
        i = i + 1;
    }
    assert(all.take(all.len() as int) =~= all);
    log
}

fn name_of(file: &SourcePath, root: &SourcePath) -> (r: Option<String>)
    ensures
        r.deep_view() == session_name(file.deep_view(), root.deep_view()),
{
    match file.relative_to(root) {
        Some(rest) => Some(rest.without_extension().text()),
        None => file.file_stem(),
    }
}

fn read_title(messages: &Vec<Message>) -> (r: Option<String>)
    ensures
        r.deep_view() == title_of(messages.deep_view()),
{
    match user_caption_of(messages, 100) {
        Some(t) => Some(t),
        None => if messages.len() == 0 {
            None
        } else {
            assert(messages.deep_view()[0] == messages@[0].deep_view());
            headline_of(messages[0].content.as_str(), 100)
        },
    }
}

/// The conversation of a session: none where nothing was said.
pub fn read_session(file: &SourcePath, root: &SourcePath, lines: &Vec<Option<String>>) -> (r: Option<Conversation>)
    ensures
        r.deep_view() == conversation(file.deep_view(), root.deep_view(), lines.deep_view()),
{
    let log = read_log(lines);
    if log.messages.len() == 0 {
        return None;
    }
    let mut metadata: Vec<(String, Json)> = Vec::new();
    put(&mut metadata, "source", text_json("clawdbot"));
    assert(metadata.deep_view() =~= seq![("source"@, JsonView::Text("clawdbot"@))]);
    let title = read_title(&log.messages);
    Some(
        Conversation {
            agent_slug: "clawdbot".to_owned(),
            external_id: name_of(file, root),
            title,
            workspace: None,
            source_path: file.copy(),
            started_at: log.started_at,
            ended_at: log.ended_at,
            metadata: object(metadata),
            messages: log.messages,
        },
    )
}

fn start_of(files: &FileTable, root: &SourcePath) -> (r: SourcePath)
    ensures
        r.deep_view() == walk_start(files.deep_view(), root.deep_view()),
{
    if files.is_file(root) {
        match root.parent() {
            Some(p) => p,
            None => root.copy(),
        }
    } else {
        root.copy()
    }
}

impl ClawdbotConnector {
    pub fn new() -> (r: ClawdbotConnector)
        ensures
            r == ClawdbotConnector,
    {
        ClawdbotConnector
    }

    /// What the registry of agents found, or that nothing was found.
    pub fn detect(&self, found: Option<DetectionResult>) -> (r: DetectionResult)
        ensures
            r.deep_view() == detected_or_nothing(found.deep_view()),
    {
        detection_or_nothing(found)
    }

    /// Where the sessions of a user stand.
    pub fn sessions_root(home: Option<&SourcePath>) -> (r: SourcePath)
        ensures
            r.deep_view() == sessions_of(home.deep_view()),
    {
        home_or_here_of(home).join(".clawdbot").join("sessions")
    }

    /// Whether a path looks like storage of Clawdbot.
    pub fn looks_like_clawdbot_storage(path: &SourcePath) -> (r: bool)
        ensures
            r == is_clawdbot_storage(path.deep_view()),
    {
        is_told_of_sessions(lowercase(path.text().as_str()).as_str())
    }

    /// The files of sessions under a root, in order.
    pub fn session_files(files: &FileTable, root: &SourcePath) -> (r: Vec<SourcePath>)
        ensures
            r.deep_view() == sessions_under(files.deep_view(), root.deep_view()),
    {
        if !files.has(root) {
            let none: Vec<SourcePath> = Vec::new();
            assert(none.deep_view() =~= Seq::empty());
            return none;
        }
        sort(keep_extension(files.walk(root, 0, None), "jsonl"))
    }

    fn usual_roots(files: &FileTable, base: &SourcePath) -> (r: Vec<SourcePath>)
        ensures
            r.deep_view() == only_existing(
                files.deep_view(),
                seq![below(below(base.deep_view(), ".clawdbot"@), "sessions"@)],
            ),
    {
        let mut usual: Vec<SourcePath> = Vec::new();
        assert(usual.deep_view() =~= Seq::empty());
        push_path(&mut usual, base.join(".clawdbot").join("sessions"));
        assert(usual.deep_view() =~= seq![below(below(base.deep_view(), ".clawdbot"@), "sessions"@)]);
        files.keep_existing(usual)
    }

    /// The roots that a place stands for by itself.
    pub fn append_explicit_roots(files: &FileTable, base: &SourcePath) -> (r: Vec<SourcePath>)
        ensures
            r.deep_view() == explicit_roots(files.deep_view(), base.deep_view()),
    {
        let ghost t = files.deep_view();
        let ghost b = base.deep_view();
        let mut roots: Vec<SourcePath> = Vec::new();
        assert(roots.deep_view() =~= Seq::empty());
        if files.has(base) && ClawdbotConnector::looks_like_clawdbot_storage(base) {
            push_path(&mut roots, base.copy());
        }
        if base.is_named(".clawdbot") {
            let sessions = base.join("sessions");
            let there = files.has(&sessions);
            reveal(Seq::filter);
            assert(seq![below(b, "sessions"@)].drop_last() =~= Seq::empty());
            reveal_with_fuel(Seq::filter, 2);
            assert(only_existing(t, seq![below(b, "sessions"@)]) =~= if there {
                seq![below(b, "sessions"@)]
            } else {
                Seq::empty()
            });
            if there {
                push_path(&mut roots, sessions);
            }
        }
        assert(roots.deep_view() =~= explicit_roots(t, b));
        roots
    }

    /// The roots to scan.
    pub fn source_roots(ctx: &ScanContext, surroundings: &Surroundings, files: &FileTable) -> (r: Vec<ScanRoot>)
        ensures
            r.deep_view() == clawdbot_roots(files.deep_view(), ctx.deep_view(), surroundings.deep_view()),
    {
        let ghost t = files.deep_view();
        let mut roots: Vec<ScanRoot> = Vec::new();
        assert(roots.deep_view() =~= Seq::empty());
        if ctx.use_default_detection() {
            let mut own: Vec<SourcePath> = Vec::new();
            assert(own.deep_view() =~= Seq::empty());
            if ClawdbotConnector::looks_like_clawdbot_storage(&ctx.data_dir) && files.has(&ctx.data_dir) {
                push_path(&mut own, ctx.data_dir.copy());
                assert(own.deep_view() =~= seq![ctx.data_dir.deep_view()]);
            } else {
                push_path(&mut own, ClawdbotConnector::sessions_root(surroundings.home.as_ref()));
                assert(own.deep_view() =~= seq![sessions_of(surroundings.deep_view().home)]);
                own = files.keep_existing(own);
            }
            push_local_roots(&mut roots, &own);
            assert(roots.deep_view() =~= local_roots(own.deep_view()));
        } else {
            let ghost places = ctx.scan_roots.deep_view();
            let mut i: usize = 0;
            assert(places.take(0) =~= Seq::empty());
            while i < ctx.scan_roots.len()
                invariant
                    i <= ctx.scan_roots@.len(),
                    t == files.deep_view(),
                    places == ctx.scan_roots.deep_view(),
                    roots.deep_view() == roots_from_all(t, places.take(i as int)),
                decreases ctx.scan_roots.len() - i,
            {
                let place = &ctx.scan_roots[i];
                assert(places.take(i + 1).drop_last() =~= places.take(i as int));
                assert(places.take(i + 1).last() == place.deep_view());
                let usual = ClawdbotConnector::usual_roots(files, &place.path);
                let own = ClawdbotConnector::append_explicit_roots(files, &place.path);
                let ghost before = roots.deep_view();
                push_roots(&mut roots, place, &usual);
                push_roots(&mut roots, place, &own);
                assert(roots.deep_view() =~= before + roots_at(
                    place.deep_view(),
                    roots_from(t, place.deep_view().path),
                ));
                i = i + 1;
            }
            assert(places.take(places.len() as int) =~= places);
        }
        settle_roots(roots)
    }

    /// Reads the sessions that changed.
    pub fn scan(&self, ctx: &ScanContext, surroundings: &Surroundings, files: &FileTable) -> (r: Vec<Conversation>)
        ensures
            r.deep_view() == conversations_under(
                files.deep_view(),
                clawdbot_roots(files.deep_view(), ctx.deep_view(), surroundings.deep_view()),
            ),
    {
        let ghost t = files.deep_view();
        let roots = ClawdbotConnector::source_roots(ctx, surroundings, files);
        let ghost all = roots.deep_view();
        let mut convs: Vec<Conversation> = Vec::new();
        let mut i: usize = 0;
        assert(all.take(0) =~= Seq::empty());
        assert(convs.deep_view() =~= Seq::empty());
        while i < roots.len()
            invariant
                i <= roots@.len(),
                t == files.deep_view(),
                all == roots.deep_view(),
                convs.deep_view() == conversations_under(t, all.take(i as int)),
            decreases roots.len() - i,
        {
            let ghost before = convs.deep_view();
            assert(all.take(i + 1).drop_last() =~= all.take(i as int));
            assert(all.take(i + 1).last() == roots@[i as int].deep_view());
            let root = start_of(files, &roots[i].path);
            let list = ClawdbotConnector::session_files(files, &root);
            let ghost fs = list.deep_view();
            let mut k: usize = 0;
            assert(fs.take(0) =~= Seq::empty());
            assert(convs.deep_view() =~= before + conversations_of(t, root.deep_view(), fs.take(0)));
            while k < list.len()
                invariant
                    k <= list@.len(),
                    t == files.deep_view(),
                    fs == list.deep_view(),
                    convs.deep_view() == before + conversations_of(t, root.deep_view(), fs.take(k as int)),
                decreases list.len() - k,
            {
                let file = &list[k];
                assert(fs.take(k + 1).drop_last() =~= fs.take(k as int));
                assert(fs.take(k + 1).last() == file.deep_view());
                if files.is_fresh(file) {
                    if let Some(lines) = files.read_lines(file) {
                        if let Some(c) = read_session(file, &root, &lines) {
                            push_conversation(&mut convs, c);
                        }
                    }
                }
                assert(convs.deep_view() =~= before + conversations_of(t, root.deep_view(), fs.take(k + 1)));
                k = k + 1;
            }
            assert(fs.take(fs.len() as int) =~= fs);
            i = i + 1;
        }
        assert(all.take(all.len() as int) =~= all);
        convs
    }

    /// The files that a scan would read.
    pub fn discover_source_files(&self, ctx: &ScanContext, surroundings: &Surroundings, files: &FileTable) -> (r: Vec<
        DiscoveredSource,
    >)
        ensures
            r.deep_view() == sources_under(
                files.deep_view(),
                clawdbot_roots(files.deep_view(), ctx.deep_view(), surroundings.deep_view()),
            ),
    {
        let ghost t = files.deep_view();
        let roots = ClawdbotConnector::source_roots(ctx, surroundings, files);
        let ghost all = roots.deep_view();
        let mut out: Vec<DiscoveredSource> = Vec::new();
        let mut i: usize = 0;
        assert(all.take(0) =~= Seq::empty());
        assert(out.deep_view() =~= Seq::empty());
        while i < roots.len()
            invariant
                i <= roots@.len(),
                t == files.deep_view(),
                all == roots.deep_view(),
                out.deep_view() == sources_under(t, all.take(i as int)),
            decreases roots.len() - i,
        {
            let ghost before = out.deep_view();
            assert(all.take(i + 1).drop_last() =~= all.take(i as int));
            assert(all.take(i + 1).last() == roots@[i as int].deep_view());
            let root = roots[i].with_path(start_of(files, &roots[i].path));
            let list = ClawdbotConnector::session_files(files, &root.path);
            let ghost fs = list.deep_view();
            let mut k: usize = 0;
            assert(fs.take(0) =~= Seq::empty());
            assert(out.deep_view() =~= before + sources_of(t, root.deep_view(), fs.take(0)));
            while k < list.len()
                invariant
                    k <= list@.len(),
                    t == files.deep_view(),
                    fs == list.deep_view(),
                    out.deep_view() == before + sources_of(t, root.deep_view(), fs.take(k as int)),
                decreases list.len() - k,
            {
                let file = &list[k];
                assert(fs.take(k + 1).drop_last() =~= fs.take(k as int));
                assert(fs.take(k + 1).last() == file.deep_view());
                if files.is_fresh(file) {
                    push_source(
                        &mut out,
                        DiscoveredSource::new("clawdbot", &root, file.copy(), SourceRole::PrimarySessionLog, true),
                    );
                }
                assert(out.deep_view() =~= before + sources_of(t, root.deep_view(), fs.take(k + 1)));
                k = k + 1;
            }
            assert(fs.take(fs.len() as int) =~= fs);
            i = i + 1;
        }
        assert(all.take(all.len() as int) =~= all);
        out
    }
}

/// What holds of a log at any time.
pub open spec fn log_is_sound(log: LogView) -> bool {
    &&& is_numbered(log.messages)
    &&& forall|i: int| 0 <= i < log.messages.len() ==> !blank((#[trigger] log.messages[i]).content)
    &&& spans(log.started_at, log.ended_at)
}

proof fn log_of_is_sound(lines: Seq<Option<Seq<char>>>)
    ensures
        log_is_sound(log_of(lines)),
    decreases lines.len(),
{
    if lines.len() > 0 {
        log_of_is_sound(lines.drop_last());
    }
}

/// A conversation that was read has messages, each at its place and none blank,
/// and ended where it started or later.
pub proof fn conversation_is_sound(file: Seq<Seq<char>>, root: Seq<Seq<char>>, lines: Seq<Option<Seq<char>>>)
    ensures
        conversation(file, root, lines) matches Some(c) ==> {
            &&& c.messages.len() > 0
            &&& is_numbered(c.messages)
            &&& forall|i: int| 0 <= i < c.messages.len() ==> !blank((#[trigger] c.messages[i]).content)
            &&& spans(c.started_at, c.ended_at)
        },
{
    log_of_is_sound(lines);
}

proof fn conversation_sources(t: Seq<EntryView>, root: RootView, all: Seq<Seq<Seq<char>>>)
    ensures
        forall|i: int|
            0 <= i < conversations_of(t, root.path, all).len() ==> sources_of(t, root, all).contains(
                source(
                    "clawdbot"@,
                    root,
                    (#[trigger] conversations_of(t, root.path, all)[i]).source_path,
                    SourceRole::PrimarySessionLog,
                    true,
                ),
            ),
    decreases all.len(),
{
    if all.len() > 0 {
        let front = all.drop_last();
        conversation_sources(t, root, front);
        let cs = conversations_of(t, root.path, all);
        let ss = sources_of(t, root, all);
        let inner = sources_of(t, root, front);
        assert forall|i: int| 0 <= i < cs.len() implies ss.contains(
            source("clawdbot"@, root, (#[trigger] cs[i]).source_path, SourceRole::PrimarySessionLog, true),
        ) by {
            let wanted = source("clawdbot"@, root, cs[i].source_path, SourceRole::PrimarySessionLog, true);
            if i < conversations_of(t, root.path, front).len() {
                assert(conversations_of(t, root.path, front)[i] == cs[i]);
                assert(inner.contains(wanted));
                let k = choose|k: int| 0 <= k < inner.len() && inner[k] == wanted;
                assert(ss[k] == wanted);
            } else {
                assert(ss[ss.len() - 1] == wanted);
            }
        }
    }
}

/// Whatever a scan reads, discovery names: each conversation comes from a file that
/// is among the sources.
pub proof fn scanned_files_are_discovered(t: Seq<EntryView>, roots: Seq<RootView>)
    ensures
        forall|i: int|
            0 <= i < conversations_under(t, roots).len() ==> is_source(
                sources_under(t, roots),
                (#[trigger] conversations_under(t, roots)[i]).source_path,
            ),
    decreases roots.len(),
{
    if roots.len() > 0 {
        let front = roots.drop_last();
        scanned_files_are_discovered(t, front);
        let root = RootView { path: walk_start(t, roots.last().path), ..roots.last() };
        conversation_sources(t, root, sessions_under(t, root.path));
        let cs = conversations_under(t, roots);
        let ss = sources_under(t, roots);
        let inner_c = conversations_under(t, front);
        let inner_s = sources_under(t, front);
        let last_c = conversations_of(t, root.path, sessions_under(t, root.path));
        let last_s = sources_of(t, root, sessions_under(t, root.path));
        assert forall|i: int| 0 <= i < cs.len() implies is_source(ss, (#[trigger] cs[i]).source_path) by {
            if i < inner_c.len() {
                assert(cs[i] == inner_c[i]);
                let k = choose|k: int|
                    0 <= k < inner_s.len() && (#[trigger] inner_s[k]).source_path == inner_c[i].source_path;
                assert(ss[k] == inner_s[k]);
            } else {
                let n = i - inner_c.len();
                assert(cs[i] == last_c[n]);
                let wanted = source(
                    "clawdbot"@,
                    root,
                    last_c[n].source_path,
                    SourceRole::PrimarySessionLog,
                    true,
                );
                assert(last_s.contains(wanted));
                let k = choose|k: int| 0 <= k < last_s.len() && last_s[k] == wanted;
                assert(ss[inner_s.len() + k] == wanted);
            }
        }
    }
}

proof fn log_is_canonical(lines: Seq<Option<Seq<char>>>)
    ensures
        canonical_messages(log_of(lines).messages),
    decreases lines.len(),
{
    if lines.len() > 0 {
        let log = log_of(lines.drop_last());
        log_is_canonical(lines.drop_last());
        if log_of(lines).messages != log.messages {
            messages_grow(log.messages, log_of(lines).messages.last());
        }
    }
}

/// The documents of a conversation that was read are canonical.
pub proof fn conversation_is_canonical(file: Seq<Seq<char>>, root: Seq<Seq<char>>, lines: Seq<Option<Seq<char>>>)
    ensures
        conversation(file, root, lines) matches Some(c) ==> canonical_conversation(c),
{
    log_is_canonical(lines);
    one_member_is_canonical("source"@, JsonView::Text("clawdbot"@));
}

proof fn conversations_of_are_canonical(t: Seq<EntryView>, root: Seq<Seq<char>>, all: Seq<Seq<Seq<char>>>)
    ensures
        canonical_conversations(conversations_of(t, root, all)),
    decreases all.len(),
{
    if all.len() > 0 {
        let front = conversations_of(t, root, all.drop_last());
        conversations_of_are_canonical(t, root, all.drop_last());
        if let Some(lines) = lines_at(t, all.last()) {
            conversation_is_canonical(all.last(), root, lines);
            if let Some(c) = conversation(all.last(), root, lines) {
                conversations_grow(front, c);
            }
        }
    }
}

/// The documents of all conversations that a scan hands out are canonical, so that
/// each can be rendered.
pub proof fn scanned_documents_are_canonical(t: Seq<EntryView>, roots: Seq<RootView>)
    ensures
        canonical_conversations(conversations_under(t, roots)),
    decreases roots.len(),
{
    if roots.len() > 0 {
        let root = walk_start(t, roots.last().path);
        scanned_documents_are_canonical(t, roots.drop_last());
        conversations_of_are_canonical(t, root, sessions_under(t, root));
        conversations_join(
            conversations_under(t, roots.drop_last()),
            conversations_of(t, root, sessions_under(t, root)),
        );
    }
}

/// A message that is not blank is said next: by its own role, the assistant where none is
/// given, with its own content and at its own time. What was said before stays, and the
/// span of the log widens to hold that time, and holds no other.
pub proof fn messages_are_said_at_their_own_time(log: LogView, val: JsonView)
    requires
        !blank(flat_text_in(member(val, "content"@))),
        log.messages.len() <= i64::MAX,
    ensures
        ({
            let after = after_message(log, val);
            let m = after.messages.last();
            let time = timestamp_in(member(val, "timestamp"@));
            &&& after.messages == log.messages.push(m)
            &&& m.idx == log.messages.len()
            &&& member_text(val, "role"@) matches Some(role) ==> m.role == role
            &&& member_text(val, "role"@) is None ==> m.role == "assistant"@
            &&& m.content == flat_text_in(member(val, "content"@))
            &&& m.created_at == time
            &&& m.extra == val
            &&& m.author is None
            &&& m.invocations.len() == 0
            &&& after.started_at == log.started_at || after.started_at == time
            &&& after.ended_at == log.ended_at || after.ended_at == time
            &&& time is Some ==> after.started_at is Some && after.ended_at is Some && after.started_at->0 <= time->0
                && time->0 <= after.ended_at->0
            &&& log.started_at is Some ==> after.started_at is Some && after.started_at->0 <= log.started_at->0
            &&& log.ended_at is Some ==> after.ended_at is Some && after.ended_at->0 >= log.ended_at->0
        }),
{
}

/// A log is read line by line, in the order of the lines: a line that holds a document is
/// the next message, and any other, or a message that is blank, changes nothing.
pub proof fn lines_are_read_in_order(lines: Seq<Option<Seq<char>>>, line: Option<Seq<char>>, val: JsonView)
    ensures
        line matches Some(text) ==> (!blank(text) && document_in(text) == Some(val) ==> log_of(lines.push(line))
            == after_message(log_of(lines), val)),
        line is None || blank(line->0) || document_in(line->0) is None ==> log_of(lines.push(line)) == log_of(lines),
        blank(flat_text_in(member(val, "content"@))) ==> after_message(log_of(lines), val) == log_of(lines),
        log_of(Seq::empty()).messages.len() == 0,
        log_of(Seq::empty()).started_at is None,
        log_of(Seq::empty()).ended_at is None,
{
    assert(lines.push(line).drop_last() =~= lines);
}

/// A conversation holds the messages of its log, spans its time and tells the file that it
/// comes from. Its title is what the user said first, or else what was said first, and its
/// name the path of the file below the root.
pub proof fn sessions_are_told_of(
    file: Seq<Seq<char>>,
    root: Seq<Seq<char>>,
    lines: Seq<Option<Seq<char>>>,
)
    ensures
        conversation(file, root, lines) is None <==> log_of(lines).messages.len() == 0,
        conversation(file, root, lines) matches Some(c) ==> {
            let log = log_of(lines);
            &&& c.agent_slug == "clawdbot"@
            &&& c.messages == log.messages
            &&& c.started_at == log.started_at
            &&& c.ended_at == log.ended_at
            &&& c.source_path == file
            &&& c.workspace is None
            &&& first_of_role(c.messages, "user"@) matches Some(m) ==> c.title == Some(caption(m.content, 100))
            &&& first_of_role(c.messages, "user"@) is None ==> c.title == headline(c.messages[0].content, 100)
            &&& relative_to(file, root) matches Some(rest) ==> c.external_id == Some(path_text(without_extension(rest)))
            &&& relative_to(file, root) is None ==> c.external_id == file_stem(file)
            &&& member(c.metadata, "source"@) == Some(JsonView::Text("clawdbot"@))
        },
{
    member_is_the_first_of_its_key(JsonView::Null, seq![("source"@, JsonView::Text("clawdbot"@))], "source"@, 0);
}

/// Every file that changed and can be read is read: its conversation comes behind those of
/// the files before it.
pub proof fn files_that_changed_are_read(
    t: Seq<EntryView>,
    root: Seq<Seq<char>>,
    all: Seq<Seq<Seq<char>>>,
    file: Seq<Seq<char>>,
)
    ensures
        !path_is_fresh(t, file) ==> conversations_of(t, root, all.push(file)) == conversations_of(t, root, all),
        path_is_fresh(t, file) ==> (lines_at(t, file) matches Some(lines) ==> (conversation(file, root, lines) matches Some(
            c,
        ) ==> conversations_of(t, root, all.push(file)) == conversations_of(t, root, all).push(c))),
        conversations_of(t, root, Seq::empty()).len() == 0,
{
    assert(all.push(file).drop_last() =~= all);
}

/// The sessions of a root are the plain files below it, at any depth, whose extension tells
/// of lines of documents.
pub proof fn sessions_are_found_at_any_depth(t: Seq<EntryView>, root: Seq<Seq<char>>, p: Seq<Seq<char>>)
    requires
        path_exists(t, root),
    ensures
        sessions_under(t, root).contains(p) <==> extension(p) == Some("jsonl"@) && crate::files::can_walk_to(
            t,
            root,
            0,
            None,
            p,
        ),
        forall|i: int, j: int|
            0 <= i < j < sessions_under(t, root).len() ==> crate::path::path_order(
                #[trigger] sessions_under(t, root)[i],
                #[trigger] sessions_under(t, root)[j],
            ) <= 0,
{
    crate::files::walk_is_sound_and_complete(t, root, 0, None);
    let all = walked_files(t, root, 0, None);
    crate::files::files_of_an_extension_are_kept(all, "jsonl"@, p);
    crate::scan::sorting_paths_keeps_them(only_extension(all, "jsonl"@), p);
}

/// The usual place of the sessions below a place is a root where it exists, and so is the
/// place itself where it is named like storage, and the sessions in a directory of the
/// agent's name.
pub proof fn roots_of_a_place(t: Seq<EntryView>, base: Seq<Seq<char>>)
    ensures
        path_exists(t, below(below(base, ".clawdbot"@), "sessions"@)) ==> roots_from(t, base).contains(
            below(below(base, ".clawdbot"@), "sessions"@),
        ),
        path_exists(t, base) && has_text(lowercased(path_text(base)), "clawdbot"@) && has_text(
            lowercased(path_text(base)),
            "sessions"@,
        ) ==> roots_from(t, base).contains(base),
        file_name(base) == Some(".clawdbot"@) && path_exists(t, below(base, "sessions"@)) ==> roots_from(t, base).contains(
            below(base, "sessions"@),
        ),
        forall|p: Seq<Seq<char>>| #[trigger] roots_from(t, base).contains(p) ==> path_exists(t, p),
{
    let usual = below(below(base, ".clawdbot"@), "sessions"@);
    let named = below(base, "sessions"@);
    let x = only_existing(t, seq![usual]);
    let own = if path_exists(t, base) && is_clawdbot_storage(base) {
        seq![base]
    } else {
        Seq::empty()
    };
    let below_it = if file_name(base) == Some(".clawdbot"@) {
        only_existing(t, seq![named])
    } else {
        Seq::empty()
    };
    let y = own + below_it;
    assert(seq![usual][0] == usual && seq![named][0] == named);
    crate::files::paths_that_exist_are_kept(t, seq![usual], usual);
    crate::files::paths_that_exist_are_kept(t, seq![named], named);
    crate::scan::joined_paths(x, y, usual);
    crate::scan::joined_paths(own, below_it, base);
    crate::scan::joined_paths(own, below_it, named);
    crate::scan::joined_paths(x, y, base);
    crate::scan::joined_paths(x, y, named);
    assert(own.len() > 0 ==> own[0] == base);
    assert forall|p: Seq<Seq<char>>| #[trigger] roots_from(t, base).contains(p) implies path_exists(t, p) by {
        crate::scan::joined_paths(x, y, p);
        crate::scan::joined_paths(own, below_it, p);
        crate::files::paths_that_exist_are_kept(t, seq![usual], p);
        crate::files::paths_that_exist_are_kept(t, seq![named], p);
    }
}

/// The roots are read in their order, the directory of a file in its place: what stands
/// under one comes behind what stands under those before it, conversations as well as
/// sources.
pub proof fn roots_are_read_in_order(t: Seq<EntryView>, roots: Seq<RootView>, next: RootView)
    ensures
        ({
            let start = if path_is_file(t, next.path) {
                or_default(parent(next.path), next.path)
            } else {
                next.path
            };
            &&& conversations_under(t, roots.push(next)) == conversations_under(t, roots) + conversations_of(
                t,
                start,
                sessions_under(t, start),
            )
            &&& sources_under(t, roots.push(next)) == sources_under(t, roots) + sources_of(
                t,
                RootView { path: start, ..next },
                sessions_under(t, start),
            )
        }),
        conversations_under(t, Seq::empty()).len() == 0,
        sources_under(t, Seq::empty()).len() == 0,
{
    assert(roots.push(next).drop_last() =~= roots);
}

/// Each file that changed is a source: the log of a session, which the scan needs.
pub proof fn files_that_changed_are_sources(
    t: Seq<EntryView>,
    root: RootView,
    all: Seq<Seq<Seq<char>>>,
    file: Seq<Seq<char>>,
)
    ensures
        !path_is_fresh(t, file) ==> sources_of(t, root, all.push(file)) == sources_of(t, root, all),
        path_is_fresh(t, file) ==> sources_of(t, root, all.push(file)) == sources_of(t, root, all).push(
            SourceView {
                provider_slug: "clawdbot"@,
                scan_root: root.path,
                source_path: file,
                role: SourceRole::PrimarySessionLog,
                required_for_reconstruction: true,
                origin: root.origin,
                platform: root.platform,
            },
        ),
        sources_of(t, root, Seq::empty()).len() == 0,
{
    assert(all.push(file).drop_last() =~= all);
}

/// Without given places a scan reads its own data where they look like storage and exist,
/// and else the sessions of the user; with given places it reads what they stand for.
pub proof fn scans_read_their_roots(t: Seq<EntryView>, ctx: ContextView, s: SurroundingsView, home: Seq<Seq<char>>)
    ensures
        ctx.scan_roots.len() == 0 && is_clawdbot_storage(ctx.data_dir) && path_exists(t, ctx.data_dir) ==> clawdbot_roots(
            t,
            ctx,
            s,
        ) == seq![local_root(ctx.data_dir)],
        ctx.scan_roots.len() == 0 && !is_clawdbot_storage(ctx.data_dir) && s.home == Some(home) && path_exists(
            t,
            below(below(home, ".clawdbot"@), "sessions"@),
        ) ==> clawdbot_roots(t, ctx, s) == seq![local_root(below(below(home, ".clawdbot"@), "sessions"@))],
        forall|place: RootView, places: Seq<RootView>|
            #![trigger roots_from_all(t, places.push(place))]
            roots_from_all(t, places.push(place)) == roots_from_all(t, places) + roots_at(
                place,
                roots_from(t, place.path),
            ),
{
    reveal(Seq::filter);
    let usual = below(below(home, ".clawdbot"@), "sessions"@);
    crate::scan::one_root_is_settled(local_root(ctx.data_dir));
    crate::scan::one_root_is_settled(local_root(usual));
    assert(local_roots(seq![ctx.data_dir]) =~= seq![local_root(ctx.data_dir)]);
    let there = |p: Seq<Seq<char>>| path_exists(t, p);
    if path_exists(t, usual) {
        assert(seq![usual].drop_last().filter(there) =~= Seq::empty());
        assert(only_existing(t, seq![usual]) =~= seq![usual]);
        assert(local_roots(seq![usual]) =~= seq![local_root(usual)]);
    }
    assert forall|place: RootView, places: Seq<RootView>|
        #![trigger roots_from_all(t, places.push(place))]
        roots_from_all(t, places.push(place)) == roots_from_all(t, places) + roots_at(
        place,
        roots_from(t, place.path),
    ) by {
        assert(places.push(place).drop_last() =~= places);
    }
}

} // verus!
