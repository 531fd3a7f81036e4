//! Sessions of Grok Build: a directory each, grouped by the working directory.
use vstd::prelude::*;
use crate::boundaries::{
    after, came_of, completing_follows_emitting, emitting_follows_reading, is_run, Event, SourceRules, Step,
};
use crate::bytes::{percent_decode, percent_decoded};
use crate::canon::{
    canonical_conversation, canonical_conversations, conversations_grow, inner_canonical, numbered_canonical,
    one_member_is_canonical, with_text_canonical,
};
use crate::files::{
    canonical_path, children, lines_at, path_exists, path_is_dir, path_is_file, path_is_fresh, text_at, EntryView,
    FileTable,
};
use crate::grok_updates::{
    built, copied_if_set, finished, finished_messages_are_canonical, finished_messages_are_sound, history_is_said,
    history_messages, history_messages_are_canonical, if_said, if_set, parse_chat_history_fallback, parse_updates,
    stream_spans,
};
use crate::json::{canonical, document_in, parse_json, Json, JsonView};
use crate::lines::{lines, lines_of, readable, readable_lines};
use crate::model::{
    find_role, first_of_role, is_numbered, numbered, numbering, Conversation, ConversationView, Message, MessageView,
};
use crate::path::{below, file_name, parent, SourcePath};
use crate::query::{
    assign, assign_text, get_in, member, member_is_the_first_of_its_key, member_of, member_text, object, or_default,
    or_else, owned, put, str_in, text_in, text_json, with_member, with_member_canonical, with_member_reads_back,
    with_text,
};
use crate::scan::{
    copy_roots, default_detection, detected_or_nothing, detection_or_nothing, home_or_here, home_or_here_of,
    local_root, names_place, note_path, path_from_variable, places_stay_named, push_conversation, push_path,
    push_root, push_source, seen_grows, seen_pushed, seen_with, settle_paths, settle_roots, settled_paths,
    settled_paths_are_given, settled_roots, source, variable_path, was_seen, CompletionView, ContextView,
    DetectionResult, DiscoveredSource, RootView, ScanContext, ScanRoot, SourceCompletion, SourceRole, SourceView,
    Surroundings, SurroundingsView,
};
use crate::stamp::{spans, timestamp_in, timestamp_of};
use crate::text::{blank, head, is_blank, take_chars, trim, trim_empty_iff_blank, trimmed};

verus! {

pub struct GrokConnector;

impl Default for GrokConnector {
    fn default() -> (r: GrokConnector)
        ensures
            r == GrokConnector,
    {
        GrokConnector::new()
    }
}

/// Where the data of Grok stands.
pub open spec fn base_of(s: SurroundingsView) -> Seq<Seq<char>> {
    or_default(variable_path(s, "GROK_HOME"@), below(home_or_here(s.home), ".grok"@))
}

/// Whether a directory is one of a session: it holds a stream, or a history.
pub open spec fn holds_session(t: Seq<EntryView>, p: Seq<Seq<char>>) -> bool {
    path_is_file(t, below(p, "updates.jsonl"@)) || path_is_file(t, below(p, "chat_history.jsonl"@))
}

/// The roots to scan, each once and in order.
pub open spec fn grok_roots(t: Seq<EntryView>, ctx: ContextView, s: SurroundingsView) -> Seq<RootView> {
    settled_roots(
        if !default_detection(ctx) {
            ctx.scan_roots
        } else if variable_path(s, "GROK_HOME"@) is None && (path_is_dir(t, below(ctx.data_dir, "sessions"@))
            || holds_session(t, ctx.data_dir)) {
            seq![local_root(ctx.data_dir)]
        } else {
            seq![local_root(base_of(s))]
        },
    )
}

/// The directories among these that are ones of sessions.
pub open spec fn session_dirs_among(t: Seq<EntryView>, paths: Seq<Seq<Seq<char>>>) -> Seq<Seq<Seq<char>>>
    decreases paths.len(),
{
    if paths.len() == 0 {
        Seq::empty()
    } else {
        let front = session_dirs_among(t, paths.drop_last());
        let p = paths.last();
        if path_is_dir(t, p) && holds_session(t, p) {
            front.push(p)
        } else {
            front
        }
    }
}

/// The sessions of groups: a group may be a session itself.
pub open spec fn sessions_in_groups(t: Seq<EntryView>, groups: Seq<Seq<Seq<char>>>) -> Seq<Seq<Seq<char>>>
    decreases groups.len(),
{
    if groups.len() == 0 {
        Seq::empty()
    } else {
        let front = sessions_in_groups(t, groups.drop_last());
        let g = groups.last();
        if !path_is_dir(t, g) {
            front
        } else if holds_session(t, g) {
            front.push(g)
        } else {
            front + session_dirs_among(t, children(t, g))
        }
    }
}

/// The directory of the groups that a place stands for.
pub open spec fn groups_root(t: Seq<EntryView>, place: Seq<Seq<char>>) -> Option<Seq<Seq<char>>> {
    if path_is_dir(t, below(place, "sessions"@)) {
        Some(below(place, "sessions"@))
    } else if path_is_dir(t, place) {
        Some(place)
    } else {
        None
    }
}

/// The directories of the sessions that a place stands for: itself, those of a
/// group, or those of all groups.
pub open spec fn sessions_at(t: Seq<EntryView>, place: Seq<Seq<char>>) -> Seq<Seq<Seq<char>>> {
    if holds_session(t, place) {
        seq![place]
    } else {
        match groups_root(t, place) {
            Some(root) => settled_paths(sessions_in_groups(t, children(t, root))),
            None => settled_paths(Seq::empty()),
        }
    }
}

/// Whether something in a session changed.
pub open spec fn session_changed(t: Seq<EntryView>, dir: Seq<Seq<char>>, since: Option<i64>) -> bool {
    ||| since is None
    ||| path_is_fresh(t, below(dir, "updates.jsonl"@))
    ||| path_is_fresh(t, below(dir, "chat_history.jsonl"@))
    ||| path_is_fresh(t, below(dir, "summary.json"@))
}

/// The working directory of a group: what it holds as `.cwd`, or what its name is
/// the form in a URL of.
pub open spec fn group_cwd(t: Seq<EntryView>, group: Seq<Seq<char>>) -> Option<Seq<char>> {
    let own = below(group, ".cwd"@);
    let held = if path_is_file(t, own) {
        match text_at(t, own) {
            Some(text) => if blank(text) {
                None
            } else {
                Some(trim(text))
            },
            None => None,
        }
    } else {
        None
    };
    or_else(
        held,
        match file_name(group) {
            Some(name) => match percent_decoded(name) {
                Some(cwd) => if cwd.len() == 0 {
                    None
                } else {
                    Some(cwd)
                },
                None => None,
            },
            None => None,
        },
    )
}

/// The working directory of a group.
pub fn decode_group_cwd(files: &FileTable, group: &SourcePath) -> (r: Option<String>)
    ensures
        r.deep_view() == group_cwd(files.deep_view(), group.deep_view()),
{
    let own = group.join(".cwd");
    if files.is_file(&own) {
        if let Some(text) = files.read_text(&own) {
            if !is_blank(text.as_str()) {
                return Some(trimmed(text.as_str()));
            }
        }
    }
    let name = match group.file_name() {
        Some(name) => name,
        None => return None,
    };
    match percent_decode(name) {
        Some(cwd) => if cwd.as_str().is_empty() {
            None
        } else {
            Some(cwd)
        },
        None => None,
    }
}

/// What a session says of itself.
pub open spec fn summary_of(t: Seq<EntryView>, dir: Seq<Seq<char>>) -> Option<JsonView> {
    match text_at(t, below(dir, "summary.json"@)) {
        Some(text) => document_in(text),
        None => None,
    }
}

/// The first line that is not blank.
pub open spec fn first_said(all: Seq<Seq<char>>) -> Option<Seq<char>>
    decreases all.len(),
{
    if all.len() == 0 {
        None
    } else if !blank(all[0]) {
        Some(all[0])
    } else {
        first_said(all.skip(1))
    }
}

fn find_said(all: &Vec<String>) -> (r: Option<&String>)
    ensures
        r.deep_view() == first_said(all.deep_view()),
{
    let ghost s = all.deep_view();
    let mut i: usize = 0;
    assert(s.skip(0) =~= s);
    while i < all.len()
        invariant
            i <= all@.len(),
            s == all.deep_view(),
            first_said(s) == first_said(s.skip(i as int)),
        decreases all.len() - i,
    {
        assert(s.skip(i as int)[0] == all@[i as int]@);
        if !is_blank(all[i].as_str()) {
            return Some(&all[i]);
        }
        assert(s.skip(i as int).skip(1) =~= s.skip(i + 1));
        i = i + 1;
    }
    None
}

/// The first line of what a user said first, or of what was said first.
pub open spec fn opening(messages: Seq<MessageView>) -> Option<Seq<char>> {
    let first = or_else(
        first_of_role(messages, "user"@),
        if messages.len() == 0 {
            None
        } else {
            Some(messages[0])
        },
    );
    match first {
        Some(m) => match first_said(lines(m.content)) {
            Some(line) => Some(head(line, 100)),
            None => None,
        },
        None => None,
    }
}

fn opening_of(messages: &Vec<Message>) -> (r: Option<String>)
    ensures
        r.deep_view() == opening(messages.deep_view()),
{
    let first = match find_role(messages, "user") {
        Some(m) => m,
        None => {
            if messages.len() == 0 {
                return None;
            }
            assert(messages.deep_view()[0] == messages@[0].deep_view());
            &messages[0]
        },
    };
    match find_said(&lines_of(first.content.as_str())) {
        Some(line) => Some(take_chars(line.as_str(), 100)),
        None => None,
    }
}

/// A text of the summary that is not blank.
pub open spec fn said_in(summary: Option<JsonView>, key: Seq<char>) -> Option<Seq<char>> {
    match text_in(member_of(summary, key)) {
        Some(text) => if_said(text),
        None => None,
    }
}

fn said_in_of(summary: Option<&Json>, key: &str) -> (r: Option<String>)
    ensures
        r.deep_view() == said_in(summary.deep_view(), key@),
{
    match str_in(get_in(summary, key)) {
        Some(text) => if is_blank(text) {
            None
        } else {
            Some(text.to_owned())
        },
        None => None,
    }
}

/// Members with one of the summary, if it is there.
pub open spec fn with_kept(
    members: Seq<(Seq<char>, JsonView)>,
    summary: Option<JsonView>,
    key: Seq<char>,
) -> Seq<(Seq<char>, JsonView)> {
    match if_set(member_of(summary, key)) {
        Some(v) => with_member(members, key, v),
        None => members,
    }
}

fn keep_member(members: &mut Vec<(String, Json)>, summary: Option<&Json>, key: &str)
    ensures
        final(members).deep_view() == with_kept(old(members).deep_view(), summary.deep_view(), key@),
{
    if let Some(v) = copied_if_set(get_in(summary, key)) {
        assign(members, key, v);
    }
}

/// What is known of a session.
pub open spec fn session_metadata(summary: Option<JsonView>) -> JsonView {
    let named = with_text(
        seq![("source"@, JsonView::Text("grok"@))],
        "model"@,
        text_in(member_of(summary, "current_model_id"@)),
    );
    JsonView::Object(
        with_kept(
            with_kept(with_kept(named, summary, "agent_name"@), summary, "sandbox_profile"@),
            summary,
            "parent_session_id"@,
        ),
    )
}

fn make_metadata(summary: Option<&Json>) -> (r: Json)
    ensures
        r@ == session_metadata(summary.deep_view()),
{
    let mut members: Vec<(String, Json)> = Vec::new();
    put(&mut members, "source", text_json("grok"));
    assert(members.deep_view() =~= seq![("source"@, JsonView::Text("grok"@))]);
    assign_text(&mut members, "model", str_in(get_in(summary, "current_model_id")));
    keep_member(&mut members, summary, "agent_name");
    keep_member(&mut members, summary, "sandbox_profile");
    keep_member(&mut members, summary, "parent_session_id");
    object(members)
}

/// What was read of a session: the messages, the span of time and the file.
#[verifier::ext_equal]
pub struct ReadView {
    pub messages: Seq<MessageView>,
    pub started_at: Option<i64>,
    pub ended_at: Option<i64>,
    pub source_path: Seq<Seq<char>>,
}

/// The lines of a file, up to the first that cannot be read.
pub open spec fn file_lines(t: Seq<EntryView>, p: Seq<Seq<char>>) -> Seq<Seq<char>> {
    match lines_at(t, p) {
        Some(all) => readable(all),
        None => Seq::empty(),
    }
}

fn file_lines_of(files: &FileTable, path: &SourcePath) -> (r: Vec<String>)
    ensures
        r.deep_view() == file_lines(files.deep_view(), path.deep_view()),
{
    match files.read_lines(path) {
        Some(all) => readable_lines(&all),
        None => {
            let none: Vec<String> = Vec::new();
            assert(none.deep_view() =~= Seq::empty());
            none
        },
    }
}

/// The stream of a session, or none where there is no such file.
pub open spec fn stream_of(t: Seq<EntryView>, dir: Seq<Seq<char>>) -> Seq<Seq<char>> {
    let updates = below(dir, "updates.jsonl"@);
    if path_is_file(t, updates) {
        file_lines(t, updates)
    } else {
        Seq::empty()
    }
}

/// What is read of a session: the stream, or, where that says nothing, the history
/// if there is one.
pub open spec fn read_of(t: Seq<EntryView>, dir: Seq<Seq<char>>, model: Option<Seq<char>>) -> ReadView {
    let updates = below(dir, "updates.jsonl"@);
    let history = below(dir, "chat_history.jsonl"@);
    let b = built(stream_of(t, dir), model);
    let messages = finished(b.messages);
    if messages.len() == 0 && path_is_file(t, history) {
        ReadView {
            messages: numbered(history_messages(file_lines(t, history))),
            started_at: b.started_at,
            ended_at: b.ended_at,
            source_path: history,
        }
    } else {
        ReadView { messages, started_at: b.started_at, ended_at: b.ended_at, source_path: updates }
    }
}

/// The conversation of what was read of a session, with its summary: none where
/// nothing was said. `group` is the working directory of the group.
pub open spec fn conversation_of(
    name: Option<Seq<char>>,
    group: Option<Seq<char>>,
    summary: Option<JsonView>,
    read: ReadView,
) -> Option<ConversationView> {
    let info = member_of(summary, "info"@);
    if read.messages.len() == 0 {
        None
    } else {
        Some(
            ConversationView {
                agent_slug: "grok"@,
                external_id: or_else(text_in(member_of(info, "id"@)), name),
                title: or_else(
                    said_in(summary, "generated_title"@),
                    or_else(said_in(summary, "session_summary"@), opening(read.messages)),
                ),
                workspace: or_else(text_in(member_of(info, "cwd"@)), group),
                source_path: read.source_path,
                started_at: or_else(timestamp_in(member_of(summary, "created_at"@)), read.started_at),
                ended_at: or_else(
                    timestamp_in(member_of(summary, "last_active_at"@)),
                    or_else(timestamp_in(member_of(summary, "updated_at"@)), read.ended_at),
                ),
                metadata: session_metadata(summary),
                messages: read.messages,
            },
        )
    }
}

/// The conversation of a session: none where nothing was said.
pub open spec fn session_conversation(t: Seq<EntryView>, dir: Seq<Seq<char>>) -> Option<ConversationView> {
    let summary = summary_of(t, dir);
    conversation_of(
        file_name(dir),
        match parent(dir) {
            Some(group) => group_cwd(t, group),
            None => None,
        },
        summary,
        read_of(t, dir, text_in(member_of(summary, "current_model_id"@))),
    )
}

/// What was read of a session: the messages, the span of time and the file.
pub struct SessionReading {
    pub messages: Vec<Message>,
    pub started_at: Option<i64>,
    pub ended_at: Option<i64>,
    pub source_path: SourcePath,
}

impl DeepView for SessionReading {
    type V = ReadView;

    open spec fn deep_view(&self) -> ReadView {
        ReadView {
            messages: self.messages.deep_view(),
            started_at: self.started_at,
            ended_at: self.ended_at,
            source_path: self.source_path.deep_view(),
        }
    }
}

/// The conversation of what was read of a session.
pub fn conversation_from(
    name: Option<&str>,
    group: Option<String>,
    summary: Option<&Json>,
    read: SessionReading,
) -> (r: Option<Conversation>)
    ensures
        r.deep_view() == conversation_of(
            name.deep_view(),
            group.deep_view(),
            summary.deep_view(),
            read.deep_view(),
        ),
{
    if read.messages.len() == 0 {
        return None;
    }
    let info = get_in(summary, "info");
    let external_id = match str_in(get_in(info, "id")) {
        Some(id) => Some(id.to_owned()),
        None => owned(name),
    };
    let workspace = match str_in(get_in(info, "cwd")) {
        Some(cwd) => Some(cwd.to_owned()),
        None => group,
    };
    let started_at = match timestamp_of(get_in(summary, "created_at")) {
        Some(t) => Some(t),
        None => read.started_at,
    };
    let ended_at = match timestamp_of(get_in(summary, "last_active_at")) {
        Some(t) => Some(t),
        None => match timestamp_of(get_in(summary, "updated_at")) {
            Some(t) => Some(t),
            None => read.ended_at,
        },
    };
    let title = match said_in_of(summary, "generated_title") {
        Some(title) => Some(title),
        None => match said_in_of(summary, "session_summary") {
            Some(title) => Some(title),
            None => opening_of(&read.messages),
        },
    };
    Some(
        Conversation {
            agent_slug: "grok".to_owned(),
            external_id,
            title,
            workspace,
            source_path: read.source_path,
            started_at,
            ended_at,
            metadata: make_metadata(summary),
            messages: read.messages,
        },
    )
}

/// Reads the conversation of a session.
pub fn parse_session(files: &FileTable, dir: &SourcePath) -> (r: Option<Conversation>)
    ensures
        r.deep_view() == session_conversation(files.deep_view(), dir.deep_view()),
{
    let updates = dir.join("updates.jsonl");
    let history = dir.join("chat_history.jsonl");
    let held = match files.read_text(&dir.join("summary.json")) {
        Some(text) => parse_json(text.as_str()),
        None => None,
    };
    let summary = held.as_ref();
    assert(summary.deep_view() == summary_of(files.deep_view(), dir.deep_view()));
    let stream = if files.is_file(&updates) {
        file_lines_of(files, &updates)
    } else {
        let none: Vec<String> = Vec::new();
        assert(none.deep_view() =~= Seq::empty());
        none
    };
    let b = parse_updates(&stream, str_in(get_in(summary, "current_model_id")));
    let started_at = b.started_at;
    let ended_at = b.ended_at;
    let mut messages = b.finish();
    let source_path = if messages.len() == 0 && files.is_file(&history) {
        messages = parse_chat_history_fallback(&file_lines_of(files, &history));
        history
    } else {
        updates
    };
    let group = match dir.parent() {
        Some(group) => decode_group_cwd(files, &group),
        None => None,
    };
    conversation_from(
        dir.file_name(),
        group,
        summary,
        SessionReading { messages, started_at, ended_at, source_path },
    )
}

/// A session to scan, with the files that it is read from.
pub struct SessionUnit {
    pub directory: SourcePath,
    /// The stream, or the history where there is no stream.
    pub primary: Option<DiscoveredSource>,
    pub sidecars: Vec<DiscoveredSource>,
}

#[verifier::ext_equal]
pub struct UnitView {
    pub directory: Seq<Seq<char>>,
    pub primary: Option<SourceView>,
    pub sidecars: Seq<SourceView>,
}

impl DeepView for SessionUnit {
    type V = UnitView;

    open spec fn deep_view(&self) -> UnitView {
        UnitView {
            directory: self.directory.deep_view(),
            primary: self.primary.deep_view(),
            sidecars: self.sidecars.deep_view(),
        }
    }
}

/// A file of a session, as a source.
pub open spec fn log_source(root: RootView, path: Seq<Seq<char>>, required: bool) -> SourceView {
    source("grok"@, root, path, SourceRole::PrimarySessionLog, required)
}

/// The summary of a session, as a source.
pub open spec fn summary_source(root: RootView, path: Seq<Seq<char>>) -> SourceView {
    source("grok"@, root, path, SourceRole::MetadataSidecar, false)
}

/// The unit of a session.
pub open spec fn unit_of(t: Seq<EntryView>, root: RootView, dir: Seq<Seq<char>>) -> UnitView {
    let updates = below(dir, "updates.jsonl"@);
    let history = below(dir, "chat_history.jsonl"@);
    let summary = below(dir, "summary.json"@);
    let no_sources = Seq::<SourceView>::empty();
    let summaries = if path_is_file(t, summary) {
        seq![summary_source(root, summary)]
    } else {
        no_sources
    };
    if path_is_file(t, updates) {
        UnitView {
            directory: dir,
            primary: Some(log_source(root, updates, true)),
            sidecars: (if path_is_file(t, history) {
                seq![log_source(root, history, false)]
            } else {
                no_sources
            }) + summaries,
        }
    } else if path_is_file(t, history) {
        UnitView { directory: dir, primary: Some(log_source(root, history, false)), sidecars: summaries }
    } else {
        UnitView { directory: dir, primary: None, sidecars: no_sources }
    }
}

fn make_unit(files: &FileTable, root: &ScanRoot, dir: &SourcePath) -> (r: SessionUnit)
    ensures
        r.deep_view() == unit_of(files.deep_view(), root.deep_view(), dir.deep_view()),
{
    let updates = dir.join("updates.jsonl");
    let history = dir.join("chat_history.jsonl");
    let summary = dir.join("summary.json");
    let mut sidecars: Vec<DiscoveredSource> = Vec::new();
    assert(sidecars.deep_view() =~= Seq::empty());
    let has_history = files.is_file(&history);
    let primary = if files.is_file(&updates) {
        if has_history {
            push_source(
                &mut sidecars,
                DiscoveredSource::new("grok", root, history, SourceRole::PrimarySessionLog, false),
            );
        }
        Some(DiscoveredSource::new("grok", root, updates, SourceRole::PrimarySessionLog, true))
    } else if has_history {
        Some(DiscoveredSource::new("grok", root, history, SourceRole::PrimarySessionLog, false))
    } else {
        None
    };
    if primary.is_some() && files.is_file(&summary) {
        push_source(&mut sidecars, DiscoveredSource::new("grok", root, summary, SourceRole::MetadataSidecar, false));
    }
    let unit = SessionUnit { directory: dir.copy(), primary, sidecars };
    assert(unit.sidecars.deep_view() =~= unit_of(
        files.deep_view(),
        root.deep_view(),
        dir.deep_view(),
    ).sidecars);
    unit
}

/// The notice that a session was read: once its conversation was handed on, unless
/// a file of it changed meanwhile.
pub open spec fn completion_of(unit: UnitView, emitted: bool, changed: bool) -> Option<CompletionView> {
    match unit.primary {
        Some(primary) => if emitted && !changed {
            Some(
                CompletionView { source: primary, required_sidecars: unit.sidecars, conversations_emitted: 1 },
            )
        } else {
            None
        },
        None => None,
    }
}

impl SessionUnit {
    /// The notice that the session was read.
    pub fn completion(self, emitted: bool, changed: bool) -> (r: Option<SourceCompletion>)
        ensures
            r.deep_view() == completion_of(self.deep_view(), emitted, changed),
    {
        match self.primary {
            Some(primary) => if emitted && !changed {
                Some(
                    SourceCompletion {
                        source: primary,
                        required_sidecars: self.sidecars,
                        conversations_emitted: 1,
                    },
                )
            } else {
                None
            },
            None => None,
        }
    }
}

/// The sessions seen so far, and those to scan.
#[verifier::ext_equal]
pub struct UnitsView {
    pub seen: Seq<Seq<Seq<char>>>,
    pub units: Seq<UnitView>,
}

/// A session is scanned if it was not seen before and something in it changed.
pub open spec fn after_dir(
    t: Seq<EntryView>,
    u: UnitsView,
    root: RootView,
    dir: Seq<Seq<char>>,
    since: Option<i64>,
) -> UnitsView {
    let key = canonical_path(t, dir);
    UnitsView {
        seen: seen_with(u.seen, key),
        units: if !was_seen(u.seen, key) && session_changed(t, dir, since) {
            u.units.push(unit_of(t, root, dir))
        } else {
            u.units
        },
    }
}

pub open spec fn after_dirs(
    t: Seq<EntryView>,
    u: UnitsView,
    root: RootView,
    dirs: Seq<Seq<Seq<char>>>,
    since: Option<i64>,
) -> UnitsView
    decreases dirs.len(),
{
    if dirs.len() == 0 {
        u
    } else {
        after_dir(t, after_dirs(t, u, root, dirs.drop_last(), since), root, dirs.last(), since)
    }
}

/// The sessions of a root that is there.
pub open spec fn sessions_of_root(t: Seq<EntryView>, root: RootView) -> Seq<Seq<Seq<char>>> {
    if path_exists(t, root.path) {
        sessions_at(t, root.path)
    } else {
        Seq::empty()
    }
}

pub open spec fn units_of(t: Seq<EntryView>, roots: Seq<RootView>, since: Option<i64>) -> UnitsView
    decreases roots.len(),
{
    if roots.len() == 0 {
        UnitsView { seen: Seq::empty(), units: Seq::empty() }
    } else {
        after_dirs(
            t,
            units_of(t, roots.drop_last(), since),
            roots.last(),
            sessions_of_root(t, roots.last()),
            since,
        )
    }
}

/// The conversations of sessions.
pub open spec fn conversations_of(t: Seq<EntryView>, units: Seq<UnitView>) -> Seq<ConversationView>
    decreases units.len(),
{
    if units.len() == 0 {
        Seq::empty()
    } else {
        let front = conversations_of(t, units.drop_last());
        match session_conversation(t, units.last().directory) {
            Some(c) => front.push(c),
            None => front,
        }
    }
}

/// The files seen so far, and those that were discovered.
#[verifier::ext_equal]
pub struct FoundView {
    pub seen: Seq<Seq<Seq<char>>>,
    pub found: Seq<SourceView>,
}

/// A file that is there and was not seen before is a source.
pub open spec fn with_source(t: Seq<EntryView>, f: FoundView, s: SourceView) -> FoundView {
    let key = canonical_path(t, s.source_path);
    if path_is_file(t, s.source_path) && !was_seen(f.seen, key) {
        FoundView { seen: seen_with(f.seen, key), found: f.found.push(s) }
    } else {
        f
    }
}

/// The files of a session that changed.
pub open spec fn found_in_dir(
    t: Seq<EntryView>,
    f: FoundView,
    root: RootView,
    dir: Seq<Seq<char>>,
    since: Option<i64>,
) -> FoundView {
    if !session_changed(t, dir, since) {
        f
    } else {
        with_source(
            t,
            with_source(
                t,
                with_source(t, f, log_source(root, below(dir, "updates.jsonl"@), true)),
                log_source(root, below(dir, "chat_history.jsonl"@), false),
            ),
            summary_source(root, below(dir, "summary.json"@)),
        )
    }
}

pub open spec fn found_in_dirs(
    t: Seq<EntryView>,
    f: FoundView,
    root: RootView,
    dirs: Seq<Seq<Seq<char>>>,
    since: Option<i64>,
) -> FoundView
    decreases dirs.len(),
{
    if dirs.len() == 0 {
        f
    } else {
        found_in_dir(t, found_in_dirs(t, f, root, dirs.drop_last(), since), root, dirs.last(), since)
    }
}

pub open spec fn found_under(t: Seq<EntryView>, roots: Seq<RootView>, since: Option<i64>) -> FoundView
    decreases roots.len(),
{
    if roots.len() == 0 {
        FoundView { seen: Seq::empty(), found: Seq::empty() }
    } else {
        found_in_dirs(
            t,
            found_under(t, roots.drop_last(), since),
            roots.last(),
            sessions_of_root(t, roots.last()),
            since,
        )
    }
}

fn find_source(files: &FileTable, seen: &mut Vec<SourcePath>, found: &mut Vec<DiscoveredSource>, one: DiscoveredSource)
    ensures
        with_source(
            files.deep_view(),
            (FoundView { seen: old(seen).deep_view(), found: old(found).deep_view() }),
            one.deep_view(),
        ) == (FoundView { seen: final(seen).deep_view(), found: final(found).deep_view() }),
{
    if files.is_file(&one.source_path) {
        let key = files.canonical(&one.source_path);
        if note_path(seen, key) {
            push_source(found, one);
        }
    }
}

impl GrokConnector {
    pub fn new() -> (r: GrokConnector)
        ensures
            r == GrokConnector,
    {
        GrokConnector
    }

    /// What the registry of agents found, or that nothing was found.
    pub fn detect(&self, found: Option<DetectionResult>) -> (r: DetectionResult)
        ensures
            r.deep_view() == detected_or_nothing(found.deep_view()),
    {
        detection_or_nothing(found)
    }

    /// Sessions can be handed on one by one.
    pub fn supports_streaming_scan(&self) -> (r: bool)
        ensures
            r,
    {
        true
    }

    /// It can be told when a session was read.
    pub fn supports_source_boundaries(&self) -> (r: bool)
        ensures
            r,
    {
        true
    }

    /// Where the data of Grok stands.
    pub fn base_root(surroundings: &Surroundings) -> (r: SourcePath)
        ensures
            r.deep_view() == base_of(surroundings.deep_view()),
    {
        match path_from_variable(surroundings, "GROK_HOME") {
            Some(path) => path,
            None => home_or_here_of(surroundings.home.as_ref()).join(".grok"),
        }
    }

    /// Where the sessions stand below that.
    pub fn sessions_root_of(base: &SourcePath) -> (r: SourcePath)
        ensures
            r.deep_view() == below(base.deep_view(), "sessions"@),
    {
        base.join("sessions")
    }

    /// Whether a directory is one of a session.
    pub fn is_session_dir(files: &FileTable, path: &SourcePath) -> (r: bool)
        ensures
            r == holds_session(files.deep_view(), path.deep_view()),
    {
        files.is_file(&path.join("updates.jsonl")) || files.is_file(&path.join("chat_history.jsonl"))
    }

    /// The roots to scan.
    pub fn source_roots(ctx: &ScanContext, surroundings: &Surroundings, files: &FileTable) -> (r: Vec<ScanRoot>)
        ensures
            r.deep_view() == grok_roots(files.deep_view(), ctx.deep_view(), surroundings.deep_view()),
    {
        if !ctx.use_default_detection() {
            return settle_roots(copy_roots(&ctx.scan_roots));
        }
        let mut roots: Vec<ScanRoot> = Vec::new();
        assert(roots.deep_view() =~= Seq::empty());
        let set = path_from_variable(surroundings, "GROK_HOME").is_some();
        if !set && (files.is_dir(&GrokConnector::sessions_root_of(&ctx.data_dir)) || GrokConnector::is_session_dir(
            files,
            &ctx.data_dir,
        )) {
            push_root(&mut roots, ScanRoot::local(ctx.data_dir.copy()));
            assert(roots.deep_view() =~= seq![local_root(ctx.deep_view().data_dir)]);
        } else {
            push_root(&mut roots, ScanRoot::local(GrokConnector::base_root(surroundings)));
            assert(roots.deep_view() =~= seq![local_root(base_of(surroundings.deep_view()))]);
        }
        settle_roots(roots)
    }

    fn push_session_dirs(files: &FileTable, paths: &Vec<SourcePath>, out: &mut Vec<SourcePath>)
        ensures
            final(out).deep_view() == old(out).deep_view() + session_dirs_among(files.deep_view(), paths.deep_view()),
    {
        let ghost t = files.deep_view();
        let ghost all = paths.deep_view();
        let ghost start = out.deep_view();
        let mut i: usize = 0;
        assert(all.take(0) =~= Seq::empty());
        assert(start + session_dirs_among(t, all.take(0)) =~= start);
        while i < paths.len()
            invariant
                i <= paths@.len(),
                t == files.deep_view(),
                all == paths.deep_view(),
                out.deep_view() == start + session_dirs_among(t, all.take(i as int)),
            decreases paths.len() - i,
        {
            let path = &paths[i];
            assert(all.take(i + 1).drop_last() =~= all.take(i as int));
            assert(all.take(i + 1).last() == path.deep_view());
            if files.is_dir(path) && GrokConnector::is_session_dir(files, path) {
                push_path(out, path.copy());
            }
            assert(out.deep_view() =~= start + session_dirs_among(t, all.take(i + 1)));
            i = i + 1;
        }
        assert(all.take(all.len() as int) =~= all);
    }

    /// The directories of the sessions that a place stands for.
    pub fn session_dirs(files: &FileTable, place: &SourcePath) -> (r: Vec<SourcePath>)
        ensures
            r.deep_view() == sessions_at(files.deep_view(), place.deep_view()),
    {
        let ghost t = files.deep_view();
        let mut out: Vec<SourcePath> = Vec::new();
        assert(out.deep_view() =~= Seq::empty());
        if GrokConnector::is_session_dir(files, place) {
            push_path(&mut out, place.copy());
            assert(out.deep_view() =~= seq![place.deep_view()]);
            return out;
        }
        let sessions = GrokConnector::sessions_root_of(place);
        let root = if files.is_dir(&sessions) {
            sessions
        } else if files.is_dir(place) {
            place.copy()
        } else {
            return settle_paths(out);
        };
        let groups = files.list(&root);
        let ghost all = groups.deep_view();
        let mut i: usize = 0;
        assert(all.take(0) =~= Seq::empty());
        while i < groups.len()
            invariant
                i <= groups@.len(),
                t == files.deep_view(),
                all == groups.deep_view(),
                out.deep_view() == sessions_in_groups(t, all.take(i as int)),
            decreases groups.len() - i,
        {
            let group = &groups[i];
            assert(all.take(i + 1).drop_last() =~= all.take(i as int));
            assert(all.take(i + 1).last() == group.deep_view());
            if files.is_dir(group) {
                if GrokConnector::is_session_dir(files, group) {
                    push_path(&mut out, group.copy());
                } else {
                    let inner = files.list(group);
                    GrokConnector::push_session_dirs(files, &inner, &mut out);
                }
            }
            i = i + 1;
        }
        assert(all.take(all.len() as int) =~= all);
        settle_paths(out)
    }

    /// Whether something in a session changed.
    pub fn session_modified_since(files: &FileTable, dir: &SourcePath, since: Option<i64>) -> (r: bool)
        ensures
            r == session_changed(files.deep_view(), dir.deep_view(), since),
    {
        since.is_none() || files.is_fresh(&dir.join("updates.jsonl")) || files.is_fresh(
            &dir.join("chat_history.jsonl"),
        ) || files.is_fresh(&dir.join("summary.json"))
    }

    fn sessions_under(files: &FileTable, root: &ScanRoot) -> (r: Vec<SourcePath>)
        ensures
            r.deep_view() == sessions_of_root(files.deep_view(), root.deep_view()),
    {
        if files.has(&root.path) {
            GrokConnector::session_dirs(files, &root.path)
        } else {
            let none: Vec<SourcePath> = Vec::new();
            assert(none.deep_view() =~= Seq::empty());
            none
        }
    }

    /// The sessions to scan, each with the files that it is read from.
    pub fn units(&self, ctx: &ScanContext, surroundings: &Surroundings, files: &FileTable) -> (r: Vec<SessionUnit>)
        ensures
            r.deep_view() == units_of(
                files.deep_view(),
                grok_roots(files.deep_view(), ctx.deep_view(), surroundings.deep_view()),
                ctx.since_ts,
            ).units,
    {
        let ghost t = files.deep_view();
        let since = ctx.since_ts;
        let roots = GrokConnector::source_roots(ctx, surroundings, files);
        let ghost all = roots.deep_view();
        let mut seen: Vec<SourcePath> = Vec::new();
        let mut units: Vec<SessionUnit> = Vec::new();
        let mut i: usize = 0;
        assert(all.take(0) =~= Seq::empty());
        assert(seen.deep_view() =~= Seq::empty());
        assert(units.deep_view() =~= Seq::empty());
        while i < roots.len()
            invariant
                i <= roots@.len(),
                t == files.deep_view(),
                all == roots.deep_view(),
                units_of(t, all.take(i as int), since) == (UnitsView {
                    seen: seen.deep_view(),
                    units: units.deep_view(),
                }),
            decreases roots.len() - i,
        {
            let root = &roots[i];
            let ghost before = units_of(t, all.take(i as int), since);
            assert(all.take(i + 1).drop_last() =~= all.take(i as int));
            assert(all.take(i + 1).last() == root.deep_view());
            let dirs = GrokConnector::sessions_under(files, root);
            let ghost ds = dirs.deep_view();
            let mut k: usize = 0;
            assert(ds.take(0) =~= Seq::empty());
            while k < dirs.len()
                invariant
                    k <= dirs@.len(),
                    t == files.deep_view(),
                    ds == dirs.deep_view(),
                    after_dirs(t, before, root.deep_view(), ds.take(k as int), since) == (UnitsView {
                        seen: seen.deep_view(),
                        units: units.deep_view(),
                    }),
                decreases dirs.len() - k,
            {
                let dir = &dirs[k];
                assert(ds.take(k + 1).drop_last() =~= ds.take(k as int));
                assert(ds.take(k + 1).last() == dir.deep_view());
                if note_path(&mut seen, files.canonical(dir)) {
                    if GrokConnector::session_modified_since(files, dir, since) {
                        let ghost old_units = units.deep_view();
                        let unit = make_unit(files, root, dir);
                        let ghost made = unit.deep_view();
                        units.push(unit);
                        assert(units.deep_view() =~= old_units.push(made));
                    }
                }
                k = k + 1;
            }
            assert(ds.take(ds.len() as int) =~= ds);
            i = i + 1;
        }
        assert(all.take(all.len() as int) =~= all);
        units
    }

    /// Reads the sessions that changed.
    pub fn scan(&self, ctx: &ScanContext, surroundings: &Surroundings, files: &FileTable) -> (r: Vec<Conversation>)
        ensures
            r.deep_view() == conversations_of(
                files.deep_view(),
                units_of(
                    files.deep_view(),
                    grok_roots(files.deep_view(), ctx.deep_view(), surroundings.deep_view()),
                    ctx.since_ts,
                ).units,
            ),
    {
        let ghost t = files.deep_view();
        let units = self.units(ctx, surroundings, files);
        let ghost all = units.deep_view();
        let mut found: Vec<Conversation> = Vec::new();
        let mut i: usize = 0;
        assert(all.take(0) =~= Seq::empty());
        assert(found.deep_view() =~= Seq::empty());
        while i < units.len()
            invariant
                i <= units@.len(),
                t == files.deep_view(),
                all == units.deep_view(),
                found.deep_view() == conversations_of(t, all.take(i as int)),
            decreases units.len() - i,
        {
            assert(all.take(i + 1).drop_last() =~= all.take(i as int));
            assert(all.take(i + 1).last() == units@[i as int].deep_view());
            if let Some(c) = parse_session(files, &units[i].directory) {
                push_conversation(&mut found, c);
            }
            i = i + 1;
        }
        assert(all.take(all.len() as int) =~= all);
        found
    }

    /// The files that a scan would read.
    pub fn discover_source_files(&self, ctx: &ScanContext, surroundings: &Surroundings, files: &FileTable) -> (r: Vec<
        DiscoveredSource,
    >)
        ensures
            r.deep_view() == found_under(
                files.deep_view(),
                grok_roots(files.deep_view(), ctx.deep_view(), surroundings.deep_view()),
                ctx.since_ts,
            ).found,
    {
        let ghost t = files.deep_view();
        let since = ctx.since_ts;
        let roots = GrokConnector::source_roots(ctx, surroundings, files);
        let ghost all = roots.deep_view();
        let mut seen: Vec<SourcePath> = Vec::new();
        let mut found: Vec<DiscoveredSource> = Vec::new();
        let mut i: usize = 0;
        assert(all.take(0) =~= Seq::empty());
        assert(seen.deep_view() =~= Seq::empty());
        assert(found.deep_view() =~= Seq::empty());
        while i < roots.len()
            invariant
                i <= roots@.len(),
                t == files.deep_view(),
                all == roots.deep_view(),
                found_under(t, all.take(i as int), since) == (FoundView {
                    seen: seen.deep_view(),
                    found: found.deep_view(),
                }),
            decreases roots.len() - i,
        {
            let root = &roots[i];
            let ghost before = found_under(t, all.take(i as int), since);
            assert(all.take(i + 1).drop_last() =~= all.take(i as int));
            assert(all.take(i + 1).last() == root.deep_view());
            let dirs = GrokConnector::sessions_under(files, root);
            let ghost ds = dirs.deep_view();
            let mut k: usize = 0;
            assert(ds.take(0) =~= Seq::empty());
            while k < dirs.len()
                invariant
                    k <= dirs@.len(),
                    t == files.deep_view(),
                    ds == dirs.deep_view(),
                    found_in_dirs(t, before, root.deep_view(), ds.take(k as int), since) == (FoundView {
                        seen: seen.deep_view(),
                        found: found.deep_view(),
                    }),
                decreases dirs.len() - k,
            {
                let dir = &dirs[k];
                assert(ds.take(k + 1).drop_last() =~= ds.take(k as int));
                assert(ds.take(k + 1).last() == dir.deep_view());
                if GrokConnector::session_modified_since(files, dir, since) {
                    let updates = dir.join("updates.jsonl");
                    let history = dir.join("chat_history.jsonl");
                    let summary = dir.join("summary.json");
                    find_source(
                        files,
                        &mut seen,
                        &mut found,
                        DiscoveredSource::new("grok", root, updates, SourceRole::PrimarySessionLog, true),
                    );
                    find_source(
                        files,
                        &mut seen,
                        &mut found,
                        DiscoveredSource::new("grok", root, history, SourceRole::PrimarySessionLog, false),
                    );
                    find_source(
                        files,
                        &mut seen,
                        &mut found,
                        DiscoveredSource::new("grok", root, summary, SourceRole::MetadataSidecar, false),
                    );
                }
                k = k + 1;
            }
            assert(ds.take(ds.len() as int) =~= ds);
            i = i + 1;
        }
        assert(all.take(all.len() as int) =~= all);
        found
    }
}

/// A conversation that was read has messages, each at its place and none without
/// content unless it calls something. It comes from the stream or, only where that
/// says nothing, from the history.
pub proof fn conversation_is_sound(t: Seq<EntryView>, dir: Seq<Seq<char>>)
    ensures
        session_conversation(t, dir) matches Some(c) ==> {
            &&& c.messages.len() > 0
            &&& is_numbered(c.messages)
            &&& forall|i: int|
                0 <= i < c.messages.len() ==> (#[trigger] c.messages[i]).content.len() > 0
                    || c.messages[i].invocations.len() > 0
            &&& c.source_path == below(dir, "updates.jsonl"@) || c.source_path == below(dir, "chat_history.jsonl"@)
        },
{
    let summary = summary_of(t, dir);
    let model = text_in(member_of(summary, "current_model_id"@));
    let b = built(stream_of(t, dir), model);
    let history = below(dir, "chat_history.jsonl"@);
    finished_messages_are_sound(b.messages);
    let told = history_messages(file_lines(t, history));
    history_is_said(file_lines(t, history));
    numbering(told);
    assert forall|i: int| 0 <= i < numbered(told).len() implies (#[trigger] numbered(told)[i]).content.len() > 0 by {
        assert(told[i].content.len() > 0);
    }
    let read = read_of(t, dir, model);
    assert forall|i: int| 0 <= i < read.messages.len() implies (#[trigger] read.messages[i]).content.len() > 0
        || read.messages[i].invocations.len() > 0 by {
        if read.messages == finished(b.messages) {
            trim_empty_iff_blank(read.messages[i].content);
        }
    }
}

/// A session without a summary spans the time of its stream: it ended where it
/// started or later.
pub proof fn unsummarized_session_spans(t: Seq<EntryView>, dir: Seq<Seq<char>>)
    requires
        summary_of(t, dir) is None,
    ensures
        session_conversation(t, dir) matches Some(c) ==> spans(c.started_at, c.ended_at),
{
    stream_spans(stream_of(t, dir), None);
}

proof fn dirs_hold_sessions(t: Seq<EntryView>, paths: Seq<Seq<Seq<char>>>)
    ensures
        forall|i: int|
            0 <= i < session_dirs_among(t, paths).len() ==> holds_session(
                t,
                #[trigger] session_dirs_among(t, paths)[i],
            ),
    decreases paths.len(),
{
    if paths.len() > 0 {
        dirs_hold_sessions(t, paths.drop_last());
        let front = session_dirs_among(t, paths.drop_last());
        let all = session_dirs_among(t, paths);
        assert forall|i: int| 0 <= i < all.len() implies holds_session(t, #[trigger] all[i]) by {
            if i < front.len() {
                assert(all[i] == front[i]);
            }
        }
    }
}

proof fn groups_hold_sessions(t: Seq<EntryView>, groups: Seq<Seq<Seq<char>>>)
    ensures
        forall|i: int|
            0 <= i < sessions_in_groups(t, groups).len() ==> holds_session(
                t,
                #[trigger] sessions_in_groups(t, groups)[i],
            ),
    decreases groups.len(),
{
    if groups.len() > 0 {
        groups_hold_sessions(t, groups.drop_last());
        dirs_hold_sessions(t, children(t, groups.last()));
        let front = sessions_in_groups(t, groups.drop_last());
        let inner = session_dirs_among(t, children(t, groups.last()));
        let all = sessions_in_groups(t, groups);
        assert forall|i: int| 0 <= i < all.len() implies holds_session(t, #[trigger] all[i]) by {
            if i < front.len() {
                assert(all[i] == front[i]);
            } else if all == front + inner {
                assert(all[i] == inner[i - front.len()]);
            }
        }
    }
}

/// Whatever is taken for a session holds a stream or a history.
pub proof fn sessions_hold_something(t: Seq<EntryView>, place: Seq<Seq<char>>)
    ensures
        forall|i: int| 0 <= i < sessions_at(t, place).len() ==> holds_session(t, #[trigger] sessions_at(t, place)[i]),
{
    if !holds_session(t, place) {
        let found = match groups_root(t, place) {
            Some(root) => sessions_in_groups(t, children(t, root)),
            None => Seq::empty(),
        };
        if let Some(root) = groups_root(t, place) {
            groups_hold_sessions(t, children(t, root));
        }
        settled_paths_are_given(found);
        assert forall|i: int| 0 <= i < sessions_at(t, place).len() implies holds_session(
            t,
            #[trigger] sessions_at(t, place)[i],
        ) by {
            assert(found.contains(sessions_at(t, place)[i]));
        }
    }
}

proof fn unit_has_primary(t: Seq<EntryView>, root: RootView, dir: Seq<Seq<char>>)
    requires
        holds_session(t, dir),
    ensures
        unit_of(t, root, dir).primary is Some,
{
}

proof fn dirs_have_primaries(
    t: Seq<EntryView>,
    u: UnitsView,
    root: RootView,
    dirs: Seq<Seq<Seq<char>>>,
    since: Option<i64>,
)
    requires
        forall|i: int| 0 <= i < u.units.len() ==> (#[trigger] u.units[i]).primary is Some,
        forall|i: int| 0 <= i < dirs.len() ==> holds_session(t, #[trigger] dirs[i]),
    ensures
        forall|i: int|
            0 <= i < after_dirs(t, u, root, dirs, since).units.len() ==> (#[trigger] after_dirs(
                t,
                u,
                root,
                dirs,
                since,
            ).units[i]).primary is Some,
    decreases dirs.len(),
{
    if dirs.len() > 0 {
        dirs_have_primaries(t, u, root, dirs.drop_last(), since);
        unit_has_primary(t, root, dirs.last());
    }
}

/// Every session that is scanned has a file whose reading can be told.
pub proof fn every_unit_has_a_primary(t: Seq<EntryView>, roots: Seq<RootView>, since: Option<i64>)
    ensures
        forall|i: int|
            0 <= i < units_of(t, roots, since).units.len() ==> (#[trigger] units_of(
                t,
                roots,
                since,
            ).units[i]).primary is Some,
    decreases roots.len(),
{
    if roots.len() > 0 {
        every_unit_has_a_primary(t, roots.drop_last(), since);
        sessions_hold_something(t, roots.last().path);
        dirs_have_primaries(
            t,
            units_of(t, roots.drop_last(), since),
            roots.last(),
            sessions_of_root(t, roots.last()),
            since,
        );
    }
}

/// The sessions that are scanned are all seen, each once.
pub open spec fn units_are_distinct(t: Seq<EntryView>, u: UnitsView) -> bool {
    &&& forall|i: int| 0 <= i < u.units.len() ==> was_seen(u.seen, canonical_path(t, (#[trigger] u.units[i]).directory))
    &&& forall|i: int, j: int|
        0 <= i < j < u.units.len() ==> canonical_path(t, (#[trigger] u.units[i]).directory) != canonical_path(
            t,
            (#[trigger] u.units[j]).directory,
        )
}

proof fn dirs_are_distinct(
    t: Seq<EntryView>,
    u: UnitsView,
    root: RootView,
    dirs: Seq<Seq<Seq<char>>>,
    since: Option<i64>,
)
    requires
        units_are_distinct(t, u),
    ensures
        units_are_distinct(t, after_dirs(t, u, root, dirs, since)),
    decreases dirs.len(),
{
    if dirs.len() > 0 {
        dirs_are_distinct(t, u, root, dirs.drop_last(), since);
        let before = after_dirs(t, u, root, dirs.drop_last(), since);
        let after = after_dirs(t, u, root, dirs, since);
        let key = canonical_path(t, dirs.last());
        assert forall|i: int| 0 <= i < after.units.len() implies was_seen(
            after.seen,
            canonical_path(t, (#[trigger] after.units[i]).directory),
        ) by {
            seen_grows(before.seen, key, canonical_path(t, after.units[i].directory));
            if i < before.units.len() {
                assert(after.units[i] == before.units[i]);
            }
        }
        assert forall|i: int, j: int| 0 <= i < j < after.units.len() implies canonical_path(
            t,
            (#[trigger] after.units[i]).directory,
        ) != canonical_path(t, (#[trigger] after.units[j]).directory) by {
            assert(after.units[i] == before.units[i]);
            if j < before.units.len() {
                assert(after.units[j] == before.units[j]);
            }
        }
    }
}

/// No session is scanned twice, by whatever paths it can be reached.
pub proof fn scanned_sessions_are_distinct(t: Seq<EntryView>, roots: Seq<RootView>, since: Option<i64>)
    ensures
        units_are_distinct(t, units_of(t, roots, since)),
    decreases roots.len(),
{
    if roots.len() > 0 {
        scanned_sessions_are_distinct(t, roots.drop_last(), since);
        dirs_are_distinct(
            t,
            units_of(t, roots.drop_last(), since),
            roots.last(),
            sessions_of_root(t, roots.last()),
            since,
        );
    }
}

/// A session that gave no conversation, or a file of which changed, is not told to
/// be read.
pub proof fn completion_needs_a_conversation(unit: UnitView, emitted: bool, changed: bool)
    ensures
        completion_of(unit, emitted, changed) matches Some(c) ==> emitted && !changed && unit.primary == Some(c.source)
            && c.required_sidecars == unit.sidecars,
        unit.primary is Some && emitted && !changed ==> completion_of(unit, emitted, changed) is Some,
{
}

/// Whether all that was seen is among the sources.
spec fn is_complete(t: Seq<EntryView>, f: FoundView) -> bool {
    forall|key: Seq<Seq<char>>| #[trigger] was_seen(f.seen, key) ==> names_place(t, f.found, key)
}

/// Whether the files that a session is read from are among the sources.
pub open spec fn is_named_whole(t: Seq<EntryView>, found: Seq<SourceView>, unit: UnitView) -> bool {
    &&& unit.primary matches Some(p) ==> names_place(t, found, canonical_path(t, p.source_path))
    &&& forall|k: int|
        0 <= k < unit.sidecars.len() ==> names_place(
            t,
            found,
            canonical_path(t, (#[trigger] unit.sidecars[k]).source_path),
        )
}

proof fn source_is_named(t: Seq<EntryView>, f: FoundView, s: SourceView)
    requires
        is_complete(t, f),
    ensures
        is_complete(t, with_source(t, f, s)),
        path_is_file(t, s.source_path) ==> names_place(
            t,
            with_source(t, f, s).found,
            canonical_path(t, s.source_path),
        ),
        forall|key: Seq<Seq<char>>| #[trigger]
            names_place(t, f.found, key) ==> names_place(t, with_source(t, f, s).found, key),
{
    let key = canonical_path(t, s.source_path);
    places_stay_named(t, f.found, s);
    seen_pushed(f.seen, key);
}

proof fn directory_is_named(
    t: Seq<EntryView>,
    f: FoundView,
    root: RootView,
    dir: Seq<Seq<char>>,
    since: Option<i64>,
)
    requires
        is_complete(t, f),
    ensures
        is_complete(t, found_in_dir(t, f, root, dir, since)),
        session_changed(t, dir, since) ==> is_named_whole(
            t,
            found_in_dir(t, f, root, dir, since).found,
            unit_of(t, root, dir),
        ),
        forall|key: Seq<Seq<char>>| #[trigger]
            names_place(t, f.found, key) ==> names_place(t, found_in_dir(t, f, root, dir, since).found, key),
{
    let updates = log_source(root, below(dir, "updates.jsonl"@), true);
    let history = log_source(root, below(dir, "chat_history.jsonl"@), false);
    let summary = summary_source(root, below(dir, "summary.json"@));
    let one = with_source(t, f, updates);
    let two = with_source(t, one, history);
    source_is_named(t, f, updates);
    source_is_named(t, one, history);
    source_is_named(t, two, summary);
}

proof fn directories_are_named(
    t: Seq<EntryView>,
    u: UnitsView,
    f: FoundView,
    root: RootView,
    dirs: Seq<Seq<Seq<char>>>,
    since: Option<i64>,
)
    requires
        is_complete(t, f),
        forall|i: int| 0 <= i < u.units.len() ==> is_named_whole(t, f.found, #[trigger] u.units[i]),
    ensures
        ({
            let after = after_dirs(t, u, root, dirs, since);
            let found = found_in_dirs(t, f, root, dirs, since);
            &&& is_complete(t, found)
            &&& forall|i: int| 0 <= i < after.units.len() ==> is_named_whole(t, found.found, #[trigger] after.units[i])
        }),
    decreases dirs.len(),
{
    if dirs.len() > 0 {
        let front = dirs.drop_last();
        directories_are_named(t, u, f, root, front, since);
        let before = after_dirs(t, u, root, front, since);
        let found = found_in_dirs(t, f, root, front, since);
        directory_is_named(t, found, root, dirs.last(), since);
        let after = after_dirs(t, u, root, dirs, since);
        let last = found_in_dirs(t, f, root, dirs, since);
        assert forall|i: int| 0 <= i < after.units.len() implies is_named_whole(
            t,
            last.found,
            #[trigger] after.units[i],
        ) by {
            if i < before.units.len() {
                assert(after.units[i] == before.units[i]);
                assert(is_named_whole(t, found.found, before.units[i]));
            }
        }
    }
}

proof fn roots_are_named(t: Seq<EntryView>, roots: Seq<RootView>, since: Option<i64>)
    ensures
        is_complete(t, found_under(t, roots, since)),
        forall|i: int|
            0 <= i < units_of(t, roots, since).units.len() ==> is_named_whole(
                t,
                found_under(t, roots, since).found,
                #[trigger] units_of(t, roots, since).units[i],
            ),
    decreases roots.len(),
{
    if roots.len() > 0 {
        let front = roots.drop_last();
        roots_are_named(t, front, since);
        directories_are_named(
            t,
            units_of(t, front, since),
            found_under(t, front, since),
            roots.last(),
            sessions_of_root(t, roots.last()),
            since,
        );
    }
}

/// Whatever a scan reads, discovery names: the files that a session is read from are,
/// their links resolved, among the sources.
pub proof fn scanned_files_are_discovered(t: Seq<EntryView>, roots: Seq<RootView>, since: Option<i64>)
    ensures
        forall|i: int|
            0 <= i < units_of(t, roots, since).units.len() ==> is_named_whole(
                t,
                found_under(t, roots, since).found,
                #[trigger] units_of(t, roots, since).units[i],
            ),
{
    roots_are_named(t, roots, since);
}

/// What holds of sessions before they are read: one with a file to go by can be refused
/// and completed, and one that says nothing is never complete.
pub open spec fn session_rules(units: Seq<UnitView>) -> Seq<SourceRules> {
    units.map_values(|u: UnitView| SourceRules { bounded: u.primary is Some, empty_completes: false })
}

/// What holds of sessions before they are read.
pub fn rules_of(units: &Vec<SessionUnit>) -> (r: Vec<SourceRules>)
    ensures
        r@ == session_rules(units.deep_view()),
{
    let ghost wanted = session_rules(units.deep_view());
    let mut out: Vec<SourceRules> = Vec::new();
    let mut i: usize = 0;
    assert(out@ =~= wanted.take(0));
    while i < units.len()
        invariant
            i <= units@.len(),
            wanted == session_rules(units.deep_view()),
            out@ == wanted.take(i as int),
        decreases units.len() - i,
    {
        assert(units.deep_view()[i as int] == units@[i as int].deep_view());
        out.push(SourceRules { bounded: units[i].primary.is_some(), empty_completes: false });
        assert(out@ =~= wanted.take(i + 1));
        i = i + 1;
    }
    assert(wanted.take(wanted.len() as int) =~= wanted);
    out
}

/// A session is completed only after its conversation was handed on, it had been
/// accepted, and its files were found unchanged; one that says nothing or has no file
/// to go by is never completed. A conversation is handed on only of a session that was
/// accepted, where it has a file to go by.
pub proof fn sessions_complete_after_handing_on(units: Seq<UnitView>, events: Seq<Event>)
    requires
        units.len() <= usize::MAX,
        is_run(session_rules(units), events),
    ensures
        ({
            let rules = session_rules(units);
            let at = after(rules, events);
            &&& at.step matches Step::Complete(n) ==> {
                &&& at.source < units.len()
                &&& units[at.source as int].primary is Some
                &&& n == 1
                &&& came_of(rules, events, 0, at.source, Step::Check(1), Event::Unchanged)
                &&& came_of(rules, events, 1, at.source, Step::Emit, Event::Emitted)
                &&& came_of(rules, events, 2, at.source, Step::Read, Event::Found)
                &&& came_of(rules, events, 3, at.source, Step::Ask, Event::Accepted)
            }
            &&& at.step is Emit ==> {
                &&& came_of(rules, events, 0, at.source, Step::Read, Event::Found)
                &&& at.source < units.len() && units[at.source as int].primary is Some ==> came_of(
                    rules,
                    events,
                    1,
                    at.source,
                    Step::Ask,
                    Event::Accepted,
                )
            }
        }),
{
    let rules = session_rules(units);
    if after(rules, events).step is Complete {
        completing_follows_emitting(rules, events);
    }
    if after(rules, events).step is Emit {
        emitting_follows_reading(rules, events);
    }
}

proof fn kept_keeps_canonical(members: Seq<(Seq<char>, JsonView)>, summary: Option<JsonView>, key: Seq<char>)
    requires
        canonical(JsonView::Object(members)),
        summary matches Some(v) ==> canonical(v),
    ensures
        canonical(JsonView::Object(with_kept(members, summary, key))),
{
    inner_canonical(summary, key);
    if let Some(v) = if_set(member_of(summary, key)) {
        with_member_canonical(members, key, v);
    }
}

proof fn session_metadata_is_canonical(summary: Option<JsonView>)
    requires
        summary matches Some(v) ==> canonical(v),
    ensures
        canonical(session_metadata(summary)),
{
    let first = seq![("source"@, JsonView::Text("grok"@))];
    let model = text_in(member_of(summary, "current_model_id"@));
    let named = with_text(first, "model"@, model);
    one_member_is_canonical("source"@, JsonView::Text("grok"@));
    with_text_canonical(first, "model"@, model);
    kept_keeps_canonical(named, summary, "agent_name"@);
    let more = with_kept(named, summary, "agent_name"@);
    kept_keeps_canonical(more, summary, "sandbox_profile"@);
    kept_keeps_canonical(with_kept(more, summary, "sandbox_profile"@), summary, "parent_session_id"@);
}

/// The documents of the conversation of a session are canonical.
pub proof fn session_conversation_is_canonical(t: Seq<EntryView>, dir: Seq<Seq<char>>)
    ensures
        session_conversation(t, dir) matches Some(c) ==> canonical_conversation(c),
{
    let summary = summary_of(t, dir);
    let history = file_lines(t, below(dir, "chat_history.jsonl"@));
    session_metadata_is_canonical(summary);
    finished_messages_are_canonical(stream_of(t, dir), text_in(member_of(summary, "current_model_id"@)));
    history_messages_are_canonical(history);
    numbered_canonical(history_messages(history));
}

/// The documents of all conversations that a scan hands out are canonical, so that
/// each can be rendered.
pub proof fn scanned_documents_are_canonical(t: Seq<EntryView>, units: Seq<UnitView>)
    ensures
        canonical_conversations(conversations_of(t, units)),
    decreases units.len(),
{
    if units.len() > 0 {
        scanned_documents_are_canonical(t, units.drop_last());
        session_conversation_is_canonical(t, units.last().directory);
        if let Some(c) = session_conversation(t, units.last().directory) {
            conversations_grow(conversations_of(t, units.drop_last()), c);
        }
    }
}

/// A session is told of by its summary, where there is one: its id, or else the name of its
/// directory; the title that was made for it, or else its summary, or else how it opens; the
/// directory it ran in, or else that of its group; its own times, or else those of its
/// stream. It holds what was read of it.
pub proof fn sessions_are_told_of(
    name: Option<Seq<char>>,
    group: Option<Seq<char>>,
    summary: Option<JsonView>,
    read: ReadView,
)
    ensures
        conversation_of(name, group, summary, read) is None <==> read.messages.len() == 0,
        conversation_of(name, group, summary, read) matches Some(c) ==> {
            let info = member_of(summary, "info"@);
            &&& c.agent_slug == "grok"@
            &&& c.messages == read.messages
            &&& c.source_path == read.source_path
            &&& text_in(member_of(info, "id"@)) matches Some(id) ==> c.external_id == Some(id)
            &&& text_in(member_of(info, "id"@)) is None ==> c.external_id == name
            &&& text_in(member_of(info, "cwd"@)) matches Some(cwd) ==> c.workspace == Some(cwd)
            &&& text_in(member_of(info, "cwd"@)) is None ==> c.workspace == group
            &&& text_in(member_of(summary, "generated_title"@)) matches Some(title) ==> (!blank(title) ==> c.title == Some(
                title,
            ))
            &&& text_in(member_of(summary, "generated_title"@)) is None ==> (text_in(
                member_of(summary, "session_summary"@),
            ) matches Some(title) ==> (!blank(title) ==> c.title == Some(title)))
            &&& text_in(member_of(summary, "generated_title"@)) is None && text_in(member_of(summary, "session_summary"@)) is None
                ==> c.title == opening(read.messages)
            &&& timestamp_in(member_of(summary, "created_at"@)) matches Some(n) ==> c.started_at == Some(n)
            &&& timestamp_in(member_of(summary, "created_at"@)) is None ==> c.started_at == read.started_at
            &&& timestamp_in(member_of(summary, "last_active_at"@)) matches Some(n) ==> c.ended_at == Some(n)
            &&& timestamp_in(member_of(summary, "last_active_at"@)) is None ==> (timestamp_in(
                member_of(summary, "updated_at"@),
            ) matches Some(n) ==> c.ended_at == Some(n))
            &&& timestamp_in(member_of(summary, "last_active_at"@)) is None && timestamp_in(member_of(summary, "updated_at"@)) is None
                ==> c.ended_at == read.ended_at
        },
{
}

/// A session opens with what the user said first, or else with what was said first: with the
/// first line of that which is not blank, up to a hundred characters.
pub proof fn sessions_open_with_what_the_user_said(messages: Seq<MessageView>, n: int)
    requires
        0 <= n < messages.len(),
        messages[n].role == "user"@ || (n == 0 && forall|i: int| 0 <= i < messages.len() ==> (#[trigger] messages[i]).role
            != "user"@),
        forall|i: int| 0 <= i < n ==> (#[trigger] messages[i]).role != "user"@,
    ensures
        opening(messages) == (match first_said(lines(messages[n].content)) {
            Some(line) => Some(head(line, 100)),
            None => None,
        }),
        opening(Seq::empty()) is None,
{
    if messages[n].role == "user"@ {
        crate::model::first_of_role_is_first(messages, "user"@, n);
    } else {
        crate::model::first_of_role_is_first(messages, "user"@, messages.len() as int);
    }
}

/// What the summary tells of the model, the agent, the sandbox and the session it came from
/// stands in the metadata.
pub proof fn sessions_are_known_by_their_metadata(summary: Option<JsonView>, t: Seq<char>, v: JsonView)
    ensures
        member(session_metadata(summary), "source"@) == Some(JsonView::Text("grok"@)),
        text_in(member_of(summary, "current_model_id"@)) == Some(t) ==> member(session_metadata(summary), "model"@) == Some(
            JsonView::Text(t),
        ),
        member_of(summary, "agent_name"@) == Some(v) && !(v is Null) ==> member(session_metadata(summary), "agent_name"@)
            == Some(v),
        member_of(summary, "sandbox_profile"@) == Some(v) && !(v is Null) ==> member(
            session_metadata(summary),
            "sandbox_profile"@,
        ) == Some(v),
        member_of(summary, "parent_session_id"@) == Some(v) && !(v is Null) ==> member(
            session_metadata(summary),
            "parent_session_id"@,
        ) == Some(v),
{
    let first = seq![("source"@, JsonView::Text("grok"@))];
    let model = text_in(member_of(summary, "current_model_id"@));
    let named = with_text(first, "model"@, model);
    let a = with_kept(named, summary, "agent_name"@);
    let b = with_kept(a, summary, "sandbox_profile"@);
    reveal_strlit("source");
    reveal_strlit("model");
    reveal_strlit("agent_name");
    reveal_strlit("sandbox_profile");
    reveal_strlit("parent_session_id");
    assert("source"@.len() == 6 && "model"@.len() == 5 && "agent_name"@.len() == 10);
    assert("sandbox_profile"@.len() == 15 && "parent_session_id"@.len() == 17);
    member_is_the_first_of_its_key(JsonView::Null, first, "source"@, 0);
    if let Some(model) = model {
        with_member_reads_back(first, "model"@, JsonView::Text(model), "source"@);
    }
    kept_reads_back(named, summary, "agent_name"@, "source"@);
    kept_reads_back(named, summary, "agent_name"@, "model"@);
    kept_reads_back(a, summary, "sandbox_profile"@, "source"@);
    kept_reads_back(a, summary, "sandbox_profile"@, "model"@);
    kept_reads_back(a, summary, "sandbox_profile"@, "agent_name"@);
    kept_reads_back(b, summary, "parent_session_id"@, "source"@);
    kept_reads_back(b, summary, "parent_session_id"@, "model"@);
    kept_reads_back(b, summary, "parent_session_id"@, "agent_name"@);
    kept_reads_back(b, summary, "parent_session_id"@, "sandbox_profile"@);
}

proof fn kept_reads_back(
    members: Seq<(Seq<char>, JsonView)>,
    summary: Option<JsonView>,
    key: Seq<char>,
    other: Seq<char>,
)
    ensures
        if_set(member_of(summary, key)) matches Some(v) ==> member(JsonView::Object(with_kept(members, summary, key)), key)
            == Some(v),
        other != key ==> member(JsonView::Object(with_kept(members, summary, key)), other) == member(
            JsonView::Object(members),
            other,
        ),
{
    if let Some(v) = if_set(member_of(summary, key)) {
        with_member_reads_back(members, key, v, other);
    }
}

/// A session is read from its stream, with the model that its summary names; where the
/// stream says nothing and there is a history, from that. Either way the span is that of the
/// stream.
pub proof fn sessions_are_read_from_their_stream(t: Seq<EntryView>, dir: Seq<Seq<char>>, model: Option<Seq<char>>)
    ensures
        ({
            let updates = below(dir, "updates.jsonl"@);
            let history = below(dir, "chat_history.jsonl"@);
            let lines = match lines_at(t, updates) {
                Some(all) => if path_is_file(t, updates) {
                    readable(all)
                } else {
                    Seq::empty()
                },
                None => Seq::empty(),
            };
            let b = built(lines, model);
            let r = read_of(t, dir, model);
            &&& r.started_at == b.started_at
            &&& r.ended_at == b.ended_at
            &&& finished(b.messages).len() > 0 ==> r.messages == finished(b.messages) && r.source_path == updates
            &&& finished(b.messages).len() == 0 && path_is_file(t, history) ==> {
                &&& r.source_path == history
                &&& lines_at(t, history) matches Some(all) ==> r.messages == numbered(history_messages(readable(all)))
            }
            &&& finished(b.messages).len() == 0 && !path_is_file(t, history) ==> r.messages.len() == 0
        }),
{
}

/// The conversation of a session puts together its summary, its group and what was read.
pub proof fn session_conversations_put_together(t: Seq<EntryView>, dir: Seq<Seq<char>>, group: Seq<Seq<char>>, text: Seq<char>, summary: JsonView)
    requires
        parent(dir) == Some(group),
        text_at(t, below(dir, "summary.json"@)) == Some(text),
        document_in(text) == Some(summary),
    ensures
        session_conversation(t, dir) == conversation_of(
            file_name(dir),
            group_cwd(t, group),
            Some(summary),
            read_of(t, dir, member_text(summary, "current_model_id"@)),
        ),
{
}

/// A group works in the directory that it holds as `.cwd`, without the space around it, or
/// else in the one that its name is the form in a URL of.
pub proof fn groups_tell_their_directory(t: Seq<EntryView>, group: Seq<Seq<char>>, text: Seq<char>, name: Seq<char>, cwd: Seq<char>)
    ensures
        path_is_file(t, below(group, ".cwd"@)) && text_at(t, below(group, ".cwd"@)) == Some(text) && !blank(text)
            ==> group_cwd(t, group) == Some(trim(text)),
        !path_is_file(t, below(group, ".cwd"@)) && file_name(group) == Some(name) && percent_decoded(name) == Some(cwd)
            && cwd.len() > 0 ==> group_cwd(t, group) == Some(cwd),
{
}

/// The sessions of a scan are read in their order, and one that says nothing leaves the
/// others as they are.
pub proof fn sessions_are_read_in_order(t: Seq<EntryView>, units: Seq<UnitView>, next: UnitView)
    ensures
        session_conversation(t, next.directory) matches Some(c) ==> conversations_of(t, units.push(next))
            == conversations_of(t, units).push(c),
        session_conversation(t, next.directory) is None ==> conversations_of(t, units.push(next)) == conversations_of(
            t,
            units,
        ),
        conversations_of(t, Seq::empty()).len() == 0,
{
    assert(units.push(next).drop_last() =~= units);
}

/// A session is scanned where anything of it changed, or where everything is to be, unless
/// it was met before.
pub proof fn sessions_that_changed_are_scanned(
    t: Seq<EntryView>,
    u: UnitsView,
    root: RootView,
    dir: Seq<Seq<char>>,
    since: Option<i64>,
)
    ensures
        ({
            let after = after_dir(t, u, root, dir, since);
            let changed = since is None || path_is_fresh(t, below(dir, "updates.jsonl"@)) || path_is_fresh(
                t,
                below(dir, "chat_history.jsonl"@),
            ) || path_is_fresh(t, below(dir, "summary.json"@));
            let met = was_seen(u.seen, canonical_path(t, dir));
            &&& met || !changed ==> after.units == u.units
            &&& !met && changed ==> after.units.len() == u.units.len() + 1 && after.units.drop_last() == u.units
                && after.units.last().directory == dir
            &&& was_seen(after.seen, canonical_path(t, dir))
        }),
{
    crate::scan::seen_grows(u.seen, canonical_path(t, dir), dir);
    let unit = unit_of(t, root, dir);
    assert(u.units.push(unit).drop_last() =~= u.units);
}

/// A directory that holds a stream or a history is a session, and so is each such directory
/// in a group, or in the directory of sessions of a place; and nothing else is.
pub proof fn sessions_are_looked_for(t: Seq<EntryView>, place: Seq<Seq<char>>, groups: Seq<Seq<Seq<char>>>, g: Seq<Seq<char>>, p: Seq<Seq<char>>)
    ensures
        path_is_file(t, below(place, "updates.jsonl"@)) || path_is_file(t, below(place, "chat_history.jsonl"@))
            ==> sessions_at(t, place) == seq![place],
        path_is_dir(t, below(place, "sessions"@)) ==> groups_root(t, place) == Some(below(place, "sessions"@)),
        !path_is_dir(t, below(place, "sessions"@)) && path_is_dir(t, place) ==> groups_root(t, place) == Some(place),
        path_is_dir(t, g) && holds_session(t, g) ==> sessions_in_groups(t, groups.push(g)) == sessions_in_groups(
            t,
            groups,
        ).push(g),
        path_is_dir(t, g) && !holds_session(t, g) ==> sessions_in_groups(t, groups.push(g)) == sessions_in_groups(
            t,
            groups,
        ) + session_dirs_among(t, children(t, g)),
        !path_is_dir(t, g) ==> sessions_in_groups(t, groups.push(g)) == sessions_in_groups(t, groups),
        session_dirs_among(t, groups).contains(p) <==> groups.contains(p) && path_is_dir(t, p) && holds_session(t, p),
        holds_session(t, p) <==> path_is_file(t, below(p, "updates.jsonl"@)) || path_is_file(
            t,
            below(p, "chat_history.jsonl"@),
        ),
{
    assert(groups.push(g).drop_last() =~= groups);
    session_dirs_are_kept(t, groups, p);
}

proof fn session_dirs_are_kept(t: Seq<EntryView>, paths: Seq<Seq<Seq<char>>>, p: Seq<Seq<char>>)
    ensures
        session_dirs_among(t, paths).contains(p) <==> paths.contains(p) && path_is_dir(t, p) && holds_session(t, p),
    decreases paths.len(),
{
    if paths.len() > 0 {
        let front = paths.drop_last();
        let last = paths.last();
        session_dirs_are_kept(t, front, p);
        assert(paths =~= front + seq![last]);
        crate::scan::joined_paths(front, seq![last], p);
        crate::scan::listed_paths(last, last, last, last, p);
        let kept = session_dirs_among(t, front);
        assert(kept.push(last) =~= kept + seq![last]);
        crate::scan::joined_paths(kept, seq![last], p);
    }
}

/// A session is told to be read by its stream, or else by its history; the other files that
/// it has go beside that.
pub proof fn sessions_are_told_by_their_log(t: Seq<EntryView>, root: RootView, dir: Seq<Seq<char>>)
    ensures
        ({
            let unit = unit_of(t, root, dir);
            let updates = below(dir, "updates.jsonl"@);
            let history = below(dir, "chat_history.jsonl"@);
            let summary = below(dir, "summary.json"@);
            &&& unit.directory == dir
            &&& path_is_file(t, updates) ==> unit.primary is Some && unit.primary->0.source_path == updates
                && unit.primary->0.required_for_reconstruction && unit.primary->0.role is PrimarySessionLog
            &&& !path_is_file(t, updates) && path_is_file(t, history) ==> unit.primary is Some
                && unit.primary->0.source_path == history && unit.primary->0.role is PrimarySessionLog
            &&& !path_is_file(t, updates) && !path_is_file(t, history) ==> unit.primary is None
            &&& unit.primary matches Some(s) ==> s.provider_slug == "grok"@ && s.origin == root.origin
            &&& path_is_file(t, updates) && path_is_file(t, history) && path_is_file(t, summary) ==> unit.sidecars.len() == 2
                && unit.sidecars[0].source_path == history && unit.sidecars[1].source_path == summary
            &&& path_is_file(t, updates) && path_is_file(t, history) && !path_is_file(t, summary) ==> unit.sidecars.len()
                == 1 && unit.sidecars[0].source_path == history
            &&& path_is_file(t, updates) && !path_is_file(t, history) && path_is_file(t, summary) ==> unit.sidecars.len()
                == 1 && unit.sidecars[0].source_path == summary
            &&& !path_is_file(t, updates) && path_is_file(t, history) && path_is_file(t, summary) ==> unit.sidecars.len()
                == 1 && unit.sidecars[0].source_path == summary && unit.sidecars[0].role is MetadataSidecar
        }),
{
}

/// A file of a session is a source where it is there and was not met.
pub proof fn files_are_sources(t: Seq<EntryView>, f: FoundView, s: SourceView)
    ensures
        path_is_file(t, s.source_path) && !was_seen(f.seen, canonical_path(t, s.source_path)) ==> with_source(t, f, s).found
            == f.found.push(s),
        !path_is_file(t, s.source_path) || was_seen(f.seen, canonical_path(t, s.source_path)) ==> with_source(t, f, s) == f,
{
}

/// Without given places a scan reads its own data where they hold sessions and no home is
/// set, and else the home of the agent; with given places it reads those.
pub proof fn scans_read_their_roots(t: Seq<EntryView>, ctx: ContextView, s: SurroundingsView, home: Seq<Seq<char>>, set: Seq<Seq<char>>)
    requires
        ctx.scan_roots.len() == 0,
    ensures
        variable_path(s, "GROK_HOME"@) == Some(set) ==> grok_roots(t, ctx, s) == seq![local_root(set)],
        variable_path(s, "GROK_HOME"@) is None && path_is_dir(t, below(ctx.data_dir, "sessions"@)) ==> grok_roots(t, ctx, s)
            == seq![local_root(ctx.data_dir)],
        variable_path(s, "GROK_HOME"@) is None && !path_is_dir(t, below(ctx.data_dir, "sessions"@)) && !holds_session(
            t,
            ctx.data_dir,
        ) && s.home == Some(home) ==> grok_roots(t, ctx, s) == seq![local_root(below(home, ".grok"@))],
{
    crate::scan::one_root_is_settled(local_root(ctx.data_dir));
    crate::scan::one_root_is_settled(local_root(base_of(s)));
}

/// The first line that is not blank is the first such, whatever blank lines precede it.
pub proof fn blank_lines_are_passed_over(all: Seq<Seq<char>>, n: int)
    requires
        0 <= n <= all.len(),
        forall|i: int| 0 <= i < n ==> blank(#[trigger] all[i]),
        n < all.len() ==> !blank(all[n]),
    ensures
        n < all.len() ==> first_said(all) == Some(all[n]),
        n == all.len() ==> first_said(all) is None,
    decreases n,
{
    if n > 0 {
        let rest = all.skip(1);
        assert(blank(all[0]));
        assert forall|i: int| 0 <= i < n - 1 implies blank(#[trigger] rest[i]) by {
            assert(blank(all[i + 1]));
        }
        blank_lines_are_passed_over(rest, n - 1);
    }
}

} // verus!
