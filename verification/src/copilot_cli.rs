//! Sessions of the GitHub Copilot CLI: logs of events, and older documents.
use vstd::prelude::*;
use crate::canon::{
    canonical_conversation, canonical_conversations, canonical_messages, conversations_join, messages_grow,
    one_member_is_canonical,
};
use crate::decimal::{decimal, decimal_of};
use crate::files::{
    only_existing, path_exists, path_is_file, path_is_fresh, text_at, walked_files, EntryView, FileTable,
};
use crate::json::{array_view, canonical, document_in, parse_json, Json, JsonView};
use crate::lines::{lines, lines_of};
use crate::model::{
    at_place, flat_text_in, flatten_in, is_numbered, make_message, place, place_of, simple_message,
    update_time_bounds, user_caption, user_caption_of, Conversation, ConversationView, Message, MessageView,
};
use crate::order::sort;
use crate::path::{
    below, components, ends_in, extension, file_name, file_stem, is_named, parent, path_text, SourcePath,
};
use crate::query::{
    either, is_text, items_in, member, member_canonical, member_is_the_first_of_its_key, member_text, object,
    or_default, or_else, owned, put, str_in, str_or, text_in, text_json, text_ref,
};
use crate::scan::{
    default_detection, is_source, joined_paths, listed_paths, local_root, local_roots, push_conversation,
    push_local_roots, push_path, push_roots, push_source, roots_at, settle_roots, settled_roots, sorted_paths,
    source, ContextView, DetectionResult, DetectionView, DiscoveredSource, ReadError, RootView, ScanContext,
    ScanRoot, SourceRole, SourceView, Surroundings, SurroundingsView,
};
use crate::stamp::{earlier, later, spans, timestamp_in, timestamp_of};
use crate::text::{
    blank, cat, cat3, contains_text, ends, ends_with, has_text, is_blank, lowercase, lowercased, same_text, trim,
    trim_start, trimmed,
};

verus! {

pub struct CopilotCliConnector;

impl Default for CopilotCliConnector {
    fn default() -> (r: CopilotCliConnector)
        ensures
            r == CopilotCliConnector,
    {
        CopilotCliConnector::new()
    }
}

/// The places below a home where sessions stand.
pub open spec fn places_below(home: Seq<Seq<char>>) -> Seq<Seq<Seq<char>>> {
    seq![
        below(home, ".copilot/session-state"@),
        below(home, ".copilot/history-session-state"@),
        below(home, ".config/gh-copilot"@),
        below(home, ".config/gh/copilot"@),
        below(home, ".local/share/github-copilot"@),
    ]
}

fn list_places(home: &SourcePath) -> (r: Vec<SourcePath>)
    ensures
        r.deep_view() == places_below(home.deep_view()),
{
    let mut out: Vec<SourcePath> = Vec::new();
    assert(out.deep_view() =~= Seq::empty());
    push_path(&mut out, home.join(".copilot/session-state"));
    push_path(&mut out, home.join(".copilot/history-session-state"));
    push_path(&mut out, home.join(".config/gh-copilot"));
    push_path(&mut out, home.join(".config/gh/copilot"));
    push_path(&mut out, home.join(".local/share/github-copilot"));
    assert(out.deep_view() =~= places_below(home.deep_view()));
    out
}

/// The places where sessions of the user stand.
pub open spec fn candidate_paths(home: Option<Seq<Seq<char>>>) -> Seq<Seq<Seq<char>>> {
    match home {
        Some(home) => places_below(home),
        None => Seq::empty(),
    }
}

/// Whether a component, or it and the next one, tell of Copilot, both in small
/// letters.
pub open spec fn names_copilot(part: Seq<char>, next: Option<Seq<char>>) -> bool {
    ||| part == "gh-copilot"@
    ||| part == "github-copilot"@
    ||| part == ".copilot"@ && (next == Some("session-state"@) || next == Some("history-session-state"@))
    ||| part == "gh"@ && next == Some("copilot"@)
}

/// Whether a component, or it and the next one, tell of Copilot, both in small
/// letters.
pub fn is_copilot_name(part: &str, next: Option<&str>) -> (r: bool)
    ensures
        r == names_copilot(part@, next.deep_view()),
{
    same_text(part, "gh-copilot") || same_text(part, "github-copilot") || same_text(part, ".copilot") && (is_text(
        next,
        "session-state",
    ) || is_text(next, "history-session-state")) || same_text(part, "gh") && is_text(next, "copilot")
}

/// Whether a component, or it and the next one, tell of Copilot.
pub open spec fn tells_of_copilot(p: Seq<Seq<char>>, i: int) -> bool {
    names_copilot(
        lowercased(p[i]),
        if i + 1 < p.len() {
            Some(lowercased(p[i + 1]))
        } else {
            None
        },
    )
}

/// Whether a path looks like storage of the CLI.
pub open spec fn is_cli_storage(p: Seq<Seq<char>>) -> bool {
    exists|i: int| 0 <= i < p.len() && #[trigger] tells_of_copilot(p, i)
}

/// Places below a directory of that name.
pub open spec fn if_named(base: Seq<Seq<char>>, name: Seq<char>, places: Seq<Seq<Seq<char>>>) -> Seq<Seq<Seq<char>>> {
    if is_named(base, name) {
        places
    } else {
        Seq::empty()
    }
}

/// The roots that a place stands for by itself, whether or not anything stands there.
pub open spec fn explicit_roots(base: Seq<Seq<char>>) -> Seq<Seq<Seq<char>>> {
    (if is_cli_storage(base) {
        seq![base]
    } else {
        Seq::empty()
    }) + if_named(
        base,
        ".copilot"@,
        seq![below(base, "session-state"@), below(base, "history-session-state"@)],
    ) + if_named(base, ".config"@, seq![below(base, "gh-copilot"@), below(below(base, "gh"@), "copilot"@)]) + if_named(
        base,
        "gh"@,
        seq![below(base, "copilot"@)],
    ) + if_named(base, ".local"@, seq![below(below(base, "share"@), "github-copilot"@)]) + (if ends_in(
        base,
        ".local"@,
        "share"@,
    ) {
        seq![below(base, "github-copilot"@)]
    } else {
        Seq::empty()
    })
}

pub open spec fn roots_from_all(t: Seq<EntryView>, places: Seq<RootView>) -> Seq<RootView>
    decreases places.len(),
{
    if places.len() == 0 {
        Seq::empty()
    } else {
        roots_from_all(t, places.drop_last()) + roots_at(
            places.last(),
            only_existing(t, places_below(places.last().path)) + only_existing(
                t,
                explicit_roots(places.last().path),
            ),
        )
    }
}

/// The roots to scan.
pub open spec fn copilot_roots(t: Seq<EntryView>, ctx: ContextView, s: SurroundingsView) -> Seq<RootView> {
    settled_roots(
        if default_detection(ctx) {
            if is_cli_storage(ctx.data_dir) && path_exists(t, ctx.data_dir) {
                local_roots(seq![ctx.data_dir])
            } else {
                local_roots(only_existing(t, candidate_paths(s.home)))
            }
        } else {
            roots_from_all(t, ctx.scan_roots)
        },
    )
}

/// Whether a file name ends as that of a log or a document.
pub open spec fn is_event_name(p: Seq<Seq<char>>) -> bool {
    file_name(p) matches Some(name) && (ends(name, ".json"@) || ends(name, ".jsonl"@))
}

/// The files under a root that may hold sessions.
pub open spec fn event_files(t: Seq<EntryView>, root: Seq<Seq<char>>) -> Seq<Seq<Seq<char>>> {
    if !path_exists(t, root) {
        Seq::empty()
    } else if path_is_file(t, root) {
        if extension(root) == Some("json"@) || extension(root) == Some("jsonl"@) {
            seq![root]
        } else {
            Seq::empty()
        }
    } else {
        sorted_paths(walked_files(t, root, 0, Some(4)).filter(|p: Seq<Seq<char>>| is_event_name(p)))
    }
}

/// The first text under one of these keys.
pub open spec fn first_text(v: JsonView, keys: Seq<Seq<char>>) -> Option<Seq<char>>
    decreases keys.len(),
{
    if keys.len() == 0 {
        None
    } else {
        or_else(member_text(v, keys[0]), first_text(v, keys.skip(1)))
    }
}

/// The first text under one of these keys of an envelope.
pub open spec fn first_text_in(v: JsonView, envelope: Seq<char>, keys: Seq<Seq<char>>) -> Option<Seq<char>> {
    match member(v, envelope) {
        Some(inner) => first_text(inner, keys),
        None => None,
    }
}

/// The first text under one of these keys, by itself or in an envelope.
pub open spec fn nested_text(v: JsonView, keys: Seq<Seq<char>>) -> Option<Seq<char>> {
    or_else(
        first_text(v, keys),
        or_else(
            first_text_in(v, "data"@, keys),
            or_else(first_text_in(v, "payload"@, keys), first_text_in(v, "metadata"@, keys)),
        ),
    )
}

/// The first instant under one of these keys.
pub open spec fn first_time(v: JsonView, keys: Seq<Seq<char>>) -> Option<i64>
    decreases keys.len(),
{
    if keys.len() == 0 {
        None
    } else {
        or_else(timestamp_in(member(v, keys[0])), first_time(v, keys.skip(1)))
    }
}

pub open spec fn first_time_in(v: JsonView, envelope: Seq<char>, keys: Seq<Seq<char>>) -> Option<i64> {
    match member(v, envelope) {
        Some(inner) => first_time(inner, keys),
        None => None,
    }
}

pub open spec fn time_keys() -> Seq<Seq<char>> {
    seq![
        "timestamp"@,
        "createdAt"@,
        "created_at"@,
        "time"@,
        "ts"@,
        "date"@,
        "startedAt"@,
        "started_at"@,
    ]
}

/// When an event happened.
pub open spec fn event_time(v: JsonView) -> Option<i64> {
    or_else(
        first_time(v, time_keys()),
        or_else(
            first_time_in(v, "data"@, time_keys()),
            or_else(first_time_in(v, "payload"@, time_keys()), first_time_in(v, "metadata"@, time_keys())),
        ),
    )
}

/// The first content under one of these keys that is not empty.
pub open spec fn first_content(v: JsonView, keys: Seq<Seq<char>>) -> Option<Seq<char>>
    decreases keys.len(),
{
    if keys.len() == 0 {
        None
    } else {
        let text = flat_text_in(member(v, keys[0]));
        if text.len() > 0 {
            Some(text)
        } else {
            first_content(v, keys.skip(1))
        }
    }
}

pub open spec fn first_content_in(v: JsonView, envelope: Seq<char>, keys: Seq<Seq<char>>) -> Option<Seq<char>> {
    match member(v, envelope) {
        Some(inner) => first_content(inner, keys),
        None => None,
    }
}

pub open spec fn content_keys() -> Seq<Seq<char>> {
    seq!["message"@, "content"@, "text"@, "value"@, "body"@]
}

/// The data of an event, where it is a text that is not empty.
pub open spec fn plain_data(v: JsonView) -> Option<Seq<char>> {
    match member_text(v, "data"@) {
        Some(t) => if t.len() > 0 {
            Some(t)
        } else {
            None
        },
        None => None,
    }
}

/// The content of an event, by itself or in an envelope.
pub open spec fn event_content(v: JsonView) -> Seq<char> {
    or_default(
        or_else(
            first_content(v, content_keys()),
            or_else(
                plain_data(v),
                or_else(
                    first_content_in(v, "data"@, content_keys()),
                    first_content_in(v, "payload"@, content_keys()),
                ),
            ),
        ),
        Seq::empty(),
    )
}

/// Who speaks, by the kind of an event.
pub open spec fn role_of_kind(kind: Seq<char>) -> Option<Seq<char>> {
    role_of_lower(lowercased(kind))
}

/// Who speaks, by the kind of an event in small letters.
pub open spec fn role_of_lower(lower: Seq<char>) -> Option<Seq<char>> {
    if has_text(lower, "user"@) || lower == "prompt"@ {
        Some("user"@)
    } else if has_text(lower, "assistant"@) || lower == "response"@ || lower == "completion"@ {
        Some("assistant"@)
    } else {
        None
    }
}

/// Who speaks, by the kind of an event in small letters.
pub fn role_from_lower(lower: &str) -> (r: Option<&'static str>)
    ensures
        r.deep_view() == role_of_lower(lower@),
{
    if contains_text(lower, "user") || same_text(lower, "prompt") {
        Some("user")
    } else if contains_text(lower, "assistant") || same_text(lower, "response") || same_text(lower, "completion") {
        Some("assistant")
    } else {
        None
    }
}

/// Who speaks: whom the event names, or else whom its kind tells.
pub open spec fn event_role(v: JsonView) -> Option<Seq<char>> {
    match nested_text(v, seq!["role"@, "author"@, "sender"@]) {
        Some(named) => if named == "user"@ || named == "human"@ {
            Some("user"@)
        } else {
            Some("assistant"@)
        },
        None => role_of_kind(or_default(member_text(v, "type"@), ""@)),
    }
}

pub open spec fn other_keys() -> Seq<Seq<char>> {
    seq!["prompt"@, "initialPrompt"@, "initial_prompt"@, "output"@, "result"@, "response"@]
}

/// What an event says: its content, or else what it holds under other keys.
pub open spec fn event_text(v: JsonView) -> Seq<char> {
    let content = event_content(v);
    if blank(content) {
        or_default(
            or_else(
                first_content(v, other_keys()),
                or_else(
                    first_content_in(v, "data"@, other_keys()),
                    first_content_in(v, "payload"@, other_keys()),
                ),
            ),
            content,
        )
    } else {
        content
    }
}

/// What was read of a session so far.
#[verifier::ext_equal]
pub struct LogView {
    pub messages: Seq<MessageView>,
    pub started_at: Option<i64>,
    pub ended_at: Option<i64>,
    pub session_id: Option<Seq<char>>,
    pub workspace: Option<Seq<char>>,
}

pub open spec fn empty_log() -> LogView {
    LogView { messages: Seq::empty(), started_at: None, ended_at: None, session_id: None, workspace: None }
}

/// An event of a session: it widens its time, and is said where someone speaks and
/// it is not blank.
pub open spec fn after_event(log: LogView, v: JsonView) -> LogView {
    let time = event_time(v);
    let timed = LogView { started_at: earlier(log.started_at, time), ended_at: later(log.ended_at, time), ..log };
    match event_role(v) {
        None => timed,
        Some(role) => if blank(event_text(v)) {
            timed
        } else {
            LogView {
                messages: log.messages.push(
                    MessageView {
                        author: Some(
                            if role == "user"@ {
                                "user"@
                            } else {
                                "copilot-cli"@
                            },
                        ),
                        ..at_place(simple_message(role, time, event_text(v), v), log.messages.len() as int)
                    },
                ),
                ..timed
            }
        },
    }
}

pub open spec fn id_keys() -> Seq<Seq<char>> {
    seq!["session_id"@, "sessionId"@, "sessionID"@, "id"@]
}

pub open spec fn workspace_keys() -> Seq<Seq<char>> {
    seq![
        "cwd"@,
        "workingDirectory"@,
        "working_directory"@,
        "workspace"@,
        "workspaceRoot"@,
        "workspace_root"@,
        "projectPath"@,
        "project_path"@,
    ]
}

/// An event of a log: it may also name the session and its workspace, and the first
/// names count.
pub open spec fn after_record(log: LogView, v: JsonView) -> LogView {
    after_event(
        LogView {
            session_id: or_else(log.session_id, nested_text(v, id_keys())),
            workspace: or_else(log.workspace, nested_text(v, workspace_keys())),
            ..log
        },
        v,
    )
}

/// A line of a log: one that is blank or is no document changes nothing.
pub open spec fn after_line(log: LogView, line: Seq<char>) -> LogView {
    let text = trim(line);
    if text.len() == 0 {
        log
    } else {
        match document_in(text) {
            None => log,
            Some(v) => after_record(log, v),
        }
    }
}

pub open spec fn log_of_lines(all: Seq<Seq<char>>) -> LogView
    decreases all.len(),
{
    if all.len() == 0 {
        empty_log()
    } else {
        after_line(log_of_lines(all.drop_last()), all.last())
    }
}

pub open spec fn log_of_events(events: Seq<JsonView>) -> LogView
    decreases events.len(),
{
    if events.len() == 0 {
        empty_log()
    } else {
        after_event(log_of_events(events.drop_last()), events.last())
    }
}

/// The conversation of a log: none where nothing was said.
pub open spec fn log_conversation(
    path: Seq<Seq<char>>,
    log: LogView,
    external_id: Option<Seq<char>>,
    workspace: Option<Seq<char>>,
) -> Seq<ConversationView> {
    if log.messages.len() == 0 {
        Seq::empty()
    } else {
        seq![
            ConversationView {
                agent_slug: "copilot_cli"@,
                external_id,
                title: user_caption(log.messages, 120),
                workspace,
                source_path: path,
                started_at: log.started_at,
                ended_at: log.ended_at,
                metadata: JsonView::Object(seq![("source"@, JsonView::Text("copilot-cli"@))]),
                messages: log.messages,
            },
        ]
    }
}

/// The events of a document, under whichever of their names.
pub open spec fn events_in(v: JsonView) -> Option<Seq<JsonView>> {
    or_else(
        items_in(member(v, "events"@)),
        or_else(
            items_in(member(v, "history"@)),
            or_else(items_in(member(v, "messages"@)), items_in(member(v, "conversation"@))),
        ),
    )
}

/// The conversation of the events of a document.
pub open spec fn document_conversation(v: JsonView, events: Seq<JsonView>, path: Seq<Seq<char>>) -> Seq<
    ConversationView,
> {
    log_conversation(
        path,
        log_of_events(events),
        or_else(
            text_in(
                or_else(member(v, "session_id"@), or_else(member(v, "sessionId"@), member(v, "id"@))),
            ),
            file_stem(path),
        ),
        text_in(
            or_else(member(v, "cwd"@), or_else(member(v, "workingDirectory"@), member(v, "workspace"@))),
        ),
    )
}

/// The conversation, by its place in a list where it has no name.
pub open spec fn named_by_place(c: ConversationView, path: Seq<Seq<char>>, i: int) -> ConversationView {
    match c.external_id {
        Some(_) => c,
        None => ConversationView {
            external_id: Some(or_default(file_stem(path), "session"@) + "-"@ + decimal(i as nat)),
            ..c
        },
    }
}

/// The conversations of a document: of its events, or of each of its items.
pub open spec fn document_sessions(v: JsonView, path: Seq<Seq<char>>) -> Seq<ConversationView>
    decreases v, 1int, 0int,
{
    match events_in(v) {
        Some(events) => document_conversation(v, events, path),
        None => match v {
            JsonView::Array(items) => item_sessions(v, items.len(), path),
            _ => Seq::empty(),
        },
    }
}

/// The conversations of the first `n` items of a list.
pub open spec fn item_sessions(v: JsonView, n: nat, path: Seq<Seq<char>>) -> Seq<ConversationView>
    decreases v, 0int, n,
{
    match v {
        JsonView::Array(items) => if n == 0 || n > items.len() {
            Seq::empty()
        } else {
            item_sessions(v, (n - 1) as nat, path) + document_sessions(items[n - 1], path).map_values(
                |c: ConversationView| named_by_place(c, path, n - 1),
            )
        },
        _ => Seq::empty(),
    }
}

/// Whether a text starts as a document of JSON.
pub open spec fn starts_document(text: Seq<char>) -> bool {
    let rest = trim_start(text);
    rest.len() > 0 && (rest[0] == '{' || rest[0] == '[')
}

/// Whether a document holds sessions as a whole: it is a list or has a list of
/// events. In a file of lines any other document is an event, also where it stands
/// alone; in a file of another kind it holds no session.
pub open spec fn is_session_document(v: JsonView, path: Seq<Seq<char>>) -> bool {
    v is Array || events_in(v) is Some || extension(path) != Some("jsonl"@)
}

/// The conversation of a log with one event per line.
pub open spec fn log_sessions(text: Seq<char>, path: Seq<Seq<char>>) -> Seq<ConversationView> {
    let log = log_of_lines(lines(text));
    log_conversation(
        path,
        log,
        or_else(
            log.session_id,
            match parent(path) {
                Some(dir) => file_name(dir),
                None => None,
            },
        ),
        log.workspace,
    )
}

/// The conversations of a text: of one document, or of a log of events.
pub open spec fn text_sessions(text: Seq<char>, path: Seq<Seq<char>>) -> Seq<ConversationView> {
    if starts_document(text) && document_in(text) is Some && is_session_document(document_in(text)->0, path) {
        document_sessions(document_in(text)->0, path)
    } else {
        log_sessions(text, path)
    }
}

/// What a file reads as.
pub open spec fn file_sessions(t: Seq<EntryView>, path: Seq<Seq<char>>) -> Result<Seq<ConversationView>, ReadError> {
    match text_at(t, path) {
        None => Err(ReadError::Unreadable),
        Some(text) => Ok(text_sessions(text, path)),
    }
}

/// The conversations of these files that changed and can be read.
pub open spec fn sessions_of(t: Seq<EntryView>, all: Seq<Seq<Seq<char>>>) -> Seq<ConversationView>
    decreases all.len(),
{
    if all.len() == 0 {
        Seq::empty()
    } else {
        let front = sessions_of(t, all.drop_last());
        if !path_is_fresh(t, all.last()) {
            front
        } else {
            match file_sessions(t, all.last()) {
                Ok(found) => front + found,
                Err(_) => front,
            }
        }
    }
}

pub open spec fn sessions_under(t: Seq<EntryView>, roots: Seq<RootView>) -> Seq<ConversationView>
    decreases roots.len(),
{
    if roots.len() == 0 {
        Seq::empty()
    } else {
        sessions_under(t, roots.drop_last()) + sessions_of(t, event_files(t, roots.last().path))
    }
}

/// The sources of these files that changed.
pub open spec fn sources_of(t: Seq<EntryView>, root: RootView, all: Seq<Seq<Seq<char>>>) -> Seq<SourceView>
    decreases all.len(),
{
    if all.len() == 0 {
        Seq::empty()
    } else {
        let front = sources_of(t, root, all.drop_last());
        if path_is_fresh(t, all.last()) {
            front.push(source("copilot_cli"@, root, all.last(), SourceRole::PrimarySessionLog, true))
        } else {
            front
        }
    }
}

pub open spec fn sources_under(t: Seq<EntryView>, roots: Seq<RootView>) -> Seq<SourceView>
    decreases roots.len(),
{
    if roots.len() == 0 {
        Seq::empty()
    } else {
        sources_under(t, roots.drop_last()) + sources_of(t, roots.last(), event_files(t, roots.last().path))
    }
}

/// What was read of a session so far.
pub struct SessionLog {
    pub messages: Vec<Message>,
    pub started_at: Option<i64>,
    pub ended_at: Option<i64>,
    pub session_id: Option<String>,
    pub workspace: Option<String>,
}

impl DeepView for SessionLog {
    type V = LogView;

    open spec fn deep_view(&self) -> LogView {
        LogView {
            messages: self.messages.deep_view(),
            started_at: self.started_at,
            ended_at: self.ended_at,
            session_id: self.session_id.deep_view(),
            workspace: self.workspace.deep_view(),
        }
    }
}

fn find_first_text<'a>(v: &'a Json, keys: &Vec<&str>) -> (r: Option<&'a str>)
    ensures
        r.deep_view() == first_text(v@, keys.deep_view()),
{
    let ghost all = keys.deep_view();
    let mut i: usize = 0;
    assert(all.skip(0) =~= all);
    while i < keys.len()
        invariant
            i <= keys@.len(),
            all == keys.deep_view(),
            first_text(v@, all) == first_text(v@, all.skip(i as int)),
        decreases keys.len() - i,
    {
        assert(all.skip(i as int)[0] == keys@[i as int]@);
        if let Some(t) = v.get_str(keys[i]) {
            return Some(t);
        }
        assert(all.skip(i as int).skip(1) =~= all.skip(i + 1));
        i = i + 1;
    }
    None
}

fn find_first_text_in<'a>(v: &'a Json, envelope: &str, keys: &Vec<&str>) -> (r: Option<&'a str>)
    ensures
        r.deep_view() == first_text_in(v@, envelope@, keys.deep_view()),
{
    match v.get(envelope) {
        Some(inner) => find_first_text(inner, keys),
        None => None,
    }
}

fn find_first_time(v: &Json, keys: &Vec<&str>) -> (r: Option<i64>)
    ensures
        r == first_time(v@, keys.deep_view()),
{
    let ghost all = keys.deep_view();
    let mut i: usize = 0;
    assert(all.skip(0) =~= all);
    while i < keys.len()
        invariant
            i <= keys@.len(),
            all == keys.deep_view(),
            first_time(v@, all) == first_time(v@, all.skip(i as int)),
        decreases keys.len() - i,
    {
        assert(all.skip(i as int)[0] == keys@[i as int]@);
        if let Some(t) = timestamp_of(v.get(keys[i])) {
            return Some(t);
        }
        assert(all.skip(i as int).skip(1) =~= all.skip(i + 1));
        i = i + 1;
    }
    None
}

fn find_first_time_in(v: &Json, envelope: &str, keys: &Vec<&str>) -> (r: Option<i64>)
    ensures
        r == first_time_in(v@, envelope@, keys.deep_view()),
{
    match v.get(envelope) {
        Some(inner) => find_first_time(inner, keys),
        None => None,
    }
}

fn find_first_content(v: &Json, keys: &Vec<&str>) -> (r: Option<String>)
    ensures
        r.deep_view() == first_content(v@, keys.deep_view()),
{
    let ghost all = keys.deep_view();
    let mut i: usize = 0;
    assert(all.skip(0) =~= all);
    while i < keys.len()
        invariant
            i <= keys@.len(),
            all == keys.deep_view(),
            first_content(v@, all) == first_content(v@, all.skip(i as int)),
        decreases keys.len() - i,
    {
        assert(all.skip(i as int)[0] == keys@[i as int]@);
        let text = flatten_in(v.get(keys[i]));
        if !text.as_str().is_empty() {
            return Some(text);
        }
        assert(all.skip(i as int).skip(1) =~= all.skip(i + 1));
        i = i + 1;
    }
    None
}

fn find_first_content_in(v: &Json, envelope: &str, keys: &Vec<&str>) -> (r: Option<String>)
    ensures
        r.deep_view() == first_content_in(v@, envelope@, keys.deep_view()),
{
    match v.get(envelope) {
        Some(inner) => find_first_content(inner, keys),
        None => None,
    }
}

impl SessionLog {
    pub fn new() -> (r: SessionLog)
        ensures
            r.deep_view() == empty_log(),
    {
        let messages: Vec<Message> = Vec::new();
        assert(messages.deep_view() =~= Seq::empty());
        SessionLog { messages, started_at: None, ended_at: None, session_id: None, workspace: None }
    }

    fn take_event(&mut self, v: &Json)
        ensures
            final(self).deep_view() == after_event(old(self).deep_view(), v@),
    {
        let time = CopilotCliConnector::extract_timestamp(v);
        update_time_bounds(&mut self.started_at, &mut self.ended_at, time);
        if let Some((role, text)) = CopilotCliConnector::extract_event_message(v) {
            if !is_blank(text.as_str()) {
                let ghost before = self.messages.deep_view();
                let author = if same_text(role.as_str(), "user") {
                    "user"
                } else {
                    "copilot-cli"
                };
                let mut m = make_message(role.as_str(), time, text, v.copy());
                m.idx = place_of(self.messages.len());
                m.author = Some(author.to_owned());
                let ghost said = m.deep_view();
                self.messages.push(m);
                assert(self.messages.deep_view() =~= before.push(said));
            }
        }
    }

    /// Reads an event of a log.
    pub fn take_record(&mut self, v: &Json)
        ensures
            final(self).deep_view() == after_record(old(self).deep_view(), v@),
    {
        if self.session_id.is_none() {
            let keys = vec!["session_id", "sessionId", "sessionID", "id"];
            assert(keys.deep_view() =~= id_keys());
            self.session_id = owned(CopilotCliConnector::find_nested_str(v, &keys));
        }
        if self.workspace.is_none() {
            let keys = vec![
                "cwd",
                "workingDirectory",
                "working_directory",
                "workspace",
                "workspaceRoot",
                "workspace_root",
                "projectPath",
                "project_path",
            ];
            assert(keys.deep_view() =~= workspace_keys());
            self.workspace = owned(CopilotCliConnector::find_nested_str(v, &keys));
        }
        self.take_event(v);
    }

    fn take_line(&mut self, line: &str)
        ensures
            final(self).deep_view() == after_line(old(self).deep_view(), line@),
    {
        let text = trimmed(line);
        if text.as_str().is_empty() {
            return;
        }
        if let Some(v) = parse_json(text.as_str()) {
            self.take_record(&v);
        }
    }
}

fn read_lines(all: &Vec<String>) -> (r: SessionLog)
    ensures
        r.deep_view() == log_of_lines(all.deep_view()),
{
    let ghost seen = all.deep_view();
    let mut log = SessionLog::new();
    let mut i: usize = 0;
    assert(seen.take(0) =~= Seq::empty());
    while i < all.len()
        invariant
            i <= all@.len(),
            seen == all.deep_view(),
            log.deep_view() == log_of_lines(seen.take(i as int)),
        decreases all.len() - i,
    {
        assert(seen.take(i + 1).drop_last() =~= seen.take(i as int));
        assert(seen.take(i + 1).last() == all@[i as int]@);
        log.take_line(all[i].as_str());
        i = i + 1;
    }
    assert(seen.take(seen.len() as int) =~= seen);
    log
}

fn read_events(events: &Vec<Json>) -> (r: SessionLog)
    ensures
        r.deep_view() == log_of_events(events.deep_view()),
{
    let ghost seen = events.deep_view();
    let mut log = SessionLog::new();
    let mut i: usize = 0;
    assert(seen.take(0) =~= Seq::empty());
    while i < events.len()
        invariant
            i <= events@.len(),
            seen == events.deep_view(),
            log.deep_view() == log_of_events(seen.take(i as int)),
        decreases events.len() - i,
    {
        assert(seen.take(i + 1).drop_last() =~= seen.take(i as int));
        assert(seen.take(i + 1).last() == events@[i as int]@);
        log.take_event(&events[i]);
        i = i + 1;
    }
    assert(seen.take(seen.len() as int) =~= seen);
    log
}

fn make_conversation(
    path: &SourcePath,
    log: SessionLog,
    external_id: Option<String>,
    workspace: Option<String>,
) -> (r: Vec<Conversation>)
    ensures
        r.deep_view() == log_conversation(
            path.deep_view(),
            log.deep_view(),
            external_id.deep_view(),
            workspace.deep_view(),
        ),
{
    let mut out: Vec<Conversation> = Vec::new();
    assert(out.deep_view() =~= Seq::empty());
    if log.messages.len() == 0 {
        return out;
    }
    let mut metadata: Vec<(String, Json)> = Vec::new();
    put(&mut metadata, "source", text_json("copilot-cli"));
    assert(metadata.deep_view() =~= seq![("source"@, JsonView::Text("copilot-cli"@))]);
    let title = user_caption_of(&log.messages, 120);
    let c = Conversation {
        agent_slug: "copilot_cli".to_owned(),
        external_id,
        title,
        workspace,
        source_path: path.copy(),
        started_at: log.started_at,
        ended_at: log.ended_at,
        metadata: object(metadata),
        messages: log.messages,
    };
    push_conversation(&mut out, c);
    out
}

fn find_events<'a>(v: &'a Json) -> (r: Option<&'a Vec<Json>>)
    ensures
        r.deep_view() == events_in(v@),
{
    if let Some(list) = v.get("events") {
        if let Some(items) = list.as_array() {
            return Some(items);
        }
    }
    if let Some(list) = v.get("history") {
        if let Some(items) = list.as_array() {
            return Some(items);
        }
    }
    if let Some(list) = v.get("messages") {
        if let Some(items) = list.as_array() {
            return Some(items);
        }
    }
    match v.get("conversation") {
        Some(list) => list.as_array(),
        None => None,
    }
}

/// Names conversations by their place in a list, where they have no name.
fn name_by_place(convs: &mut Vec<Conversation>, path: &SourcePath, place: usize)
    ensures
        final(convs).deep_view() == old(convs).deep_view().map_values(
            |c: ConversationView| named_by_place(c, path.deep_view(), place as int),
        ),
{
    let ghost start = convs.deep_view();
    let ghost p = path.deep_view();
    let mut i: usize = 0;
    while i < convs.len()
        invariant
            i <= convs@.len(),
            start == old(convs).deep_view(),
            p == path.deep_view(),
            convs@.len() == start.len(),
            forall|k: int|
                0 <= k < i ==> (#[trigger] convs@[k]).deep_view() == named_by_place(start[k], p, place as int),
            forall|k: int| i <= k < start.len() ==> (#[trigger] convs@[k]).deep_view() == start[k],
        decreases convs.len() - i,
    {
        if convs[i].external_id.is_none() {
            let stem = path.file_stem();
            let base = match &stem {
                Some(stem) => stem.as_str(),
                None => "session",
            };
            let name = cat3(base, "-", decimal_of(place as u64).as_str());
            let ghost before = convs@;
            let c = &mut convs[i];
            c.external_id = Some(name);
            assert(convs@[i as int].deep_view() == named_by_place(start[i as int], p, place as int));
        }
        i = i + 1;
    }
    assert(convs.deep_view() =~= start.map_values(|c: ConversationView| named_by_place(c, p, place as int)));
}

/// Whether a document holds sessions as a whole.
pub fn holds_sessions(v: &Json, path: &SourcePath) -> (r: bool)
    ensures
        r == is_session_document(v@, path.deep_view()),
{
    v.as_array().is_some() || find_events(v).is_some() || !path.has_extension("jsonl")
}

impl CopilotCliConnector {
    pub fn new() -> (r: CopilotCliConnector)
        ensures
            r == CopilotCliConnector,
    {
        CopilotCliConnector
    }

    /// The places where sessions of the user stand.
    pub fn cli_candidate_paths(home: Option<&SourcePath>) -> (r: Vec<SourcePath>)
        ensures
            r.deep_view() == candidate_paths(home.deep_view()),
    {
        match home {
            Some(home) => list_places(home),
            None => {
                let none: Vec<SourcePath> = Vec::new();
                assert(none.deep_view() =~= Seq::empty());
                none
            },
        }
    }

    /// Whether a path looks like storage of the CLI.
    pub fn looks_like_cli_storage(path: &SourcePath) -> (r: bool)
        ensures
            r == is_cli_storage(path.deep_view()),
    {
        let ghost p = path.deep_view();
        let n = path.parts.len();
        let mut i: usize = 0;
        while i < n
            invariant
                i <= n,
                n == path.parts@.len(),
                p == path.deep_view(),
                forall|k: int| 0 <= k < i ==> !#[trigger] tells_of_copilot(p, k),
            decreases n - i,
        {
            assert(p[i as int] == path.parts@[i as int]@);
            let part = lowercase(path.parts[i].as_str());
            let next = if i + 1 < n {
                assert(p[i + 1] == path.parts@[i + 1]@);
                Some(lowercase(path.parts[i + 1].as_str()))
            } else {
                None
            };
            if is_copilot_name(part.as_str(), text_ref(&next)) {
                assert(tells_of_copilot(p, i as int));
                return true;
            }
            i = i + 1;
        }
        false
    }

    /// The roots that a place stands for by itself.
    pub fn append_explicit_roots(files: &FileTable, base: &SourcePath) -> (r: Vec<SourcePath>)
        ensures
            r.deep_view() == only_existing(files.deep_view(), explicit_roots(base.deep_view())),
    {
        let ghost b = base.deep_view();
        let mut out: Vec<SourcePath> = Vec::new();
        assert(out.deep_view() =~= Seq::empty());
        let ghost own = if is_cli_storage(b) {
            seq![b]
        } else {
            Seq::empty()
        };
        if CopilotCliConnector::looks_like_cli_storage(base) {
            push_path(&mut out, base.copy());
        }
        assert(out.deep_view() =~= own);
        let ghost so_far = out.deep_view();
        let ghost states = seq![below(b, "session-state"@), below(b, "history-session-state"@)];
        if base.is_named(".copilot") {
            push_path(&mut out, base.join("session-state"));
            push_path(&mut out, base.join("history-session-state"));
        }
        assert(out.deep_view() =~= so_far + if_named(b, ".copilot"@, states));
        let ghost so_far = out.deep_view();
        let ghost settings = seq![below(b, "gh-copilot"@), below(below(b, "gh"@), "copilot"@)];
        if base.is_named(".config") {
            push_path(&mut out, base.join("gh-copilot"));
            push_path(&mut out, base.join("gh").join("copilot"));
        }
        assert(out.deep_view() =~= so_far + if_named(b, ".config"@, settings));
        let ghost so_far = out.deep_view();
        if base.is_named("gh") {
            push_path(&mut out, base.join("copilot"));
        }
        assert(out.deep_view() =~= so_far + if_named(b, "gh"@, seq![below(b, "copilot"@)]));
        let ghost so_far = out.deep_view();
        let ghost shared = seq![below(below(b, "share"@), "github-copilot"@)];
        if base.is_named(".local") {
            push_path(&mut out, base.join("share").join("github-copilot"));
        }
        assert(out.deep_view() =~= so_far + if_named(b, ".local"@, shared));
        let ghost so_far = out.deep_view();
        let share = base.ends_in(".local", "share");
        let ghost here = if ends_in(b, ".local"@, "share"@) {
            seq![below(b, "github-copilot"@)]
        } else {
            Seq::empty()
        };
        if share {
            push_path(&mut out, base.join("github-copilot"));
        }
        assert(out.deep_view() =~= so_far + here);
        assert(out.deep_view() == explicit_roots(b));
        files.keep_existing(out)
    }

    /// The files under a root that may hold sessions.
    pub fn find_event_files(files: &FileTable, root: &SourcePath) -> (r: Vec<SourcePath>)
        ensures
            r.deep_view() == event_files(files.deep_view(), root.deep_view()),
    {
        let mut out: Vec<SourcePath> = Vec::new();
        assert(out.deep_view() =~= Seq::empty());
        if !files.has(root) {
            return out;
        }
        if files.is_file(root) {
            if root.has_extension("json") || root.has_extension("jsonl") {
                push_path(&mut out, root.copy());
            }
            return out;
        }
        let list = files.walk(root, 0, Some(4));
        let ghost wanted = |p: Seq<Seq<char>>| is_event_name(p);
        let ghost all = list.deep_view();
        assert(all.take(0) =~= Seq::empty());
        reveal(Seq::filter);
        assert(all.take(0).filter(wanted) =~= Seq::empty());
        for p in it: list
            invariant
                it.seq() == list@,
                wanted == (|p: Seq<Seq<char>>| is_event_name(p)),
                all == list.deep_view(),
                out.deep_view() == all.take(it.index() as int).filter(wanted),
        {
            reveal(Seq::filter);
            let ghost n = it.index() as int;
            assert(all.take(n + 1).drop_last() =~= all.take(n));
            assert(all.take(n + 1).last() == p.deep_view());
            let named = match p.file_name() {
                Some(name) => ends_with(name, ".json") || ends_with(name, ".jsonl"),
                None => false,
            };
            if named {
                push_path(&mut out, p);
            }
        }
        assert(all.take(all.len() as int) =~= all);
        sort(out)
    }

    /// The roots to scan.
    pub fn source_roots(ctx: &ScanContext, surroundings: &Surroundings, files: &FileTable) -> (r: Vec<ScanRoot>)
        ensures
            r.deep_view() == copilot_roots(files.deep_view(), ctx.deep_view(), surroundings.deep_view()),
    {
        let ghost t = files.deep_view();
        let mut roots: Vec<ScanRoot> = Vec::new();
        assert(roots.deep_view() =~= Seq::empty());
        if ctx.use_default_detection() {
            let own = if CopilotCliConnector::looks_like_cli_storage(&ctx.data_dir) && files.has(&ctx.data_dir) {
                let mut own: Vec<SourcePath> = Vec::new();
                assert(own.deep_view() =~= Seq::empty());
                push_path(&mut own, ctx.data_dir.copy());
                assert(own.deep_view() =~= seq![ctx.data_dir.deep_view()]);
                own
            } else {
                files.keep_existing(CopilotCliConnector::cli_candidate_paths(surroundings.home.as_ref()))
            };
            push_local_roots(&mut roots, &own);
            assert(roots.deep_view() =~= local_roots(own.deep_view()));
        } else {
            let ghost places = ctx.scan_roots.deep_view();
            let mut i: usize = 0;
            assert(places.take(0) =~= Seq::empty());
            while i < ctx.scan_roots.len()
                invariant
                    i <= ctx.scan_roots@.len(),
                    t == files.deep_view(),
                    places == ctx.scan_roots.deep_view(),
                    roots.deep_view() == roots_from_all(t, places.take(i as int)),
                decreases ctx.scan_roots.len() - i,
            {
                let place = &ctx.scan_roots[i];
                assert(places.take(i + 1).drop_last() =~= places.take(i as int));
                assert(places.take(i + 1).last() == place.deep_view());
                let usual = files.keep_existing(list_places(&place.path));
                let own = CopilotCliConnector::append_explicit_roots(files, &place.path);
                let ghost before = roots.deep_view();
                push_roots(&mut roots, place, &usual);
                push_roots(&mut roots, place, &own);
                assert(roots.deep_view() =~= before + roots_at(
                    place.deep_view(),
                    usual.deep_view() + own.deep_view(),
                ));
                i = i + 1;
            }
            assert(places.take(places.len() as int) =~= places);
        }
        settle_roots(roots)
    }

    /// The first text under one of these keys, by itself or in an envelope.
    pub fn find_nested_str<'a>(v: &'a Json, keys: &Vec<&str>) -> (r: Option<&'a str>)
        ensures
            r.deep_view() == nested_text(v@, keys.deep_view()),
    {
        if let Some(t) = find_first_text(v, keys) {
            return Some(t);
        }
        if let Some(t) = find_first_text_in(v, "data", keys) {
            return Some(t);
        }
        if let Some(t) = find_first_text_in(v, "payload", keys) {
            return Some(t);
        }
        find_first_text_in(v, "metadata", keys)
    }

    /// When an event happened.
    pub fn extract_timestamp(v: &Json) -> (r: Option<i64>)
        ensures
            r == event_time(v@),
    {
        let keys = vec![
            "timestamp",
            "createdAt",
            "created_at",
            "time",
            "ts",
            "date",
            "startedAt",
            "started_at",
        ];
        assert(keys.deep_view() =~= time_keys());
        if let Some(t) = find_first_time(v, &keys) {
            return Some(t);
        }
        if let Some(t) = find_first_time_in(v, "data", &keys) {
            return Some(t);
        }
        if let Some(t) = find_first_time_in(v, "payload", &keys) {
            return Some(t);
        }
        find_first_time_in(v, "metadata", &keys)
    }

    /// The content of an event, by itself or in an envelope.
    pub fn extract_content(v: &Json) -> (r: String)
        ensures
            r@ == event_content(v@),
    {
        let keys = vec!["message", "content", "text", "value", "body"];
        assert(keys.deep_view() =~= content_keys());
        if let Some(t) = find_first_content(v, &keys) {
            return t;
        }
        if let Some(t) = v.get_str("data") {
            if !t.is_empty() {
                return t.to_owned();
            }
        }
        if let Some(t) = find_first_content_in(v, "data", &keys) {
            return t;
        }
        if let Some(t) = find_first_content_in(v, "payload", &keys) {
            return t;
        }
        let none = String::new();
        assert(none@ =~= Seq::empty());
        none
    }

    /// Who speaks in an event and what is said, if anyone speaks.
    pub fn extract_event_message(v: &Json) -> (r: Option<(String, String)>)
        ensures
            match r {
                Some((role, text)) => event_role(v@) == Some(role@) && text@ == event_text(v@),
                None => event_role(v@) is None,
            },
    {
        let keys = vec!["role", "author", "sender"];
        assert(keys.deep_view() =~= seq!["role"@, "author"@, "sender"@]);
        let role = match CopilotCliConnector::find_nested_str(v, &keys) {
            Some(named) => if same_text(named, "user") || same_text(named, "human") {
                "user"
            } else {
                "assistant"
            },
            None => match role_from_lower(lowercase(str_or(v.get_str("type"), "")).as_str()) {
                Some(role) => role,
                None => return None,
            },
        };
        let content = CopilotCliConnector::extract_content(v);
        if is_blank(content.as_str()) {
            let keys = vec!["prompt", "initialPrompt", "initial_prompt", "output", "result", "response"];
            assert(keys.deep_view() =~= other_keys());
            if let Some(t) = find_first_content(v, &keys) {
                return Some((role.to_owned(), t));
            }
            if let Some(t) = find_first_content_in(v, "data", &keys) {
                return Some((role.to_owned(), t));
            }
            if let Some(t) = find_first_content_in(v, "payload", &keys) {
                return Some((role.to_owned(), t));
            }
        }
        Some((role.to_owned(), content))
    }

    /// The conversations of a document.
    pub fn parse_session_json(v: &Json, path: &SourcePath) -> (r: Vec<Conversation>)
        ensures
            r.deep_view() == document_sessions(v@, path.deep_view()),
        decreases v@,
    {
        broadcast use array_view;

        if let Some(events) = find_events(v) {
            let log = read_events(events);
            let named = str_in(either(v.get("session_id"), either(v.get("sessionId"), v.get("id"))));
            let external_id = match named {
                Some(id) => Some(id.to_owned()),
                None => path.file_stem(),
            };
            let workspace = owned(
                str_in(either(v.get("cwd"), either(v.get("workingDirectory"), v.get("workspace")))),
            );
            return make_conversation(path, log, external_id, workspace);
        }
        let mut out: Vec<Conversation> = Vec::new();
        assert(out.deep_view() =~= Seq::empty());
        let ghost whole = v@;
        let ghost p = path.deep_view();
        if let Json::Array(items) = v {
            let ghost all = items.deep_view();
            assert(whole == JsonView::Array(all));
            let mut i: usize = 0;
            while i < items.len()
                invariant
                    i <= items@.len(),
                    all == items.deep_view(),
                    whole == v@,
                    whole == JsonView::Array(all),
                    p == path.deep_view(),
                    out.deep_view() == item_sessions(whole, i as nat, p),
                decreases items.len() - i,
            {
                let ghost before = out.deep_view();
                assert(whole->Array_0[i as int] == items@[i as int]@);
                let mut convs = CopilotCliConnector::parse_session_json(&items[i], path);
                name_by_place(&mut convs, path, i);
                let ghost more = convs.deep_view();
                out.append(&mut convs);
                assert(out.deep_view() =~= before + more);
                i = i + 1;
            }
        }
        out
    }

    /// The conversations of a file. It fails exactly where the file has no text.
    pub fn parse_event_log(&self, files: &FileTable, path: &SourcePath) -> (r: Result<Vec<Conversation>, ReadError>)
        ensures
            match r {
                Ok(found) => file_sessions(files.deep_view(), path.deep_view()) == Ok::<
                    Seq<ConversationView>,
                    ReadError,
                >(found.deep_view()),
                Err(e) => file_sessions(files.deep_view(), path.deep_view()) == Err::<
                    Seq<ConversationView>,
                    ReadError,
                >(e),
            },
    {
        let text = match files.read_text(path) {
            Some(text) => text,
            None => return Err(ReadError::Unreadable),
        };
        if begins_document(text.as_str()) {
            if let Some(v) = parse_json(text.as_str()) {
                if holds_sessions(&v, path) {
                    return Ok(CopilotCliConnector::parse_session_json(&v, path));
                }
            }
        }
        let log = read_lines(&lines_of(text.as_str()));
        let external_id = match &log.session_id {
            Some(id) => Some(id.clone()),
            None => match path.parent() {
                Some(dir) => match dir.file_name() {
                    Some(name) => Some(name.to_owned()),
                    None => None,
                },
                None => None,
            },
        };
        let workspace = log.workspace.clone();
        Ok(make_conversation(path, log, external_id, workspace))
    }

    /// Whether the CLI is installed.
    pub fn detect(&self, home: Option<&SourcePath>, files: &FileTable) -> (r: DetectionResult)
        ensures
            r.deep_view() == detection(files.deep_view(), home.deep_view()),
    {
        let ghost t = files.deep_view();
        let paths = CopilotCliConnector::cli_candidate_paths(home);
        let ghost all = paths.deep_view();
        let mut evidence: Vec<String> = Vec::new();
        let mut i: usize = 0;
        assert(evidence.deep_view() =~= all.take(0).map_values(|p: Seq<Seq<char>>| root_evidence(t, p)));
        while i < paths.len()
            invariant
                i <= paths@.len(),
                t == files.deep_view(),
                all == paths.deep_view(),
                evidence.deep_view() == all.take(i as int).map_values(|p: Seq<Seq<char>>| root_evidence(t, p)),
            decreases paths.len() - i,
        {
            let ghost before = evidence.deep_view();
            let line = if files.has(&paths[i]) {
                cat("copilot CLI root exists: ", paths[i].text().as_str())
            } else {
                cat("copilot CLI root missing: ", paths[i].text().as_str())
            };
            let ghost said = line@;
            evidence.push(line);
            assert(evidence.deep_view() =~= before.push(said));
            assert(evidence.deep_view() =~= all.take(i + 1).map_values(|p: Seq<Seq<char>>| root_evidence(t, p)));
            i = i + 1;
        }
        assert(all.take(all.len() as int) =~= all);
        let ghost so_far = evidence.deep_view();
        if files.has(&SourcePath::new("/usr/bin/gh")) {
            evidence.push("gh CLI found at /usr/bin/gh".to_owned());
            assert(evidence.deep_view() =~= so_far.push("gh CLI found at /usr/bin/gh"@));
        } else if files.has(&SourcePath::new("/usr/local/bin/gh")) {
            evidence.push("gh CLI found at /usr/local/bin/gh".to_owned());
            assert(evidence.deep_view() =~= so_far.push("gh CLI found at /usr/local/bin/gh"@));
        }
        assert(evidence.deep_view() =~= so_far + gh_evidence(t));
        if evidence.len() == 0 {
            evidence.push("no copilot CLI probe roots available".to_owned());
            assert(evidence.deep_view() =~= seq!["no copilot CLI probe roots available"@]);
        }
        let root_paths = files.keep_existing(paths);
        DetectionResult { detected: root_paths.len() > 0, evidence, root_paths }
    }

    /// Reads the sessions that changed.
    pub fn scan(&self, ctx: &ScanContext, surroundings: &Surroundings, files: &FileTable) -> (r: Vec<Conversation>)
        ensures
            r.deep_view() == sessions_under(
                files.deep_view(),
                copilot_roots(files.deep_view(), ctx.deep_view(), surroundings.deep_view()),
            ),
    {
        let ghost t = files.deep_view();
        let roots = CopilotCliConnector::source_roots(ctx, surroundings, files);
        let ghost all = roots.deep_view();
        let mut convs: Vec<Conversation> = Vec::new();
        let mut i: usize = 0;
        assert(all.take(0) =~= Seq::empty());
        assert(convs.deep_view() =~= Seq::empty());
        while i < roots.len()
            invariant
                i <= roots@.len(),
                t == files.deep_view(),
                all == roots.deep_view(),
                convs.deep_view() == sessions_under(t, all.take(i as int)),
            decreases roots.len() - i,
        {
            let ghost before = convs.deep_view();
            assert(all.take(i + 1).drop_last() =~= all.take(i as int));
            assert(all.take(i + 1).last() == roots@[i as int].deep_view());
            let list = CopilotCliConnector::find_event_files(files, &roots[i].path);
            let ghost fs = list.deep_view();
            let mut k: usize = 0;
            assert(fs.take(0) =~= Seq::empty());
            assert(convs.deep_view() =~= before + sessions_of(t, fs.take(0)));
            while k < list.len()
                invariant
                    k <= list@.len(),
                    t == files.deep_view(),
                    fs == list.deep_view(),
                    convs.deep_view() == before + sessions_of(t, fs.take(k as int)),
                decreases list.len() - k,
            {
                let file = &list[k];
                let ghost so_far = convs.deep_view();
                assert(fs.take(k + 1).drop_last() =~= fs.take(k as int));
                assert(fs.take(k + 1).last() == file.deep_view());
                if files.is_fresh(file) {
                    if let Ok(found) = self.parse_event_log(files, file) {
                        let mut found = found;
                        let ghost more = found.deep_view();
                        convs.append(&mut found);
                        assert(convs.deep_view() =~= so_far + more);
                    }
                }
                assert(convs.deep_view() =~= before + sessions_of(t, fs.take(k + 1)));
                k = k + 1;
            }
            assert(fs.take(fs.len() as int) =~= fs);
            i = i + 1;
        }
        assert(all.take(all.len() as int) =~= all);
        convs
    }

    /// The files that a scan would read.
    pub fn discover_source_files(&self, ctx: &ScanContext, surroundings: &Surroundings, files: &FileTable) -> (r: Vec<
        DiscoveredSource,
    >)
        ensures
            r.deep_view() == sources_under(
                files.deep_view(),
                copilot_roots(files.deep_view(), ctx.deep_view(), surroundings.deep_view()),
            ),
    {
        let ghost t = files.deep_view();
        let roots = CopilotCliConnector::source_roots(ctx, surroundings, files);
        let ghost all = roots.deep_view();
        let mut out: Vec<DiscoveredSource> = Vec::new();
        let mut i: usize = 0;
        assert(all.take(0) =~= Seq::empty());
        assert(out.deep_view() =~= Seq::empty());
        while i < roots.len()
            invariant
                i <= roots@.len(),
                t == files.deep_view(),
                all == roots.deep_view(),
                out.deep_view() == sources_under(t, all.take(i as int)),
            decreases roots.len() - i,
        {
            let root = &roots[i];
            let ghost before = out.deep_view();
            assert(all.take(i + 1).drop_last() =~= all.take(i as int));
            assert(all.take(i + 1).last() == root.deep_view());
            let list = CopilotCliConnector::find_event_files(files, &root.path);
            let ghost fs = list.deep_view();
            let mut k: usize = 0;
            assert(fs.take(0) =~= Seq::empty());
            assert(out.deep_view() =~= before + sources_of(t, root.deep_view(), fs.take(0)));
            while k < list.len()
                invariant
                    k <= list@.len(),
                    t == files.deep_view(),
                    fs == list.deep_view(),
                    out.deep_view() == before + sources_of(t, root.deep_view(), fs.take(k as int)),
                decreases list.len() - k,
            {
                let file = &list[k];
                assert(fs.take(k + 1).drop_last() =~= fs.take(k as int));
                assert(fs.take(k + 1).last() == file.deep_view());
                if files.is_fresh(file) {
                    push_source(
                        &mut out,
                        DiscoveredSource::new("copilot_cli", root, file.copy(), SourceRole::PrimarySessionLog, true),
                    );
                }
                assert(out.deep_view() =~= before + sources_of(t, root.deep_view(), fs.take(k + 1)));
                k = k + 1;
            }
            assert(fs.take(fs.len() as int) =~= fs);
            i = i + 1;
        }
        assert(all.take(all.len() as int) =~= all);
        out
    }
}

/// Whether a text starts as a document of JSON.
fn begins_document(text: &str) -> (r: bool)
    ensures
        r == starts_document(text@),
{
    let chars = crate::text::chars_of(text);
    let mut i: usize = 0;
    assert(chars@.skip(0) =~= chars@);
    while i < chars.len() && crate::text::white(chars[i])
        invariant
            chars@ == text@,
            i <= chars@.len(),
            trim_start(text@) == trim_start(chars@.skip(i as int)),
        decreases chars.len() - i,
    {
        assert(chars@.skip(i as int).skip(1) =~= chars@.skip(i + 1));
        i = i + 1;
    }
    assert(trim_start(text@) == chars@.skip(i as int));
    i < chars.len() && (chars[i] == '{' || chars[i] == '[')
}

/// What a root tells of the CLI.
pub open spec fn root_evidence(t: Seq<EntryView>, p: Seq<Seq<char>>) -> Seq<char> {
    if path_exists(t, p) {
        "copilot CLI root exists: "@ + path_text(p)
    } else {
        "copilot CLI root missing: "@ + path_text(p)
    }
}

/// What the program of GitHub tells.
pub open spec fn gh_evidence(t: Seq<EntryView>) -> Seq<Seq<char>> {
    if path_exists(t, components("/usr/bin/gh"@)) {
        seq!["gh CLI found at /usr/bin/gh"@]
    } else if path_exists(t, components("/usr/local/bin/gh"@)) {
        seq!["gh CLI found at /usr/local/bin/gh"@]
    } else {
        Seq::empty()
    }
}

/// Whether the CLI is installed: it is where one of its places exists.
pub open spec fn detection(t: Seq<EntryView>, home: Option<Seq<Seq<char>>>) -> DetectionView {
    let paths = candidate_paths(home);
    let evidence = paths.map_values(|p: Seq<Seq<char>>| root_evidence(t, p)) + gh_evidence(t);
    DetectionView {
        detected: only_existing(t, paths).len() > 0,
        evidence: if evidence.len() == 0 {
            seq!["no copilot CLI probe roots available"@]
        } else {
            evidence
        },
        root_paths: only_existing(t, paths),
    }
}

/// What holds of a log at any time.
pub open spec fn log_is_sound(log: LogView) -> bool {
    &&& is_numbered(log.messages)
    &&& forall|i: int| 0 <= i < log.messages.len() ==> !blank((#[trigger] log.messages[i]).content)
    &&& spans(log.started_at, log.ended_at)
}

/// What holds of a conversation that is read from a file.
pub open spec fn conversation_is_sound(c: ConversationView, path: Seq<Seq<char>>) -> bool {
    &&& c.source_path == path
    &&& c.messages.len() > 0
    &&& is_numbered(c.messages)
    &&& forall|i: int| 0 <= i < c.messages.len() ==> !blank((#[trigger] c.messages[i]).content)
    &&& spans(c.started_at, c.ended_at)
}

proof fn log_of_lines_is_sound(all: Seq<Seq<char>>)
    ensures
        log_is_sound(log_of_lines(all)),
    decreases all.len(),
{
    if all.len() > 0 {
        log_of_lines_is_sound(all.drop_last());
    }
}

proof fn log_of_events_is_sound(events: Seq<JsonView>)
    ensures
        log_is_sound(log_of_events(events)),
    decreases events.len(),
{
    if events.len() > 0 {
        log_of_events_is_sound(events.drop_last());
    }
}

proof fn document_sessions_are_sound(v: JsonView, path: Seq<Seq<char>>)
    ensures
        forall|i: int|
            0 <= i < document_sessions(v, path).len() ==> conversation_is_sound(
                #[trigger] document_sessions(v, path)[i],
                path,
            ),
    decreases v, 1int, 0int,
{
    match events_in(v) {
        Some(events) => {
            log_of_events_is_sound(events);
            let all = document_conversation(v, events, path);
            assert(document_sessions(v, path) == all);
            assert forall|i: int| 0 <= i < all.len() implies conversation_is_sound(#[trigger] all[i], path) by {
                assert(i == 0);
            }
        },
        None => match v {
            JsonView::Array(items) => {
                item_sessions_are_sound(v, items.len(), path);
                let all = item_sessions(v, items.len(), path);
                assert(document_sessions(v, path) == all);
                assert forall|i: int| 0 <= i < document_sessions(v, path).len() implies conversation_is_sound(
                    #[trigger] document_sessions(v, path)[i],
                    path,
                ) by {
                    assert(conversation_is_sound(all[i], path));
                }
            },
            _ => {
                assert(document_sessions(v, path).len() == 0);
            },
        },
    }
}

proof fn item_sessions_are_sound(v: JsonView, n: nat, path: Seq<Seq<char>>)
    ensures
        forall|i: int|
            0 <= i < item_sessions(v, n, path).len() ==> conversation_is_sound(
                #[trigger] item_sessions(v, n, path)[i],
                path,
            ),
    decreases v, 0int, n,
{
    if let JsonView::Array(items) = v {
        if 0 < n <= items.len() {
            let front = item_sessions(v, (n - 1) as nat, path);
            let own = document_sessions(items[n - 1], path);
            item_sessions_are_sound(v, (n - 1) as nat, path);
            document_sessions_are_sound(items[n - 1], path);
            let all = item_sessions(v, n, path);
            assert forall|i: int| 0 <= i < all.len() implies conversation_is_sound(#[trigger] all[i], path) by {
                if i < front.len() {
                    assert(all[i] == front[i]);
                } else {
                    assert(all[i] == named_by_place(own[i - front.len()], path, n - 1));
                    assert(conversation_is_sound(own[i - front.len()], path));
                }
            }
        }
    }
}

/// Every conversation of a text has messages, each at its place and none blank,
/// ended where it started or later, and tells the file that it comes from.
pub proof fn text_sessions_are_sound(text: Seq<char>, path: Seq<Seq<char>>)
    ensures
        forall|i: int|
            0 <= i < text_sessions(text, path).len() ==> conversation_is_sound(
                #[trigger] text_sessions(text, path)[i],
                path,
            ),
{
    if starts_document(text) && document_in(text) is Some && is_session_document(document_in(text)->0, path) {
        document_sessions_are_sound(document_in(text)->0, path);
    } else {
        log_of_lines_is_sound(lines(text));
    }
}

proof fn session_sources(t: Seq<EntryView>, root: RootView, all: Seq<Seq<Seq<char>>>)
    ensures
        forall|i: int|
            0 <= i < sessions_of(t, all).len() ==> sources_of(t, root, all).contains(
                source(
                    "copilot_cli"@,
                    root,
                    (#[trigger] sessions_of(t, all)[i]).source_path,
                    SourceRole::PrimarySessionLog,
                    true,
                ),
            ),
    decreases all.len(),
{
    if all.len() > 0 {
        let front = all.drop_last();
        session_sources(t, root, front);
        let cs = sessions_of(t, all);
        let ss = sources_of(t, root, all);
        let inner_c = sessions_of(t, front);
        let inner_s = sources_of(t, root, front);
        assert forall|i: int| 0 <= i < cs.len() implies ss.contains(
            source("copilot_cli"@, root, (#[trigger] cs[i]).source_path, SourceRole::PrimarySessionLog, true),
        ) by {
            let wanted = source("copilot_cli"@, root, cs[i].source_path, SourceRole::PrimarySessionLog, true);
            if i < inner_c.len() {
                assert(cs[i] == inner_c[i]);
                assert(inner_s.contains(wanted));
                let k = choose|k: int| 0 <= k < inner_s.len() && inner_s[k] == wanted;
                assert(ss[k] == wanted);
            } else {
                let text = text_at(t, all.last())->0;
                text_sessions_are_sound(text, all.last());
                assert(cs[i] == text_sessions(text, all.last())[i - inner_c.len()]);
                assert(ss[ss.len() - 1] == wanted);
            }
        }
    }
}

/// Whatever a scan reads, discovery names: each conversation comes from a file that
/// is among the sources.
pub proof fn scanned_files_are_discovered(t: Seq<EntryView>, roots: Seq<RootView>)
    ensures
        forall|i: int|
            0 <= i < sessions_under(t, roots).len() ==> is_source(
                sources_under(t, roots),
                (#[trigger] sessions_under(t, roots)[i]).source_path,
            ),
    decreases roots.len(),
{
    if roots.len() > 0 {
        let front = roots.drop_last();
        scanned_files_are_discovered(t, front);
        let root = roots.last();
        let files = event_files(t, root.path);
        session_sources(t, root, files);
        let cs = sessions_under(t, roots);
        let ss = sources_under(t, roots);
        let inner_c = sessions_under(t, front);
        let inner_s = sources_under(t, front);
        let last_c = sessions_of(t, files);
        let last_s = sources_of(t, root, files);
        assert forall|i: int| 0 <= i < cs.len() implies is_source(ss, (#[trigger] cs[i]).source_path) by {
            if i < inner_c.len() {
                assert(cs[i] == inner_c[i]);
                let k = choose|k: int|
                    0 <= k < inner_s.len() && (#[trigger] inner_s[k]).source_path == inner_c[i].source_path;
                assert(ss[k] == inner_s[k]);
            } else {
                let n = i - inner_c.len();
                assert(cs[i] == last_c[n]);
                let wanted = source(
                    "copilot_cli"@,
                    root,
                    last_c[n].source_path,
                    SourceRole::PrimarySessionLog,
                    true,
                );
                assert(last_s.contains(wanted));
                let k = choose|k: int| 0 <= k < last_s.len() && last_s[k] == wanted;
                assert(ss[inner_s.len() + k] == wanted);
            }
        }
    }
}

/// A log of one line is read as a log: where the line is an event in which someone
/// says something, the file makes one conversation of that one message, which began
/// and ended with it.
pub proof fn single_events_are_read(line: Seq<char>, path: Seq<Seq<char>>)
    requires
        extension(path) == Some("jsonl"@),
        lines(line) == seq![line],
        trim(line) == line,
        document_in(line) matches Some(v) && v is Object && events_in(v) is None && event_role(v) is Some && !blank(
            event_text(v),
        ),
    ensures
        ({
            let v = document_in(line)->0;
            let all = text_sessions(line, path);
            &&& all.len() == 1
            &&& all[0].messages.len() == 1
            &&& all[0].messages[0].role == event_role(v)->0
            &&& all[0].messages[0].content == event_text(v)
            &&& all[0].started_at == event_time(v)
            &&& all[0].ended_at == event_time(v)
            &&& nested_text(v, id_keys()) is None ==> all[0].external_id == match parent(path) {
                Some(dir) => file_name(dir),
                None => None,
            }
        }),
{
    reveal_with_fuel(log_of_lines, 2);
    assert(seq![line].drop_last() =~= Seq::empty());
    assert(line.len() > 0) by {
        if line.len() == 0 {
            assert(lines(line).len() == 0);
        }
    }
}

proof fn event_keeps_canonical(log: LogView, v: JsonView)
    requires
        canonical(v),
        canonical_messages(log.messages),
    ensures
        canonical_messages(after_event(log, v).messages),
{
    if after_event(log, v).messages != log.messages {
        messages_grow(log.messages, after_event(log, v).messages.last());
    }
}

proof fn log_of_events_is_canonical(events: Seq<JsonView>)
    requires
        forall|i: int| 0 <= i < events.len() ==> canonical(#[trigger] events[i]),
    ensures
        canonical_messages(log_of_events(events).messages),
    decreases events.len(),
{
    if events.len() > 0 {
        let front = events.drop_last();
        assert forall|i: int| 0 <= i < front.len() implies canonical(#[trigger] front[i]) by {
            assert(canonical(events[i]));
        }
        log_of_events_is_canonical(front);
        assert(canonical(events[events.len() - 1]));
        event_keeps_canonical(log_of_events(front), events.last());
    }
}

proof fn log_of_lines_is_canonical(all: Seq<Seq<char>>)
    ensures
        canonical_messages(log_of_lines(all).messages),
    decreases all.len(),
{
    if all.len() > 0 {
        let log = log_of_lines(all.drop_last());
        log_of_lines_is_canonical(all.drop_last());
        if let Some(v) = document_in(trim(all.last())) {
            event_keeps_canonical(
                LogView {
                    session_id: or_else(log.session_id, nested_text(v, id_keys())),
                    workspace: or_else(log.workspace, nested_text(v, workspace_keys())),
                    ..log
                },
                v,
            );
        }
    }
}

proof fn log_conversation_is_canonical(
    path: Seq<Seq<char>>,
    log: LogView,
    external_id: Option<Seq<char>>,
    workspace: Option<Seq<char>>,
)
    requires
        canonical_messages(log.messages),
    ensures
        canonical_conversations(log_conversation(path, log, external_id, workspace)),
{
    one_member_is_canonical("source"@, JsonView::Text("copilot-cli"@));
}

proof fn events_in_are_canonical(v: JsonView)
    requires
        canonical(v),
    ensures
        events_in(v) matches Some(events) ==> forall|i: int|
            0 <= i < events.len() ==> canonical(#[trigger] events[i]),
{
    member_canonical(v, "events"@);
    member_canonical(v, "history"@);
    member_canonical(v, "messages"@);
    member_canonical(v, "conversation"@);
}

/// The documents of all conversations in a document are canonical.
pub proof fn document_sessions_are_canonical(v: JsonView, path: Seq<Seq<char>>)
    requires
        canonical(v),
    ensures
        canonical_conversations(document_sessions(v, path)),
    decreases v, 1int, 0int,
{
    match events_in(v) {
        Some(events) => {
            events_in_are_canonical(v);
            log_of_events_is_canonical(events);
            log_conversation_is_canonical(
                path,
                log_of_events(events),
                or_else(
                    text_in(
                        or_else(member(v, "session_id"@), or_else(member(v, "sessionId"@), member(v, "id"@))),
                    ),
                    file_stem(path),
                ),
                text_in(
                    or_else(member(v, "cwd"@), or_else(member(v, "workingDirectory"@), member(v, "workspace"@))),
                ),
            );
        },
        None => if let JsonView::Array(items) = v {
            item_sessions_are_canonical(v, items.len(), path);
        },
    }
}

proof fn item_sessions_are_canonical(v: JsonView, n: nat, path: Seq<Seq<char>>)
    requires
        canonical(v),
    ensures
        canonical_conversations(item_sessions(v, n, path)),
    decreases v, 0int, n,
{
    if let JsonView::Array(items) = v {
        if 0 < n <= items.len() {
            let inner = document_sessions(items[n - 1], path);
            let named = inner.map_values(|c: ConversationView| named_by_place(c, path, n - 1));
            item_sessions_are_canonical(v, (n - 1) as nat, path);
            document_sessions_are_canonical(items[n - 1], path);
            assert forall|i: int| 0 <= i < named.len() implies canonical_conversation(#[trigger] named[i]) by {
                assert(canonical_conversation(inner[i]));
                assert(named[i] == named_by_place(inner[i], path, n - 1));
            }
            conversations_join(item_sessions(v, (n - 1) as nat, path), named);
        }
    }
}

/// The documents of all conversations in a text are canonical.
pub proof fn text_sessions_are_canonical(text: Seq<char>, path: Seq<Seq<char>>)
    ensures
        canonical_conversations(text_sessions(text, path)),
{
    if let Some(v) = document_in(text) {
        document_sessions_are_canonical(v, path);
    }
    let log = log_of_lines(lines(text));
    log_of_lines_is_canonical(lines(text));
    log_conversation_is_canonical(
        path,
        log,
        or_else(
            log.session_id,
            match parent(path) {
                Some(dir) => file_name(dir),
                None => None,
            },
        ),
        log.workspace,
    );
}

proof fn sessions_of_are_canonical(t: Seq<EntryView>, all: Seq<Seq<Seq<char>>>)
    ensures
        canonical_conversations(sessions_of(t, all)),
    decreases all.len(),
{
    if all.len() > 0 {
        sessions_of_are_canonical(t, all.drop_last());
        if let Some(text) = text_at(t, all.last()) {
            text_sessions_are_canonical(text, all.last());
            conversations_join(sessions_of(t, all.drop_last()), text_sessions(text, all.last()));
        }
    }
}

/// The documents of all conversations that a scan hands out are canonical, so that
/// each can be rendered.
pub proof fn scanned_documents_are_canonical(t: Seq<EntryView>, roots: Seq<RootView>)
    ensures
        canonical_conversations(sessions_under(t, roots)),
    decreases roots.len(),
{
    if roots.len() > 0 {
        let files = event_files(t, roots.last().path);
        scanned_documents_are_canonical(t, roots.drop_last());
        sessions_of_are_canonical(t, files);
        conversations_join(sessions_under(t, roots.drop_last()), sessions_of(t, files));
    }
}

proof fn first_time_at(v: JsonView, keys: Seq<Seq<char>>, n: int)
    requires
        0 <= n < keys.len(),
        forall|i: int| 0 <= i < n ==> timestamp_in(member(v, #[trigger] keys[i])) is None,
        timestamp_in(member(v, keys[n])) is Some,
    ensures
        first_time(v, keys) == timestamp_in(member(v, keys[n])),
    decreases n,
{
    if n > 0 {
        let rest = keys.skip(1);
        assert(timestamp_in(member(v, keys[0])) is None);
        assert forall|i: int| 0 <= i < n - 1 implies timestamp_in(member(v, #[trigger] rest[i])) is None by {
            assert(timestamp_in(member(v, keys[i + 1])) is None);
        }
        first_time_at(v, rest, n - 1);
    }
}

proof fn first_text_at(v: JsonView, keys: Seq<Seq<char>>, n: int)
    requires
        0 <= n < keys.len(),
        forall|i: int| 0 <= i < n ==> member_text(v, #[trigger] keys[i]) is None,
        member_text(v, keys[n]) is Some,
    ensures
        first_text(v, keys) == member_text(v, keys[n]),
    decreases n,
{
    if n > 0 {
        let rest = keys.skip(1);
        assert(member_text(v, keys[0]) is None);
        assert forall|i: int| 0 <= i < n - 1 implies member_text(v, #[trigger] rest[i]) is None by {
            assert(member_text(v, keys[i + 1]) is None);
        }
        first_text_at(v, rest, n - 1);
    }
}

proof fn first_content_at(v: JsonView, keys: Seq<Seq<char>>, n: int)
    requires
        0 <= n < keys.len(),
        forall|i: int| 0 <= i < n ==> flat_text_in(member(v, #[trigger] keys[i])).len() == 0,
        flat_text_in(member(v, keys[n])).len() > 0,
    ensures
        first_content(v, keys) == Some(flat_text_in(member(v, keys[n]))),
    decreases n,
{
    if n > 0 {
        let rest = keys.skip(1);
        assert(flat_text_in(member(v, keys[0])).len() == 0);
        assert forall|i: int| 0 <= i < n - 1 implies flat_text_in(member(v, #[trigger] rest[i])).len() == 0 by {
            assert(flat_text_in(member(v, keys[i + 1])).len() == 0);
        }
        first_content_at(v, rest, n - 1);
    }
}

/// An event tells its own time under the first of the usual names that denotes one.
pub proof fn events_tell_their_own_time(v: JsonView)
    ensures
        timestamp_in(member(v, "timestamp"@)) is Some ==> event_time(v) == timestamp_in(member(v, "timestamp"@)),
        timestamp_in(member(v, "timestamp"@)) is None && timestamp_in(member(v, "createdAt"@)) is Some ==> event_time(v) == timestamp_in(member(v, "createdAt"@)),
        timestamp_in(member(v, "timestamp"@)) is None && timestamp_in(member(v, "createdAt"@)) is None && timestamp_in(member(v, "created_at"@)) is Some ==> event_time(v) == timestamp_in(member(v, "created_at"@)),
        timestamp_in(member(v, "timestamp"@)) is None && timestamp_in(member(v, "createdAt"@)) is None && timestamp_in(member(v, "created_at"@)) is None && timestamp_in(member(v, "time"@)) is Some ==> event_time(v) == timestamp_in(member(v, "time"@)),
        timestamp_in(member(v, "timestamp"@)) is None && timestamp_in(member(v, "createdAt"@)) is None && timestamp_in(member(v, "created_at"@)) is None && timestamp_in(member(v, "time"@)) is None && timestamp_in(member(v, "ts"@)) is Some ==> event_time(v) == timestamp_in(member(v, "ts"@)),
        timestamp_in(member(v, "timestamp"@)) is None && timestamp_in(member(v, "createdAt"@)) is None && timestamp_in(member(v, "created_at"@)) is None && timestamp_in(member(v, "time"@)) is None && timestamp_in(member(v, "ts"@)) is None && timestamp_in(member(v, "date"@)) is Some ==> event_time(v) == timestamp_in(member(v, "date"@)),
        timestamp_in(member(v, "timestamp"@)) is None && timestamp_in(member(v, "createdAt"@)) is None && timestamp_in(member(v, "created_at"@)) is None && timestamp_in(member(v, "time"@)) is None && timestamp_in(member(v, "ts"@)) is None && timestamp_in(member(v, "date"@)) is None && timestamp_in(member(v, "startedAt"@)) is Some ==> event_time(v) == timestamp_in(member(v, "startedAt"@)),
        timestamp_in(member(v, "timestamp"@)) is None && timestamp_in(member(v, "createdAt"@)) is None && timestamp_in(member(v, "created_at"@)) is None && timestamp_in(member(v, "time"@)) is None && timestamp_in(member(v, "ts"@)) is None && timestamp_in(member(v, "date"@)) is None && timestamp_in(member(v, "startedAt"@)) is None && timestamp_in(member(v, "started_at"@)) is Some ==> event_time(v) == timestamp_in(member(v, "started_at"@)),
{
    let keys = time_keys();
    if timestamp_in(member(v, "timestamp"@)) is Some {
        first_time_at(v, keys, 0);
    }
    if timestamp_in(member(v, "createdAt"@)) is Some && timestamp_in(member(v, "timestamp"@)) is None {
        first_time_at(v, keys, 1);
    }
    if timestamp_in(member(v, "created_at"@)) is Some && timestamp_in(member(v, "timestamp"@)) is None && timestamp_in(member(v, "createdAt"@)) is None {
        first_time_at(v, keys, 2);
    }
    if timestamp_in(member(v, "time"@)) is Some && timestamp_in(member(v, "timestamp"@)) is None && timestamp_in(member(v, "createdAt"@)) is None && timestamp_in(member(v, "created_at"@)) is None {
        first_time_at(v, keys, 3);
    }
    if timestamp_in(member(v, "ts"@)) is Some && timestamp_in(member(v, "timestamp"@)) is None && timestamp_in(member(v, "createdAt"@)) is None && timestamp_in(member(v, "created_at"@)) is None && timestamp_in(member(v, "time"@)) is None {
        first_time_at(v, keys, 4);
    }
    if timestamp_in(member(v, "date"@)) is Some && timestamp_in(member(v, "timestamp"@)) is None && timestamp_in(member(v, "createdAt"@)) is None && timestamp_in(member(v, "created_at"@)) is None && timestamp_in(member(v, "time"@)) is None && timestamp_in(member(v, "ts"@)) is None {
        first_time_at(v, keys, 5);
    }
    if timestamp_in(member(v, "startedAt"@)) is Some && timestamp_in(member(v, "timestamp"@)) is None && timestamp_in(member(v, "createdAt"@)) is None && timestamp_in(member(v, "created_at"@)) is None && timestamp_in(member(v, "time"@)) is None && timestamp_in(member(v, "ts"@)) is None && timestamp_in(member(v, "date"@)) is None {
        first_time_at(v, keys, 6);
    }
    if timestamp_in(member(v, "started_at"@)) is Some && timestamp_in(member(v, "timestamp"@)) is None && timestamp_in(member(v, "createdAt"@)) is None && timestamp_in(member(v, "created_at"@)) is None && timestamp_in(member(v, "time"@)) is None && timestamp_in(member(v, "ts"@)) is None && timestamp_in(member(v, "date"@)) is None && timestamp_in(member(v, "startedAt"@)) is None {
        first_time_at(v, keys, 7);
    }
}

/// A record names its session under the first of the usual names.
pub proof fn records_name_their_session(v: JsonView)
    ensures
        member_text(v, "session_id"@) is Some ==> nested_text(v, id_keys()) == member_text(v, "session_id"@),
        member_text(v, "session_id"@) is None && member_text(v, "sessionId"@) is Some ==> nested_text(v, id_keys()) == member_text(v, "sessionId"@),
        member_text(v, "session_id"@) is None && member_text(v, "sessionId"@) is None && member_text(v, "sessionID"@) is Some ==> nested_text(v, id_keys()) == member_text(v, "sessionID"@),
        member_text(v, "session_id"@) is None && member_text(v, "sessionId"@) is None && member_text(v, "sessionID"@) is None && member_text(v, "id"@) is Some ==> nested_text(v, id_keys()) == member_text(v, "id"@),
{
    let keys = id_keys();
    if member_text(v, "session_id"@) is Some {
        first_text_at(v, keys, 0);
    }
    if member_text(v, "sessionId"@) is Some && member_text(v, "session_id"@) is None {
        first_text_at(v, keys, 1);
    }
    if member_text(v, "sessionID"@) is Some && member_text(v, "session_id"@) is None && member_text(v, "sessionId"@) is None {
        first_text_at(v, keys, 2);
    }
    if member_text(v, "id"@) is Some && member_text(v, "session_id"@) is None && member_text(v, "sessionId"@) is None && member_text(v, "sessionID"@) is None {
        first_text_at(v, keys, 3);
    }
}

/// A record names its workspace under the first of the usual names.
pub proof fn records_name_their_workspace(v: JsonView)
    ensures
        member_text(v, "cwd"@) is Some ==> nested_text(v, workspace_keys()) == member_text(v, "cwd"@),
        member_text(v, "cwd"@) is None && member_text(v, "workingDirectory"@) is Some ==> nested_text(v, workspace_keys()) == member_text(v, "workingDirectory"@),
        member_text(v, "cwd"@) is None && member_text(v, "workingDirectory"@) is None && member_text(v, "working_directory"@) is Some ==> nested_text(v, workspace_keys()) == member_text(v, "working_directory"@),
        member_text(v, "cwd"@) is None && member_text(v, "workingDirectory"@) is None && member_text(v, "working_directory"@) is None && member_text(v, "workspace"@) is Some ==> nested_text(v, workspace_keys()) == member_text(v, "workspace"@),
        member_text(v, "cwd"@) is None && member_text(v, "workingDirectory"@) is None && member_text(v, "working_directory"@) is None && member_text(v, "workspace"@) is None && member_text(v, "workspaceRoot"@) is Some ==> nested_text(v, workspace_keys()) == member_text(v, "workspaceRoot"@),
        member_text(v, "cwd"@) is None && member_text(v, "workingDirectory"@) is None && member_text(v, "working_directory"@) is None && member_text(v, "workspace"@) is None && member_text(v, "workspaceRoot"@) is None && member_text(v, "workspace_root"@) is Some ==> nested_text(v, workspace_keys()) == member_text(v, "workspace_root"@),
        member_text(v, "cwd"@) is None && member_text(v, "workingDirectory"@) is None && member_text(v, "working_directory"@) is None && member_text(v, "workspace"@) is None && member_text(v, "workspaceRoot"@) is None && member_text(v, "workspace_root"@) is None && member_text(v, "projectPath"@) is Some ==> nested_text(v, workspace_keys()) == member_text(v, "projectPath"@),
        member_text(v, "cwd"@) is None && member_text(v, "workingDirectory"@) is None && member_text(v, "working_directory"@) is None && member_text(v, "workspace"@) is None && member_text(v, "workspaceRoot"@) is None && member_text(v, "workspace_root"@) is None && member_text(v, "projectPath"@) is None && member_text(v, "project_path"@) is Some ==> nested_text(v, workspace_keys()) == member_text(v, "project_path"@),
{
    let keys = workspace_keys();
    if member_text(v, "cwd"@) is Some {
        first_text_at(v, keys, 0);
    }
    if member_text(v, "workingDirectory"@) is Some && member_text(v, "cwd"@) is None {
        first_text_at(v, keys, 1);
    }
    if member_text(v, "working_directory"@) is Some && member_text(v, "cwd"@) is None && member_text(v, "workingDirectory"@) is None {
        first_text_at(v, keys, 2);
    }
    if member_text(v, "workspace"@) is Some && member_text(v, "cwd"@) is None && member_text(v, "workingDirectory"@) is None && member_text(v, "working_directory"@) is None {
        first_text_at(v, keys, 3);
    }
    if member_text(v, "workspaceRoot"@) is Some && member_text(v, "cwd"@) is None && member_text(v, "workingDirectory"@) is None && member_text(v, "working_directory"@) is None && member_text(v, "workspace"@) is None {
        first_text_at(v, keys, 4);
    }
    if member_text(v, "workspace_root"@) is Some && member_text(v, "cwd"@) is None && member_text(v, "workingDirectory"@) is None && member_text(v, "working_directory"@) is None && member_text(v, "workspace"@) is None && member_text(v, "workspaceRoot"@) is None {
        first_text_at(v, keys, 5);
    }
    if member_text(v, "projectPath"@) is Some && member_text(v, "cwd"@) is None && member_text(v, "workingDirectory"@) is None && member_text(v, "working_directory"@) is None && member_text(v, "workspace"@) is None && member_text(v, "workspaceRoot"@) is None && member_text(v, "workspace_root"@) is None {
        first_text_at(v, keys, 6);
    }
    if member_text(v, "project_path"@) is Some && member_text(v, "cwd"@) is None && member_text(v, "workingDirectory"@) is None && member_text(v, "working_directory"@) is None && member_text(v, "workspace"@) is None && member_text(v, "workspaceRoot"@) is None && member_text(v, "workspace_root"@) is None && member_text(v, "projectPath"@) is None {
        first_text_at(v, keys, 7);
    }
}

/// An event says what stands under the first of the usual names that is not empty.
pub proof fn events_say_their_content(v: JsonView)
    ensures
        flat_text_in(member(v, "message"@)).len() > 0 ==> event_content(v) == flat_text_in(member(v, "message"@)),
        flat_text_in(member(v, "message"@)).len() == 0 && flat_text_in(member(v, "content"@)).len() > 0 ==> event_content(v) == flat_text_in(member(v, "content"@)),
        flat_text_in(member(v, "message"@)).len() == 0 && flat_text_in(member(v, "content"@)).len() == 0 && flat_text_in(member(v, "text"@)).len() > 0 ==> event_content(v) == flat_text_in(member(v, "text"@)),
        flat_text_in(member(v, "message"@)).len() == 0 && flat_text_in(member(v, "content"@)).len() == 0 && flat_text_in(member(v, "text"@)).len() == 0 && flat_text_in(member(v, "value"@)).len() > 0 ==> event_content(v) == flat_text_in(member(v, "value"@)),
        flat_text_in(member(v, "message"@)).len() == 0 && flat_text_in(member(v, "content"@)).len() == 0 && flat_text_in(member(v, "text"@)).len() == 0 && flat_text_in(member(v, "value"@)).len() == 0 && flat_text_in(member(v, "body"@)).len() > 0 ==> event_content(v) == flat_text_in(member(v, "body"@)),
{
    let keys = content_keys();
    if flat_text_in(member(v, "message"@)).len() > 0 {
        first_content_at(v, keys, 0);
    }
    if flat_text_in(member(v, "content"@)).len() > 0 && flat_text_in(member(v, "message"@)).len() == 0 {
        first_content_at(v, keys, 1);
    }
    if flat_text_in(member(v, "text"@)).len() > 0 && flat_text_in(member(v, "message"@)).len() == 0 && flat_text_in(member(v, "content"@)).len() == 0 {
        first_content_at(v, keys, 2);
    }
    if flat_text_in(member(v, "value"@)).len() > 0 && flat_text_in(member(v, "message"@)).len() == 0 && flat_text_in(member(v, "content"@)).len() == 0 && flat_text_in(member(v, "text"@)).len() == 0 {
        first_content_at(v, keys, 3);
    }
    if flat_text_in(member(v, "body"@)).len() > 0 && flat_text_in(member(v, "message"@)).len() == 0 && flat_text_in(member(v, "content"@)).len() == 0 && flat_text_in(member(v, "text"@)).len() == 0 && flat_text_in(member(v, "value"@)).len() == 0 {
        first_content_at(v, keys, 4);
    }
}

/// What an event does not tell by itself it tells by its `data`, or else its `payload`, or
/// else, but for its content, its `metadata`.
pub proof fn envelopes_are_opened_in_order(v: JsonView, data: JsonView, payload: JsonView, keys: Seq<Seq<char>>)
    requires
        member(v, "data"@) == Some(data),
        member(v, "payload"@) == Some(payload),
    ensures
        first_time(v, time_keys()) is None && first_time(data, time_keys()) is Some ==> event_time(v) == first_time(
            data,
            time_keys(),
        ),
        first_time(v, time_keys()) is None && first_time(data, time_keys()) is None && first_time(payload, time_keys()) is Some
            ==> event_time(v) == first_time(payload, time_keys()),
        first_text(v, keys) is Some ==> nested_text(v, keys) == first_text(v, keys),
        first_text(v, keys) is None && first_text(data, keys) is Some ==> nested_text(v, keys) == first_text(data, keys),
        first_text(v, keys) is None && first_text(data, keys) is None && first_text(payload, keys) is Some ==> nested_text(
            v,
            keys,
        ) == first_text(payload, keys),
        first_content(v, content_keys()) is None && plain_data(v) is None && first_content(data, content_keys()) is Some
            ==> event_content(v) == first_content(data, content_keys())->0,
{
}

/// Whoever names a role, an author or a sender speaks as the user where that is the user or
/// a human, and as the assistant where it is anyone else.
pub proof fn named_roles_are_told_apart(v: JsonView, role: Seq<char>)
    requires
        member_text(v, "role"@) == Some(role),
    ensures
        role == "user"@ || role == "human"@ ==> event_role(v) == Some("user"@),
        role != "user"@ && role != "human"@ ==> event_role(v) == Some("assistant"@),
{
    let keys = seq!["role"@, "author"@, "sender"@];
    first_text_at(v, keys, 0);
}

/// An event in which someone says something is the next message: with the role of who
/// speaks, its own time, whatever the log held before, and its own text. What was said
/// before stays as it is.
pub proof fn events_are_said_at_their_own_time(log: LogView, v: JsonView, role: Seq<char>)
    requires
        event_role(v) == Some(role),
        !blank(event_text(v)),
        log.messages.len() <= i64::MAX,
    ensures
        ({
            let after = after_event(log, v);
            let m = after.messages.last();
            &&& after.messages == log.messages.push(m)
            &&& m.idx == log.messages.len()
            &&& m.role == role
            &&& role == "user"@ ==> m.author == Some("user"@)
            &&& role != "user"@ ==> m.author == Some("copilot-cli"@)
            &&& m.created_at == event_time(v)
            &&& m.content == event_text(v)
            &&& m.extra == v
            &&& m.invocations.len() == 0
        }),
{
}

/// An event in which nobody speaks, or nothing is said, adds no message. Whatever comes
/// next, the span of the log widens to hold its time, and holds no other; and the log
/// keeps the first name of its session and its workspace that it was told.
pub proof fn events_widen_the_span(log: LogView, v: JsonView)
    ensures
        event_role(v) is None || blank(event_text(v)) ==> after_event(log, v).messages == log.messages,
        ({
            let after = after_event(log, v);
            let time = event_time(v);
            &&& after.started_at == log.started_at || after.started_at == time
            &&& after.ended_at == log.ended_at || after.ended_at == time
            &&& time is Some ==> after.started_at is Some && after.ended_at is Some && after.started_at->0 <= time->0
                && time->0 <= after.ended_at->0
            &&& log.started_at is Some ==> after.started_at is Some && after.started_at->0 <= log.started_at->0
            &&& log.ended_at is Some ==> after.ended_at is Some && after.ended_at->0 >= log.ended_at->0
        }),
        ({
            let after = after_record(log, v);
            &&& after.messages == after_event(log, v).messages
            &&& log.session_id is Some ==> after.session_id == log.session_id
            &&& log.session_id is None ==> after.session_id == nested_text(v, id_keys())
            &&& log.workspace is Some ==> after.workspace == log.workspace
            &&& log.workspace is None ==> after.workspace == nested_text(v, workspace_keys())
        }),
{
}

/// What an event says is its content, or else, where that is blank, what it was prompted or
/// gave back.
pub proof fn blank_events_say_their_prompt_or_output(v: JsonView)
    ensures
        !blank(event_content(v)) ==> event_text(v) == event_content(v),
        blank(event_content(v)) && flat_text_in(member(v, "prompt"@)).len() > 0 ==> event_text(v) == flat_text_in(
            member(v, "prompt"@),
        ),
{
    if flat_text_in(member(v, "prompt"@)).len() > 0 {
        first_content_at(v, other_keys(), 0);
    }
}

/// A log is read line by line and a document event by event, in their order.
pub proof fn events_are_read_in_order(
    lines: Seq<Seq<char>>,
    line: Seq<char>,
    events: Seq<JsonView>,
    v: JsonView,
)
    requires
        document_in(trim(line)) == Some(v),
        trim(line).len() > 0,
    ensures
        log_of_lines(lines.push(line)) == after_record(log_of_lines(lines), v),
        log_of_events(events.push(v)) == after_event(log_of_events(events), v),
        log_of_lines(Seq::empty()).messages.len() == 0,
        log_of_events(Seq::empty()).messages.len() == 0,
        log_of_lines(Seq::empty()).started_at is None && log_of_lines(Seq::empty()).ended_at is None,
        log_of_events(Seq::empty()).started_at is None && log_of_events(Seq::empty()).ended_at is None,
        log_of_lines(Seq::empty()).session_id is None && log_of_lines(Seq::empty()).workspace is None,
{
    assert(lines.push(line).drop_last() =~= lines);
    assert(events.push(v).drop_last() =~= events);
}

/// A conversation holds the messages of its log, spans its time, has the caption of the
/// user's first message for its title and tells the file that it comes from.
pub proof fn logs_are_told_of(
    path: Seq<Seq<char>>,
    log: LogView,
    external_id: Option<Seq<char>>,
    workspace: Option<Seq<char>>,
)
    ensures
        log.messages.len() == 0 ==> log_conversation(path, log, external_id, workspace).len() == 0,
        log.messages.len() > 0 ==> {
            let all = log_conversation(path, log, external_id, workspace);
            let c = all[0];
            &&& all.len() == 1
            &&& c.agent_slug == "copilot_cli"@
            &&& c.external_id == external_id
            &&& c.workspace == workspace
            &&& c.source_path == path
            &&& c.title == user_caption(log.messages, 120)
            &&& c.started_at == log.started_at
            &&& c.ended_at == log.ended_at
            &&& c.messages == log.messages
            &&& member(c.metadata, "source"@) == Some(JsonView::Text("copilot-cli"@))
        },
{
    member_is_the_first_of_its_key(
        JsonView::Null,
        seq![("source"@, JsonView::Text("copilot-cli"@))],
        "source"@,
        0,
    );
}

/// A log of lines makes a conversation of the session that its records name, or else of the
/// directory it stands in.
pub proof fn logs_are_named(text: Seq<char>, path: Seq<Seq<char>>)
    ensures
        ({
            let log = log_of_lines(lines(text));
            let all = log_sessions(text, path);
            &&& log.messages.len() == 0 ==> all.len() == 0
            &&& log.messages.len() > 0 ==> {
                &&& all.len() == 1
                &&& all[0].messages == log.messages
                &&& all[0].workspace == log.workspace
                &&& log.session_id is Some ==> all[0].external_id == log.session_id
                &&& log.session_id is None ==> (parent(path) matches Some(dir) ==> all[0].external_id == file_name(dir))
            }
        }),
{
}

/// A document that holds events makes a conversation of them, of the session that it names,
/// or else of its file.
pub proof fn documents_are_named(v: JsonView, events: Seq<JsonView>, path: Seq<Seq<char>>)
    requires
        member(v, "events"@) == Some(JsonView::Array(events)),
        log_of_events(events).messages.len() > 0,
    ensures
        ({
            let all = document_sessions(v, path);
            &&& all.len() == 1
            &&& all[0].messages == log_of_events(events).messages
            &&& member_text(v, "session_id"@) matches Some(id) ==> all[0].external_id == Some(id)
            &&& member(v, "session_id"@) is None ==> (member_text(v, "sessionId"@) matches Some(id)
                ==> all[0].external_id == Some(id))
            &&& member(v, "session_id"@) is None && member(v, "sessionId"@) is None ==> (member_text(v, "id"@) matches Some(
                id,
            ) ==> all[0].external_id == Some(id))
            &&& member(v, "session_id"@) is None && member(v, "sessionId"@) is None && member(v, "id"@) is None
                ==> all[0].external_id == file_stem(path)
            &&& member_text(v, "cwd"@) matches Some(cwd) ==> all[0].workspace == Some(cwd)
        }),
{
}

/// The sessions of a list are those of its items, in their order.
pub proof fn sessions_of_lists_are_those_of_their_items(v: JsonView, items: Seq<JsonView>, n: nat, path: Seq<Seq<char>>)
    requires
        v == JsonView::Array(items),
        0 < n <= items.len(),
    ensures
        ({
            let front = item_sessions(v, (n - 1) as nat, path);
            let own = document_sessions(items[n - 1], path);
            let all = item_sessions(v, n, path);
            &&& all.len() == front.len() + own.len()
            &&& forall|i: int| 0 <= i < front.len() ==> all[i] == front[i]
            &&& forall|i: int|
                0 <= i < own.len() ==> (#[trigger] all[front.len() + i]).messages == own[i].messages && (
                own[i].external_id is Some ==> all[front.len() + i] == own[i])
        }),
        document_sessions(v, path) == item_sessions(v, items.len(), path),
{
}

/// Every file that changed and can be read is read: what it holds comes behind what the
/// files before it hold.
pub proof fn files_that_changed_are_read(t: Seq<EntryView>, all: Seq<Seq<Seq<char>>>, path: Seq<Seq<char>>)
    ensures
        !path_is_fresh(t, path) ==> sessions_of(t, all.push(path)) == sessions_of(t, all),
        text_at(t, path) is None ==> sessions_of(t, all.push(path)) == sessions_of(t, all),
        path_is_fresh(t, path) ==> (text_at(t, path) matches Some(text) ==> sessions_of(t, all.push(path)) == sessions_of(
            t,
            all,
        ) + text_sessions(text, path)),
{
    assert(all.push(path).drop_last() =~= all);
}

/// Where nobody is named, the kind of an event tells who speaks: the user where it tells of
/// the user or a prompt, the assistant where it tells of that, a response or a completion,
/// and nobody where it tells of none of them.
pub proof fn kinds_tell_who_speaks(v: JsonView, kind: Seq<char>)
    requires
        nested_text(v, seq!["role"@, "author"@, "sender"@]) is None,
        member_text(v, "type"@) == Some(kind),
    ensures
        ({
            let lower = lowercased(kind);
            let users = has_text(lower, "user"@) || lower == "prompt"@;
            let assistants = has_text(lower, "assistant"@) || lower == "response"@ || lower == "completion"@;
            &&& users ==> event_role(v) == Some("user"@)
            &&& !users && assistants ==> event_role(v) == Some("assistant"@)
            &&& !users && !assistants ==> event_role(v) is None
        }),
{
}

/// A place stands for roots by itself where it looks like storage of the agent, or is one of
/// the directories that hold such storage: for what stands there, and for nothing else.
pub proof fn places_stand_for_roots_by_themselves(base: Seq<Seq<char>>, p: Seq<Seq<char>>)
    ensures
        explicit_roots(base).contains(p) <==> {
            ||| (is_cli_storage(base)) && p == base
            ||| (is_named(base, ".copilot"@)) && p == below(base, "session-state"@)
            ||| (is_named(base, ".copilot"@)) && p == below(base, "history-session-state"@)
            ||| (is_named(base, ".config"@)) && p == below(base, "gh-copilot"@)
            ||| (is_named(base, ".config"@)) && p == below(below(base, "gh"@), "copilot"@)
            ||| (is_named(base, "gh"@)) && p == below(base, "copilot"@)
            ||| (is_named(base, ".local"@)) && p == below(below(base, "share"@), "github-copilot"@)
            ||| (ends_in(base, ".local"@, "share"@)) && p == below(base, "github-copilot"@)
        },
{
    let s0 = if is_cli_storage(base) {
        seq![base]
    } else {
        Seq::empty()
    };
    let s1 = if_named(
        base,
        ".copilot"@,
        seq![below(base, "session-state"@), below(base, "history-session-state"@)],
    );
    let s2 = if_named(base, ".config"@, seq![below(base, "gh-copilot"@), below(below(base, "gh"@), "copilot"@)]);
    let s3 = if_named(base, "gh"@, seq![below(base, "copilot"@)]);
    let s4 = if_named(base, ".local"@, seq![below(below(base, "share"@), "github-copilot"@)]);
    let s5 = if ends_in(base, ".local"@, "share"@) {
        seq![below(base, "github-copilot"@)]
    } else {
        Seq::empty()
    };
    listed_paths(base, base, base, base, p);
    listed_paths(below(base, "session-state"@), below(base, "history-session-state"@), below(base, "session-state"@), below(base, "history-session-state"@), p);
    listed_paths(below(base, "gh-copilot"@), below(below(base, "gh"@), "copilot"@), below(base, "gh-copilot"@), below(below(base, "gh"@), "copilot"@), p);
    listed_paths(below(base, "copilot"@), below(base, "copilot"@), below(base, "copilot"@), below(base, "copilot"@), p);
    listed_paths(below(below(base, "share"@), "github-copilot"@), below(below(base, "share"@), "github-copilot"@), below(below(base, "share"@), "github-copilot"@), below(below(base, "share"@), "github-copilot"@), p);
    listed_paths(below(base, "github-copilot"@), below(base, "github-copilot"@), below(base, "github-copilot"@), below(base, "github-copilot"@), p);
    joined_paths(s0, s1, p);
    joined_paths(s0 + s1, s2, p);
    joined_paths(s0 + s1 + s2, s3, p);
    joined_paths(s0 + s1 + s2 + s3, s4, p);
    joined_paths(s0 + s1 + s2 + s3 + s4, s5, p);
}

/// The roots are read in their order: what stands under one comes behind what stands under
/// those before it.
pub proof fn roots_are_read_in_order(t: Seq<EntryView>, roots: Seq<RootView>, next: RootView)
    ensures
        sessions_under(t, roots.push(next)) == sessions_under(t, roots) + sessions_of(t, event_files(t, next.path)),
        sessions_under(t, Seq::empty()).len() == 0,
        sessions_of(t, Seq::empty()).len() == 0,
{
    assert(roots.push(next).drop_last() =~= roots);
}

/// Each file that changed is a source: the log of a session, which the scan needs.
pub proof fn files_that_changed_are_sources(
    t: Seq<EntryView>,
    root: RootView,
    all: Seq<Seq<Seq<char>>>,
    file: Seq<Seq<char>>,
)
    ensures
        !path_is_fresh(t, file) ==> sources_of(t, root, all.push(file)) == sources_of(t, root, all),
        path_is_fresh(t, file) ==> sources_of(t, root, all.push(file)) == sources_of(t, root, all).push(
            SourceView {
                provider_slug: "copilot_cli"@,
                scan_root: root.path,
                source_path: file,
                role: SourceRole::PrimarySessionLog,
                required_for_reconstruction: true,
                origin: root.origin,
                platform: root.platform,
            },
        ),
        sources_of(t, root, Seq::empty()).len() == 0,
{
    assert(all.push(file).drop_last() =~= all);
}

/// The files of a root are the root itself where it is a document or a log, or else the
/// documents and logs up to four steps below it, in their order.
pub proof fn event_files_are_found(t: Seq<EntryView>, root: Seq<Seq<char>>, p: Seq<Seq<char>>)
    ensures
        path_is_file(t, root) && (extension(root) == Some("json"@) || extension(root) == Some("jsonl"@)) ==> event_files(
            t,
            root,
        ) == seq![root],
        path_is_file(t, root) && extension(root) != Some("json"@) && extension(root) != Some("jsonl"@) ==> event_files(
            t,
            root,
        ).len() == 0,
        path_exists(t, root) && !path_is_file(t, root) ==> (event_files(t, root).contains(p) <==> {
            &&& crate::files::can_walk_to(t, root, 0, Some(4), p)
            &&& file_name(p) matches Some(name) && (ends(name, ".json"@) || ends(name, ".jsonl"@))
        }),
        !path_exists(t, root) ==> event_files(t, root).len() == 0,
{
    let all = walked_files(t, root, 0, Some(4));
    let keep = |p: Seq<Seq<char>>| is_event_name(p);
    crate::files::walk_is_sound_and_complete(t, root, 0, Some(4));
    crate::files::filtering_keeps(all, keep, p);
    crate::scan::sorting_paths_keeps_them(all.filter(keep), p);
}

/// A path looks like storage of the agent where one of its components is named like it, or
/// two that follow one another, whether in capital or in small letters.
pub proof fn storage_is_told_by_its_names(p: Seq<Seq<char>>, i: int)
    requires
        0 <= i < p.len(),
    ensures
        lowercased(p[i]) == "gh-copilot"@ || lowercased(p[i]) == "github-copilot"@ ==> is_cli_storage(p),
        i + 1 < p.len() && lowercased(p[i]) == ".copilot"@ && (lowercased(p[i + 1]) == "session-state"@ || lowercased(
            p[i + 1],
        ) == "history-session-state"@) ==> is_cli_storage(p),
        i + 1 < p.len() && lowercased(p[i]) == "gh"@ && lowercased(p[i + 1]) == "copilot"@ ==> is_cli_storage(p),
        is_cli_storage(p) ==> exists|k: int|
            0 <= k < p.len() && (#[trigger] lowercased(p[k]) == "gh-copilot"@ || lowercased(p[k]) == "github-copilot"@ || (k
                + 1 < p.len() && (lowercased(p[k]) == ".copilot"@ || lowercased(p[k]) == "gh"@))),
{
    if is_cli_storage(p) {
        let k = choose|k: int| 0 <= k < p.len() && #[trigger] tells_of_copilot(p, k);
        assert(lowercased(p[k]) == "gh-copilot"@ || lowercased(p[k]) == "github-copilot"@ || (k + 1 < p.len() && (
        lowercased(p[k]) == ".copilot"@ || lowercased(p[k]) == "gh"@)));
    }
    if names_copilot(
        lowercased(p[i]),
        if i + 1 < p.len() {
            Some(lowercased(p[i + 1]))
        } else {
            None
        },
    ) {
        assert(tells_of_copilot(p, i));
    }
}

/// The agent is found where one of its usual places exists; each of them is told of, whether
/// it exists or not, and those that exist are its roots.
pub proof fn detection_tells_of_the_usual_places(t: Seq<EntryView>, home: Seq<Seq<char>>, p: Seq<Seq<char>>)
    ensures
        detection(t, Some(home)).detected <==> detection(t, Some(home)).root_paths.len() > 0,
        detection(t, Some(home)).root_paths.contains(p) <==> path_exists(t, p) && {
            ||| p == below(home, ".copilot/session-state"@)
            ||| p == below(home, ".copilot/history-session-state"@)
            ||| p == below(home, ".config/gh-copilot"@)
            ||| p == below(home, ".config/gh/copilot"@)
            ||| p == below(home, ".local/share/github-copilot"@)
        },
        !detection(t, None).detected,
        detection(t, Some(home)).evidence.len() >= 5,
{
    reveal(Seq::filter);
    let places = places_below(home);
    crate::files::paths_that_exist_are_kept(t, places, p);
    assert(places[0] == below(home, ".copilot/session-state"@));
    assert(places[1] == below(home, ".copilot/history-session-state"@));
    assert(places[2] == below(home, ".config/gh-copilot"@));
    assert(places[3] == below(home, ".config/gh/copilot"@));
    assert(places[4] == below(home, ".local/share/github-copilot"@));
    assert(places.len() == 5);
}

/// Without given places a scan reads its own data where they look like storage and exist;
/// with given places it reads, of each, the usual places below it and those it stands for.
pub proof fn scans_read_their_roots(t: Seq<EntryView>, ctx: ContextView, s: SurroundingsView)
    ensures
        ctx.scan_roots.len() == 0 && is_cli_storage(ctx.data_dir) && path_exists(t, ctx.data_dir) ==> copilot_roots(
            t,
            ctx,
            s,
        ) == seq![local_root(ctx.data_dir)],
        forall|place: RootView, places: Seq<RootView>|
            #![trigger roots_from_all(t, places.push(place))]
            roots_from_all(t, places.push(place)) == roots_from_all(t, places) + roots_at(
                place,
                only_existing(t, places_below(place.path)) + only_existing(t, explicit_roots(place.path)),
            ),
{
    crate::scan::one_root_is_settled(local_root(ctx.data_dir));
    assert(local_roots(seq![ctx.data_dir]) =~= seq![local_root(ctx.data_dir)]);
    assert forall|place: RootView, places: Seq<RootView>|
        #![trigger roots_from_all(t, places.push(place))]
        roots_from_all(t, places.push(place)) == roots_from_all(t, places) + roots_at(
        place,
        only_existing(t, places_below(place.path)) + only_existing(t, explicit_roots(place.path)),
    ) by {
        assert(places.push(place).drop_last() =~= places);
    }
}

/// A text that is one document, and a list or one with events, or stands in a file of another
/// kind than lines, is read whole; any other text is read line by line.
pub proof fn texts_are_read_whole_or_by_lines(text: Seq<char>, path: Seq<Seq<char>>, v: JsonView)
    ensures
        document_in(text) is None ==> text_sessions(text, path) == log_sessions(text, path),
        document_in(text) == Some(v) && starts_document(text) && (v is Array || events_in(v) is Some || extension(path)
            != Some("jsonl"@)) ==> text_sessions(text, path) == document_sessions(v, path),
        document_in(text) == Some(v) && v is Object && events_in(v) is None && extension(path) == Some("jsonl"@)
            ==> text_sessions(text, path) == log_sessions(text, path),
        starts_document(text) <==> (trim_start(text).len() > 0 && (trim_start(text)[0] == '{' || trim_start(text)[0] == '[')),
{
}

/// The events of a document are its `events`, or else its `history`, its `messages` or its
/// `conversation`, the first of these that is a list.
pub proof fn documents_hold_their_events(v: JsonView)
    ensures
        items_in(member(v, "events"@)) is Some ==> events_in(v) == items_in(member(v, "events"@)),
        items_in(member(v, "events"@)) is None && items_in(member(v, "history"@)) is Some ==> events_in(v) == items_in(
            member(v, "history"@),
        ),
        items_in(member(v, "events"@)) is None && items_in(member(v, "history"@)) is None && items_in(
            member(v, "messages"@),
        ) is Some ==> events_in(v) == items_in(member(v, "messages"@)),
        items_in(member(v, "events"@)) is None && items_in(member(v, "history"@)) is None && items_in(
            member(v, "messages"@),
        ) is None ==> events_in(v) == items_in(member(v, "conversation"@)),
        !(v is Object) ==> events_in(v) is None,
{
}

/// Lines that are blank or no document change nothing.
pub proof fn other_lines_change_nothing(lines: Seq<Seq<char>>, line: Seq<char>)
    ensures
        trim(line).len() == 0 || document_in(trim(line)) is None ==> log_of_lines(lines.push(line)) == log_of_lines(lines),
{
    assert(lines.push(line).drop_last() =~= lines);
}

/// What neither an event nor its data nor its payload tells, its `metadata` tell; and what is
/// said under `data` as a text is its content where nothing else is.
pub proof fn metadata_tell_the_rest(v: JsonView, metadata: JsonView, keys: Seq<Seq<char>>, t: Seq<char>)
    ensures
        member(v, "metadata"@) == Some(metadata) && member(v, "data"@) is None && member(v, "payload"@) is None
            && first_text(v, keys) is None ==> nested_text(v, keys) == first_text(metadata, keys),
        member(v, "metadata"@) == Some(metadata) && member(v, "data"@) is None && member(v, "payload"@) is None
            && first_time(v, time_keys()) is None ==> event_time(v) == first_time(metadata, time_keys()),
        first_content(v, content_keys()) is None && member_text(v, "data"@) == Some(t) && t.len() > 0 ==> event_content(v)
            == t,
        first_content(v, content_keys()) is None && member(v, "data"@) is None && member(v, "payload"@) is None
            ==> event_content(v).len() == 0,
{
}

} // verus!
