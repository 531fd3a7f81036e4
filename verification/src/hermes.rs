//! Sessions of Hermes, which a database holds.
use vstd::prelude::*;
use vstd::utf8::encode_utf8;
use crate::bytes::{percent_encoded, url_encode};
use crate::canon::{
    calls_grow, canonical_calls, canonical_conversation, canonical_conversations, canonical_messages, comes_before,
    conversations_grow, conversations_join, messages_grow, nullables_are_canonical, numbered_canonical,
    rising_members_are_canonical, with_text_canonical,
};
use crate::databases::{
    database_at, distinct_paths, find_database, keep_database_files, list_sources, names_are_distinct,
    names_stay_distinct, one_rooted, sources_of, Database, DatabaseView, ExtractView,
};
use crate::files::{path_exists, path_is_file, EntryView, FileTable};
use crate::json::{array_view, canonical, document_in, parse_json, Json, JsonView};
use crate::lines::{headline, headline_of};
use crate::model::{
    first_instant, instants, is_first_instant, is_last_instant, is_numbered, last_instant, make_message, numbered,
    numbering, reindex_messages, simple_message, Conversation, ConversationView, Invocation, InvocationView, Message,
    MessageView,
};
use crate::order::keep_firsts;
use crate::path::{below, components, extension, parent, path_text, SourcePath};
use crate::query::{
    assign, assign_text, copied, either, member, member_canonical, member_is_the_first_of_its_key, member_text,
    nullable_integer, nullable_integer_json, nullable_text, nullable_text_json, object, or_default, or_else, owned,
    put, str_in, text_in, text_json, text_ref, with_member, with_member_canonical, with_member_reads_back, with_text,
};
use crate::scan::{
    default_detection, detected_or_nothing, detection_or_nothing, joined_paths, listed_paths, local_root, note_text,
    path_from_variable, push_conversation, push_path, push_rooted, rooted, variable_path, ContextView,
    DetectionResult, DiscoveredSource, ReadError, RootView, RootedPath, ScanContext, ScanRoot, SourceView,
    Surroundings, SurroundingsView,
};
use crate::stamp::{earliest, latest, real_millis_in, real_millis_of};
use crate::text::{blank, is_blank, push_text, same_text, starts, starts_with};

verus! {

pub struct HermesConnector;

impl Default for HermesConnector {
    fn default() -> (r: HermesConnector)
        ensures
            r == HermesConnector,
    {
        HermesConnector::new()
    }
}

/// A row of the sessions. Times are seconds, by the bits of a binary64 number.
pub struct HermesSession {
    pub id: String,
    pub source: Option<String>,
    pub model: Option<String>,
    pub title: Option<String>,
    pub parent_session_id: Option<String>,
    pub started_at: Option<u64>,
    pub ended_at: Option<u64>,
    pub end_reason: Option<String>,
    pub message_count: Option<i64>,
    pub tool_call_count: Option<i64>,
    pub input_tokens: Option<i64>,
    pub output_tokens: Option<i64>,
}

#[verifier::ext_equal]
pub struct SessionView {
    pub id: Seq<char>,
    pub source: Option<Seq<char>>,
    pub model: Option<Seq<char>>,
    pub title: Option<Seq<char>>,
    pub parent_session_id: Option<Seq<char>>,
    pub started_at: Option<u64>,
    pub ended_at: Option<u64>,
    pub end_reason: Option<Seq<char>>,
    pub message_count: Option<i64>,
    pub tool_call_count: Option<i64>,
    pub input_tokens: Option<i64>,
    pub output_tokens: Option<i64>,
}

impl DeepView for HermesSession {
    type V = SessionView;

    open spec fn deep_view(&self) -> SessionView {
        SessionView {
            id: self.id@,
            source: self.source.deep_view(),
            model: self.model.deep_view(),
            title: self.title.deep_view(),
            parent_session_id: self.parent_session_id.deep_view(),
            started_at: self.started_at,
            ended_at: self.ended_at,
            end_reason: self.end_reason.deep_view(),
            message_count: self.message_count,
            tool_call_count: self.tool_call_count,
            input_tokens: self.input_tokens,
            output_tokens: self.output_tokens,
        }
    }
}

/// A row of the messages.
pub struct HermesMessage {
    pub role: Option<String>,
    pub content: Option<String>,
    pub tool_calls: Option<String>,
    pub tool_name: Option<String>,
    pub tool_call_id: Option<String>,
    pub reasoning: Option<String>,
    pub timestamp: Option<u64>,
}

#[verifier::ext_equal]
pub struct MessageRowView {
    pub role: Option<Seq<char>>,
    pub content: Option<Seq<char>>,
    pub tool_calls: Option<Seq<char>>,
    pub tool_name: Option<Seq<char>>,
    pub tool_call_id: Option<Seq<char>>,
    pub reasoning: Option<Seq<char>>,
    pub timestamp: Option<u64>,
}

impl DeepView for HermesMessage {
    type V = MessageRowView;

    open spec fn deep_view(&self) -> MessageRowView {
        MessageRowView {
            role: self.role.deep_view(),
            content: self.content.deep_view(),
            tool_calls: self.tool_calls.deep_view(),
            tool_name: self.tool_name.deep_view(),
            tool_call_id: self.tool_call_id.deep_view(),
            reasoning: self.reasoning.deep_view(),
            timestamp: self.timestamp,
        }
    }
}

/// A session with its messages in the order of their times, where those could be
/// read.
pub struct HermesRows {
    pub session: HermesSession,
    pub messages: Option<Vec<HermesMessage>>,
}

#[verifier::ext_equal]
pub struct RowsView {
    pub session: SessionView,
    pub messages: Option<Seq<MessageRowView>>,
}

impl DeepView for HermesRows {
    type V = RowsView;

    open spec fn deep_view(&self) -> RowsView {
        RowsView { session: self.session.deep_view(), messages: self.messages.deep_view() }
    }
}

/// The sessions of a database, where it could be read.
pub type HermesDatabase = Database<HermesRows>;

/// The call that an item stands for, if it is named.
pub open spec fn call_of(item: JsonView) -> Option<InvocationView> {
    match member_text(item, "name"@) {
        Some(name) => Some(
            InvocationView {
                kind: "tool"@,
                name,
                raw_name: None,
                call_id: member_text(item, "id"@),
                arguments: member(item, "arguments"@),
            },
        ),
        None => None,
    }
}

pub open spec fn calls_among(items: Seq<JsonView>) -> Seq<InvocationView>
    decreases items.len(),
{
    if items.len() == 0 {
        Seq::empty()
    } else {
        let front = calls_among(items.drop_last());
        match call_of(items.last()) {
            Some(call) => front.push(call),
            None => front,
        }
    }
}

/// The calls that the items of a list make.
pub fn calls_from(items: &Vec<Json>) -> (r: Vec<Invocation>)
    ensures
        r.deep_view() == calls_among(items.deep_view()),
{
    let ghost all = items.deep_view();
    let mut out: Vec<Invocation> = Vec::new();
    let mut i: usize = 0;
    assert(all.take(0) =~= Seq::empty());
    assert(out.deep_view() =~= Seq::empty());
    while i < items.len()
        invariant
            i <= items@.len(),
            all == items.deep_view(),
            out.deep_view() == calls_among(all.take(i as int)),
        decreases items.len() - i,
    {
        let item = &items[i];
        let ghost before = out.deep_view();
        assert(all.take(i + 1).drop_last() =~= all.take(i as int));
        assert(all.take(i + 1).last() == item@);
        if let Some(name) = item.get_str("name") {
            let call = Invocation {
                kind: "tool".to_owned(),
                name: name.to_owned(),
                raw_name: None,
                call_id: owned(item.get_str("id")),
                arguments: copied(item.get("arguments")),
            };
            let ghost made = call.deep_view();
            out.push(call);
            assert(out.deep_view() =~= before.push(made));
        }
        i = i + 1;
    }
    assert(all.take(all.len() as int) =~= all);
    out
}

/// The calls that a column holds: none where it holds no list.
pub open spec fn calls_in(column: Option<Seq<char>>) -> Seq<InvocationView> {
    match column {
        Some(text) => match document_in(text) {
            Some(JsonView::Array(items)) => calls_among(items),
            _ => Seq::empty(),
        },
        None => Seq::empty(),
    }
}

/// The calls that a column holds.
pub fn parse_tool_calls(column: Option<&str>) -> (r: Vec<Invocation>)
    ensures
        r.deep_view() == calls_in(column.deep_view()),
{
    broadcast use array_view;

    if let Some(text) = column {
        if let Some(Json::Array(items)) = parse_json(text) {
            return calls_from(&items);
        }
    }
    let none: Vec<Invocation> = Vec::new();
    assert(none.deep_view() =~= Seq::empty());
    none
}

/// What a message says, with how it came to it.
pub open spec fn full_content(content: Seq<char>, reasoning: Seq<char>) -> Seq<char> {
    if reasoning.len() == 0 {
        content
    } else if content.len() == 0 {
        reasoning
    } else {
        content + "\n\n[reasoning]\n"@ + reasoning
    }
}

/// What is kept of a row.
pub open spec fn row_extra(row: MessageRowView, reasoning: Seq<char>) -> JsonView {
    let named = with_text(
        with_text(Seq::empty(), "tool_name"@, row.tool_name),
        "tool_call_id"@,
        row.tool_call_id,
    );
    JsonView::Object(
        if reasoning.len() == 0 {
            named
        } else {
            with_member(named, "has_reasoning"@, JsonView::Bool(true))
        },
    )
}

/// The message of a row: none where it is about the session, or says and calls
/// nothing.
pub open spec fn row_message(row: MessageRowView) -> Option<MessageView> {
    let role = or_default(row.role, "assistant"@);
    let reasoning = or_default(row.reasoning, Seq::empty());
    let content = full_content(or_default(row.content, Seq::empty()), reasoning);
    if role == "session_meta"@ || blank(content) && row.tool_calls is None {
        None
    } else {
        Some(
            MessageView {
                author: if role == "assistant"@ {
                    None
                } else if role == "tool"@ {
                    row.tool_name
                } else {
                    Some(role)
                },
                invocations: calls_in(row.tool_calls),
                ..simple_message(role, real_millis_in(row.timestamp), content, row_extra(row, reasoning))
            },
        )
    }
}

pub open spec fn row_messages(rows: Seq<MessageRowView>) -> Seq<MessageView>
    decreases rows.len(),
{
    if rows.len() == 0 {
        Seq::empty()
    } else {
        let front = row_messages(rows.drop_last());
        match row_message(rows.last()) {
            Some(m) => front.push(m),
            None => front,
        }
    }
}

fn text_or_empty(text: &Option<String>) -> (r: String)
    ensures
        r@ == or_default(text.deep_view(), Seq::empty()),
{
    match text {
        Some(text) => text.clone(),
        None => {
            let none = String::new();
            assert(none@ =~= Seq::empty());
            none
        },
    }
}

fn read_row(row: &HermesMessage) -> (r: Option<Message>)
    ensures
        r.deep_view() == row_message(row.deep_view()),
{
    let role = match &row.role {
        Some(role) => role.as_str(),
        None => "assistant",
    };
    if same_text(role, "session_meta") {
        return None;
    }
    let content = text_or_empty(&row.content);
    let reasoning = text_or_empty(&row.reasoning);
    let full = if reasoning.as_str().is_empty() {
        content
    } else if content.as_str().is_empty() {
        reasoning.clone()
    } else {
        let mut both = content;
        push_text(&mut both, "\n\n[reasoning]\n");
        push_text(&mut both, reasoning.as_str());
        both
    };
    if is_blank(full.as_str()) && row.tool_calls.is_none() {
        return None;
    }
    let author = if same_text(role, "assistant") {
        None
    } else if same_text(role, "tool") {
        row.tool_name.clone()
    } else {
        Some(role.to_owned())
    };
    let mut extra: Vec<(String, Json)> = Vec::new();
    assert(extra.deep_view() =~= Seq::empty());
    assign_text(&mut extra, "tool_name", text_ref(&row.tool_name));
    assign_text(&mut extra, "tool_call_id", text_ref(&row.tool_call_id));
    if !reasoning.as_str().is_empty() {
        assign(&mut extra, "has_reasoning", Json::Bool(true));
    }
    let mut m = make_message(role, real_millis_of(row.timestamp), full, object(extra));
    m.author = author;
    m.invocations = parse_tool_calls(text_ref(&row.tool_calls));
    Some(m)
}

/// What a call says of where its session works: nothing, or a directory or none.
pub open spec fn place_of_call(call: InvocationView) -> Option<Option<Seq<char>>> {
    match call.arguments {
        None => None,
        Some(args) => if call.name == "terminal"@ && member_text(args, "workdir"@) is Some {
            Some(member_text(args, "workdir"@))
        } else if call.name == "read_file"@ || call.name == "write_file"@ || call.name == "patch"@ {
            match text_in(or_else(member(args, "path"@), member(args, "file_path"@))) {
                Some(path) => if starts(path, "/"@) {
                    Some(
                        match parent(components(path)) {
                            Some(p) => Some(path_text(p)),
                            None => None,
                        },
                    )
                } else {
                    None
                },
                None => None,
            }
        } else {
            None
        },
    }
}

/// What the first call says of it that says anything.
pub open spec fn place_in_calls(calls: Seq<InvocationView>) -> Option<Option<Seq<char>>>
    decreases calls.len(),
{
    if calls.len() == 0 {
        None
    } else {
        match place_of_call(calls[0]) {
            Some(p) => Some(p),
            None => place_in_calls(calls.skip(1)),
        }
    }
}

pub open spec fn place_in_messages(messages: Seq<MessageView>) -> Option<Option<Seq<char>>>
    decreases messages.len(),
{
    if messages.len() == 0 {
        None
    } else {
        match place_in_calls(messages[0].invocations) {
            Some(p) => Some(p),
            None => place_in_messages(messages.skip(1)),
        }
    }
}

/// Where a session works, by its calls.
pub open spec fn workspace_of(messages: Seq<MessageView>) -> Option<Seq<char>> {
    match place_in_messages(messages) {
        Some(p) => p,
        None => None,
    }
}

fn place_in_call(call: &Invocation) -> (r: Option<Option<String>>)
    ensures
        r.deep_view() == place_of_call(call.deep_view()),
{
    let args = match &call.arguments {
        Some(args) => args,
        None => return None,
    };
    let name = call.name.as_str();
    if same_text(name, "terminal") {
        if let Some(directory) = args.get_str("workdir") {
            return Some(Some(directory.to_owned()));
        }
    }
    if same_text(name, "read_file") || same_text(name, "write_file") || same_text(name, "patch") {
        if let Some(path) = str_in(either(args.get("path"), args.get("file_path"))) {
            if starts_with(path, "/") {
                return match SourcePath::new(path).parent() {
                    Some(p) => Some(Some(p.text())),
                    None => Some(None),
                };
            }
        }
    }
    None
}

fn find_place(calls: &Vec<Invocation>) -> (r: Option<Option<String>>)
    ensures
        r.deep_view() == place_in_calls(calls.deep_view()),
{
    let ghost all = calls.deep_view();
    let mut i: usize = 0;
    assert(all.skip(0) =~= all);
    while i < calls.len()
        invariant
            i <= calls@.len(),
            all == calls.deep_view(),
            place_in_calls(all) == place_in_calls(all.skip(i as int)),
        decreases calls.len() - i,
    {
        assert(all.skip(i as int)[0] == calls@[i as int].deep_view());
        if let Some(p) = place_in_call(&calls[i]) {
            return Some(p);
        }
        assert(all.skip(i as int).skip(1) =~= all.skip(i + 1));
        i = i + 1;
    }
    None
}

/// The conversation of a session: none where nothing was said.
pub open spec fn session_conversation(db: Seq<Seq<char>>, s: SessionView, messages: Seq<MessageView>) -> Option<
    ConversationView,
> {
    if messages.len() == 0 {
        None
    } else {
        let started_at = or_else(real_millis_in(s.started_at), earliest(instants(messages)));
        Some(
            ConversationView {
                agent_slug: "hermes"@,
                external_id: Some(s.id),
                title: or_else(
                    s.title,
                    if messages[0].role == "user"@ {
                        headline(messages[0].content, 100)
                    } else {
                        None
                    },
                ),
                workspace: workspace_of(messages),
                source_path: below(db, percent_encoded(encode_utf8(s.id))),
                started_at,
                ended_at: or_else(
                    real_millis_in(s.ended_at),
                    or_else(latest(instants(messages)), started_at),
                ),
                metadata: JsonView::Object(
                    seq![
                        ("end_reason"@, nullable_text(s.end_reason)),
                        ("input_tokens"@, nullable_integer(s.input_tokens)),
                        ("message_count"@, nullable_integer(s.message_count)),
                        ("model"@, nullable_text(s.model)),
                        ("output_tokens"@, nullable_integer(s.output_tokens)),
                        ("parent_session_id"@, nullable_text(s.parent_session_id)),
                        ("session_id"@, JsonView::Text(s.id)),
                        ("source"@, nullable_text(s.source)),
                        ("tool_call_count"@, nullable_integer(s.tool_call_count)),
                    ],
                ),
                messages,
            },
        )
    }
}

fn make_metadata(s: &HermesSession) -> (r: Json)
    ensures
        r@ == JsonView::Object(
            seq![
                ("end_reason"@, nullable_text(s.deep_view().end_reason)),
                ("input_tokens"@, nullable_integer(s.input_tokens)),
                ("message_count"@, nullable_integer(s.message_count)),
                ("model"@, nullable_text(s.deep_view().model)),
                ("output_tokens"@, nullable_integer(s.output_tokens)),
                ("parent_session_id"@, nullable_text(s.deep_view().parent_session_id)),
                ("session_id"@, JsonView::Text(s.id@)),
                ("source"@, nullable_text(s.deep_view().source)),
                ("tool_call_count"@, nullable_integer(s.tool_call_count)),
            ],
        ),
{
    let mut members: Vec<(String, Json)> = Vec::new();
    put(&mut members, "end_reason", nullable_text_json(&s.end_reason));
    put(&mut members, "input_tokens", nullable_integer_json(s.input_tokens));
    put(&mut members, "message_count", nullable_integer_json(s.message_count));
    put(&mut members, "model", nullable_text_json(&s.model));
    put(&mut members, "output_tokens", nullable_integer_json(s.output_tokens));
    put(&mut members, "parent_session_id", nullable_text_json(&s.parent_session_id));
    put(&mut members, "session_id", text_json(s.id.as_str()));
    put(&mut members, "source", nullable_text_json(&s.source));
    put(&mut members, "tool_call_count", nullable_integer_json(s.tool_call_count));
    assert(members.deep_view() =~= seq![
        ("end_reason"@, nullable_text(s.deep_view().end_reason)),
        ("input_tokens"@, nullable_integer(s.input_tokens)),
        ("message_count"@, nullable_integer(s.message_count)),
        ("model"@, nullable_text(s.deep_view().model)),
        ("output_tokens"@, nullable_integer(s.output_tokens)),
        ("parent_session_id"@, nullable_text(s.deep_view().parent_session_id)),
        ("session_id"@, JsonView::Text(s.id@)),
        ("source"@, nullable_text(s.deep_view().source)),
        ("tool_call_count"@, nullable_integer(s.tool_call_count)),
    ]);
    object(members)
}

/// The conversation of a session.
pub fn conversation_from_session(db: &SourcePath, s: &HermesSession, messages: Vec<Message>) -> (r: Option<
    Conversation,
>)
    ensures
        r.deep_view() == session_conversation(db.deep_view(), s.deep_view(), messages.deep_view()),
{
    if messages.len() == 0 {
        return None;
    }
    let started_at = match real_millis_of(s.started_at) {
        Some(t) => Some(t),
        None => first_instant(&messages),
    };
    let ended_at = match real_millis_of(s.ended_at) {
        Some(t) => Some(t),
        None => match last_instant(&messages) {
            Some(t) => Some(t),
            None => started_at,
        },
    };
    assert(messages.deep_view()[0] == messages@[0].deep_view());
    let title = match &s.title {
        Some(title) => Some(title.clone()),
        None => if same_text(messages[0].role.as_str(), "user") {
            headline_of(messages[0].content.as_str(), 100)
        } else {
            None
        },
    };
    let workspace = HermesConnector::infer_workspace(&messages);
    Some(
        Conversation {
            agent_slug: "hermes".to_owned(),
            external_id: Some(s.id.clone()),
            title,
            workspace,
            source_path: db.join(url_encode(s.id.as_str()).as_str()),
            started_at,
            ended_at,
            metadata: make_metadata(s),
            messages,
        },
    )
}

/// Whether a session was last touched before `since`.
pub open spec fn is_stale(s: SessionView, since: Option<i64>) -> bool {
    match since {
        Some(since) => or_default(or_else(real_millis_in(s.ended_at), real_millis_in(s.started_at)), 0) < since,
        None => false,
    }
}

fn is_stale_session(s: &HermesSession, since: Option<i64>) -> (r: bool)
    ensures
        r == is_stale(s.deep_view(), since),
{
    match since {
        Some(since) => {
            let last = match real_millis_of(s.ended_at) {
                Some(t) => t,
                None => match real_millis_of(s.started_at) {
                    Some(t) => t,
                    None => 0,
                },
            };
            last < since
        },
        None => false,
    }
}

/// A session is read if its name is new and it was touched since; where its
/// messages cannot be read, nothing of the database counts.
pub open spec fn after_session(x: ExtractView, db: Seq<Seq<char>>, rows: RowsView, since: Option<i64>) -> ExtractView {
    let s = rows.session;
    if x.failed || x.seen.contains(s.id) {
        x
    } else {
        let seen = x.seen.push(s.id);
        if is_stale(s, since) {
            ExtractView { seen, ..x }
        } else {
            match rows.messages {
                None => ExtractView { seen, failed: true, ..x },
                Some(messages) => match session_conversation(db, s, numbered(row_messages(messages))) {
                    Some(c) => ExtractView { seen, found: x.found.push(c), ..x },
                    None => ExtractView { seen, ..x },
                },
            }
        }
    }
}

pub open spec fn extract(db: Seq<Seq<char>>, all: Seq<RowsView>, since: Option<i64>) -> ExtractView
    decreases all.len(),
{
    if all.len() == 0 {
        ExtractView { seen: Seq::empty(), found: Seq::empty(), failed: false }
    } else {
        after_session(extract(db, all.drop_last(), since), db, all.last(), since)
    }
}

/// The conversations of a database: none can be read where one fails.
pub open spec fn extracted(db: Seq<Seq<char>>, all: Seq<RowsView>, since: Option<i64>) -> Result<
    Seq<ConversationView>,
    ReadError,
> {
    if extract(db, all, since).failed {
        Err(ReadError::Unreadable)
    } else {
        Ok(extract(db, all, since).found)
    }
}

/// The database that the surroundings name: by its path, by the home of Hermes, or
/// by that of the user.
pub open spec fn usual_database(t: Seq<EntryView>, s: SurroundingsView) -> Option<Seq<Seq<char>>> {
    or_else(
        if_file(t, variable_path(s, "HERMES_SQLITE_DB"@)),
        or_else(
            if_file(t, state_below(variable_path(s, "HERMES_HOME"@))),
            if_file(
                t,
                match s.home {
                    Some(home) => state_below(Some(below(home, ".hermes"@))),
                    None => None,
                },
            ),
        ),
    )
}

/// A path under which a file stands.
pub open spec fn if_file(t: Seq<EntryView>, p: Option<Seq<Seq<char>>>) -> Option<Seq<Seq<char>>> {
    match p {
        Some(path) => if path_is_file(t, path) {
            p
        } else {
            None
        },
        None => None,
    }
}

/// The database in a directory.
pub open spec fn state_below(p: Option<Seq<Seq<char>>>) -> Option<Seq<Seq<char>>> {
    match p {
        Some(p) => Some(below(p, "state.db"@)),
        None => None,
    }
}

/// Where a database may stand at the data of a scan.
pub open spec fn own_database(data_dir: Seq<Seq<char>>) -> Seq<Seq<Seq<char>>> {
    if extension(data_dir) == Some("db"@) {
        seq![data_dir]
    } else if data_dir.len() > 0 {
        seq![below(data_dir, "state.db"@)]
    } else {
        Seq::empty()
    }
}

/// Where a database may stand near a given place.
pub open spec fn database_candidates(base: Seq<Seq<char>>) -> Seq<Seq<Seq<char>>> {
    (if extension(base) == Some("db"@) {
        seq![base]
    } else {
        Seq::empty()
    }) + seq![below(base, "state.db"@), below(base, ".hermes/state.db"@)]
}

pub open spec fn databases_near(places: Seq<RootView>) -> Seq<(RootView, Seq<Seq<char>>)>
    decreases places.len(),
{
    if places.len() == 0 {
        Seq::empty()
    } else {
        databases_near(places.drop_last()) + rooted(places.last(), database_candidates(places.last().path))
    }
}

/// Where a database may stand for a scan, with the root that names it.
pub open spec fn all_databases(t: Seq<EntryView>, ctx: ContextView, s: SurroundingsView) -> Seq<
    (RootView, Seq<Seq<char>>),
> {
    rooted(local_root(ctx.data_dir), own_database(ctx.data_dir)) + (if default_detection(ctx) {
        match usual_database(t, s) {
            Some(db) => seq![(local_root(db), db)],
            None => Seq::empty(),
        }
    } else {
        databases_near(ctx.scan_roots)
    })
}

/// The conversations of databases; one that is missing or cannot be read is passed
/// over.
pub open spec fn database_conversations(
    t: Seq<EntryView>,
    dbs: Seq<DatabaseView<RowsView>>,
    all: Seq<(RootView, Seq<Seq<char>>)>,
    since: Option<i64>,
) -> Seq<ConversationView>
    decreases all.len(),
{
    if all.len() == 0 {
        Seq::empty()
    } else {
        let front = database_conversations(t, dbs, all.drop_last(), since);
        let path = all.last().1;
        if !path_exists(t, path) {
            front
        } else {
            match database_at(dbs, path) {
                None => front,
                Some(sessions) => match extracted(path, sessions, since) {
                    Ok(found) => front + found,
                    Err(_) => front,
                },
            }
        }
    }
}

pub open spec fn scanned(
    t: Seq<EntryView>,
    dbs: Seq<DatabaseView<RowsView>>,
    ctx: ContextView,
    s: SurroundingsView,
) -> Seq<ConversationView> {
    database_conversations(t, dbs, distinct_paths(all_databases(t, ctx, s)), ctx.since_ts)
}

/// The databases that a scan would read.
pub open spec fn database_sources(t: Seq<EntryView>, ctx: ContextView, s: SurroundingsView) -> Seq<SourceView> {
    sources_of(
        "hermes"@,
        distinct_paths(all_databases(t, ctx, s).filter(|c: (RootView, Seq<Seq<char>>)| path_is_file(t, c.1))),
    )
}

fn keep_if_file(files: &FileTable, path: Option<SourcePath>) -> (r: Option<SourcePath>)
    ensures
        r.deep_view() == if_file(files.deep_view(), path.deep_view()),
{
    match path {
        Some(path) => if files.is_file(&path) {
            Some(path)
        } else {
            None
        },
        None => None,
    }
}

impl HermesConnector {
    pub fn new() -> (r: HermesConnector)
        ensures
            r == HermesConnector,
    {
        HermesConnector
    }

    /// What the registry of agents found, or that nothing was found.
    pub fn detect(&self, found: Option<DetectionResult>) -> (r: DetectionResult)
        ensures
            r.deep_view() == detected_or_nothing(found.deep_view()),
    {
        detection_or_nothing(found)
    }

    /// The database that the surroundings name.
    pub fn sqlite_db_path(files: &FileTable, surroundings: &Surroundings) -> (r: Option<SourcePath>)
        ensures
            r.deep_view() == usual_database(files.deep_view(), surroundings.deep_view()),
    {
        if let Some(db) = keep_if_file(files, path_from_variable(surroundings, "HERMES_SQLITE_DB")) {
            return Some(db);
        }
        if let Some(home) = path_from_variable(surroundings, "HERMES_HOME") {
            if let Some(db) = keep_if_file(files, Some(home.join("state.db"))) {
                return Some(db);
            }
        }
        match &surroundings.home {
            Some(home) => keep_if_file(files, Some(home.join(".hermes").join("state.db"))),
            None => None,
        }
    }

    /// Where a database may stand for a scan, with the root that names it.
    pub fn database_paths(ctx: &ScanContext, surroundings: &Surroundings, files: &FileTable) -> (r: Vec<RootedPath>)
        ensures
            r.deep_view() == all_databases(files.deep_view(), ctx.deep_view(), surroundings.deep_view()),
    {
        let mut out: Vec<RootedPath> = Vec::new();
        assert(out.deep_view() =~= Seq::empty());
        let mut own: Vec<SourcePath> = Vec::new();
        assert(own.deep_view() =~= Seq::empty());
        assert(ctx.data_dir.parts@.len() == ctx.data_dir.deep_view().len());
        if ctx.data_dir.has_extension("db") {
            push_path(&mut own, ctx.data_dir.copy());
        } else if ctx.data_dir.parts.len() > 0 {
            push_path(&mut own, ctx.data_dir.join("state.db"));
        }
        assert(own.deep_view() =~= own_database(ctx.data_dir.deep_view()));
        push_rooted(&mut out, &ScanRoot::local(ctx.data_dir.copy()), &own);
        let ghost start = out.deep_view();
        assert(start =~= rooted(local_root(ctx.data_dir.deep_view()), own_database(ctx.data_dir.deep_view())));
        assert(start + Seq::<(RootView, Seq<Seq<char>>)>::empty() =~= start);
        if ctx.use_default_detection() {
            if let Some(db) = HermesConnector::sqlite_db_path(files, surroundings) {
                let mut one = one_rooted(ScanRoot::local(db.copy()), db);
                let ghost added = one.deep_view();
                out.append(&mut one);
                assert(out.deep_view() =~= start + added);
            }
            return out;
        }
        let ghost places = ctx.scan_roots.deep_view();
        let mut i: usize = 0;
        assert(places.take(0) =~= Seq::empty());
        while i < ctx.scan_roots.len()
            invariant
                i <= ctx.scan_roots@.len(),
                places == ctx.scan_roots.deep_view(),
                out.deep_view() == start + databases_near(places.take(i as int)),
            decreases ctx.scan_roots.len() - i,
        {
            let place = &ctx.scan_roots[i];
            assert(places.take(i + 1).drop_last() =~= places.take(i as int));
            assert(places.take(i + 1).last() == place.deep_view());
            let mut near: Vec<SourcePath> = Vec::new();
            assert(near.deep_view() =~= Seq::empty());
            if place.path.has_extension("db") {
                push_path(&mut near, place.path.copy());
            }
            push_path(&mut near, place.path.join("state.db"));
            push_path(&mut near, place.path.join(".hermes/state.db"));
            assert(near.deep_view() =~= database_candidates(place.path.deep_view()));
            push_rooted(&mut out, place, &near);
            assert(out.deep_view() =~= start + databases_near(places.take(i + 1)));
            i = i + 1;
        }
        assert(places.take(places.len() as int) =~= places);
        out
    }

    /// The messages of a session, each at its place.
    pub fn load_messages(rows: &Vec<HermesMessage>) -> (r: Vec<Message>)
        ensures
            r.deep_view() == numbered(row_messages(rows.deep_view())),
    {
        let ghost all = rows.deep_view();
        let mut out: Vec<Message> = Vec::new();
        let mut i: usize = 0;
        assert(all.take(0) =~= Seq::empty());
        assert(out.deep_view() =~= Seq::empty());
        while i < rows.len()
            invariant
                i <= rows@.len(),
                all == rows.deep_view(),
                out.deep_view() == row_messages(all.take(i as int)),
            decreases rows.len() - i,
        {
            let ghost before = out.deep_view();
            assert(all.take(i + 1).drop_last() =~= all.take(i as int));
            assert(all.take(i + 1).last() == rows@[i as int].deep_view());
            if let Some(m) = read_row(&rows[i]) {
                let ghost said = m.deep_view();
                out.push(m);
                assert(out.deep_view() =~= before.push(said));
            }
            i = i + 1;
        }
        assert(all.take(all.len() as int) =~= all);
        reindex_messages(&mut out);
        out
    }

    /// Where a session works, by its calls.
    pub fn infer_workspace(messages: &Vec<Message>) -> (r: Option<String>)
        ensures
            r.deep_view() == workspace_of(messages.deep_view()),
    {
        let ghost all = messages.deep_view();
        let mut i: usize = 0;
        assert(all.skip(0) =~= all);
        while i < messages.len()
            invariant
                i <= messages@.len(),
                all == messages.deep_view(),
                place_in_messages(all) == place_in_messages(all.skip(i as int)),
            decreases messages.len() - i,
        {
            assert(all.skip(i as int)[0] == messages@[i as int].deep_view());
            if let Some(p) = find_place(&messages[i].invocations) {
                return p;
            }
            assert(all.skip(i as int).skip(1) =~= all.skip(i + 1));
            i = i + 1;
        }
        None
    }

    /// The conversations of a database. It fails where the messages of a session
    /// that is to be read cannot be.
    pub fn extract_from_sqlite(db_path: &SourcePath, sessions: &Vec<HermesRows>, since_ts: Option<i64>) -> (r: Result<
        Vec<Conversation>,
        ReadError,
    >)
        ensures
            match r {
                Ok(found) => extracted(db_path.deep_view(), sessions.deep_view(), since_ts) == Ok::<
                    Seq<ConversationView>,
                    ReadError,
                >(found.deep_view()),
                Err(e) => extracted(db_path.deep_view(), sessions.deep_view(), since_ts) == Err::<
                    Seq<ConversationView>,
                    ReadError,
                >(e),
            },
    {
        let ghost all = sessions.deep_view();
        let ghost db = db_path.deep_view();
        let mut seen: Vec<String> = Vec::new();
        let mut found: Vec<Conversation> = Vec::new();
        let mut failed = false;
        let mut i: usize = 0;
        assert(all.take(0) =~= Seq::empty());
        assert(seen.deep_view() =~= Seq::empty());
        assert(found.deep_view() =~= Seq::empty());
        while i < sessions.len()
            invariant
                i <= sessions@.len(),
                all == sessions.deep_view(),
                db == db_path.deep_view(),
                extract(db, all.take(i as int), since_ts) == (ExtractView {
                    seen: seen.deep_view(),
                    found: found.deep_view(),
                    failed,
                }),
            decreases sessions.len() - i,
        {
            let rows = &sessions[i];
            let s = &rows.session;
            assert(all.take(i + 1).drop_last() =~= all.take(i as int));
            assert(all.take(i + 1).last() == rows.deep_view());
            if !failed && note_text(&mut seen, s.id.as_str()) && !is_stale_session(s, since_ts) {
                match &rows.messages {
                    None => {
                        failed = true;
                    },
                    Some(messages) => {
                        let read = HermesConnector::load_messages(messages);
                        if let Some(c) = conversation_from_session(db_path, s, read) {
                            push_conversation(&mut found, c);
                        }
                    },
                }
            }
            i = i + 1;
        }
        assert(all.take(all.len() as int) =~= all);
        if failed {
            Err(ReadError::Unreadable)
        } else {
            Ok(found)
        }
    }

    /// Reads the sessions that changed.
    pub fn scan(
        &self,
        ctx: &ScanContext,
        surroundings: &Surroundings,
        files: &FileTable,
        databases: &Vec<HermesDatabase>,
    ) -> (r: Vec<Conversation>)
        ensures
            r.deep_view() == scanned(
                files.deep_view(),
                databases.deep_view(),
                ctx.deep_view(),
                surroundings.deep_view(),
            ),
    {
        let ghost t = files.deep_view();
        let ghost dbs = databases.deep_view();
        let list = keep_firsts(HermesConnector::database_paths(ctx, surroundings, files));
        let ghost all = list.deep_view();
        let mut found: Vec<Conversation> = Vec::new();
        let mut i: usize = 0;
        assert(all.take(0) =~= Seq::empty());
        assert(found.deep_view() =~= Seq::empty());
        while i < list.len()
            invariant
                i <= list@.len(),
                t == files.deep_view(),
                dbs == databases.deep_view(),
                all == list.deep_view(),
                found.deep_view() == database_conversations(t, dbs, all.take(i as int), ctx.since_ts),
            decreases list.len() - i,
        {
            let db = &list[i].path;
            let ghost before = found.deep_view();
            assert(all.take(i + 1).drop_last() =~= all.take(i as int));
            assert(all.take(i + 1).last() == list@[i as int].deep_view());
            if files.has(db) {
                if let Some(sessions) = find_database(databases, db) {
                    if let Ok(more) = HermesConnector::extract_from_sqlite(db, sessions, ctx.since_ts) {
                        let mut more = more;
                        let ghost added = more.deep_view();
                        found.append(&mut more);
                        assert(found.deep_view() =~= before + added);
                    }
                }
            }
            i = i + 1;
        }
        assert(all.take(all.len() as int) =~= all);
        found
    }

    /// The databases that a scan would read.
    pub fn discover_source_files(&self, ctx: &ScanContext, surroundings: &Surroundings, files: &FileTable) -> (r: Vec<
        DiscoveredSource,
    >)
        ensures
            r.deep_view() == database_sources(files.deep_view(), ctx.deep_view(), surroundings.deep_view()),
    {
        let list = keep_firsts(
            keep_database_files(files, HermesConnector::database_paths(ctx, surroundings, files)),
        );
        list_sources("hermes", &list)
    }
}

proof fn rows_are_no_records(rows: Seq<MessageRowView>)
    ensures
        forall|i: int| 0 <= i < row_messages(rows).len() ==> (#[trigger] row_messages(rows)[i]).role != "session_meta"@,
    decreases rows.len(),
{
    if rows.len() > 0 {
        rows_are_no_records(rows.drop_last());
    }
}

/// A session that was read has messages, each at its place, and none that is about
/// the session.
pub proof fn session_is_sound(db: Seq<Seq<char>>, s: SessionView, rows: Seq<MessageRowView>)
    ensures
        session_conversation(db, s, numbered(row_messages(rows))) matches Some(c) ==> {
            &&& c.messages.len() > 0
            &&& is_numbered(c.messages)
            &&& forall|i: int| 0 <= i < c.messages.len() ==> (#[trigger] c.messages[i]).role != "session_meta"@
        },
{
    let told = row_messages(rows);
    numbering(told);
    rows_are_no_records(rows);
    assert forall|i: int| 0 <= i < numbered(told).len() implies (#[trigger] numbered(told)[i]).role
        != "session_meta"@ by {
        assert(told[i].role != "session_meta"@);
    }
}

/// A session that was not touched since is not read, whatever it holds.
pub proof fn stale_sessions_are_not_read(x: ExtractView, db: Seq<Seq<char>>, rows: RowsView, since: Option<i64>)
    requires
        is_stale(rows.session, since),
    ensures
        after_session(x, db, rows, since).found == x.found,
        after_session(x, db, rows, since).failed == x.failed,
{
}

/// No session of a database is read twice.
pub proof fn extracted_sessions_are_distinct(db: Seq<Seq<char>>, all: Seq<RowsView>, since: Option<i64>)
    ensures
        names_are_distinct(extract(db, all, since)),
    decreases all.len(),
{
    if all.len() > 0 {
        extracted_sessions_are_distinct(db, all.drop_last(), since);
        let before = extract(db, all.drop_last(), since);
        let after = extract(db, all, since);
        let id = all.last().session.id;
        if !before.failed && !before.seen.contains(id) {
            names_stay_distinct(before, id, after);
        }
    }
}

proof fn calls_among_are_canonical(items: Seq<JsonView>)
    requires
        forall|i: int| 0 <= i < items.len() ==> canonical(#[trigger] items[i]),
    ensures
        canonical_calls(calls_among(items)),
    decreases items.len(),
{
    if items.len() > 0 {
        let front = items.drop_last();
        assert forall|i: int| 0 <= i < front.len() implies canonical(#[trigger] front[i]) by {
            assert(canonical(items[i]));
        }
        calls_among_are_canonical(front);
        assert(canonical(items[items.len() - 1]));
        if let Some(call) = call_of(items.last()) {
            member_canonical(items.last(), "arguments"@);
            calls_grow(calls_among(front), call);
        }
    }
}

proof fn row_extra_is_canonical(row: MessageRowView, reasoning: Seq<char>)
    ensures
        canonical(row_extra(row, reasoning)),
{
    let first = with_text(Seq::empty(), "tool_name"@, row.tool_name);
    let named = with_text(first, "tool_call_id"@, row.tool_call_id);
    rising_members_are_canonical(Seq::empty());
    with_text_canonical(Seq::empty(), "tool_name"@, row.tool_name);
    with_text_canonical(first, "tool_call_id"@, row.tool_call_id);
    with_member_canonical(named, "has_reasoning"@, JsonView::Bool(true));
}

proof fn row_messages_are_canonical(rows: Seq<MessageRowView>)
    ensures
        canonical_messages(row_messages(rows)),
    decreases rows.len(),
{
    if rows.len() > 0 {
        let row = rows.last();
        row_messages_are_canonical(rows.drop_last());
        if let Some(m) = row_message(row) {
            row_extra_is_canonical(row, or_default(row.reasoning, Seq::empty()));
            if let Some(text) = row.tool_calls {
                if let Some(JsonView::Array(items)) = document_in(text) {
                    calls_among_are_canonical(items);
                }
            }
            messages_grow(row_messages(rows.drop_last()), m);
        }
    }
}

/// The documents of the conversation of a session are canonical.
pub proof fn session_conversation_is_canonical(db: Seq<Seq<char>>, s: SessionView, rows: Seq<MessageRowView>)
    ensures
        session_conversation(db, s, numbered(row_messages(rows))) matches Some(c) ==> canonical_conversation(c),
{
    row_messages_are_canonical(rows);
    numbered_canonical(row_messages(rows));
    if let Some(c) = session_conversation(db, s, numbered(row_messages(rows))) {
        if let JsonView::Object(members) = c.metadata {
            reveal_strlit("end_reason");
            reveal_strlit("input_tokens");
            reveal_strlit("message_count");
            reveal_strlit("model");
            reveal_strlit("output_tokens");
            reveal_strlit("parent_session_id");
            reveal_strlit("session_id");
            reveal_strlit("source");
            reveal_strlit("tool_call_count");
            comes_before("end_reason"@, "input_tokens"@, 0);
            comes_before("input_tokens"@, "message_count"@, 0);
            comes_before("message_count"@, "model"@, 1);
            comes_before("model"@, "output_tokens"@, 0);
            comes_before("output_tokens"@, "parent_session_id"@, 0);
            comes_before("parent_session_id"@, "session_id"@, 0);
            comes_before("session_id"@, "source"@, 1);
            comes_before("source"@, "tool_call_count"@, 0);
            nullables_are_canonical(s.end_reason, s.input_tokens);
            nullables_are_canonical(s.model, s.message_count);
            nullables_are_canonical(s.parent_session_id, s.output_tokens);
            nullables_are_canonical(s.source, s.tool_call_count);
            rising_members_are_canonical(members);
        }
    }
}

/// The documents of all conversations of a database are canonical.
pub proof fn extracted_documents_are_canonical(db: Seq<Seq<char>>, all: Seq<RowsView>, since: Option<i64>)
    ensures
        canonical_conversations(extract(db, all, since).found),
    decreases all.len(),
{
    if all.len() > 0 {
        let before = extract(db, all.drop_last(), since);
        let s = all.last().session;
        extracted_documents_are_canonical(db, all.drop_last(), since);
        if let Some(rows) = all.last().messages {
            session_conversation_is_canonical(db, s, rows);
            if let Some(c) = session_conversation(db, s, numbered(row_messages(rows))) {
                conversations_grow(before.found, c);
            }
        }
    }
}

proof fn database_conversations_are_canonical(
    t: Seq<EntryView>,
    dbs: Seq<DatabaseView<RowsView>>,
    all: Seq<(RootView, Seq<Seq<char>>)>,
    since: Option<i64>,
)
    ensures
        canonical_conversations(database_conversations(t, dbs, all, since)),
    decreases all.len(),
{
    if all.len() > 0 {
        let path = all.last().1;
        database_conversations_are_canonical(t, dbs, all.drop_last(), since);
        if let Some(sessions) = database_at(dbs, path) {
            extracted_documents_are_canonical(path, sessions, since);
            conversations_join(
                database_conversations(t, dbs, all.drop_last(), since),
                extract(path, sessions, since).found,
            );
        }
    }
}

/// The documents of all conversations that a scan hands out are canonical, so that
/// each can be rendered.
pub proof fn scanned_documents_are_canonical(
    t: Seq<EntryView>,
    dbs: Seq<DatabaseView<RowsView>>,
    ctx: ContextView,
    s: SurroundingsView,
)
    ensures
        canonical_conversations(scanned(t, dbs, ctx, s)),
{
    database_conversations_are_canonical(t, dbs, distinct_paths(all_databases(t, ctx, s)), ctx.since_ts);
}

/// A row is said by its role, the assistant where none is given, at its own time, with its
/// own content and behind that its reasoning; a tool is the author of what it gives back.
/// A row about the session, or one that neither says nor calls anything, is no message.
pub proof fn rows_say_their_content(row: MessageRowView, role: Seq<char>, content: Seq<char>, reasoning: Seq<char>)
    requires
        row.role == Some(role) || (row.role is None && role == "assistant"@),
        row.content == Some(content) || (row.content is None && content.len() == 0),
        row.reasoning == Some(reasoning) || (row.reasoning is None && reasoning.len() == 0),
    ensures
        role == "session_meta"@ ==> row_message(row) is None,
        blank(content) && reasoning.len() == 0 && row.tool_calls is None ==> row_message(row) is None,
        role != "session_meta"@ && (row.tool_calls is Some || !blank(content)) ==> row_message(row) is Some,
        row_message(row) matches Some(m) ==> {
            &&& m.role == role
            &&& m.created_at == real_millis_in(row.timestamp)
            &&& reasoning.len() == 0 ==> m.content == content
            &&& content.len() == 0 ==> m.content == reasoning
            &&& content.len() > 0 && reasoning.len() > 0 ==> m.content == content + "\n\n[reasoning]\n"@ + reasoning
            &&& role == "assistant"@ ==> m.author is None
            &&& role == "tool"@ ==> m.author == row.tool_name
            &&& role != "assistant"@ && role != "tool"@ ==> m.author == Some(role)
            &&& m.invocations == calls_in(row.tool_calls)
            &&& row.tool_name matches Some(name) ==> member(m.extra, "tool_name"@) == Some(JsonView::Text(name))
            &&& row.tool_call_id matches Some(id) ==> member(m.extra, "tool_call_id"@) == Some(JsonView::Text(id))
            &&& reasoning.len() > 0 ==> member(m.extra, "has_reasoning"@) == Some(JsonView::Bool(true))
        },
{
    reveal_strlit("assistant");
    reveal_strlit("tool");
    assert("assistant"@.len() == 9 && "tool"@.len() == 4);
    assert(row.content is None ==> or_default(row.content, Seq::empty()) =~= content);
    assert(row.reasoning is None ==> or_default(row.reasoning, Seq::empty()) =~= reasoning);
    let full = full_content(content, reasoning);
    if !blank(content) {
        let i = choose|i: int| 0 <= i < content.len() && !crate::text::is_white(#[trigger] content[i]);
        assert(full[i] == content[i]);
    }
    extra_tells_of_the_tool(row, reasoning);
}

proof fn extra_tells_of_the_tool(row: MessageRowView, reasoning: Seq<char>)
    ensures
        ({
            let extra = row_extra(row, reasoning);
            &&& row.tool_name matches Some(name) ==> member(extra, "tool_name"@) == Some(JsonView::Text(name))
            &&& row.tool_call_id matches Some(id) ==> member(extra, "tool_call_id"@) == Some(JsonView::Text(id))
            &&& reasoning.len() > 0 ==> member(extra, "has_reasoning"@) == Some(JsonView::Bool(true))
        }),
{
    reveal_strlit("tool_name");
    reveal_strlit("tool_call_id");
    reveal_strlit("has_reasoning");
    assert("tool_name"@.len() == 9 && "tool_call_id"@.len() == 12 && "has_reasoning"@.len() == 13);
    let first = with_text(Seq::empty(), "tool_name"@, row.tool_name);
    let named = with_text(first, "tool_call_id"@, row.tool_call_id);
    if let Some(name) = row.tool_name {
        with_member_reads_back(Seq::empty(), "tool_name"@, JsonView::Text(name), "tool_name"@);
    }
    if let Some(id) = row.tool_call_id {
        with_member_reads_back(first, "tool_call_id"@, JsonView::Text(id), "tool_name"@);
    }
    with_member_reads_back(named, "has_reasoning"@, JsonView::Bool(true), "tool_name"@);
    with_member_reads_back(named, "has_reasoning"@, JsonView::Bool(true), "tool_call_id"@);
}

/// The calls of a row are those that the list in its column names, in order, each with its
/// own name and arguments; an item without a name is none.
pub proof fn calls_are_read_in_order(items: Seq<JsonView>, item: JsonView)
    ensures
        calls_among(Seq::empty()).len() == 0,
        member_text(item, "name"@) is None ==> calls_among(items.push(item)) == calls_among(items),
        member_text(item, "name"@) matches Some(name) ==> {
            let all = calls_among(items.push(item));
            let call = all.last();
            &&& all == calls_among(items).push(call)
            &&& call.kind == "tool"@
            &&& call.name == name
            &&& call.call_id == member_text(item, "id"@)
            &&& call.arguments == member(item, "arguments"@)
        },
        forall|text: Seq<char>|
            #![trigger calls_in(Some(text))]
            document_in(text) == Some(JsonView::Array(items)) ==> calls_in(Some(text)) == calls_among(items),
        calls_in(None).len() == 0,
{
    assert(items.push(item).drop_last() =~= items);
}

/// The messages of a session are those that each row makes, in the order of the rows, and a
/// row that makes none adds none.
pub proof fn rows_are_read_one_by_one(rows: Seq<MessageRowView>, row: MessageRowView)
    ensures
        row_messages(Seq::empty()).len() == 0,
        row_message(row) matches Some(m) ==> row_messages(rows.push(row)) == row_messages(rows).push(m),
        row_message(row) is None ==> row_messages(rows.push(row)) == row_messages(rows),
{
    assert(rows.push(row).drop_last() =~= rows);
}

/// What a session is told of in its conversation: its name; its own title, whatever its
/// messages are, or else the first line of the user where they spoke first; its own times
/// or else those of its messages; and where it is stored.
pub proof fn sessions_are_told_of(db: Seq<Seq<char>>, s: SessionView, messages: Seq<MessageView>)
    ensures
        messages.len() == 0 <==> session_conversation(db, s, messages) is None,
        session_conversation(db, s, messages) matches Some(c) ==> {
            &&& c.agent_slug == "hermes"@
            &&& c.external_id == Some(s.id)
            &&& c.messages == messages
            &&& s.title is Some ==> c.title == s.title
            &&& s.title is None && messages[0].role == "user"@ ==> c.title == headline(messages[0].content, 100)
            &&& s.title is None && messages[0].role != "user"@ ==> c.title is None
            &&& c.workspace == workspace_of(messages)
            &&& c.source_path == below(db, percent_encoded(encode_utf8(s.id)))
            &&& real_millis_in(s.started_at) matches Some(n) ==> c.started_at == Some(n)
            &&& real_millis_in(s.started_at) is None ==> is_first_instant(c.started_at, messages)
            &&& real_millis_in(s.ended_at) matches Some(n) ==> c.ended_at == Some(n)
            &&& real_millis_in(s.ended_at) is None ==> forall|i: int|
                0 <= i < messages.len() && (#[trigger] messages[i]).created_at is Some ==> is_last_instant(
                    c.ended_at,
                    messages,
                )
            &&& real_millis_in(s.ended_at) is None && (forall|i: int|
                0 <= i < messages.len() ==> (#[trigger] messages[i]).created_at is None) ==> c.ended_at == c.started_at
        },
{
    crate::model::instants_of_messages_are_bounded(messages);
}

/// What is known of a session stands in the metadata of its conversation, each under its
/// own name, as null where it is missing.
pub proof fn sessions_are_known_by_their_metadata(db: Seq<Seq<char>>, s: SessionView, messages: Seq<MessageView>)
    requires
        messages.len() > 0,
    ensures
        ({
            let v = session_conversation(db, s, messages)->0.metadata;
            &&& member(v, "end_reason"@) == Some(nullable_text(s.end_reason))
            &&& member(v, "input_tokens"@) == Some(nullable_integer(s.input_tokens))
            &&& member(v, "message_count"@) == Some(nullable_integer(s.message_count))
            &&& member(v, "model"@) == Some(nullable_text(s.model))
            &&& member(v, "output_tokens"@) == Some(nullable_integer(s.output_tokens))
            &&& member(v, "parent_session_id"@) == Some(nullable_text(s.parent_session_id))
            &&& member(v, "session_id"@) == Some(JsonView::Text(s.id))
            &&& member(v, "source"@) == Some(nullable_text(s.source))
            &&& member(v, "tool_call_count"@) == Some(nullable_integer(s.tool_call_count))
        }),
{
    let v = session_conversation(db, s, messages)->0.metadata;
    if let JsonView::Object(members) = v {
        reveal_strlit("end_reason");
        reveal_strlit("input_tokens");
        reveal_strlit("message_count");
        reveal_strlit("model");
        reveal_strlit("output_tokens");
        reveal_strlit("parent_session_id");
        reveal_strlit("session_id");
        reveal_strlit("source");
        reveal_strlit("tool_call_count");
        assert("end_reason"@.len() == 10 && "input_tokens"@.len() == 12 && "message_count"@.len() == 13);
        assert("model"@.len() == 5 && "output_tokens"@.len() == 13 && "parent_session_id"@.len() == 17);
        assert("session_id"@.len() == 10 && "source"@.len() == 6 && "tool_call_count"@.len() == 15);
        assert("message_count"@[0] != "output_tokens"@[0]);
        assert("end_reason"@[0] != "session_id"@[0]);
        member_is_the_first_of_its_key(JsonView::Null, members, "end_reason"@, 0);
        member_is_the_first_of_its_key(JsonView::Null, members, "input_tokens"@, 1);
        member_is_the_first_of_its_key(JsonView::Null, members, "message_count"@, 2);
        member_is_the_first_of_its_key(JsonView::Null, members, "model"@, 3);
        member_is_the_first_of_its_key(JsonView::Null, members, "output_tokens"@, 4);
        member_is_the_first_of_its_key(JsonView::Null, members, "parent_session_id"@, 5);
        member_is_the_first_of_its_key(JsonView::Null, members, "session_id"@, 6);
        member_is_the_first_of_its_key(JsonView::Null, members, "source"@, 7);
        member_is_the_first_of_its_key(JsonView::Null, members, "tool_call_count"@, 8);
    }
}

/// A session that was not met before and is not stale is found with the messages of its own
/// rows, in their order; rows that cannot be read end the reading of the database.
pub proof fn sessions_are_found(db: Seq<Seq<char>>, all: Seq<RowsView>, rows: RowsView, since: Option<i64>)
    requires
        !extract(db, all, since).failed,
        !extract(db, all, since).seen.contains(rows.session.id),
        !is_stale(rows.session, since),
    ensures
        ({
            let before = extract(db, all, since);
            let after = extract(db, all.push(rows), since);
            &&& rows.messages is None ==> after.failed
            &&& rows.messages matches Some(messages) ==> {
                let c = session_conversation(db, rows.session, numbered(row_messages(messages)));
                &&& !after.failed
                &&& c matches Some(c) ==> after.found == before.found.push(c)
                &&& c is None ==> after.found == before.found
            }
        }),
        extract(db, Seq::empty(), since).found.len() == 0,
        !extract(db, Seq::empty(), since).failed,
        extracted(db, all, since) == Ok::<Seq<ConversationView>, ReadError>(extract(db, all, since).found),
{
    assert(all.push(rows).drop_last() =~= all);
}

/// A session was last touched when it ended, or else started: it is stale where that is
/// before the given time, and never where no time is given.
pub proof fn sessions_are_stale_before_their_time(s: SessionView, since: i64, touched: i64)
    ensures
        real_millis_in(s.ended_at) == Some(touched) ==> (is_stale(s, Some(since)) <==> touched < since),
        real_millis_in(s.ended_at) is None && real_millis_in(s.started_at) == Some(touched) ==> (is_stale(s, Some(since))
            <==> touched < since),
        !is_stale(s, None),
{
}

/// A call tells where it works: a terminal by its directory, and what reads or changes a
/// file by the directory of that file where its path is absolute.
pub proof fn calls_tell_where_they_work(call: InvocationView, args: JsonView, t: Seq<char>)
    requires
        call.arguments == Some(args),
    ensures
        call.name == "terminal"@ && member_text(args, "workdir"@) == Some(t) ==> place_of_call(call) == Some(Some(t)),
        (call.name == "read_file"@ || call.name == "write_file"@ || call.name == "patch"@) && member_text(args, "path"@)
            == Some(t) && t.len() > 0 && t[0] == '/' ==> (parent(components(t)) matches Some(dir) ==> place_of_call(call)
            == Some(Some(path_text(dir)))),
        (call.name == "read_file"@ || call.name == "write_file"@ || call.name == "patch"@) && member_text(args, "path"@)
            == Some(t) && t.len() > 0 && t[0] != '/' ==> place_of_call(call) is None,
        call.name != "terminal"@ && call.name != "read_file"@ && call.name != "write_file"@ && call.name != "patch"@
            ==> place_of_call(call) is None,
{
    reveal_strlit("terminal");
    reveal_strlit("read_file");
    reveal_strlit("write_file");
    reveal_strlit("patch");
    reveal_strlit("/");
    assert("terminal"@.len() == 8 && "read_file"@.len() == 9 && "write_file"@.len() == 10 && "patch"@.len() == 5);
    if t.len() > 0 {
        assert(t.take(1) =~= seq![t[0]]);
        assert("/"@ =~= seq!['/']);
        assert(seq![t[0]][0] == t[0] && seq!['/'][0] == '/');
    }
}

/// A session works where the first of its calls that tells a place tells.
pub proof fn sessions_work_where_their_first_call_tells(messages: Seq<MessageView>, n: int)
    requires
        0 <= n <= messages.len(),
        forall|i: int| 0 <= i < n ==> place_in_calls((#[trigger] messages[i]).invocations) is None,
        n < messages.len() ==> place_in_calls(messages[n].invocations) is Some,
    ensures
        n < messages.len() ==> workspace_of(messages) == place_in_calls(messages[n].invocations)->0,
        n == messages.len() ==> workspace_of(messages) is None,
    decreases n,
{
    if n > 0 {
        let rest = messages.skip(1);
        assert(place_in_calls(messages[0].invocations) is None);
        assert forall|i: int| 0 <= i < n - 1 implies place_in_calls((#[trigger] rest[i]).invocations) is None by {
            assert(place_in_calls(messages[i + 1].invocations) is None);
        }
        sessions_work_where_their_first_call_tells(rest, n - 1);
    }
}

/// Of the calls of a message, the first that tells a place tells it.
pub proof fn first_calls_tell_the_place(calls: Seq<InvocationView>, n: int)
    requires
        0 <= n <= calls.len(),
        forall|i: int| 0 <= i < n ==> place_of_call(#[trigger] calls[i]) is None,
        n < calls.len() ==> place_of_call(calls[n]) is Some,
    ensures
        n < calls.len() ==> place_in_calls(calls) == place_of_call(calls[n]),
        n == calls.len() ==> place_in_calls(calls) is None,
    decreases n,
{
    if n > 0 {
        let rest = calls.skip(1);
        assert(place_of_call(calls[0]) is None);
        assert forall|i: int| 0 <= i < n - 1 implies place_of_call(#[trigger] rest[i]) is None by {
            assert(place_of_call(calls[i + 1]) is None);
        }
        first_calls_tell_the_place(rest, n - 1);
    }
}

/// The databases that can be read are read in their order: what one holds comes behind what
/// those before it hold.
pub proof fn databases_are_read_in_order(
    t: Seq<EntryView>,
    dbs: Seq<DatabaseView<RowsView>>,
    all: Seq<(RootView, Seq<Seq<char>>)>,
    next: (RootView, Seq<Seq<char>>),
    since: Option<i64>,
    sessions: Seq<RowsView>,
)
    requires
        path_exists(t, next.1),
        database_at(dbs, next.1) == Some(sessions),
    ensures
        extracted(next.1, sessions, since) matches Ok(found) ==> database_conversations(t, dbs, all.push(next), since)
            == database_conversations(t, dbs, all, since) + found,
        extracted(next.1, sessions, since) is Err ==> database_conversations(t, dbs, all.push(next), since)
            == database_conversations(t, dbs, all, since),
        database_conversations(t, dbs, Seq::empty(), since).len() == 0,
{
    assert(all.push(next).drop_last() =~= all);
}

/// Near a place a database is looked for at the place itself where it is named like one, right
/// below it, and in the directory of the agent below it; and nowhere else.
pub proof fn databases_are_looked_for_near_a_place(base: Seq<Seq<char>>, p: Seq<Seq<char>>)
    ensures
        database_candidates(base).contains(p) <==> {
            ||| (extension(base) == Some("db"@)) && p == base
            ||| p == below(base, "state.db"@)
            ||| p == below(base, ".hermes/state.db"@)
        },
{
    let s0 = if extension(base) == Some("db"@) {
        seq![base]
    } else {
        Seq::empty()
    };
    let s1 = seq![below(base, "state.db"@), below(base, ".hermes/state.db"@)];
    listed_paths(base, base, base, base, p);
    listed_paths(below(base, "state.db"@), below(base, ".hermes/state.db"@), below(base, "state.db"@), below(base, ".hermes/state.db"@), p);
    joined_paths(s0, s1, p);
}

/// The usual database is the one that the environment names, or else that of the home it
/// names, or else that of the user; the first of these that is a file.
pub proof fn usual_databases_come_in_order(t: Seq<EntryView>, s: SurroundingsView, db: Seq<Seq<char>>, set: Seq<Seq<char>>, home: Seq<Seq<char>>)
    ensures
        variable_path(s, "HERMES_SQLITE_DB"@) == Some(db) && path_is_file(t, db) ==> usual_database(t, s) == Some(db),
        variable_path(s, "HERMES_SQLITE_DB"@) is None && variable_path(s, "HERMES_HOME"@) == Some(set) && path_is_file(
            t,
            below(set, "state.db"@),
        ) ==> usual_database(t, s) == Some(below(set, "state.db"@)),
        variable_path(s, "HERMES_SQLITE_DB"@) is None && variable_path(s, "HERMES_HOME"@) is None && s.home == Some(home)
            && path_is_file(t, below(below(home, ".hermes"@), "state.db"@)) ==> usual_database(t, s) == Some(
            below(below(home, ".hermes"@), "state.db"@),
        ),
        usual_database(t, s) matches Some(p) ==> path_is_file(t, p),
{
}

/// A scan reads the database at its own data first, then without given places the usual one,
/// and with given places those near them.
pub proof fn scans_read_their_databases(t: Seq<EntryView>, ctx: ContextView, s: SurroundingsView)
    ensures
        ({
            let all = all_databases(t, ctx, s);
            let own = ctx.data_dir;
            &&& own.len() > 0 && extension(own) == Some("db"@) ==> all.len() >= 1 && all[0] == (local_root(own), own)
            &&& own.len() > 0 && extension(own) != Some("db"@) ==> all.len() >= 1 && all[0] == (
                local_root(own),
                below(own, "state.db"@),
            )
            &&& ctx.scan_roots.len() == 0 ==> (usual_database(t, s) matches Some(db) ==> all.last() == (local_root(db), db))
        }),
        forall|place: RootView, places: Seq<RootView>|
            #![trigger databases_near(places.push(place))]
            databases_near(places.push(place)) == databases_near(places) + rooted(place, database_candidates(place.path)),
{
    assert forall|place: RootView, places: Seq<RootView>|
        #![trigger databases_near(places.push(place))]
        databases_near(places.push(place)) == databases_near(places) + rooted(place, database_candidates(place.path)) by {
        assert(places.push(place).drop_last() =~= places);
    }
}

} // verus!
