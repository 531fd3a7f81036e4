//! Sessions of Goose, in its database and in the logs that were before it.
use vstd::prelude::*;
use crate::bytes::{percent_encoded, url_encode};
use crate::canon::{
    calls_join, canonical_calls, canonical_conversation, canonical_conversations, canonical_pending, comes_before,
    conversations_grow, nullables_are_canonical, ordered_canonical, pending_grows, rising_members_are_canonical,
};
use crate::databases::{names_are_distinct, names_stay_distinct, ExtractView};
use crate::decimal::{decimal, decimal_of, parse_integer, parsed_integer};
use crate::files::{text_at, EntryView, FileTable};
use crate::json::{array_view, canonical, document_in, parse_json, rendered_json, Json, JsonView};
use crate::lines::{headline, lines, lines_of};
use crate::model::{
    first_instant, instants, is_first_instant, is_last_instant, is_numbered, last_instant, Conversation,
    ConversationView, Invocation, InvocationView, Message, MessageView,
};
use crate::path::{below, SourcePath};
use crate::pending::{
    order_messages, ordered_messages, ordered_messages_are_given, place_or_last, session_title, title_of,
    PendingMessage, PendingView,
};
use crate::query::{
    as_integer, copied, either, integer_json, integer_view, is_text, member, member_canonical,
    member_is_the_first_of_its_key, member_text, nullable_text, nullable_text_json, object, or_default, or_else,
    owned, put, str_in, str_or, text_in, text_json,
};
use crate::records::{field_value, fits, read_record, record_in, text_in_field, text_in_fields, Record, RecordView};
use crate::scan::{note_text, push_conversation, ReadError};
use crate::stamp::{
    earliest, fractional_millis, fractional_millis_of, latest, plausible_millis, plausible_millis_of, rfc3339_millis,
    rfc3339_millis_of, stored_millis, stored_text_millis, stored_text_millis_of, SqlValue, SqlView,
};
use crate::text::{
    blank, cat, cat3, if_said, is_blank, join, join_texts, same_text, trim, trim_empty_iff_blank, trimmed,
};

verus! {

pub fn normalize_goose_timestamp(ts: Option<i64>) -> (r: Option<i64>)
    ensures
        r == stored_millis(ts),
{
    match ts {
        Some(n) => Some(plausible_millis_of(n)),
        None => None,
    }
}

/// The instant that a column of the database denotes.
pub open spec fn column_millis(v: SqlView) -> Option<i64> {
    match v {
        SqlView::Integer(n) => Some(plausible_millis(n)),
        SqlView::Float(bits) => fractional_millis(bits),
        SqlView::Text(t) => stored_text_millis(t),
        SqlView::Null => None,
        SqlView::Blob => None,
    }
}

/// The instant that a column of the database denotes.
pub fn normalize_goose_ts_value(v: &SqlValue) -> (r: Option<i64>)
    ensures
        r == column_millis(v.deep_view()),
{
    match v {
        SqlValue::Integer(n) => Some(plausible_millis_of(*n)),
        SqlValue::Float(bits) => fractional_millis_of(*bits),
        SqlValue::Text(t) => stored_text_millis_of(t.as_str()),
        SqlValue::Null => None,
        SqlValue::Blob => None,
    }
}

/// The result of a tool under its heading.
pub open spec fn headed_result(t: Seq<char>) -> Seq<char> {
    "[Tool Result]\n"@ + t
}

/// The text of a block, if it is one of text.
pub open spec fn block_text(block: JsonView) -> Option<Seq<char>> {
    if member_text(block, "type"@) == Some("text"@) {
        member_text(block, "text"@)
    } else {
        None
    }
}

/// The results that blocks hold.
pub open spec fn block_results(blocks: Seq<JsonView>) -> Seq<Seq<char>>
    decreases blocks.len(),
{
    if blocks.len() == 0 {
        Seq::empty()
    } else {
        block_results(blocks.drop_last()) + if_said(block_text(blocks.last())).map_values(
            |t: Seq<char>| headed_result(t),
        )
    }
}

/// What a result of a tool says.
pub open spec fn result_pieces(result: Option<JsonView>) -> Seq<Seq<char>> {
    match result {
        Some(JsonView::Text(t)) => if_said(Some(t)).map_values(|t: Seq<char>| headed_result(t)),
        Some(JsonView::Array(blocks)) => block_results(blocks),
        _ => Seq::empty(),
    }
}

/// What an item of a content says.
pub open spec fn item_pieces(item: JsonView) -> Seq<Seq<char>> {
    let kind = member_text(item, "type"@);
    if kind == Some("toolRequest"@) {
        Seq::empty()
    } else if kind == Some("toolResult"@) {
        result_pieces(member(item, "result"@))
    } else {
        if_said(member_text(item, "text"@))
    }
}

/// The call that an item of a content makes, as a list.
pub open spec fn item_calls(item: JsonView) -> Seq<InvocationView> {
    if member_text(item, "type"@) != Some("toolRequest"@) {
        Seq::empty()
    } else {
        match member(item, "toolCall"@) {
            None => Seq::empty(),
            Some(call) => {
                let value = or_default(member(call, "value"@), call);
                seq![
                    InvocationView {
                        kind: "tool"@,
                        name: or_default(member_text(value, "name"@), "unknown"@),
                        raw_name: None,
                        call_id: text_in(or_else(member(item, "id"@), member(call, "id"@))),
                        arguments: member(value, "arguments"@),
                    },
                ]
            },
        }
    }
}

pub open spec fn all_pieces(items: Seq<JsonView>) -> Seq<Seq<char>>
    decreases items.len(),
{
    if items.len() == 0 {
        Seq::empty()
    } else {
        all_pieces(items.drop_last()) + item_pieces(items.last())
    }
}

pub open spec fn all_calls(items: Seq<JsonView>) -> Seq<InvocationView>
    decreases items.len(),
{
    if items.len() == 0 {
        Seq::empty()
    } else {
        all_calls(items.drop_last()) + item_calls(items.last())
    }
}

/// The text of a content and the calls that it makes.
pub open spec fn content_of(v: Option<JsonView>) -> (Seq<char>, Seq<InvocationView>) {
    match v {
        Some(JsonView::Array(items)) => (join(all_pieces(items), "\n\n"@), all_calls(items)),
        Some(JsonView::Text(t)) => (t, Seq::empty()),
        _ => (Seq::empty(), Seq::empty()),
    }
}

fn push_piece(pieces: &mut Vec<String>, t: Option<&str>)
    ensures
        final(pieces).deep_view() == old(pieces).deep_view() + if_said(t.deep_view()),
{
    let ghost before = pieces.deep_view();
    if let Some(t) = t {
        if !is_blank(t) {
            pieces.push(t.to_owned());
            assert(pieces.deep_view() =~= before.push(t@));
        }
    }
    assert(pieces.deep_view() =~= before + if_said(t.deep_view()));
}

fn push_result(pieces: &mut Vec<String>, t: Option<&str>)
    ensures
        final(pieces).deep_view() == old(pieces).deep_view() + if_said(t.deep_view()).map_values(
            |t: Seq<char>| headed_result(t),
        ),
{
    let ghost before = pieces.deep_view();
    if let Some(t) = t {
        if !is_blank(t) {
            pieces.push(cat("[Tool Result]\n", t));
            assert(pieces.deep_view() =~= before.push(headed_result(t@)));
        }
    }
    assert(pieces.deep_view() =~= before + if_said(t.deep_view()).map_values(|t: Seq<char>| headed_result(t)));
}

fn push_blocks(pieces: &mut Vec<String>, blocks: &Vec<Json>)
    ensures
        final(pieces).deep_view() == old(pieces).deep_view() + block_results(blocks.deep_view()),
{
    let ghost start = pieces.deep_view();
    let ghost all = blocks.deep_view();
    let mut i: usize = 0;
    assert(all.take(0) =~= Seq::empty());
    assert(start + block_results(all.take(0)) =~= start);
    while i < blocks.len()
        invariant
            i <= blocks@.len(),
            start == old(pieces).deep_view(),
            all == blocks.deep_view(),
            pieces.deep_view() == start + block_results(all.take(i as int)),
        decreases blocks.len() - i,
    {
        let block = &blocks[i];
        assert(all.take(i + 1).drop_last() =~= all.take(i as int));
        assert(all.take(i + 1).last() == block@);
        let text = if is_text(block.get_str("type"), "text") {
            block.get_str("text")
        } else {
            None
        };
        push_result(pieces, text);
        assert(pieces.deep_view() =~= start + block_results(all.take(i + 1)));
        i = i + 1;
    }
    assert(all.take(all.len() as int) =~= all);
}

fn push_item(pieces: &mut Vec<String>, calls: &mut Vec<Invocation>, item: &Json)
    ensures
        final(pieces).deep_view() == old(pieces).deep_view() + item_pieces(item@),
        final(calls).deep_view() == old(calls).deep_view() + item_calls(item@),
{
    broadcast use array_view;

    let ghost (x, y) = (pieces.deep_view(), calls.deep_view());
    assert(x + Seq::<Seq<char>>::empty() =~= x);
    assert(y + Seq::<InvocationView>::empty() =~= y);
    let kind = item.get_str("type");
    if is_text(kind, "toolRequest") {
        if let Some(call) = item.get("toolCall") {
            let value = match call.get("value") {
                Some(value) => value,
                None => call,
            };
            let made = Invocation {
                kind: "tool".to_owned(),
                name: str_or(value.get_str("name"), "unknown").to_owned(),
                raw_name: None,
                call_id: owned(str_in(either(item.get("id"), call.get("id")))),
                arguments: copied(value.get("arguments")),
            };
            let ghost seen = made.deep_view();
            calls.push(made);
            assert(calls.deep_view() =~= y + seq![seen]);
        }
    } else if is_text(kind, "toolResult") {
        match item.get("result") {
            Some(Json::Text(t)) => {
                push_result(pieces, Some(t.as_str()));
            },
            Some(Json::Array(blocks)) => {
                push_blocks(pieces, blocks);
            },
            _ => {},
        }
    } else {
        push_piece(pieces, item.get_str("text"));
    }
}

/// The text of a content and the calls that it makes.
pub fn read_content(v: Option<&Json>) -> (r: (String, Vec<Invocation>))
    ensures
        (r.0@, r.1.deep_view()) == content_of(v.deep_view()),
{
    broadcast use array_view;

    let mut calls: Vec<Invocation> = Vec::new();
    assert(calls.deep_view() =~= Seq::empty());
    match v {
        Some(Json::Array(items)) => {
            let ghost all = items.deep_view();
            let mut pieces: Vec<String> = Vec::new();
            let mut i: usize = 0;
            assert(all.take(0) =~= Seq::empty());
            assert(pieces.deep_view() =~= Seq::empty());
            while i < items.len()
                invariant
                    i <= items@.len(),
                    all == items.deep_view(),
                    pieces.deep_view() == all_pieces(all.take(i as int)),
                    calls.deep_view() == all_calls(all.take(i as int)),
                decreases items.len() - i,
            {
                assert(all.take(i + 1).drop_last() =~= all.take(i as int));
                assert(all.take(i + 1).last() == items@[i as int]@);
                push_item(&mut pieces, &mut calls, &items[i]);
                i = i + 1;
            }
            assert(all.take(all.len() as int) =~= all);
            (join_texts(&pieces, "\n\n"), calls)
        },
        Some(Json::Text(t)) => (t.clone(), calls),
        _ => {
            let none = String::new();
            assert(none@ =~= Seq::empty());
            (none, calls)
        },
    }
}

/// The text of a content that is given as text, and the calls that it makes.
pub fn parse_goose_content_json(text: &str) -> (r: (String, Vec<Invocation>))
    ensures
        (r.0@, r.1.deep_view()) == content_of(document_in(text@)),
{
    let v = parse_json(text);
    read_content(v.as_ref())
}

/// A row of the table of messages.
pub struct GooseMessageRow {
    pub message_id: Option<String>,
    pub role: Option<String>,
    pub content_json: Option<String>,
    pub created_timestamp: SqlValue,
    pub tokens: Option<i64>,
    pub metadata_json: Option<String>,
}

#[verifier::ext_equal]
pub struct MessageRowView {
    pub message_id: Option<Seq<char>>,
    pub role: Option<Seq<char>>,
    pub content_json: Option<Seq<char>>,
    pub created_timestamp: SqlView,
    pub tokens: Option<i64>,
    pub metadata_json: Option<Seq<char>>,
}

impl DeepView for GooseMessageRow {
    type V = MessageRowView;

    open spec fn deep_view(&self) -> MessageRowView {
        MessageRowView {
            message_id: self.message_id.deep_view(),
            role: self.role.deep_view(),
            content_json: self.content_json.deep_view(),
            created_timestamp: self.created_timestamp.deep_view(),
            tokens: self.tokens,
            metadata_json: self.metadata_json.deep_view(),
        }
    }
}

/// The model that a document names.
pub open spec fn named_model(v: JsonView) -> Option<Seq<char>> {
    text_in(or_else(member(v, "model"@), member(v, "model_name"@)))
}

/// The model that a document names.
pub fn named_model_of(v: &Json) -> (r: Option<String>)
    ensures
        r.deep_view() == named_model(v@),
{
    owned(str_in(either(v.get("model"), v.get("model_name"))))
}

/// The model that a text names: none where it is no document.
pub open spec fn model_in(text: Option<Seq<char>>) -> Option<Seq<char>> {
    match text {
        Some(text) => match document_in(text) {
            Some(v) => named_model(v),
            None => None,
        },
        None => None,
    }
}

pub fn model_of(text: &Option<String>) -> (r: Option<String>)
    ensures
        r.deep_view() == model_in(text.deep_view()),
{
    match text {
        Some(text) => match parse_json(text.as_str()) {
            Some(v) => named_model_of(&v),
            None => None,
        },
        None => None,
    }
}

/// What the source says of a message.
pub open spec fn message_extra(id: Seq<char>, session_id: Seq<char>, tokens: Option<i64>) -> JsonView {
    JsonView::Object(
        seq![("message_id"@, JsonView::Text(id)), ("session_id"@, JsonView::Text(session_id))] + match tokens {
            Some(n) => seq![("tokens"@, integer_view(n as int))],
            None => Seq::empty(),
        },
    )
}

fn make_extra(id: &str, session_id: &str, tokens: Option<i64>) -> (r: Json)
    ensures
        r@ == message_extra(id@, session_id@, tokens),
{
    let mut members: Vec<(String, Json)> = Vec::new();
    put(&mut members, "message_id", text_json(id));
    put(&mut members, "session_id", text_json(session_id));
    if let Some(n) = tokens {
        put(&mut members, "tokens", integer_json(n));
    }
    assert(members.deep_view() =~= message_extra(id@, session_id@, tokens)->Object_0);
    object(members)
}

/// Whether a message says something or calls a tool.
pub open spec fn is_worthwhile(content: (Seq<char>, Seq<InvocationView>)) -> bool {
    !blank(content.0) || content.1.len() > 0
}

/// A message of a row: it has a name, and says something or calls a tool.
pub open spec fn row_message(row: MessageRowView, session_id: Seq<char>) -> Option<PendingView> {
    let id = or_default(row.message_id, Seq::empty());
    let content = content_of(document_in(or_default(row.content_json, "[]"@)));
    if id.len() == 0 || !is_worthwhile(content) {
        None
    } else {
        let role = or_default(row.role, "assistant"@);
        Some(
            PendingView {
                message_id: id,
                message: MessageView {
                    idx: 0,
                    role,
                    author: if role == "assistant"@ {
                        model_in(row.metadata_json)
                    } else {
                        Some("user"@)
                    },
                    created_at: column_millis(row.created_timestamp),
                    content: content.0,
                    extra: message_extra(id, session_id, row.tokens),
                    invocations: content.1,
                },
            },
        )
    }
}

pub open spec fn row_messages(rows: Seq<MessageRowView>, session_id: Seq<char>) -> Seq<PendingView>
    decreases rows.len(),
{
    if rows.len() == 0 {
        Seq::empty()
    } else {
        let front = row_messages(rows.drop_last(), session_id);
        match row_message(rows.last(), session_id) {
            Some(m) => front.push(m),
            None => front,
        }
    }
}

fn read_row(row: &GooseMessageRow, session_id: &str) -> (r: Option<PendingMessage>)
    ensures
        r.deep_view() == row_message(row.deep_view(), session_id@),
{
    let id = match &row.message_id {
        Some(id) => id.as_str(),
        None => return None,
    };
    if id.is_empty() {
        return None;
    }
    let (content, invocations) = match &row.content_json {
        Some(text) => parse_goose_content_json(text.as_str()),
        None => parse_goose_content_json("[]"),
    };
    if is_blank(content.as_str()) && invocations.len() == 0 {
        return None;
    }
    let role = match &row.role {
        Some(role) => role.clone(),
        None => "assistant".to_owned(),
    };
    let author = if same_text(role.as_str(), "assistant") {
        model_of(&row.metadata_json)
    } else {
        Some("user".to_owned())
    };
    Some(
        PendingMessage {
            message_id: id.to_owned(),
            message: Message {
                idx: 0,
                role,
                author,
                created_at: normalize_goose_ts_value(&row.created_timestamp),
                content,
                extra: make_extra(id, session_id, row.tokens),
                invocations,
            },
        },
    )
}

/// The messages of a session, in order.
pub fn load_messages_sqlite(rows: &Vec<GooseMessageRow>, session_id: &str) -> (r: Vec<Message>)
    ensures
        r.deep_view() == ordered_messages(row_messages(rows.deep_view(), session_id@)),
{
    let ghost all = rows.deep_view();
    let mut pending: Vec<PendingMessage> = Vec::new();
    let mut i: usize = 0;
    assert(all.take(0) =~= Seq::empty());
    assert(pending.deep_view() =~= Seq::empty());
    while i < rows.len()
        invariant
            i <= rows@.len(),
            all == rows.deep_view(),
            pending.deep_view() == row_messages(all.take(i as int), session_id@),
        decreases rows.len() - i,
    {
        let ghost before = pending.deep_view();
        assert(all.take(i + 1).drop_last() =~= all.take(i as int));
        assert(all.take(i + 1).last() == rows@[i as int].deep_view());
        if let Some(m) = read_row(&rows[i], session_id) {
            let ghost seen = m.deep_view();
            pending.push(m);
            assert(pending.deep_view() =~= before.push(seen));
        }
        i = i + 1;
    }
    assert(all.take(all.len() as int) =~= all);
    order_messages(pending)
}

/// A row of the table of sessions.
pub struct GooseSession {
    pub id: String,
    pub description: Option<String>,
    pub working_dir: Option<String>,
    pub created_at: SqlValue,
    pub updated_at: SqlValue,
    pub provider_name: Option<String>,
    pub model_config_json: Option<String>,
    pub session_type: Option<String>,
}

/// A session and its messages, where they could be read.
pub struct GooseRows {
    pub session: GooseSession,
    pub messages: Option<Vec<GooseMessageRow>>,
}

#[verifier::ext_equal]
pub struct SessionView {
    pub id: Seq<char>,
    pub description: Option<Seq<char>>,
    pub working_dir: Option<Seq<char>>,
    pub created_at: SqlView,
    pub updated_at: SqlView,
    pub provider_name: Option<Seq<char>>,
    pub model_config_json: Option<Seq<char>>,
    pub session_type: Option<Seq<char>>,
}

#[verifier::ext_equal]
pub struct RowsView {
    pub session: SessionView,
    pub messages: Option<Seq<MessageRowView>>,
}

impl DeepView for GooseSession {
    type V = SessionView;

    open spec fn deep_view(&self) -> SessionView {
        SessionView {
            id: self.id@,
            description: self.description.deep_view(),
            working_dir: self.working_dir.deep_view(),
            created_at: self.created_at.deep_view(),
            updated_at: self.updated_at.deep_view(),
            provider_name: self.provider_name.deep_view(),
            model_config_json: self.model_config_json.deep_view(),
            session_type: self.session_type.deep_view(),
        }
    }
}

impl DeepView for GooseRows {
    type V = RowsView;

    open spec fn deep_view(&self) -> RowsView {
        RowsView { session: self.session.deep_view(), messages: self.messages.deep_view() }
    }
}

/// Whether a session was last touched before `since`.
pub open spec fn is_stale(s: SessionView, since: Option<i64>) -> bool {
    match since {
        Some(since) => or_default(or_else(column_millis(s.updated_at), column_millis(s.created_at)), 0) < since,
        None => false,
    }
}

/// The conversation of a session: none where it has no message.
pub open spec fn session_conversation(db: Seq<Seq<char>>, s: SessionView, messages: Seq<MessageView>) -> Option<
    ConversationView,
> {
    if messages.len() == 0 {
        None
    } else {
        let started_at = or_else(column_millis(s.created_at), earliest(instants(messages)));
        Some(
            ConversationView {
                agent_slug: "goose"@,
                external_id: Some(s.id),
                title: session_title(s.description, messages),
                workspace: s.working_dir,
                source_path: below(db, percent_encoded(vstd::utf8::encode_utf8(s.id))),
                started_at,
                ended_at: or_else(
                    column_millis(s.updated_at),
                    or_else(latest(instants(messages)), started_at),
                ),
                metadata: JsonView::Object(
                    seq![
                        ("model_name"@, nullable_text(model_in(s.model_config_json))),
                        ("provider_name"@, nullable_text(s.provider_name)),
                        ("session_id"@, JsonView::Text(s.id)),
                        ("session_type"@, nullable_text(s.session_type)),
                        ("source"@, JsonView::Text("sqlite"@)),
                    ],
                ),
                messages,
            },
        )
    }
}

/// Makes the conversation of a session.
pub fn conversation_from_session(db: &SourcePath, s: &GooseSession, messages: Vec<Message>) -> (r: Option<Conversation>)
    ensures
        r.deep_view() == session_conversation(db.deep_view(), s.deep_view(), messages.deep_view()),
{
    if messages.len() == 0 {
        return None;
    }
    let started_at = match normalize_goose_ts_value(&s.created_at) {
        Some(t) => Some(t),
        None => first_instant(&messages),
    };
    let ended_at = match normalize_goose_ts_value(&s.updated_at) {
        Some(t) => Some(t),
        None => match last_instant(&messages) {
            Some(t) => Some(t),
            None => started_at,
        },
    };
    let model_name = model_of(&s.model_config_json);
    let mut metadata: Vec<(String, Json)> = Vec::new();
    put(&mut metadata, "model_name", nullable_text_json(&model_name));
    put(&mut metadata, "provider_name", nullable_text_json(&s.provider_name));
    put(&mut metadata, "session_id", text_json(s.id.as_str()));
    put(&mut metadata, "session_type", nullable_text_json(&s.session_type));
    put(&mut metadata, "source", text_json("sqlite"));
    assert(metadata.deep_view() =~= seq![
        ("model_name"@, nullable_text(model_name.deep_view())),
        ("provider_name"@, nullable_text(s.provider_name.deep_view())),
        ("session_id"@, JsonView::Text(s.id@)),
        ("session_type"@, nullable_text(s.session_type.deep_view())),
        ("source"@, JsonView::Text("sqlite"@)),
    ]);
    let title = title_of(s.description.clone(), &messages);
    Some(
        Conversation {
            agent_slug: "goose".to_owned(),
            external_id: Some(s.id.clone()),
            title,
            workspace: s.working_dir.clone(),
            source_path: db.join(url_encode(s.id.as_str()).as_str()),
            started_at,
            ended_at,
            metadata: object(metadata),
            messages,
        },
    )
}

/// A session is read if its name is new and it was touched since; where its
/// messages cannot be read, nothing of the database counts.
pub open spec fn after_session(x: ExtractView, db: Seq<Seq<char>>, rows: RowsView, since: Option<i64>) -> ExtractView {
    let s = rows.session;
    if x.failed || x.seen.contains(s.id) {
        x
    } else {
        let seen = x.seen.push(s.id);
        if is_stale(s, since) {
            ExtractView { seen, ..x }
        } else {
            match rows.messages {
                None => ExtractView { seen, failed: true, ..x },
                Some(messages) => match session_conversation(
                    db,
                    s,
                    ordered_messages(row_messages(messages, s.id)),
                ) {
                    Some(c) => ExtractView { seen, found: x.found.push(c), ..x },
                    None => ExtractView { seen, ..x },
                },
            }
        }
    }
}

pub open spec fn extract(db: Seq<Seq<char>>, all: Seq<RowsView>, since: Option<i64>) -> ExtractView
    decreases all.len(),
{
    if all.len() == 0 {
        ExtractView { seen: Seq::empty(), found: Seq::empty(), failed: false }
    } else {
        after_session(extract(db, all.drop_last(), since), db, all.last(), since)
    }
}

/// The conversations of a database: none can be read where one fails.
pub open spec fn extracted(db: Seq<Seq<char>>, all: Seq<RowsView>, since: Option<i64>) -> Result<
    Seq<ConversationView>,
    ReadError,
> {
    if extract(db, all, since).failed {
        Err(ReadError::Unreadable)
    } else {
        Ok(extract(db, all, since).found)
    }
}

/// The conversations of a database. It fails where the messages of a session that
/// is to be read cannot be.
pub fn extract_from_sqlite(db_path: &SourcePath, sessions: &Vec<GooseRows>, since_ts: Option<i64>) -> (r: Result<
    Vec<Conversation>,
    ReadError,
>)
    ensures
        match r {
            Ok(found) => extracted(db_path.deep_view(), sessions.deep_view(), since_ts) == Ok::<
                Seq<ConversationView>,
                ReadError,
            >(found.deep_view()),
            Err(e) => extracted(db_path.deep_view(), sessions.deep_view(), since_ts) == Err::<
                Seq<ConversationView>,
                ReadError,
            >(e),
        },
{
    let ghost all = sessions.deep_view();
    let ghost db = db_path.deep_view();
    let mut seen: Vec<String> = Vec::new();
    let mut found: Vec<Conversation> = Vec::new();
    let mut failed = false;
    let mut i: usize = 0;
    assert(all.take(0) =~= Seq::empty());
    assert(seen.deep_view() =~= Seq::empty());
    assert(found.deep_view() =~= Seq::empty());
    while i < sessions.len()
        invariant
            i <= sessions@.len(),
            all == sessions.deep_view(),
            db == db_path.deep_view(),
            extract(db, all.take(i as int), since_ts) == (ExtractView {
                seen: seen.deep_view(),
                found: found.deep_view(),
                failed,
            }),
        decreases sessions.len() - i,
    {
        let rows = &sessions[i];
        let s = &rows.session;
        assert(all.take(i + 1).drop_last() =~= all.take(i as int));
        assert(all.take(i + 1).last() == rows.deep_view());
        if !failed && note_text(&mut seen, s.id.as_str()) {
            let stale = match since_ts {
                Some(since) => {
                    let last = match normalize_goose_ts_value(&s.updated_at) {
                        Some(t) => t,
                        None => match normalize_goose_ts_value(&s.created_at) {
                            Some(t) => t,
                            None => 0,
                        },
                    };
                    last < since
                },
                None => false,
            };
            if !stale {
                match &rows.messages {
                    None => {
                        failed = true;
                    },
                    Some(messages) => {
                        let read = load_messages_sqlite(messages, s.id.as_str());
                        if let Some(c) = conversation_from_session(db_path, s, read) {
                            push_conversation(&mut found, c);
                        }
                    },
                }
            }
        }
        i = i + 1;
    }
    assert(all.take(all.len() as int) =~= all);
    if failed {
        Err(ReadError::Unreadable)
    } else {
        Ok(found)
    }
}

/// A line of a log.
pub struct GooseLine {
    pub role: Option<String>,
    pub content: Option<Json>,
    pub created_at: Option<Json>,
    pub id: Option<String>,
    pub model: Option<String>,
}

#[verifier::ext_equal]
pub struct LineView {
    pub role: Option<Seq<char>>,
    pub content: Option<JsonView>,
    pub created_at: Option<JsonView>,
    pub id: Option<Seq<char>>,
    pub model: Option<Seq<char>>,
}

impl DeepView for GooseLine {
    type V = LineView;

    open spec fn deep_view(&self) -> LineView {
        LineView {
            role: self.role.deep_view(),
            content: self.content.deep_view(),
            created_at: self.created_at.deep_view(),
            id: self.id.deep_view(),
            model: self.model.deep_view(),
        }
    }
}

/// What stands under a key, unless that is null.
pub open spec fn optional_value(v: Option<JsonView>) -> Option<JsonView> {
    match v {
        Some(JsonView::Null) => None,
        _ => v,
    }
}

/// The line that a record holds: none where a field is of another type, is given twice
/// or is one too many.
pub open spec fn line_in(r: RecordView) -> Option<LineView> {
    if !fits(r, 5) {
        None
    } else {
        match (
            text_in_field(r, "role"@, 0),
            field_value(r, seq!["content"@], 1),
            field_value(r, seq!["created_at"@], 2),
            text_in_fields(r, seq!["id"@, "message_id"@], 3),
            text_in_field(r, "model"@, 4),
        ) {
            (Some(role), Some(content), Some(created_at), Some(id), Some(model)) => Some(
                LineView {
                    role,
                    content: optional_value(content),
                    created_at: optional_value(created_at),
                    id,
                    model,
                },
            ),
            _ => None,
        }
    }
}

fn set_value(v: Option<Json>) -> (r: Option<Json>)
    ensures
        r.deep_view() == optional_value(v.deep_view()),
        r matches Some(found) ==> v == Some(found),
{
    match v {
        Some(Json::Null) => None,
        v => v,
    }
}

/// The line that a record holds.
pub fn line_from(record: &Record) -> (r: Option<GooseLine>)
    ensures
        r.deep_view() == line_in(record.deep_view()),
        r matches Some(line) ==> (line.content matches Some(c) ==> canonical(c@)),
{
    if !record.fits(5) {
        return None;
    }
    let content_names = vec!["content"];
    let time_names = vec!["created_at"];
    let id_names = vec!["id", "message_id"];
    assert(content_names.deep_view() =~= seq!["content"@]);
    assert(time_names.deep_view() =~= seq!["created_at"@]);
    assert(id_names.deep_view() =~= seq!["id"@, "message_id"@]);
    let role = match record.text_field("role", 0) {
        Some(role) => role,
        None => return None,
    };
    let content = match record.field_value(&content_names, 1) {
        Some(content) => set_value(content),
        None => return None,
    };
    let created_at = match record.field_value(&time_names, 2) {
        Some(created_at) => set_value(created_at),
        None => return None,
    };
    let id = match record.text_field_of(&id_names, 3) {
        Some(id) => id,
        None => return None,
    };
    match record.text_field("model", 4) {
        Some(model) => Some(GooseLine { role, content, created_at, id, model }),
        None => None,
    }
}

/// The content of a line: a list of items is read from its own text.
pub open spec fn line_content(content: Option<JsonView>) -> (Seq<char>, Seq<InvocationView>) {
    match content {
        Some(JsonView::Text(t)) => (t, Seq::empty()),
        Some(JsonView::Array(items)) => content_of(document_in(rendered_json(JsonView::Array(items)))),
        _ => (Seq::empty(), Seq::empty()),
    }
}

fn read_line_content(content: &Option<Json>) -> (r: (String, Vec<Invocation>))
    requires
        content matches Some(c) ==> canonical(c@),
    ensures
        (r.0@, r.1.deep_view()) == line_content(content.deep_view()),
{
    broadcast use array_view;

    match content {
        Some(Json::Text(t)) => {
            let none: Vec<Invocation> = Vec::new();
            assert(none.deep_view() =~= Seq::empty());
            (t.clone(), none)
        },
        Some(v) => match v {
            Json::Array(_) => {
                let text = v.render();
                parse_goose_content_json(text.as_str())
            },
            _ => read_content(None),
        },
        None => read_content(None),
    }
}

/// The instant that a line gives.
pub open spec fn line_time(v: Option<JsonView>) -> Option<i64> {
    match v {
        None => None,
        Some(v) => match as_integer(v) {
            Some(n) => Some(plausible_millis(n)),
            None => match v {
                JsonView::Unsigned(_) => Some(i64::MAX),
                JsonView::Float(bits) => fractional_millis(bits),
                JsonView::Text(t) => or_else(rfc3339_millis(t), stored_millis(parsed_integer(t))),
                _ => None,
            },
        },
    }
}

fn read_line_time(v: &Option<Json>) -> (r: Option<i64>)
    ensures
        r == line_time(v.deep_view()),
{
    match v {
        None => None,
        Some(v) => match v.as_i64() {
            Some(n) => Some(plausible_millis_of(n)),
            None => match v {
                Json::Unsigned(_) => Some(0x7fff_ffff_ffff_ffff),
                Json::Float(n) => fractional_millis_of(n.bits()),
                Json::Text(t) => match rfc3339_millis_of(t.as_str()) {
                    Some(ms) => Some(ms),
                    None => normalize_goose_timestamp(parse_integer(t.as_str())),
                },
                _ => None,
            },
        },
    }
}

/// A message of a line of a log: it says something or calls a tool, `content` being
/// what. Without a name it goes by the session and the place of the line.
pub open spec fn message_of_line(
    line: LineView,
    content: (Seq<char>, Seq<InvocationView>),
    session_id: Seq<char>,
    place: int,
) -> Option<PendingView> {
    if !is_worthwhile(content) {
        None
    } else {
        let id = or_default(line.id, session_id + "-"@ + decimal(place as nat));
        let role = or_default(line.role, "assistant"@);
        Some(
            PendingView {
                message_id: id,
                message: MessageView {
                    idx: 0,
                    role,
                    author: if role == "assistant"@ {
                        line.model
                    } else {
                        Some("user"@)
                    },
                    created_at: line_time(line.created_at),
                    content: content.0,
                    extra: message_extra(id, session_id, None),
                    invocations: content.1,
                },
            },
        )
    }
}

/// A message of a line of a log.
pub fn message_from_line(line: GooseLine, content: (String, Vec<Invocation>), session_id: &str, place: usize) -> (r: Option<
    PendingMessage,
>)
    ensures
        r.deep_view() == message_of_line(
            line.deep_view(),
            (content.0@, content.1.deep_view()),
            session_id@,
            place as int,
        ),
{
    let (text, invocations) = content;
    if is_blank(text.as_str()) && invocations.len() == 0 {
        return None;
    }
    let id = match line.id {
        Some(id) => id,
        None => cat3(session_id, "-", decimal_of(place as u64).as_str()),
    };
    let role = match line.role {
        Some(role) => role,
        None => "assistant".to_owned(),
    };
    let author = if same_text(role.as_str(), "assistant") {
        line.model
    } else {
        Some("user".to_owned())
    };
    let extra = make_extra(id.as_str(), session_id, None);
    Some(
        PendingMessage {
            message_id: id,
            message: Message {
                idx: 0,
                role,
                author,
                created_at: read_line_time(&line.created_at),
                content: text,
                extra,
                invocations,
            },
        },
    )
}

/// The message that a line of a log holds: none where it is blank or holds no line.
pub open spec fn line_message(text: Seq<char>, session_id: Seq<char>, place: int) -> Option<PendingView> {
    let short = trim(text);
    let line = match record_in(short) {
        Some(r) => line_in(r),
        None => None,
    };
    if short.len() == 0 {
        None
    } else {
        match line {
            None => None,
            Some(line) => message_of_line(line, line_content(line.content), session_id, place),
        }
    }
}

fn read_line(text: &str, session_id: &str, place: usize) -> (r: Option<PendingMessage>)
    ensures
        r.deep_view() == line_message(text@, session_id@, place as int),
{
    let short = trimmed(text);
    if short.as_str().is_empty() {
        return None;
    }
    let record = match read_record(short.as_str()) {
        Some(record) => record,
        None => return None,
    };
    match line_from(&record) {
        Some(line) => {
            let content = read_line_content(&line.content);
            message_from_line(line, content, session_id, place)
        },
        None => None,
    }
}

pub open spec fn log_messages(all: Seq<Seq<char>>, session_id: Seq<char>) -> Seq<PendingView>
    decreases all.len(),
{
    if all.len() == 0 {
        Seq::empty()
    } else {
        let front = log_messages(all.drop_last(), session_id);
        match line_message(all.last(), session_id, all.len() - 1) {
            Some(m) => front.push(m),
            None => front,
        }
    }
}

/// The conversation of a log, which may have no message.
pub open spec fn log_conversation(path: Seq<Seq<char>>, text: Seq<char>, session_id: Seq<char>) -> ConversationView {
    let messages = ordered_messages(log_messages(lines(text), session_id));
    ConversationView {
        agent_slug: "goose"@,
        external_id: Some(session_id),
        title: session_title(None, messages),
        workspace: None,
        source_path: path,
        started_at: earliest(instants(messages)),
        ended_at: latest(instants(messages)),
        metadata: JsonView::Object(
            seq![("session_id"@, JsonView::Text(session_id)), ("source"@, JsonView::Text("jsonl"@))],
        ),
        messages,
    }
}

/// What a log reads as.
pub open spec fn log_session(t: Seq<EntryView>, path: Seq<Seq<char>>, session_id: Seq<char>) -> Result<
    ConversationView,
    ReadError,
> {
    match text_at(t, path) {
        None => Err(ReadError::Unreadable),
        Some(text) => Ok(log_conversation(path, text, session_id)),
    }
}

/// Reads the conversation of a log. It fails exactly where the log has no text.
pub fn parse_goose_jsonl(files: &FileTable, path: &SourcePath, session_id: &str) -> (r: Result<Conversation, ReadError>)
    ensures
        match r {
            Ok(c) => log_session(files.deep_view(), path.deep_view(), session_id@) == Ok::<
                ConversationView,
                ReadError,
            >(c.deep_view()),
            Err(e) => log_session(files.deep_view(), path.deep_view(), session_id@) == Err::<
                ConversationView,
                ReadError,
            >(e),
        },
{
    let text = match files.read_text(path) {
        Some(text) => text,
        None => return Err(ReadError::Unreadable),
    };
    let list = lines_of(text.as_str());
    let ghost all = list.deep_view();
    let mut pending: Vec<PendingMessage> = Vec::new();
    let mut i: usize = 0;
    assert(all.take(0) =~= Seq::empty());
    assert(pending.deep_view() =~= Seq::empty());
    while i < list.len()
        invariant
            i <= list@.len(),
            all == list.deep_view(),
            pending.deep_view() == log_messages(all.take(i as int), session_id@),
        decreases list.len() - i,
    {
        let ghost before = pending.deep_view();
        assert(all.take(i + 1).drop_last() =~= all.take(i as int));
        assert(all.take(i + 1).last() == list@[i as int]@);
        if let Some(m) = read_line(list[i].as_str(), session_id, i) {
            let ghost seen = m.deep_view();
            pending.push(m);
            assert(pending.deep_view() =~= before.push(seen));
        }
        i = i + 1;
    }
    assert(all.take(all.len() as int) =~= all);
    let messages = order_messages(pending);
    let started_at = first_instant(&messages);
    let ended_at = last_instant(&messages);
    let title = title_of(None, &messages);
    let mut metadata: Vec<(String, Json)> = Vec::new();
    put(&mut metadata, "session_id", text_json(session_id));
    put(&mut metadata, "source", text_json("jsonl"));
    assert(metadata.deep_view() =~= seq![
        ("session_id"@, JsonView::Text(session_id@)),
        ("source"@, JsonView::Text("jsonl"@)),
    ]);
    Ok(
        Conversation {
            agent_slug: "goose".to_owned(),
            external_id: Some(session_id.to_owned()),
            title,
            workspace: None,
            source_path: path.copy(),
            started_at,
            ended_at,
            metadata: object(metadata),
            messages,
        },
    )
}

/// What holds of the messages of a session: each carries its place, and none comes
/// before an earlier one, those without a time being last.
pub open spec fn are_in_time(messages: Seq<MessageView>) -> bool {
    &&& is_numbered(messages)
    &&& forall|i: int, j: int|
        0 <= i < j < messages.len() ==> place_or_last((#[trigger] messages[i]).created_at) <= place_or_last(
            (#[trigger] messages[j]).created_at,
        )
}

/// The messages of a session in the database are in time.
pub proof fn row_messages_are_in_time(rows: Seq<MessageRowView>, session_id: Seq<char>)
    ensures
        are_in_time(ordered_messages(row_messages(rows, session_id))),
{
    ordered_messages_are_given(row_messages(rows, session_id));
}

/// The messages of a log are in time, and it spans them.
pub proof fn log_messages_are_in_time(path: Seq<Seq<char>>, text: Seq<char>, session_id: Seq<char>)
    ensures
        are_in_time(log_conversation(path, text, session_id).messages),
        crate::stamp::spans(
            log_conversation(path, text, session_id).started_at,
            log_conversation(path, text, session_id).ended_at,
        ),
{
    let pending = log_messages(lines(text), session_id);
    ordered_messages_are_given(pending);
    crate::stamp::bounds_enclose(instants(ordered_messages(pending)));
}

/// No session of a database is read twice.
pub proof fn extracted_sessions_are_distinct(db: Seq<Seq<char>>, all: Seq<RowsView>, since: Option<i64>)
    ensures
        names_are_distinct(extract(db, all, since)),
    decreases all.len(),
{
    if all.len() > 0 {
        extracted_sessions_are_distinct(db, all.drop_last(), since);
        let before = extract(db, all.drop_last(), since);
        let after = extract(db, all, since);
        let id = all.last().session.id;
        if !before.failed && !before.seen.contains(id) {
            names_stay_distinct(before, id, after);
        }
    }
}

/// A session that was not touched since is not read, whatever it holds.
pub proof fn stale_sessions_are_not_read(x: ExtractView, db: Seq<Seq<char>>, rows: RowsView, since: Option<i64>)
    requires
        is_stale(rows.session, since),
    ensures
        after_session(x, db, rows, since).found == x.found,
        after_session(x, db, rows, since).failed == x.failed,
{
}

proof fn item_calls_are_canonical(item: JsonView)
    requires
        canonical(item),
    ensures
        canonical_calls(item_calls(item)),
{
    member_canonical(item, "toolCall"@);
    if let Some(call) = member(item, "toolCall"@) {
        member_canonical(call, "value"@);
        member_canonical(or_default(member(call, "value"@), call), "arguments"@);
    }
}

proof fn all_calls_are_canonical(items: Seq<JsonView>)
    requires
        forall|i: int| 0 <= i < items.len() ==> canonical(#[trigger] items[i]),
    ensures
        canonical_calls(all_calls(items)),
    decreases items.len(),
{
    if items.len() > 0 {
        let front = items.drop_last();
        assert forall|i: int| 0 <= i < front.len() implies canonical(#[trigger] front[i]) by {
            assert(canonical(items[i]));
        }
        all_calls_are_canonical(front);
        assert(canonical(items[items.len() - 1]));
        item_calls_are_canonical(items.last());
        calls_join(all_calls(front), item_calls(items.last()));
    }
}

/// The arguments of the calls in a content are canonical.
pub proof fn content_is_canonical(text: Seq<char>)
    ensures
        canonical_calls(content_of(document_in(text)).1),
{
    if let Some(JsonView::Array(items)) = document_in(text) {
        all_calls_are_canonical(items);
    }
}

proof fn message_extra_is_canonical(id: Seq<char>, session_id: Seq<char>, tokens: Option<i64>)
    ensures
        canonical(message_extra(id, session_id, tokens)),
{
    if let JsonView::Object(members) = message_extra(id, session_id, tokens) {
        reveal_strlit("message_id");
        reveal_strlit("session_id");
        reveal_strlit("tokens");
        comes_before("message_id"@, "session_id"@, 0);
        comes_before("session_id"@, "tokens"@, 0);
        rising_members_are_canonical(members);
    }
}

proof fn row_messages_are_canonical(rows: Seq<MessageRowView>, session_id: Seq<char>)
    ensures
        canonical_pending(row_messages(rows, session_id)),
    decreases rows.len(),
{
    if rows.len() > 0 {
        let row = rows.last();
        row_messages_are_canonical(rows.drop_last(), session_id);
        if let Some(p) = row_message(row, session_id) {
            content_is_canonical(or_default(row.content_json, "[]"@));
            message_extra_is_canonical(p.message_id, session_id, row.tokens);
            pending_grows(row_messages(rows.drop_last(), session_id), p);
        }
    }
}

/// The documents of the conversation of a session are canonical.
pub proof fn session_conversation_is_canonical(db: Seq<Seq<char>>, s: SessionView, rows: Seq<MessageRowView>)
    ensures
        session_conversation(db, s, ordered_messages(row_messages(rows, s.id))) matches Some(c)
            ==> canonical_conversation(c),
{
    row_messages_are_canonical(rows, s.id);
    ordered_canonical(row_messages(rows, s.id));
    if let Some(c) = session_conversation(db, s, ordered_messages(row_messages(rows, s.id))) {
        if let JsonView::Object(members) = c.metadata {
            reveal_strlit("model_name");
            reveal_strlit("provider_name");
            reveal_strlit("session_id");
            reveal_strlit("session_type");
            reveal_strlit("source");
            comes_before("model_name"@, "provider_name"@, 0);
            comes_before("provider_name"@, "session_id"@, 0);
            comes_before("session_id"@, "session_type"@, 8);
            comes_before("session_type"@, "source"@, 1);
            nullables_are_canonical(model_in(s.model_config_json), None);
            nullables_are_canonical(s.provider_name, None);
            nullables_are_canonical(s.session_type, None);
            rising_members_are_canonical(members);
        }
    }
}

/// The documents of all conversations of a database are canonical.
pub proof fn extracted_documents_are_canonical(db: Seq<Seq<char>>, all: Seq<RowsView>, since: Option<i64>)
    ensures
        canonical_conversations(extract(db, all, since).found),
    decreases all.len(),
{
    if all.len() > 0 {
        let before = extract(db, all.drop_last(), since);
        let s = all.last().session;
        extracted_documents_are_canonical(db, all.drop_last(), since);
        if let Some(rows) = all.last().messages {
            session_conversation_is_canonical(db, s, rows);
            if let Some(c) = session_conversation(db, s, ordered_messages(row_messages(rows, s.id))) {
                conversations_grow(before.found, c);
            }
        }
    }
}

proof fn log_messages_are_canonical(all: Seq<Seq<char>>, session_id: Seq<char>)
    ensures
        canonical_pending(log_messages(all, session_id)),
    decreases all.len(),
{
    if all.len() > 0 {
        log_messages_are_canonical(all.drop_last(), session_id);
        if let Some(p) = line_message(all.last(), session_id, all.len() - 1) {
            message_extra_is_canonical(p.message_id, session_id, None);
            if let Some(r) = record_in(trim(all.last())) {
                if let Some(line) = line_in(r) {
                    if let Some(JsonView::Array(items)) = line.content {
                        content_is_canonical(rendered_json(JsonView::Array(items)));
                    }
                }
            }
            pending_grows(log_messages(all.drop_last(), session_id), p);
        }
    }
}

/// The documents of the conversation of a log are canonical.
pub proof fn log_conversation_is_canonical(path: Seq<Seq<char>>, text: Seq<char>, session_id: Seq<char>)
    ensures
        canonical_conversation(log_conversation(path, text, session_id)),
{
    log_messages_are_canonical(lines(text), session_id);
    ordered_canonical(log_messages(lines(text), session_id));
    reveal_strlit("session_id");
    reveal_strlit("source");
    comes_before("session_id"@, "source"@, 1);
    rising_members_are_canonical(
        seq![("session_id"@, JsonView::Text(session_id)), ("source"@, JsonView::Text("jsonl"@))],
    );
}

/// A column that holds an integer counts milliseconds, or seconds where that is plausible;
/// one that holds nothing that is a time denotes none.
pub proof fn columns_denote_instants(n: i64)
    ensures
        1_000_000_000 <= n < 10_000_000_000 ==> column_millis(SqlView::Integer(n)) == Some((n * 1000) as i64),
        n < 1_000_000_000 || n >= 10_000_000_000 ==> column_millis(SqlView::Integer(n)) == Some(n),
        column_millis(SqlView::Null) is None,
        column_millis(SqlView::Blob) is None,
        forall|t: Seq<char>| column_millis(SqlView::Text(t)) == stored_text_millis(t),
        forall|bits: u64| column_millis(SqlView::Float(bits)) == fractional_millis(bits),
{
}

proof fn pieces_in_two_steps(a: Seq<JsonView>, b: Seq<JsonView>)
    ensures
        all_pieces(a + b) == all_pieces(a) + all_pieces(b),
        all_calls(a + b) == all_calls(a) + all_calls(b),
    decreases b.len(),
{
    let all = a + b;
    if b.len() == 0 {
        assert(all =~= a);
        assert(all_pieces(a) + all_pieces(b) =~= all_pieces(a));
        assert(all_calls(a) + all_calls(b) =~= all_calls(a));
    } else {
        assert(all.drop_last() =~= a + b.drop_last());
        pieces_in_two_steps(a, b.drop_last());
        assert(all_pieces(all) =~= all_pieces(a) + all_pieces(b));
        assert(all_calls(all) =~= all_calls(a) + all_calls(b));
    }
}

proof fn pieces_are_not_blank(items: Seq<JsonView>)
    ensures
        forall|i: int| 0 <= i < all_pieces(items).len() ==> (#[trigger] all_pieces(items)[i]).len() > 0,
    decreases items.len(),
{
    if items.len() > 0 {
        let item = items.last();
        pieces_are_not_blank(items.drop_last());
        result_is_not_blank(member(item, "result"@));
        let front = all_pieces(items.drop_last());
        assert forall|i: int| 0 <= i < all_pieces(items).len() implies (#[trigger] all_pieces(items)[i]).len() > 0 by {
            if i < front.len() {
                assert(all_pieces(items)[i] == front[i]);
            } else {
                assert(all_pieces(items)[i] == item_pieces(item)[i - front.len()]);
            }
        }
    }
}

proof fn result_is_not_blank(result: Option<JsonView>)
    ensures
        forall|i: int| 0 <= i < result_pieces(result).len() ==> (#[trigger] result_pieces(result)[i]).len() > 0,
{
    reveal_strlit("[Tool Result]\n");
    if let Some(JsonView::Array(blocks)) = result {
        block_results_are_not_blank(blocks);
    }
}

proof fn block_results_are_not_blank(blocks: Seq<JsonView>)
    ensures
        forall|i: int| 0 <= i < block_results(blocks).len() ==> (#[trigger] block_results(blocks)[i]).len() > 0,
    decreases blocks.len(),
{
    reveal_strlit("[Tool Result]\n");
    if blocks.len() > 0 {
        let front = block_results(blocks.drop_last());
        let own = if_said(block_text(blocks.last())).map_values(|t: Seq<char>| headed_result(t));
        block_results_are_not_blank(blocks.drop_last());
        assert forall|i: int| 0 <= i < block_results(blocks).len() implies (#[trigger] block_results(blocks)[i]).len() > 0 by {
            if i < front.len() {
                assert(block_results(blocks)[i] == front[i]);
            } else {
                assert(block_results(blocks)[i] == own[i - front.len()]);
            }
        }
    }
}

proof fn joined_pieces_are_not_empty(pieces: Seq<Seq<char>>)
    requires
        forall|i: int| 0 <= i < pieces.len() ==> (#[trigger] pieces[i]).len() > 0,
    ensures
        join(pieces, "\n\n"@).len() == 0 <==> pieces.len() == 0,
{
    if pieces.len() > 0 {
        crate::text::join_holds_each(pieces, "\n\n"@, 0);
        assert(pieces[0].len() > 0);
    }
}

/// The content of a list of blocks is that of its blocks in their order, an empty line
/// between what one says and what the next says, and its calls are theirs in order: the
/// blocks before any place and those from it on can be read on their own, and nothing of
/// either is lost.
pub proof fn blocks_are_read_in_order(a: Seq<JsonView>, b: Seq<JsonView>)
    ensures
        ({
            let x = content_of(Some(JsonView::Array(a)));
            let y = content_of(Some(JsonView::Array(b)));
            let all = content_of(Some(JsonView::Array(a + b)));
            &&& x.0.len() > 0 && y.0.len() > 0 ==> all.0 == x.0 + "\n\n"@ + y.0
            &&& x.0.len() == 0 ==> all.0 == y.0
            &&& y.0.len() == 0 ==> all.0 == x.0
            &&& all.1 == x.1 + y.1
        }),
{
    let x = all_pieces(a);
    let y = all_pieces(b);
    pieces_in_two_steps(a, b);
    pieces_are_not_blank(a);
    pieces_are_not_blank(b);
    joined_pieces_are_not_empty(x);
    joined_pieces_are_not_empty(y);
    if x.len() > 0 && y.len() > 0 {
        crate::text::join_in_two_steps(x, y, "\n\n"@);
    } else if x.len() == 0 {
        assert(x + y =~= y);
    } else {
        assert(x + y =~= x);
    }
}

/// A block says its text, unless that is blank; a result of a tool says what it gave back,
/// under a heading; and a request of a tool says nothing but makes a call.
pub proof fn single_blocks_say_their_text(item: JsonView, t: Seq<char>)
    ensures
        ({
            let one = content_of(Some(JsonView::Array(seq![item])));
            let kind = member_text(item, "type"@);
            &&& kind != Some("toolRequest"@) && kind != Some("toolResult"@) && member_text(item, "text"@) == Some(t)
                && !blank(t) ==> one.0 == t && one.1.len() == 0
            &&& kind != Some("toolRequest"@) && kind != Some("toolResult"@) && member_text(item, "text"@) is None
                ==> one.0.len() == 0 && one.1.len() == 0
            &&& kind == Some("toolResult"@) && member(item, "result"@) == Some(JsonView::Text(t)) && !blank(t) ==> one.0
                == "[Tool Result]\n"@ + t && one.1.len() == 0
            &&& kind == Some("toolRequest"@) ==> one.0.len() == 0
        }),
        content_of(Some(JsonView::Text(t))).0 == t,
        content_of(None).0.len() == 0,
{
    reveal_strlit("toolRequest");
    reveal_strlit("toolResult");
    assert("toolRequest"@.len() == 11 && "toolResult"@.len() == 10);
    let one = seq![item];
    assert(all_pieces(one.drop_last()) =~= Seq::empty());
    assert(all_calls(one.drop_last()) =~= Seq::empty());
    assert(all_pieces(one) =~= item_pieces(item));
    assert(all_calls(one) =~= item_calls(item));
    assert(result_pieces(Some(JsonView::Text(t))) == if_said(Some(t)).map_values(|t: Seq<char>| headed_result(t)));
    if !blank(t) {
        assert(if_said(Some(t)).map_values(|t: Seq<char>| headed_result(t)) =~= seq![headed_result(t)]);
    }
}

/// A request of a tool makes a call of its name and arguments, whether or not they are
/// wrapped as a value.
pub proof fn tool_requests_make_calls(item: JsonView, call: JsonView, value: JsonView)
    requires
        member_text(item, "type"@) == Some("toolRequest"@),
        member(item, "toolCall"@) == Some(call),
        member(call, "value"@) == Some(value) || (member(call, "value"@) is None && value == call),
    ensures
        ({
            let calls = content_of(Some(JsonView::Array(seq![item]))).1;
            &&& calls.len() == 1
            &&& calls[0].kind == "tool"@
            &&& member_text(value, "name"@) matches Some(name) ==> calls[0].name == name
            &&& member_text(value, "name"@) is None ==> calls[0].name == "unknown"@
            &&& calls[0].arguments == member(value, "arguments"@)
            &&& member_text(item, "id"@) matches Some(id) ==> calls[0].call_id == Some(id)
            &&& member(item, "id"@) is None ==> calls[0].call_id == member_text(call, "id"@)
        }),
{
    let one = seq![item];
    assert(all_calls(one.drop_last()) =~= Seq::empty());
    assert(all_calls(one) =~= item_calls(item));
}

/// The blocks of a result that are texts are said one by one, each under the heading.
pub proof fn results_of_blocks_are_said_one_by_one(blocks: Seq<JsonView>, block: JsonView, t: Seq<char>)
    requires
        member_text(block, "type"@) == Some("text"@),
        member_text(block, "text"@) == Some(t),
        !blank(t),
    ensures
        result_pieces(Some(JsonView::Array(blocks.push(block)))) == result_pieces(Some(JsonView::Array(blocks))).push(
            "[Tool Result]\n"@ + t,
        ),
        result_pieces(Some(JsonView::Array(Seq::empty()))).len() == 0,
{
    let more = blocks.push(block);
    assert(more.drop_last() =~= blocks);
    assert(if_said(Some(t)).map_values(|t: Seq<char>| headed_result(t)) =~= seq![headed_result(t)]);
    assert(block_results(blocks) + seq![headed_result(t)] =~= block_results(blocks).push(headed_result(t)));
}

/// A row that has a name and says or calls something is a message: by its role, the
/// assistant where none is given; at its own time; with its own content and calls. What
/// the model is called stands for the author of the assistant.
pub proof fn rows_say_their_content(row: MessageRowView, session_id: Seq<char>, id: Seq<char>, text: Seq<char>)
    requires
        row.message_id == Some(id),
        id.len() > 0,
        row.content_json == Some(text),
    ensures
        ({
            let content = content_of(document_in(text));
            let p = row_message(row, session_id);
            let says = !blank(content.0) || content.1.len() > 0;
            &&& !says ==> p is None
            &&& says ==> {
                &&& p is Some
                &&& p->0.message_id == id
                &&& p->0.message.content == content.0
                &&& p->0.message.invocations == content.1
                &&& p->0.message.created_at == column_millis(row.created_timestamp)
                &&& row.role matches Some(role) ==> p->0.message.role == role
                &&& row.role is None ==> p->0.message.role == "assistant"@
                &&& p->0.message.role != "assistant"@ ==> p->0.message.author == Some("user"@)
                &&& p->0.message.role == "assistant"@ ==> p->0.message.author == model_in(row.metadata_json)
                &&& member(p->0.message.extra, "message_id"@) == Some(JsonView::Text(id))
                &&& member(p->0.message.extra, "session_id"@) == Some(JsonView::Text(session_id))
                &&& row.tokens matches Some(n) ==> member(p->0.message.extra, "tokens"@) == Some(integer_view(n as int))
            }
        }),
{
    extra_names_the_message(id, session_id, row.tokens);
}

proof fn extra_names_the_message(id: Seq<char>, session_id: Seq<char>, tokens: Option<i64>)
    ensures
        ({
            let extra = message_extra(id, session_id, tokens);
            &&& member(extra, "message_id"@) == Some(JsonView::Text(id))
            &&& member(extra, "session_id"@) == Some(JsonView::Text(session_id))
            &&& tokens matches Some(n) ==> member(extra, "tokens"@) == Some(integer_view(n as int))
            &&& tokens is None ==> member(extra, "tokens"@) is None
        }),
{
    if let JsonView::Object(members) = message_extra(id, session_id, tokens) {
        reveal_strlit("message_id");
        reveal_strlit("session_id");
        reveal_strlit("tokens");
        assert("message_id"@[0] != "session_id"@[0]);
        assert("tokens"@.len() == 6 && "message_id"@.len() == 10 && "session_id"@.len() == 10);
        member_is_the_first_of_its_key(JsonView::Null, members, "message_id"@, 0);
        member_is_the_first_of_its_key(JsonView::Null, members, "session_id"@, 1);
        member_is_the_first_of_its_key(JsonView::Null, members, "tokens"@, 2);
    }
}

/// The messages of rows are those that each row makes, and a row that makes none adds none.
pub proof fn rows_are_read_one_by_one(rows: Seq<MessageRowView>, row: MessageRowView, session_id: Seq<char>)
    ensures
        row_messages(Seq::empty(), session_id).len() == 0,
        row_message(row, session_id) matches Some(p) ==> row_messages(rows.push(row), session_id) == row_messages(
            rows,
            session_id,
        ).push(p),
        row_message(row, session_id) is None ==> row_messages(rows.push(row), session_id) == row_messages(
            rows,
            session_id,
        ),
{
    assert(rows.push(row).drop_last() =~= rows);
}

/// What a session of the database is told of in its conversation: its name, its description
/// or else the first line of its first message, where it worked, its own times or else
/// those of its messages, and where it is stored.
pub proof fn sessions_are_told_of(db: Seq<Seq<char>>, s: SessionView, messages: Seq<MessageView>)
    ensures
        messages.len() == 0 <==> session_conversation(db, s, messages) is None,
        session_conversation(db, s, messages) matches Some(c) ==> {
            &&& c.agent_slug == "goose"@
            &&& c.external_id == Some(s.id)
            &&& c.messages == messages
            &&& s.description is Some ==> c.title == s.description
            &&& s.description is None ==> c.title == headline(messages[0].content, 100)
            &&& c.workspace == s.working_dir
            &&& c.source_path == below(db, percent_encoded(vstd::utf8::encode_utf8(s.id)))
            &&& column_millis(s.created_at) matches Some(n) ==> c.started_at == Some(n)
            &&& column_millis(s.created_at) is None ==> is_first_instant(c.started_at, messages)
            &&& column_millis(s.updated_at) matches Some(n) ==> c.ended_at == Some(n)
            &&& column_millis(s.updated_at) is None ==> forall|i: int|
                0 <= i < messages.len() && (#[trigger] messages[i]).created_at is Some ==> is_last_instant(
                    c.ended_at,
                    messages,
                )
            &&& column_millis(s.updated_at) is None && (forall|i: int|
                0 <= i < messages.len() ==> (#[trigger] messages[i]).created_at is None) ==> c.ended_at == c.started_at
            &&& member(c.metadata, "session_id"@) == Some(JsonView::Text(s.id))
            &&& member(c.metadata, "provider_name"@) == Some(nullable_text(s.provider_name))
            &&& member(c.metadata, "session_type"@) == Some(nullable_text(s.session_type))
            &&& member(c.metadata, "model_name"@) == Some(nullable_text(model_in(s.model_config_json)))
            &&& member(c.metadata, "source"@) == Some(JsonView::Text("sqlite"@))
        },
{
    crate::model::instants_of_messages_are_bounded(messages);
    crate::pending::own_titles_are_kept(s.description, messages);
    if let Some(c) = session_conversation(db, s, messages) {
        if let JsonView::Object(members) = c.metadata {
            reveal_strlit("model_name");
            reveal_strlit("provider_name");
            reveal_strlit("session_id");
            reveal_strlit("session_type");
            reveal_strlit("source");
            assert("model_name"@.len() == 10 && "provider_name"@.len() == 13 && "session_id"@.len() == 10);
            assert("session_type"@.len() == 12 && "source"@.len() == 6);
            assert("model_name"@[0] != "session_id"@[0]);
            member_is_the_first_of_its_key(JsonView::Null, members, "model_name"@, 0);
            member_is_the_first_of_its_key(JsonView::Null, members, "provider_name"@, 1);
            member_is_the_first_of_its_key(JsonView::Null, members, "session_id"@, 2);
            member_is_the_first_of_its_key(JsonView::Null, members, "session_type"@, 3);
            member_is_the_first_of_its_key(JsonView::Null, members, "source"@, 4);
        }
    }
}

/// A session that was not met before and is not stale is found with the messages of its own
/// rows, in their order of time; rows that cannot be read end the reading of the database.
pub proof fn sessions_are_found(
    db: Seq<Seq<char>>,
    all: Seq<RowsView>,
    rows: RowsView,
    since: Option<i64>,
)
    requires
        !extract(db, all, since).failed,
        !extract(db, all, since).seen.contains(rows.session.id),
        !is_stale(rows.session, since),
    ensures
        ({
            let before = extract(db, all, since);
            let after = extract(db, all.push(rows), since);
            &&& rows.messages is None ==> after.failed
            &&& rows.messages matches Some(messages) ==> {
                let c = session_conversation(db, rows.session, ordered_messages(row_messages(messages, rows.session.id)));
                &&& !after.failed
                &&& c matches Some(c) ==> after.found == before.found.push(c)
                &&& c is None ==> after.found == before.found
            }
        }),
        extract(db, Seq::empty(), since).found.len() == 0,
        !extract(db, Seq::empty(), since).failed,
        extracted(db, all, since) == Ok::<Seq<ConversationView>, ReadError>(extract(db, all, since).found),
{
    assert(all.push(rows).drop_last() =~= all);
}

/// A line of a log is a message where it says or calls something: by its role, the assistant
/// where none is given, at its own time and under its own name, or that of its place.
pub proof fn lines_say_their_content(
    line: LineView,
    content: (Seq<char>, Seq<InvocationView>),
    session_id: Seq<char>,
    place: int,
)
    ensures
        ({
            let p = message_of_line(line, content, session_id, place);
            let says = !blank(content.0) || content.1.len() > 0;
            &&& !says ==> p is None
            &&& says ==> {
                &&& p is Some
                &&& line.id matches Some(id) ==> p->0.message_id == id
                &&& line.id is None ==> p->0.message_id == session_id + "-"@ + decimal(place as nat)
                &&& p->0.message.content == content.0
                &&& p->0.message.invocations == content.1
                &&& p->0.message.created_at == line_time(line.created_at)
                &&& line.role matches Some(role) ==> p->0.message.role == role
                &&& line.role is None ==> p->0.message.role == "assistant"@
                &&& p->0.message.role == "assistant"@ ==> p->0.message.author == line.model
                &&& p->0.message.role != "assistant"@ ==> p->0.message.author == Some("user"@)
                &&& member(p->0.message.extra, "message_id"@) == Some(JsonView::Text(p->0.message_id))
                &&& member(p->0.message.extra, "session_id"@) == Some(JsonView::Text(session_id))
            }
        }),
{
    extra_names_the_message(or_default(line.id, session_id + "-"@ + decimal(place as nat)), session_id, None);
}

/// The time of a line is a number of seconds where that is plausible, or else of
/// milliseconds, or a text of RFC 3339.
pub proof fn lines_tell_their_time(n: u64, t: Seq<char>)
    ensures
        1_000_000_000 <= n < 10_000_000_000 ==> line_time(Some(JsonView::Unsigned(n))) == Some((n * 1000) as i64),
        10_000_000_000 <= n <= i64::MAX ==> line_time(Some(JsonView::Unsigned(n))) == Some(n as i64),
        rfc3339_millis(t) is Some ==> line_time(Some(JsonView::Text(t))) == rfc3339_millis(t),
        line_time(None) is None,
        line_time(Some(JsonView::Null)) is None,
{
}

/// A log is read line by line: a line that holds a record is the message of that record, and
/// blank lines or others add none.
pub proof fn log_lines_are_read_one_by_one(all: Seq<Seq<char>>, text: Seq<char>, session_id: Seq<char>, r: RecordView, line: LineView)
    requires
        !blank(text),
        record_in(trim(text)) == Some(r),
        line_in(r) == Some(line),
    ensures
        ({
            let p = message_of_line(line, line_content(line.content), session_id, all.len() as int);
            &&& p matches Some(p) ==> log_messages(all.push(text), session_id) == log_messages(all, session_id).push(p)
            &&& p is None ==> log_messages(all.push(text), session_id) == log_messages(all, session_id)
        }),
        log_messages(Seq::empty(), session_id).len() == 0,
        text_in_field(r, "role"@, 0) == Some(line.role),
        text_in_field(r, "model"@, 4) == Some(line.model),
        text_in_fields(r, seq!["id"@, "message_id"@], 3) == Some(line.id),
{
    assert(all.push(text).drop_last() =~= all);
    trim_empty_iff_blank(text);
}

/// A conversation of a log has its messages in their order of time and spans them; its
/// title is the first line of the first.
pub proof fn logs_are_told_of(path: Seq<Seq<char>>, text: Seq<char>, session_id: Seq<char>)
    ensures
        ({
            let c = log_conversation(path, text, session_id);
            &&& c.agent_slug == "goose"@
            &&& c.external_id == Some(session_id)
            &&& c.workspace is None
            &&& c.source_path == path
            &&& c.messages == ordered_messages(log_messages(lines(text), session_id))
            &&& c.messages.len() > 0 ==> c.title == headline(c.messages[0].content, 100)
            &&& is_first_instant(c.started_at, c.messages)
            &&& is_last_instant(c.ended_at, c.messages)
            &&& member(c.metadata, "session_id"@) == Some(JsonView::Text(session_id))
            &&& member(c.metadata, "source"@) == Some(JsonView::Text("jsonl"@))
        }),
{
    let c = log_conversation(path, text, session_id);
    crate::model::instants_of_messages_are_bounded(c.messages);
    crate::pending::own_titles_are_kept(None, c.messages);
    let members = seq![("session_id"@, JsonView::Text(session_id)), ("source"@, JsonView::Text("jsonl"@))];
    reveal_strlit("session_id");
    reveal_strlit("source");
    assert("session_id"@.len() == 10 && "source"@.len() == 6);
    member_is_the_first_of_its_key(JsonView::Null, members, "session_id"@, 0);
    member_is_the_first_of_its_key(JsonView::Null, members, "source"@, 1);
}

/// A session was last touched when it was updated, or else created: it is stale where that
/// is before the given time, and never where no time is given.
pub proof fn sessions_are_stale_before_their_time(s: SessionView, since: i64, touched: i64)
    ensures
        column_millis(s.updated_at) == Some(touched) ==> (is_stale(s, Some(since)) <==> touched < since),
        column_millis(s.updated_at) is None && column_millis(s.created_at) == Some(touched) ==> (is_stale(s, Some(since))
            <==> touched < since),
        !is_stale(s, None),
{
}

/// The model is what a document names as `model`, or else as `model_name`.
pub proof fn models_are_named(v: JsonView, t: Seq<char>)
    ensures
        member_text(v, "model"@) == Some(t) ==> named_model(v) == Some(t),
        member(v, "model"@) is None ==> named_model(v) == member_text(v, "model_name"@),
        forall|text: Seq<char>|
            #![trigger model_in(Some(text))]
            document_in(text) == Some(v) ==> model_in(Some(text)) == named_model(v),
        model_in(None) is None,
{
}

/// A content of a line that is a text says that; a list is read as the blocks of its own
/// text; and any other says nothing.
pub proof fn lines_hold_their_content(t: Seq<char>, items: Seq<JsonView>, v: JsonView)
    ensures
        line_content(Some(JsonView::Text(t))).0 == t,
        line_content(Some(JsonView::Text(t))).1.len() == 0,
        document_in(rendered_json(JsonView::Array(items))) == Some(v) ==> line_content(Some(JsonView::Array(items)))
            == content_of(Some(v)),
        line_content(None).0.len() == 0 && line_content(None).1.len() == 0,
{
}

/// The record of a line gives its content and its time under those names, or in that order;
/// null is as good as nothing.
pub proof fn line_records_are_read(r: RecordView, line: LineView, v: JsonView)
    requires
        line_in(r) == Some(line),
    ensures
        field_value(r, seq!["content"@], 1) == Some(Some(v)) && !(v is Null) ==> line.content == Some(v),
        field_value(r, seq!["content"@], 1) == Some(None::<JsonView>) ==> line.content is None,
        field_value(r, seq!["created_at"@], 2) == Some(Some(v)) && !(v is Null) ==> line.created_at == Some(v),
        field_value(r, seq!["created_at"@], 2) == Some(None::<JsonView>) ==> line.created_at is None,
{
}

/// Lines that are blank or hold no record add no message.
pub proof fn other_lines_add_nothing(all: Seq<Seq<char>>, text: Seq<char>, session_id: Seq<char>)
    ensures
        blank(text) || record_in(trim(text)) is None ==> log_messages(all.push(text), session_id) == log_messages(
            all,
            session_id,
        ),
{
    assert(all.push(text).drop_last() =~= all);
    trim_empty_iff_blank(text);
}

} // verus!
