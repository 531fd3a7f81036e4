//! The update stream of a Grok session, and the history that stands in for it.
use vstd::prelude::*;
use crate::canon::{
    canonical_call, canonical_message, canonical_messages, comes_before, filtered_canonical, inner_canonical,
    messages_change, messages_grow, numbered_canonical, one_member_is_canonical, rising_members_are_canonical,
    with_field_canonical, with_text_canonical,
};
use crate::json::{array_view, canonical, document_in, parse_json, rendered_json, Json, JsonView};
use crate::model::{
    find_last_call, flat_text, flatten_content, is_numbered, last_call, last_call_bounds, make_message, makes_call,
    numbered, numbering, reindex_messages, simple_message, update_time_bounds, Invocation, InvocationView, Message,
    MessageView,
};
use crate::query::{
    assign_text, either, get_in, is_text, member, member_canonical, member_is_the_first_of_its_key, member_of,
    member_text, object, or_default, or_else, owned, put, set_field, str_in, str_or, text_json, with_field,
    with_member_reads_back, with_text,
};
use crate::stamp::{earlier, later, spans, timestamp_in, timestamp_of};
use crate::text::{
    blank, cat3, chars_of, find_from, find_from_sound, has_text, is_blank, join, join_texts, occurs_at,
    position_from, push_text, same_text, text_of, trim, trimmed,
};

verus! {

/// What a piece of the stream is a piece of.
#[derive(Clone, Copy, PartialEq, Eq, Structural)]
pub enum ChunkKind {
    User,
    Thought,
    Agent,
}

/// The kind of update that brings such a piece.
pub open spec fn chunk_label(kind: ChunkKind) -> Seq<char> {
    match kind {
        ChunkKind::User => "user_message_chunk"@,
        ChunkKind::Thought => "agent_thought_chunk"@,
        ChunkKind::Agent => "agent_message_chunk"@,
    }
}

pub fn chunk_kind_label(kind: ChunkKind) -> (r: &'static str)
    ensures
        r@ == chunk_label(kind),
{
    match kind {
        ChunkKind::User => "user_message_chunk",
        ChunkKind::Thought => "agent_thought_chunk",
        ChunkKind::Agent => "agent_message_chunk",
    }
}

/// The kind of piece that an update brings.
pub open spec fn chunk_of(label: Seq<char>) -> Option<ChunkKind> {
    if label == "user_message_chunk"@ {
        Some(ChunkKind::User)
    } else if label == "agent_thought_chunk"@ {
        Some(ChunkKind::Thought)
    } else if label == "agent_message_chunk"@ {
        Some(ChunkKind::Agent)
    } else {
        None
    }
}

fn chunk_in(label: &str) -> (r: Option<ChunkKind>)
    ensures
        r == chunk_of(label@),
{
    if same_text(label, "user_message_chunk") {
        Some(ChunkKind::User)
    } else if same_text(label, "agent_thought_chunk") {
        Some(ChunkKind::Thought)
    } else if same_text(label, "agent_message_chunk") {
        Some(ChunkKind::Agent)
    } else {
        None
    }
}

/// The update that a line carries: in an envelope, in half of one, or bare.
pub open spec fn update_in(val: JsonView) -> JsonView {
    or_default(or_else(member_of(member(val, "params"@), "update"@), member(val, "update"@)), val)
}

/// When a line was written, as exactly as it says.
pub open spec fn line_time(val: JsonView, update: JsonView) -> Option<i64> {
    or_else(
        timestamp_in(member_of(member_of(member(val, "params"@), "_meta"@), "agentTimestampMs"@)),
        or_else(
            timestamp_in(member_of(member(update, "_meta"@), "agentTimestampMs"@)),
            timestamp_in(member(val, "timestamp"@)),
        ),
    )
}

/// When a line was written.
pub fn line_timestamp(val: &Json, update: &Json) -> (r: Option<i64>)
    ensures
        r == line_time(val@, update@),
{
    match timestamp_of(get_in(get_in(val.get("params"), "_meta"), "agentTimestampMs")) {
        Some(t) => Some(t),
        None => match timestamp_of(get_in(update.get("_meta"), "agentTimestampMs")) {
            Some(t) => Some(t),
            None => timestamp_of(val.get("timestamp")),
        },
    }
}

/// The text of a content: one block, a list of them, or a text.
pub open spec fn block_text(v: JsonView) -> Seq<char> {
    match v {
        JsonView::Object(_) => flat_text(JsonView::Array(seq![v])),
        _ => flat_text(v),
    }
}

/// The text of a content.
pub fn acp_content_text(v: &Json) -> (r: String)
    ensures
        r@ == block_text(v@),
{
    broadcast use array_view;

    if v.is_object() {
        let mut one: Vec<Json> = Vec::new();
        one.push(v.copy());
        assert(one.deep_view() =~= seq![v@]);
        flatten_content(&Json::Array(one))
    } else {
        flatten_content(v)
    }
}

pub open spec fn block_text_in(v: Option<JsonView>) -> Seq<char> {
    match v {
        Some(v) => block_text(v),
        None => Seq::empty(),
    }
}

fn content_text_in(v: Option<&Json>) -> (r: String)
    ensures
        r@ == block_text_in(v.deep_view()),
{
    match v {
        Some(v) => acp_content_text(v),
        None => {
            let none = String::new();
            assert(none@ =~= Seq::empty());
            none
        },
    }
}

/// A text that has something in it.
pub open spec fn if_any(t: Seq<char>) -> Option<Seq<char>> {
    if t.len() == 0 {
        None
    } else {
        Some(t)
    }
}

/// A text that is not blank.
pub open spec fn if_said(t: Seq<char>) -> Option<Seq<char>> {
    if blank(t) {
        None
    } else {
        Some(t)
    }
}

/// What an item of the content of a call says.
pub open spec fn call_item(item: JsonView) -> Option<Seq<char>> {
    match member_text(item, "type"@) {
        Some(kind) => if kind == "content"@ {
            match member(item, "content"@) {
                Some(block) => if_any(block_text(block)),
                None => None,
            }
        } else if kind == "diff"@ {
            Some("[Diff: "@ + or_default(member_text(item, "path"@), "file"@) + "]"@)
        } else if kind == "terminal"@ {
            Some("[Terminal output]"@)
        } else {
            if_any(block_text(item))
        },
        None => if_any(block_text(item)),
    }
}

pub open spec fn call_items(items: Seq<JsonView>) -> Seq<Seq<char>>
    decreases items.len(),
{
    if items.len() == 0 {
        Seq::empty()
    } else {
        let front = call_items(items.drop_last());
        match call_item(items.last()) {
            Some(t) => front.push(t),
            None => front,
        }
    }
}

/// The text of the content of a call.
pub open spec fn call_content(v: JsonView) -> Seq<char> {
    match v {
        JsonView::Array(items) => join(call_items(items), "\n"@),
        _ => block_text(v),
    }
}

fn some_if_any(t: String) -> (r: Option<String>)
    ensures
        r.deep_view() == if_any(t@),
{
    if t.as_str().is_empty() {
        None
    } else {
        Some(t)
    }
}

fn item_of_call(item: &Json) -> (r: Option<String>)
    ensures
        r.deep_view() == call_item(item@),
{
    let kind = item.get_str("type");
    if is_text(kind, "content") {
        match item.get("content") {
            Some(block) => some_if_any(acp_content_text(block)),
            None => None,
        }
    } else if is_text(kind, "diff") {
        Some(cat3("[Diff: ", str_or(item.get_str("path"), "file"), "]"))
    } else if is_text(kind, "terminal") {
        Some("[Terminal output]".to_owned())
    } else {
        some_if_any(acp_content_text(item))
    }
}

/// The text of the content of a call.
pub fn flatten_tool_content(v: &Json) -> (r: String)
    ensures
        r@ == call_content(v@),
{
    broadcast use array_view;

    match v {
        Json::Array(items) => {
            let ghost all = items.deep_view();
            let mut parts: Vec<String> = Vec::new();
            let mut i: usize = 0;
            assert(all.take(0) =~= Seq::empty());
            assert(parts.deep_view() =~= Seq::empty());
            while i < items.len()
                invariant
                    i <= items@.len(),
                    all == items.deep_view(),
                    parts.deep_view() == call_items(all.take(i as int)),
                decreases items.len() - i,
            {
                let ghost before = parts.deep_view();
                assert(all.take(i + 1).drop_last() =~= all.take(i as int));
                assert(all.take(i + 1).last() == items@[i as int]@);
                if let Some(text) = item_of_call(&items[i]) {
                    let ghost said = text@;
                    parts.push(text);
                    assert(parts.deep_view() =~= before.push(said));
                }
                i = i + 1;
            }
            assert(all.take(all.len() as int) =~= all);
            join_texts(&parts, "\n")
        },
        _ => acp_content_text(v),
    }
}

/// What a call gave back: the content of the update, or what it says raw.
pub open spec fn output_of(update: JsonView) -> Option<Seq<char>> {
    let content = match member(update, "content"@) {
        Some(content) => if_said(call_content(content)),
        None => None,
    };
    or_else(
        content,
        match member(update, "rawOutput"@) {
            None => None,
            Some(JsonView::Null) => None,
            Some(raw) => Some(or_default(if_said(block_text(raw)), rendered_json(raw))),
        },
    )
}

/// What a call gave back.
pub fn tool_output_text(update: &Json) -> (r: Option<String>)
    requires
        canonical(update@),
    ensures
        r.deep_view() == output_of(update@),
{
    if let Some(content) = update.get("content") {
        let text = flatten_tool_content(content);
        if !is_blank(text.as_str()) {
            return Some(text);
        }
    }
    proof {
        member_canonical(update@, "rawOutput"@);
    }
    match update.get("rawOutput") {
        None => None,
        Some(raw) => {
            if raw.is_null() {
                return None;
            }
            let text = acp_content_text(raw);
            if is_blank(text.as_str()) {
                Some(raw.render())
            } else {
                Some(text)
            }
        },
    }
}

/// A document that is there and not null.
pub open spec fn if_set(v: Option<JsonView>) -> Option<JsonView> {
    match v {
        Some(JsonView::Null) => None,
        other => other,
    }
}

pub fn copied_if_set(v: Option<&Json>) -> (r: Option<Json>)
    ensures
        r.deep_view() == if_set(v.deep_view()),
{
    match v {
        Some(v) => if v.is_null() {
            None
        } else {
            Some(v.copy())
        },
        None => None,
    }
}

/// What was read of a stream so far: the messages, what the last of them may go on
/// as, and the span of time.
pub struct MessageBuilder {
    pub messages: Vec<Message>,
    pub last_kind: Option<ChunkKind>,
    pub started_at: Option<i64>,
    pub ended_at: Option<i64>,
}

#[verifier::ext_equal]
pub struct BuilderView {
    pub messages: Seq<MessageView>,
    pub last_kind: Option<ChunkKind>,
    pub started_at: Option<i64>,
    pub ended_at: Option<i64>,
}

impl DeepView for MessageBuilder {
    type V = BuilderView;

    open spec fn deep_view(&self) -> BuilderView {
        BuilderView {
            messages: self.messages.deep_view(),
            last_kind: self.last_kind,
            started_at: self.started_at,
            ended_at: self.ended_at,
        }
    }
}

pub open spec fn nothing_built() -> BuilderView {
    BuilderView { messages: Seq::empty(), last_kind: None, started_at: None, ended_at: None }
}

/// The message that a piece begins.
pub open spec fn chunk_message(
    kind: ChunkKind,
    text: Seq<char>,
    ts: Option<i64>,
    author: Option<Seq<char>>,
) -> MessageView {
    MessageView {
        author: if kind is Thought {
            or_else(author, Some("reasoning"@))
        } else {
            author
        },
        ..simple_message(
            if kind is User {
                "user"@
            } else {
                "assistant"@
            },
            ts,
            text,
            JsonView::Object(seq![("sessionUpdate"@, JsonView::Text(chunk_label(kind)))]),
        )
    }
}

/// A message that goes on with another piece.
pub open spec fn extended(m: MessageView, text: Seq<char>, ts: Option<i64>, author: Option<Seq<char>>) -> MessageView {
    MessageView {
        content: m.content + text,
        created_at: or_else(m.created_at, ts),
        author: or_else(m.author, author),
        ..m
    }
}

/// A piece goes on with the last message if that is of its kind, and begins one
/// otherwise.
pub open spec fn after_chunk(
    b: BuilderView,
    kind: ChunkKind,
    text: Seq<char>,
    ts: Option<i64>,
    author: Option<Seq<char>>,
) -> BuilderView {
    if b.last_kind == Some(kind) && b.messages.len() > 0 {
        let n = b.messages.len() - 1;
        BuilderView { messages: b.messages.update(n, extended(b.messages[n], text, ts, author)), ..b }
    } else {
        BuilderView {
            messages: b.messages.push(chunk_message(kind, text, ts, author)),
            last_kind: Some(kind),
            ..b
        }
    }
}

/// What a call is named.
pub open spec fn call_title(update: JsonView) -> Seq<char> {
    match or_else(member_text(update, "title"@), member_text(update, "kind"@)) {
        Some(name) => or_default(if_said(name), "tool"@),
        None => "tool"@,
    }
}

/// What is kept of a call.
pub open spec fn call_extra(update: JsonView) -> JsonView {
    JsonView::Object(
        with_text(
            with_text(
                seq![("sessionUpdate"@, JsonView::Text("tool_call"@))],
                "status"@,
                member_text(update, "status"@),
            ),
            "tool_kind"@,
            member_text(update, "kind"@),
        ),
    )
}

/// The message of a call.
pub open spec fn call_message(update: JsonView, ts: Option<i64>) -> MessageView {
    MessageView {
        invocations: seq![
            InvocationView {
                kind: "tool"@,
                name: call_title(update),
                raw_name: None,
                call_id: member_text(update, "toolCallId"@),
                arguments: if_set(member(update, "rawInput"@)),
            },
        ],
        ..simple_message("tool"@, ts, or_default(output_of(update), Seq::empty()), call_extra(update))
    }
}

/// A call is a message of its own, and what comes behind it begins another.
pub open spec fn after_call(b: BuilderView, update: JsonView, ts: Option<i64>) -> BuilderView {
    BuilderView { messages: b.messages.push(call_message(update, ts)), last_kind: None, ..b }
}

/// A call with what an update says of it.
pub open spec fn merged_call(call: InvocationView, update: JsonView) -> InvocationView {
    InvocationView {
        name: match member_text(update, "title"@) {
            Some(title) => or_default(if_said(title), call.name),
            None => call.name,
        },
        arguments: or_else(if_set(member(update, "rawInput"@)), call.arguments),
        ..call
    }
}

/// The message of a call with what an update says of it.
pub open spec fn merged(m: MessageView, update: JsonView, ts: Option<i64>) -> MessageView {
    MessageView {
        invocations: if m.invocations.len() > 0 {
            m.invocations.update(0, merged_call(m.invocations[0], update))
        } else {
            m.invocations
        },
        content: or_default(output_of(update), m.content),
        extra: match member_text(update, "status"@) {
            Some(status) => with_field(m.extra, "status"@, JsonView::Text(status)),
            None => m.extra,
        },
        created_at: or_else(m.created_at, ts),
        ..m
    }
}

/// The message of the call that an update is about.
pub open spec fn owner_of(messages: Seq<MessageView>, update: JsonView) -> Option<int> {
    match member_text(update, "toolCallId"@) {
        Some(id) => last_call(messages, id),
        None => None,
    }
}

/// An update of a call goes to the message of that call; one of an unknown call is
/// a message of its own.
pub open spec fn after_call_update(b: BuilderView, update: JsonView, ts: Option<i64>) -> BuilderView {
    match owner_of(b.messages, update) {
        Some(i) => BuilderView { messages: b.messages.update(i, merged(b.messages[i], update, ts)), ..b },
        None => after_call(b, update, ts),
    }
}

/// Who speaks in a piece: the model, where an agent does.
pub open spec fn chunk_author(kind: ChunkKind, update: JsonView, model: Option<Seq<char>>) -> Option<Seq<char>> {
    if kind is Agent {
        or_else(
            match member_of(member(update, "_meta"@), "modelId"@) {
                Some(JsonView::Text(id)) => Some(id),
                _ => None,
            },
            model,
        )
    } else {
        None
    }
}

/// What an update of a known kind does; others do nothing.
pub open spec fn after_update(
    b: BuilderView,
    label: Seq<char>,
    update: JsonView,
    ts: Option<i64>,
    model: Option<Seq<char>>,
) -> BuilderView {
    match chunk_of(label) {
        Some(kind) => {
            let text = block_text_in(member(update, "content"@));
            if text.len() == 0 {
                b
            } else {
                after_chunk(b, kind, text, ts, chunk_author(kind, update, model))
            }
        },
        None => if label == "tool_call"@ {
            after_call(b, update, ts)
        } else if label == "tool_call_update"@ {
            after_call_update(b, update, ts)
        } else {
            b
        },
    }
}

/// What a line of the stream does: every update widens the span of time.
pub open spec fn after_event(b: BuilderView, val: JsonView, model: Option<Seq<char>>) -> BuilderView {
    let update = update_in(val);
    match member_text(update, "sessionUpdate"@) {
        None => b,
        Some(label) => {
            let ts = line_time(val, update);
            after_update(
                BuilderView { started_at: earlier(b.started_at, ts), ended_at: later(b.ended_at, ts), ..b },
                label,
                update,
                ts,
                model,
            )
        },
    }
}

/// What a line does: one that is blank or no document does nothing.
pub open spec fn after_line(b: BuilderView, line: Seq<char>, model: Option<Seq<char>>) -> BuilderView {
    if blank(line) {
        b
    } else {
        match document_in(trim(line)) {
            Some(val) => after_event(b, val, model),
            None => b,
        }
    }
}

pub open spec fn built(lines: Seq<Seq<char>>, model: Option<Seq<char>>) -> BuilderView
    decreases lines.len(),
{
    if lines.len() == 0 {
        nothing_built()
    } else {
        after_line(built(lines.drop_last(), model), lines.last(), model)
    }
}

/// Whether a message says something or calls something.
pub open spec fn is_kept(m: MessageView) -> bool {
    !blank(m.content) || m.invocations.len() > 0
}

/// The messages that are kept, each with its place.
pub open spec fn finished(messages: Seq<MessageView>) -> Seq<MessageView> {
    numbered(messages.filter(|m: MessageView| is_kept(m)))
}

fn merge_call(call: &Invocation, update: &Json) -> (r: Invocation)
    ensures
        r.deep_view() == merged_call(call.deep_view(), update@),
{
    let mut out = call.copy();
    if let Some(title) = update.get_str("title") {
        if !is_blank(title) {
            out.name = title.to_owned();
        }
    }
    if let Some(input) = copied_if_set(update.get("rawInput")) {
        out.arguments = Some(input);
    }
    out
}

fn merge_message(m: &Message, update: &Json, ts: Option<i64>) -> (r: Message)
    requires
        canonical(update@),
    ensures
        r.deep_view() == merged(m.deep_view(), update@, ts),
{
    let mut out = m.copy();
    if out.invocations.len() > 0 {
        let ghost calls = out.invocations.deep_view();
        assert(calls[0] == out.invocations@[0].deep_view());
        let call = merge_call(&out.invocations[0], update);
        out.invocations.set(0, call);
        assert(out.invocations.deep_view() =~= calls.update(0, merged_call(calls[0], update@)));
    }
    if let Some(output) = tool_output_text(update) {
        out.content = output;
    }
    if let Some(status) = update.get_str("status") {
        out.extra = set_field(m.extra.copy(), "status", text_json(status));
    }
    if out.created_at.is_none() {
        out.created_at = ts;
    }
    out
}

impl MessageBuilder {
    pub fn new() -> (r: MessageBuilder)
        ensures
            r.deep_view() == nothing_built(),
    {
        let messages: Vec<Message> = Vec::new();
        assert(messages.deep_view() =~= Seq::empty());
        MessageBuilder { messages, last_kind: None, started_at: None, ended_at: None }
    }

    /// Takes a piece.
    pub fn push_chunk(&mut self, kind: ChunkKind, text: &str, ts: Option<i64>, author: Option<String>)
        ensures
            final(self).deep_view() == after_chunk(old(self).deep_view(), kind, text@, ts, author.deep_view()),
    {
        let ghost before = self.messages.deep_view();
        let n = self.messages.len();
        if self.last_kind == Some(kind) && n > 0 {
            let mut m = self.messages[n - 1].copy();
            assert(m.deep_view() == before[n - 1]);
            push_text(&mut m.content, text);
            if m.created_at.is_none() {
                m.created_at = ts;
            }
            if m.author.is_none() {
                m.author = author;
            }
            self.messages.set(n - 1, m);
            assert(self.messages.deep_view() =~= before.update(
                n - 1,
                extended(before[n - 1], text@, ts, author.deep_view()),
            ));
            return;
        }
        let role = match kind {
            ChunkKind::User => "user",
            _ => "assistant",
        };
        let author = match kind {
            ChunkKind::Thought => match author {
                Some(name) => Some(name),
                None => Some("reasoning".to_owned()),
            },
            _ => author,
        };
        let mut extra: Vec<(String, Json)> = Vec::new();
        put(&mut extra, "sessionUpdate", text_json(chunk_kind_label(kind)));
        assert(extra.deep_view() =~= seq![("sessionUpdate"@, JsonView::Text(chunk_label(kind)))]);
        let mut m = make_message(role, ts, text.to_owned(), object(extra));
        m.author = author;
        let ghost said = m.deep_view();
        self.messages.push(m);
        self.last_kind = Some(kind);
        assert(self.messages.deep_view() =~= before.push(said));
    }

    /// Takes a call.
    pub fn push_tool_call(&mut self, update: &Json, ts: Option<i64>)
        requires
            canonical(update@),
        ensures
            final(self).deep_view() == after_call(old(self).deep_view(), update@, ts),
    {
        let ghost before = self.messages.deep_view();
        let named = match update.get_str("title") {
            Some(title) => Some(title),
            None => update.get_str("kind"),
        };
        let name = match named {
            Some(name) => if is_blank(name) {
                "tool"
            } else {
                name
            },
            None => "tool",
        };
        let call = Invocation {
            kind: "tool".to_owned(),
            name: name.to_owned(),
            raw_name: None,
            call_id: owned(update.get_str("toolCallId")),
            arguments: copied_if_set(update.get("rawInput")),
        };
        let ghost made = call.deep_view();
        let mut invocations: Vec<Invocation> = Vec::new();
        invocations.push(call);
        assert(invocations.deep_view() =~= seq![made]);
        let mut extra: Vec<(String, Json)> = Vec::new();
        put(&mut extra, "sessionUpdate", text_json("tool_call"));
        assert(extra.deep_view() =~= seq![("sessionUpdate"@, JsonView::Text("tool_call"@))]);
        assign_text(&mut extra, "status", update.get_str("status"));
        assign_text(&mut extra, "tool_kind", update.get_str("kind"));
        let content = match tool_output_text(update) {
            Some(text) => text,
            None => {
                let none = String::new();
                assert(none@ =~= Seq::empty());
                none
            },
        };
        let mut m = make_message("tool", ts, content, object(extra));
        m.invocations = invocations;
        let ghost said = m.deep_view();
        self.messages.push(m);
        self.last_kind = None;
        assert(self.messages.deep_view() =~= before.push(said));
    }

    /// Takes an update of a call.
    pub fn push_tool_call_update(&mut self, update: &Json, ts: Option<i64>)
        requires
            canonical(update@),
        ensures
            final(self).deep_view() == after_call_update(old(self).deep_view(), update@, ts),
    {
        let ghost before = self.messages.deep_view();
        let owner = match update.get_str("toolCallId") {
            Some(id) => find_last_call(&self.messages, id),
            None => None,
        };
        match owner {
            Some(i) => {
                assert(before[i as int] == self.messages@[i as int].deep_view());
                let m = merge_message(&self.messages[i], update, ts);
                self.messages.set(i, m);
                assert(self.messages.deep_view() =~= before.update(
                    i as int,
                    merged(before[i as int], update@, ts),
                ));
            },
            None => {
                self.push_tool_call(update, ts);
            },
        }
    }

    fn take_update(&mut self, label: &str, update: &Json, ts: Option<i64>, model: Option<&str>)
        requires
            canonical(update@),
        ensures
            final(self).deep_view() == after_update(old(self).deep_view(), label@, update@, ts, model.deep_view()),
    {
        match chunk_in(label) {
            Some(kind) => {
                let text = content_text_in(update.get("content"));
                if text.as_str().is_empty() {
                    return;
                }
                let author = match kind {
                    ChunkKind::Agent => match str_in(get_in(update.get("_meta"), "modelId")) {
                        Some(id) => Some(id.to_owned()),
                        None => owned(model),
                    },
                    _ => None,
                };
                self.push_chunk(kind, text.as_str(), ts, author);
            },
            None => {
                if same_text(label, "tool_call") {
                    self.push_tool_call(update, ts);
                } else if same_text(label, "tool_call_update") {
                    self.push_tool_call_update(update, ts);
                }
            },
        }
    }

    /// Takes a line that is a document.
    pub fn take_event(&mut self, val: &Json, model: Option<&str>)
        requires
            canonical(val@),
        ensures
            final(self).deep_view() == after_event(old(self).deep_view(), val@, model.deep_view()),
    {
        proof {
            member_canonical(val@, "params"@);
            member_canonical(val@, "update"@);
            if let Some(params) = member(val@, "params"@) {
                member_canonical(params, "update"@);
            }
        }
        let update = match either(get_in(val.get("params"), "update"), val.get("update")) {
            Some(update) => update,
            None => val,
        };
        assert(update@ == update_in(val@));
        let label = match update.get_str("sessionUpdate") {
            Some(label) => label,
            None => return,
        };
        let ts = line_timestamp(val, update);
        update_time_bounds(&mut self.started_at, &mut self.ended_at, ts);
        self.take_update(label, update, ts, model);
    }

    /// Takes a line.
    pub fn take_line(&mut self, line: &str, model: Option<&str>)
        ensures
            final(self).deep_view() == after_line(old(self).deep_view(), line@, model.deep_view()),
    {
        if is_blank(line) {
            return;
        }
        let text = trimmed(line);
        if let Some(val) = parse_json(text.as_str()) {
            self.take_event(&val, model);
        }
    }

    /// The messages that are kept.
    pub fn finish(self) -> (r: Vec<Message>)
        ensures
            r.deep_view() == finished(self.messages.deep_view()),
    {
        reveal(Seq::filter);
        let ghost all = self.messages.deep_view();
        let ghost kept = |m: MessageView| is_kept(m);
        let mut out: Vec<Message> = Vec::new();
        assert(all.take(0) =~= Seq::empty());
        assert(out.deep_view() =~= Seq::empty());
        for m in it: self.messages
            invariant
                it.seq() == self.messages@,
                all == self.messages.deep_view(),
                kept == (|m: MessageView| is_kept(m)),
                out.deep_view() == all.take(it.index() as int).filter(kept),
        {
            reveal(Seq::filter);
            let ghost i = it.index() as int;
            let ghost before = out.deep_view();
            let ghost here = m.deep_view();
            assert(all.take(i + 1).drop_last() =~= all.take(i));
            assert(all.take(i + 1).last() == here);
            if !is_blank(m.content.as_str()) || m.invocations.len() > 0 {
                out.push(m);
                assert(out.deep_view() =~= before.push(here));
            }
        }
        assert(all.take(all.len() as int) =~= all);
        assert(all.filter(kept) =~= all.filter(|m: MessageView| is_kept(m)));
        reindex_messages(&mut out);
        out
    }
}

/// Reads a stream.
pub fn parse_updates(lines: &Vec<String>, model: Option<&str>) -> (r: MessageBuilder)
    ensures
        r.deep_view() == built(lines.deep_view(), model.deep_view()),
{
    let ghost all = lines.deep_view();
    let mut b = MessageBuilder::new();
    let mut i: usize = 0;
    assert(all.take(0) =~= Seq::empty());
    while i < lines.len()
        invariant
            i <= lines@.len(),
            all == lines.deep_view(),
            b.deep_view() == built(all.take(i as int), model.deep_view()),
        decreases lines.len() - i,
    {
        assert(all.take(i + 1).drop_last() =~= all.take(i as int));
        assert(all.take(i + 1).last() == lines@[i as int]@);
        b.take_line(lines[i].as_str(), model);
        i = i + 1;
    }
    assert(all.take(all.len() as int) =~= all);
    b
}

/// What stands between marks behind a position, each without the space around it.
pub open spec fn tagged_from(s: Seq<char>, open: Seq<char>, close: Seq<char>, from: int) -> Seq<Seq<char>>
    decreases s.len() - from,
    when 0 <= from && open.len() > 0
{
    proof {
        find_from_sound(s, open, from);
        if let Some(i) = find_from(s, open, from) {
            find_from_sound(s, close, i + open.len());
        }
    }
    match find_from(s, open, from) {
        None => Seq::empty(),
        Some(i) => match find_from(s, close, i + open.len()) {
            None => Seq::empty(),
            Some(end) => seq![trim(s.subrange(i + open.len(), end))] + tagged_from(
                s,
                open,
                close,
                end + close.len(),
            ),
        },
    }
}

/// What stands between the marks of a tag.
pub open spec fn tagged(s: Seq<char>, tag: Seq<char>) -> Seq<Seq<char>> {
    tagged_from(s, "<"@ + tag + ">"@, "</"@ + tag + ">"@, 0)
}

/// What stands between the marks of a tag.
pub fn extract_tagged_blocks(content: &str, tag: &str) -> (r: Vec<String>)
    ensures
        r.deep_view() == tagged(content@, tag@),
{
    let chars = chars_of(content);
    let open = chars_of(cat3("<", tag, ">").as_str());
    let close = chars_of(cat3("</", tag, ">").as_str());
    proof {
        reveal_strlit("<");
        reveal_strlit("</");
    }
    let ghost s = content@;
    let mut out: Vec<String> = Vec::new();
    let mut from: usize = 0;
    let total = chars.len();
    assert(out.deep_view() + tagged_from(s, open@, close@, 0) =~= tagged(s, tag@));
    loop
        invariant
            chars@ == s,
            s == content@,
            total == s.len(),
            open@.len() > 0,
            close@.len() > 0,
            from <= s.len(),
            tagged(s, tag@) == out.deep_view() + tagged_from(s, open@, close@, from as int),
        decreases s.len() - from,
    {
        let ghost before = out.deep_view();
        proof {
            find_from_sound(s, open@, from as int);
        }
        let start = match position_from(&chars, &open, from) {
            Some(i) => i + open.len(),
            None => {
                assert(out.deep_view() =~= tagged(s, tag@));
                return out;
            },
        };
        proof {
            find_from_sound(s, close@, start as int);
        }
        let end = match position_from(&chars, &close, start) {
            Some(end) => end,
            None => {
                assert(out.deep_view() =~= tagged(s, tag@));
                return out;
            },
        };
        let block = trimmed(text_of(&chars, start, end).as_str());
        let ghost said = block@;
        out.push(block);
        assert(out.deep_view() =~= before.push(said));
        from = end + close.len();
        assert(before + (seq![said] + tagged_from(s, open@, close@, from as int)) =~= out.deep_view() + tagged_from(
            s,
            open@,
            close@,
            from as int,
        ));
    }
}

/// What a user asked: what stands between the marks of a query, or all of it.
pub open spec fn query_text(text: Seq<char>) -> Seq<char> {
    let queries = tagged(text, "user_query"@);
    if queries.len() == 0 {
        trim(text)
    } else {
        join(queries, "\n\n"@)
    }
}

/// The message of a document of the history: one that a user asked, or an answer.
pub open spec fn history_message(val: JsonView) -> Option<MessageView> {
    let text = block_text_in(member(val, "content"@));
    let kind = or_default(member_text(val, "type"@), ""@);
    if kind == "user"@ {
        match member(val, "prompt_index"@) {
            None => None,
            Some(n) => if member(val, "synthetic_reason"@) is Some || query_text(text).len() == 0 {
                None
            } else {
                Some(
                    simple_message(
                        "user"@,
                        None,
                        query_text(text),
                        JsonView::Object(
                            seq![("chat_history_fallback"@, JsonView::Bool(true)), ("prompt_index"@, n)],
                        ),
                    ),
                )
            },
        }
    } else if kind == "assistant"@ {
        if blank(text) {
            None
        } else {
            Some(
                simple_message(
                    "assistant"@,
                    None,
                    text,
                    JsonView::Object(seq![("chat_history_fallback"@, JsonView::Bool(true))]),
                ),
            )
        }
    } else {
        None
    }
}

/// The message of a line of the history.
pub open spec fn history_line(line: Seq<char>) -> Option<MessageView> {
    if blank(line) {
        None
    } else {
        match document_in(trim(line)) {
            Some(val) => history_message(val),
            None => None,
        }
    }
}

pub open spec fn history_messages(lines: Seq<Seq<char>>) -> Seq<MessageView>
    decreases lines.len(),
{
    if lines.len() == 0 {
        Seq::empty()
    } else {
        let front = history_messages(lines.drop_last());
        match history_line(lines.last()) {
            Some(m) => front.push(m),
            None => front,
        }
    }
}

/// The message that an entry of the history holds.
pub fn read_history_message(val: &Json) -> (r: Option<Message>)
    ensures
        r.deep_view() == history_message(val@),
{
    let kind = str_or(val.get_str("type"), "");
    let text = content_text_in(val.get("content"));
    if same_text(kind, "user") {
        if val.get("synthetic_reason").is_some() {
            return None;
        }
        let n = match val.get("prompt_index") {
            Some(n) => n.copy(),
            None => return None,
        };
        let queries = extract_tagged_blocks(text.as_str(), "user_query");
        let body = if queries.len() == 0 {
            trimmed(text.as_str())
        } else {
            join_texts(&queries, "\n\n")
        };
        assert(body@ == query_text(text@));
        if body.as_str().is_empty() {
            return None;
        }
        let ghost index = n@;
        let mut extra: Vec<(String, Json)> = Vec::new();
        put(&mut extra, "chat_history_fallback", Json::Bool(true));
        put(&mut extra, "prompt_index", n);
        assert(extra.deep_view() =~= seq![
            ("chat_history_fallback"@, JsonView::Bool(true)),
            ("prompt_index"@, index),
        ]);
        Some(make_message("user", None, body, object(extra)))
    } else if same_text(kind, "assistant") {
        if is_blank(text.as_str()) {
            return None;
        }
        let mut extra: Vec<(String, Json)> = Vec::new();
        put(&mut extra, "chat_history_fallback", Json::Bool(true));
        assert(extra.deep_view() =~= seq![("chat_history_fallback"@, JsonView::Bool(true))]);
        Some(make_message("assistant", None, text, object(extra)))
    } else {
        None
    }
}

/// The messages of the history, each with its place.
pub fn parse_chat_history_fallback(lines: &Vec<String>) -> (r: Vec<Message>)
    ensures
        r.deep_view() == numbered(history_messages(lines.deep_view())),
{
    let ghost all = lines.deep_view();
    let mut out: Vec<Message> = Vec::new();
    let mut i: usize = 0;
    assert(all.take(0) =~= Seq::empty());
    assert(out.deep_view() =~= Seq::empty());
    while i < lines.len()
        invariant
            i <= lines@.len(),
            all == lines.deep_view(),
            out.deep_view() == history_messages(all.take(i as int)),
        decreases lines.len() - i,
    {
        let ghost before = out.deep_view();
        assert(all.take(i + 1).drop_last() =~= all.take(i as int));
        assert(all.take(i + 1).last() == lines@[i as int]@);
        let line = lines[i].as_str();
        if !is_blank(line) {
            let text = trimmed(line);
            if let Some(val) = parse_json(text.as_str()) {
                if let Some(m) = read_history_message(&val) {
                    let ghost said = m.deep_view();
                    out.push(m);
                    assert(out.deep_view() =~= before.push(said));
                }
            }
        }
        i = i + 1;
    }
    assert(all.take(all.len() as int) =~= all);
    reindex_messages(&mut out);
    out
}

/// Pieces of one kind that follow one another are one message, whose content is
/// theirs in order.
pub proof fn pieces_of_a_kind_are_one_message(
    b: BuilderView,
    kind: ChunkKind,
    first: Seq<char>,
    second: Seq<char>,
    ts: Option<i64>,
    later_ts: Option<i64>,
    author: Option<Seq<char>>,
    later_author: Option<Seq<char>>,
)
    ensures
        ({
            let one = after_chunk(b, kind, first, ts, author);
            let two = after_chunk(one, kind, second, later_ts, later_author);
            &&& one.messages.len() > 0
            &&& two.messages.len() == one.messages.len()
            &&& two.messages.last().content == one.messages.last().content + second
            &&& two.messages.drop_last() == one.messages.drop_last()
        }),
{
    let one = after_chunk(b, kind, first, ts, author);
    let two = after_chunk(one, kind, second, later_ts, later_author);
    assert(two.messages.drop_last() =~= one.messages.drop_last());
}

/// An update of a kind that is not known changes no message, and does not end the
/// message that pieces go on with.
pub proof fn unknown_updates_are_skipped(
    b: BuilderView,
    label: Seq<char>,
    update: JsonView,
    ts: Option<i64>,
    model: Option<Seq<char>>,
)
    requires
        chunk_of(label) is None,
        label != "tool_call"@,
        label != "tool_call_update"@,
    ensures
        after_update(b, label, update, ts, model) == b,
{
}

/// An update of a call that was made changes the message of that call and no other.
/// It leaves the name of the call in place, and what it gives back takes the place
/// of what was given back before.
pub proof fn call_updates_go_to_their_call(b: BuilderView, update: JsonView, ts: Option<i64>, id: Seq<char>)
    requires
        member_text(update, "toolCallId"@) == Some(id),
        exists|i: int| 0 <= i < b.messages.len() && makes_call(#[trigger] b.messages[i], id),
    ensures
        last_call(b.messages, id) matches Some(i) && {
            let after = after_call_update(b, update, ts);
            &&& 0 <= i < b.messages.len()
            &&& after.messages.len() == b.messages.len()
            &&& makes_call(after.messages[i], id)
            &&& output_of(update) matches Some(output) ==> after.messages[i].content == output
            &&& output_of(update) is None ==> after.messages[i].content == b.messages[i].content
            &&& forall|k: int| 0 <= k < b.messages.len() && k != i ==> after.messages[k] == #[trigger] b.messages[k]
        },
{
    last_call_bounds(b.messages, id);
}

/// No activity is dropped: an update of a call that was not made is a message of
/// its own.
pub proof fn updates_of_unknown_calls_are_kept(b: BuilderView, update: JsonView, ts: Option<i64>)
    requires
        owner_of(b.messages, update) is None,
    ensures
        after_call_update(b, update, ts).messages == b.messages.push(call_message(update, ts)),
{
}

/// The messages of a stream are numbered, and each says or calls something.
pub proof fn finished_messages_are_sound(messages: Seq<MessageView>)
    ensures
        is_numbered(finished(messages)),
        forall|i: int| 0 <= i < finished(messages).len() ==> is_kept(#[trigger] finished(messages)[i]),
{
    broadcast use vstd::seq_lib::group_filter_ensures;

    let kept = messages.filter(|m: MessageView| is_kept(m));
    numbering(kept);
    assert forall|i: int| 0 <= i < finished(messages).len() implies is_kept(#[trigger] finished(messages)[i]) by {
        assert(is_kept(kept[i]));
    }
}

/// The span of a stream ends where it starts or later.
pub proof fn stream_spans(lines: Seq<Seq<char>>, model: Option<Seq<char>>)
    ensures
        spans(built(lines, model).started_at, built(lines, model).ended_at),
    decreases lines.len(),
{
    if lines.len() > 0 {
        stream_spans(lines.drop_last(), model);
    }
}

/// No message of the history is empty.
pub proof fn history_is_said(lines: Seq<Seq<char>>)
    ensures
        forall|i: int|
            0 <= i < history_messages(lines).len() ==> (#[trigger] history_messages(lines)[i]).content.len() > 0,
    decreases lines.len(),
{
    if lines.len() > 0 {
        history_is_said(lines.drop_last());
    }
}

proof fn chunk_keeps_canonical(
    b: BuilderView,
    kind: ChunkKind,
    text: Seq<char>,
    ts: Option<i64>,
    author: Option<Seq<char>>,
)
    requires
        canonical_messages(b.messages),
    ensures
        canonical_messages(after_chunk(b, kind, text, ts, author).messages),
{
    if b.last_kind == Some(kind) && b.messages.len() > 0 {
        let n = b.messages.len() - 1;
        assert(canonical_message(b.messages[n]));
        messages_change(b.messages, n, extended(b.messages[n], text, ts, author));
    } else {
        one_member_is_canonical("sessionUpdate"@, JsonView::Text(chunk_label(kind)));
        messages_grow(b.messages, chunk_message(kind, text, ts, author));
    }
}

proof fn call_message_is_canonical(update: JsonView, ts: Option<i64>)
    requires
        canonical(update),
    ensures
        canonical_message(call_message(update, ts)),
{
    let first = seq![("sessionUpdate"@, JsonView::Text("tool_call"@))];
    member_canonical(update, "rawInput"@);
    one_member_is_canonical("sessionUpdate"@, JsonView::Text("tool_call"@));
    with_text_canonical(first, "status"@, member_text(update, "status"@));
    with_text_canonical(
        with_text(first, "status"@, member_text(update, "status"@)),
        "tool_kind"@,
        member_text(update, "kind"@),
    );
}

proof fn merged_is_canonical(m: MessageView, update: JsonView, ts: Option<i64>)
    requires
        canonical_message(m),
        canonical(update),
    ensures
        canonical_message(merged(m, update, ts)),
{
    let calls = merged(m, update, ts).invocations;
    member_canonical(update, "rawInput"@);
    assert forall|i: int| 0 <= i < calls.len() implies canonical_call(#[trigger] calls[i]) by {
        assert(canonical_call(m.invocations[i]));
    }
    if let Some(status) = member_text(update, "status"@) {
        with_field_canonical(m.extra, "status"@, JsonView::Text(status));
    }
}

/// A stream stays canonical, whatever update is read next.
pub proof fn event_keeps_canonical(b: BuilderView, val: JsonView, model: Option<Seq<char>>)
    requires
        canonical_messages(b.messages),
        canonical(val),
    ensures
        canonical_messages(after_event(b, val, model).messages),
{
    let update = update_in(val);
    let ts = line_time(val, update);
    let timed = BuilderView { started_at: earlier(b.started_at, ts), ended_at: later(b.ended_at, ts), ..b };
    member_canonical(val, "params"@);
    member_canonical(val, "update"@);
    inner_canonical(member(val, "params"@), "update"@);
    call_message_is_canonical(update, ts);
    messages_grow(b.messages, call_message(update, ts));
    if let Some(label) = member_text(update, "sessionUpdate"@) {
        if let Some(kind) = chunk_of(label) {
            chunk_keeps_canonical(
                timed,
                kind,
                block_text_in(member(update, "content"@)),
                ts,
                chunk_author(kind, update, model),
            );
        } else if let Some(i) = owner_of(b.messages, update) {
            last_call_bounds(b.messages, member_text(update, "toolCallId"@)->0);
            assert(canonical_message(b.messages[i]));
            merged_is_canonical(b.messages[i], update, ts);
            messages_change(b.messages, i, merged(b.messages[i], update, ts));
        }
    }
}

proof fn built_is_canonical(lines: Seq<Seq<char>>, model: Option<Seq<char>>)
    ensures
        canonical_messages(built(lines, model).messages),
    decreases lines.len(),
{
    if lines.len() > 0 {
        built_is_canonical(lines.drop_last(), model);
        if let Some(val) = document_in(trim(lines.last())) {
            event_keeps_canonical(built(lines.drop_last(), model), val, model);
        }
    }
}

/// What the messages of a stream hold is canonical.
pub proof fn finished_messages_are_canonical(lines: Seq<Seq<char>>, model: Option<Seq<char>>)
    ensures
        canonical_messages(finished(built(lines, model).messages)),
{
    let all = built(lines, model).messages;
    let keep = |m: MessageView| is_kept(m);
    built_is_canonical(lines, model);
    filtered_canonical(all, keep);
    numbered_canonical(all.filter(keep));
}

proof fn history_message_is_canonical(val: JsonView)
    requires
        canonical(val),
    ensures
        history_message(val) matches Some(m) ==> canonical_message(m),
{
    member_canonical(val, "prompt_index"@);
    one_member_is_canonical("chat_history_fallback"@, JsonView::Bool(true));
    if let Some(n) = member(val, "prompt_index"@) {
        reveal_strlit("chat_history_fallback");
        reveal_strlit("prompt_index");
        comes_before("chat_history_fallback"@, "prompt_index"@, 0);
        rising_members_are_canonical(
            seq![("chat_history_fallback"@, JsonView::Bool(true)), ("prompt_index"@, n)],
        );
    }
}

/// What the messages of a history hold is canonical.
pub proof fn history_messages_are_canonical(lines: Seq<Seq<char>>)
    ensures
        canonical_messages(history_messages(lines)),
    decreases lines.len(),
{
    if lines.len() > 0 {
        history_messages_are_canonical(lines.drop_last());
        if let Some(val) = document_in(trim(lines.last())) {
            history_message_is_canonical(val);
        }
        if let Some(m) = history_line(lines.last()) {
            messages_grow(history_messages(lines.drop_last()), m);
        }
    }
}

proof fn labels_differ()
    ensures
        "user_message_chunk"@ != "agent_thought_chunk"@,
        "user_message_chunk"@ != "agent_message_chunk"@,
        "agent_thought_chunk"@ != "agent_message_chunk"@,
        chunk_of("tool_call"@) is None,
        chunk_of("tool_call_update"@) is None,
        "tool_call"@ != "tool_call_update"@,
{
    reveal_strlit("user_message_chunk");
    reveal_strlit("agent_thought_chunk");
    reveal_strlit("agent_message_chunk");
    reveal_strlit("tool_call");
    reveal_strlit("tool_call_update");
    assert("user_message_chunk"@.len() == 18 && "agent_thought_chunk"@.len() == 19);
    assert("agent_message_chunk"@.len() == 19 && "tool_call"@.len() == 9 && "tool_call_update"@.len() == 16);
    assert("agent_thought_chunk"@[6] != "agent_message_chunk"@[6]);
}

/// An event carries its update among its parameters, or else by itself, or else is it.
pub proof fn events_carry_their_update(val: JsonView, params: JsonView, update: JsonView)
    ensures
        member(val, "params"@) == Some(params) && member(params, "update"@) == Some(update) ==> update_in(val) == update,
        member(val, "params"@) is None && member(val, "update"@) == Some(update) ==> update_in(val) == update,
        member(val, "params"@) is None && member(val, "update"@) is None ==> update_in(val) == val,
{
}

/// An event tells its time where the agent stamped it, among its parameters or in its
/// update, or else where the line did.
pub proof fn events_tell_their_time(val: JsonView, update: JsonView)
    ensures
        ({
            let own = timestamp_in(member_of(member_of(member(val, "params"@), "_meta"@), "agentTimestampMs"@));
            let inner = timestamp_in(member_of(member(update, "_meta"@), "agentTimestampMs"@));
            &&& own is Some ==> line_time(val, update) == own
            &&& own is None && inner is Some ==> line_time(val, update) == inner
            &&& own is None && inner is None ==> line_time(val, update) == timestamp_in(member(val, "timestamp"@))
        }),
{
}

/// A piece of what the user says, of a thought or of an answer goes on with the message
/// before it where that is of its kind and nothing came between, and else begins one: by
/// the user or the assistant, at its own time, by the model that it names or else that of
/// the session, and a thought as reasoning.
pub proof fn pieces_are_said_at_their_own_time(
    b: BuilderView,
    val: JsonView,
    update: JsonView,
    label: Seq<char>,
    text: Seq<char>,
    model: Option<Seq<char>>,
)
    requires
        update_in(val) == update,
        member_text(update, "sessionUpdate"@) == Some(label),
        label == "user_message_chunk"@ || label == "agent_thought_chunk"@ || label == "agent_message_chunk"@,
        block_text_in(member(update, "content"@)) == text,
        text.len() > 0,
    ensures
        ({
            let after = after_event(b, val, model);
            let m = after.messages.last();
            let named = member_of(member(update, "_meta"@), "modelId"@);
            let goes_on = b.messages.len() > 0 && b.last_kind == chunk_of(label);
            &&& !goes_on ==> {
                &&& after.messages == b.messages.push(m)
                &&& m.content == text
                &&& m.created_at == line_time(val, update)
                &&& label == "user_message_chunk"@ ==> m.role == "user"@ && m.author is None
                &&& label != "user_message_chunk"@ ==> m.role == "assistant"@
                &&& label == "agent_thought_chunk"@ ==> m.author == Some("reasoning"@)
                &&& label == "agent_message_chunk"@ ==> (named matches Some(JsonView::Text(id)) ==> m.author == Some(id))
                &&& label == "agent_message_chunk"@ && named is None ==> m.author == model
                &&& m.invocations.len() == 0
                &&& member(m.extra, "sessionUpdate"@) == Some(JsonView::Text(label))
            }
            &&& goes_on ==> {
                let before = b.messages.last();
                &&& after.messages.len() == b.messages.len()
                &&& after.messages.drop_last() == b.messages.drop_last()
                &&& m.content == before.content + text
                &&& m.role == before.role
                &&& before.created_at is Some ==> m.created_at == before.created_at
                &&& before.created_at is None ==> m.created_at == line_time(val, update)
                &&& before.author is Some ==> m.author == before.author
                &&& m.invocations == before.invocations
                &&& m.extra == before.extra
            }
            &&& after.last_kind == chunk_of(label)
            &&& chunk_of(label) is Some
        }),
{
    labels_differ();
    let kind = chunk_of(label)->0;
    assert(chunk_label(kind) == label);
    member_is_the_first_of_its_key(
        JsonView::Null,
        seq![("sessionUpdate"@, JsonView::Text(label))],
        "sessionUpdate"@,
        0,
    );
    if b.messages.len() > 0 {
        let n = b.messages.len() - 1;
        let m = extended(b.messages[n], text, line_time(val, update), chunk_author(kind, update, model));
        assert(b.messages.update(n, m).drop_last() =~= b.messages.drop_last());
    }
}

/// A call of a tool is a message of its own: by the tool, at its own time, with what it gave
/// back, under its title or else its kind, with its id and its input; what follows it begins
/// anew.
pub proof fn calls_are_said_at_their_own_time(b: BuilderView, val: JsonView, update: JsonView, model: Option<Seq<char>>)
    requires
        update_in(val) == update,
        member_text(update, "sessionUpdate"@) == Some("tool_call"@),
    ensures
        ({
            let after = after_event(b, val, model);
            let m = after.messages.last();
            &&& after.messages == b.messages.push(m)
            &&& after.last_kind is None
            &&& m.role == "tool"@
            &&& m.author is None
            &&& m.created_at == line_time(val, update)
            &&& output_of(update) matches Some(output) ==> m.content == output
            &&& output_of(update) is None ==> m.content.len() == 0
            &&& m.invocations.len() == 1
            &&& m.invocations[0].kind == "tool"@
            &&& m.invocations[0].call_id == member_text(update, "toolCallId"@)
            &&& member_text(update, "title"@) matches Some(title) ==> (!blank(title) ==> m.invocations[0].name == title)
            &&& member_text(update, "title"@) is None ==> (member_text(update, "kind"@) matches Some(kind) ==> (!blank(kind)
                ==> m.invocations[0].name == kind))
            &&& member(update, "rawInput"@) matches Some(input) ==> (!(input is Null) ==> m.invocations[0].arguments
                == Some(input))
            &&& member(update, "rawInput"@) is None ==> m.invocations[0].arguments is None
            &&& member_text(update, "status"@) matches Some(status) ==> member(m.extra, "status"@) == Some(
                JsonView::Text(status),
            )
            &&& member_text(update, "kind"@) matches Some(kind) ==> member(m.extra, "tool_kind"@) == Some(
                JsonView::Text(kind),
            )
        }),
{
    labels_differ();
    let first = seq![("sessionUpdate"@, JsonView::Text("tool_call"@))];
    reveal_strlit("status");
    reveal_strlit("tool_kind");
    assert("status"@.len() == 6 && "tool_kind"@.len() == 9);
    let more = with_text(first, "status"@, member_text(update, "status"@));
    if let Some(status) = member_text(update, "status"@) {
        with_member_reads_back(first, "status"@, JsonView::Text(status), "status"@);
    }
    if let Some(kind) = member_text(update, "kind"@) {
        with_member_reads_back(more, "tool_kind"@, JsonView::Text(kind), "status"@);
    }
}

/// An update of a call takes its place: a title that is not blank names it anew, an input or
/// an output that is given stands for the one before, its status is kept, and its time stays
/// unless it had none. Who speaks stays.
pub proof fn updates_change_their_call(m: MessageView, update: JsonView, ts: Option<i64>)
    requires
        m.invocations.len() > 0,
    ensures
        ({
            let after = merged(m, update, ts);
            &&& after.role == m.role
            &&& after.author == m.author
            &&& after.idx == m.idx
            &&& after.invocations.len() == m.invocations.len()
            &&& after.invocations[0].call_id == m.invocations[0].call_id
            &&& member_text(update, "title"@) matches Some(title) ==> (!blank(title) ==> after.invocations[0].name == title)
            &&& member_text(update, "title"@) is None ==> after.invocations[0].name == m.invocations[0].name
            &&& member(update, "rawInput"@) matches Some(input) ==> (!(input is Null) ==> after.invocations[0].arguments
                == Some(input))
            &&& member(update, "rawInput"@) is None ==> after.invocations[0].arguments == m.invocations[0].arguments
            &&& forall|i: int| 1 <= i < m.invocations.len() ==> after.invocations[i] == m.invocations[i]
            &&& output_of(update) matches Some(output) ==> after.content == output
            &&& output_of(update) is None ==> after.content == m.content
            &&& m.created_at is Some ==> after.created_at == m.created_at
            &&& m.created_at is None ==> after.created_at == ts
            &&& m.extra is Object ==> (member_text(update, "status"@) matches Some(status) ==> member(after.extra, "status"@)
                == Some(JsonView::Text(status)))
            &&& member_text(update, "status"@) is None ==> after.extra == m.extra
        }),
{
    if let JsonView::Object(members) = m.extra {
        if let Some(status) = member_text(update, "status"@) {
            with_member_reads_back(members, "status"@, JsonView::Text(status), "status"@);
        }
    }
}

/// What a call gave back is its content where that says something, or else its raw output,
/// as a text where it is one.
pub proof fn calls_give_back_their_output(update: JsonView, t: Seq<char>)
    ensures
        member_text(update, "content"@) == Some(t) && !blank(t) ==> output_of(update) == Some(t),
        member(update, "content"@) is None && member_text(update, "rawOutput"@) == Some(t) && !blank(t) ==> output_of(update)
            == Some(t),
        member(update, "content"@) is None && member(update, "rawOutput"@) is None ==> output_of(update) is None,
        member(update, "content"@) is None && member(update, "rawOutput"@) == Some(JsonView::Null) ==> output_of(update)
            is None,
{
}

/// The items of a content of a call are said line by line, in their order: a block by its
/// text, a change of a file by its path, and the output of a terminal by a mark.
pub proof fn items_of_calls_are_said_in_order(items: Seq<JsonView>, item: JsonView, block: JsonView, t: Seq<char>)
    ensures
        call_content(JsonView::Array(Seq::empty())).len() == 0,
        call_item(item) is None ==> call_content(JsonView::Array(items.push(item))) == call_content(
            JsonView::Array(items),
        ),
        call_item(item) matches Some(said) ==> call_content(JsonView::Array(items.push(item))) == if call_items(items).len()
            == 0 {
            said
        } else {
            call_content(JsonView::Array(items)) + "\n"@ + said
        },
        member_text(item, "type"@) == Some("content"@) && member(item, "content"@) == Some(block) && block_text(block) == t
            && t.len() > 0 ==> call_item(item) == Some(t),
        member_text(item, "type"@) == Some("diff"@) && member_text(item, "path"@) == Some(t) ==> call_item(item) == Some(
            "[Diff: "@ + t + "]"@,
        ),
        member_text(item, "type"@) == Some("terminal"@) ==> call_item(item) == Some("[Terminal output]"@),
        block_text(JsonView::Text(t)) == t,
        member_text(block, "text"@) == Some(t) ==> block_text(block) == t,
{
    reveal_strlit("content");
    reveal_strlit("diff");
    reveal_strlit("terminal");
    assert("content"@.len() == 7 && "diff"@.len() == 4 && "terminal"@.len() == 8);
    let more = items.push(item);
    assert(more.drop_last() =~= items);
    if let Some(said) = call_item(item) {
        let before = call_items(items);
        if before.len() > 0 {
            crate::text::join_in_two_steps(before, seq![said], "\n"@);
            assert(before + seq![said] =~= before.push(said));
        } else {
            assert(before.push(said) =~= seq![said]);
        }
    }
    crate::model::contents_say_their_texts(t, block);
}

/// A stream is read line by line, in the order of the lines: a line that holds a document is
/// the next event, and any other changes nothing. The span widens to hold the time of an
/// event, and holds no other.
pub proof fn lines_are_read_in_order(lines: Seq<Seq<char>>, line: Seq<char>, val: JsonView, model: Option<Seq<char>>)
    requires
        document_in(trim(line)) == Some(val),
        !blank(line),
    ensures
        built(lines.push(line), model) == after_event(built(lines, model), val, model),
        built(Seq::empty(), model).messages.len() == 0,
        built(Seq::empty(), model).last_kind is None,
        built(Seq::empty(), model).started_at is None,
        built(Seq::empty(), model).ended_at is None,
        ({
            let b = built(lines, model);
            let after = built(lines.push(line), model);
            let time = line_time(val, update_in(val));
            let is_update = member_text(update_in(val), "sessionUpdate"@) is Some;
            &&& !is_update ==> after == b
            &&& after.started_at == b.started_at || after.started_at == time
            &&& after.ended_at == b.ended_at || after.ended_at == time
            &&& is_update && time is Some ==> after.started_at is Some && after.ended_at is Some && after.started_at->0
                <= time->0 && time->0 <= after.ended_at->0
        }),
{
    assert(lines.push(line).drop_last() =~= lines);
}

/// Of the messages of a stream, those that say or call something are kept, in their order and
/// whole but for their place, and no others.
pub proof fn messages_that_say_something_are_kept(messages: Seq<MessageView>, m: MessageView)
    requires
        messages.len() < i64::MAX,
    ensures
        blank(m.content) && m.invocations.len() == 0 ==> finished(messages.push(m)) == finished(messages),
        !blank(m.content) || m.invocations.len() > 0 ==> {
            let n = finished(messages).len();
            finished(messages.push(m)) == finished(messages).push(MessageView { idx: n as i64, ..m })
        },
        finished(Seq::empty()).len() == 0,
{
    reveal(Seq::filter);
    let keep = |m: MessageView| is_kept(m);
    let more = messages.push(m);
    assert(more.drop_last() =~= messages);
    assert(more.last() == m);
    let front = messages.filter(keep);
    crate::model::numbering(front);
    filter_is_shorter(messages, keep);
    if is_kept(m) {
        let n = front.len();
        crate::model::numbering(front.push(m));
        assert(finished(more) =~= finished(messages).push(MessageView { idx: n as i64, ..m }));
    }
}

proof fn filter_is_shorter(messages: Seq<MessageView>, keep: spec_fn(MessageView) -> bool)
    ensures
        messages.filter(keep).len() <= messages.len(),
    decreases messages.len(),
{
    reveal(Seq::filter);
    if messages.len() > 0 {
        filter_is_shorter(messages.drop_last(), keep);
    }
}

/// A prompt of the history is what the user asked, unless it was made up; an answer is what
/// the assistant said; and neither is said where it says nothing.
pub proof fn histories_are_said(val: JsonView, text: Seq<char>, n: JsonView)
    requires
        block_text_in(member(val, "content"@)) == text,
    ensures
        member_text(val, "type"@) == Some("user"@) && member(val, "prompt_index"@) == Some(n) && member(
            val,
            "synthetic_reason"@,
        ) is None && query_text(text).len() > 0 ==> (history_message(val) matches Some(m) && m.role == "user"@ && m.content
            == query_text(text) && m.created_at is None && m.invocations.len() == 0),
        member_text(val, "type"@) == Some("user"@) && (member(val, "prompt_index"@) is None || member(
            val,
            "synthetic_reason"@,
        ) is Some) ==> history_message(val) is None,
        member_text(val, "type"@) == Some("assistant"@) && !blank(text) ==> (history_message(val) matches Some(m) && m.role
            == "assistant"@ && m.content == text && m.created_at is None && m.invocations.len() == 0),
        member_text(val, "type"@) == Some("assistant"@) && blank(text) ==> history_message(val) is None,
        member_text(val, "type"@) is None ==> history_message(val) is None,
{
    reveal_strlit("");
    reveal_strlit("user");
    reveal_strlit("assistant");
    assert(""@.len() == 0 && "user"@.len() == 4 && "assistant"@.len() == 9);
}

/// A history is read line by line, in the order of the lines.
pub proof fn history_lines_are_read_in_order(lines: Seq<Seq<char>>, line: Seq<char>, val: JsonView)
    requires
        document_in(trim(line)) == Some(val),
        !blank(line),
    ensures
        history_message(val) matches Some(m) ==> history_messages(lines.push(line)) == history_messages(lines).push(m),
        history_message(val) is None ==> history_messages(lines.push(line)) == history_messages(lines),
        history_messages(Seq::empty()).len() == 0,
{
    assert(lines.push(line).drop_last() =~= lines);
}

/// What a user asked stands between the marks of a query, without the space around it; a
/// text without such marks is asked as it stands.
pub proof fn queries_stand_between_marks(q: Seq<char>)
    requires
        forall|i: int|
            12 <= i < 12 + q.len() ==> !occurs_at("<user_query>"@ + q + "</user_query>"@, "</user_query>"@, i),
    ensures
        query_text("<user_query>"@ + q + "</user_query>"@) == trim(q),
        !has_text(q, "<user_query>"@) ==> query_text(q) == trim(q),
{
    let tag = "user_query"@;
    let open = "<"@ + tag + ">"@;
    let close = "</"@ + tag + ">"@;
    reveal_strlit("<");
    reveal_strlit(">");
    reveal_strlit("</");
    reveal_strlit("user_query");
    reveal_strlit("<user_query>");
    reveal_strlit("</user_query>");
    assert(open =~= "<user_query>"@);
    assert(close =~= "</user_query>"@);
    let s = open + q + close;
    assert(s.subrange(0, 12) =~= open);
    assert(occurs_at(s, open, 0));
    crate::text::first_occurrences_are_found(s, open, 0, 0);
    let end = 12 + q.len();
    assert(s.subrange(end as int, (end + close.len()) as int) =~= close);
    assert(occurs_at(s, close, end as int));
    crate::text::first_occurrences_are_found(s, close, 12, end as int);
    assert(s.subrange(12, end as int) =~= q);
    let rest = tagged_from(s, open, close, (end + close.len()) as int);
    assert(find_from(s, open, (end + close.len()) as int) is None);
    assert(rest =~= Seq::empty());
    assert(tagged(s, tag) =~= seq![trim(q)]);
    find_from_sound(q, open, 0);
    if !has_text(q, open) {
        assert(find_from(q, open, 0) is None);
    }
}

/// Lines that are blank or no document change nothing, in a stream as in a history.
pub proof fn other_lines_change_nothing(lines: Seq<Seq<char>>, line: Seq<char>, model: Option<Seq<char>>)
    ensures
        blank(line) || document_in(trim(line)) is None ==> built(lines.push(line), model) == built(lines, model),
        blank(line) || document_in(trim(line)) is None ==> history_messages(lines.push(line)) == history_messages(lines),
{
    assert(lines.push(line).drop_last() =~= lines);
}

/// A block says its text by itself or as the one item of a list, and a list what its items
/// say; nothing is said where there is none.
pub proof fn blocks_say_their_text(v: JsonView, t: Seq<char>)
    ensures
        block_text_in(Some(v)) == block_text(v),
        block_text_in(None).len() == 0,
        v is Object ==> block_text(v) == flat_text(JsonView::Array(seq![v])),
        !(v is Object) ==> block_text(v) == flat_text(v),
        block_text(JsonView::Text(t)) == t,
{
}

} // verus!
