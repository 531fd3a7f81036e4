//! The wire log of a Kimi Code agent: one event per line.
use vstd::prelude::*;
use crate::canon::{
    canonical_call, canonical_conversation, canonical_message, canonical_messages, comes_before, messages_change,
    messages_grow, numbered_canonical, one_member_is_canonical, rising_members_are_canonical, with_field_canonical,
};
use crate::files::{lines_at, text_at, EntryView, FileTable};
use crate::json::{canonical, document_in, parse_json, Json, JsonView};
use crate::model::{
    find_last_call, flat_text, flat_text_in, flatten_content, flatten_in, last_call, last_call_bounds, make_message,
    makes_call, numbered, numbering, reindex_messages, simple_message, tool_label, tool_label_of, update_time_bounds,
    user_caption, user_caption_of, Conversation, ConversationView, Invocation, InvocationView, Message, MessageView,
};
use crate::path::{below, file_name, parent, SourcePath};
use crate::query::{
    assign, copied, either, get_in, i64_in, integer_in, integer_json, integer_view, member, member_canonical,
    member_is_the_first_of_its_key, member_of, member_text, object, or_default, or_else, owned, put, set_field,
    str_in, str_or, text_in, text_json, with_field, with_member, with_member_canonical, with_member_reads_back,
};
use crate::scan::ReadError;
use crate::stamp::{
    earlier, fractional_timestamp_in, fractional_timestamp_of, later, spans, timestamp_in, timestamp_of,
    widened_spans_hold_both,
};
use crate::text::{blank, cat, cat3, is_blank, push_text, same_text, trim, trimmed};

verus! {

/// Where the wire log of an agent stands:
/// `<session id>/agents/<agent id>/wire.jsonl`.
pub struct ModernWireLayout {
    /// The directory of the session.
    pub session_root: SourcePath,
    pub session_id: String,
    pub agent_id: String,
}

#[verifier::ext_equal]
pub struct LayoutView {
    pub session_root: Seq<Seq<char>>,
    pub session_id: Seq<char>,
    pub agent_id: Seq<char>,
}

impl DeepView for ModernWireLayout {
    type V = LayoutView;

    open spec fn deep_view(&self) -> LayoutView {
        LayoutView {
            session_root: self.session_root.deep_view(),
            session_id: self.session_id@,
            agent_id: self.agent_id@,
        }
    }
}

/// The name of the conversation of an agent: that of the session for the main
/// agent, and with the agent behind it for any other.
pub open spec fn agent_external_id(layout: LayoutView) -> Seq<char> {
    if layout.agent_id == "main"@ {
        layout.session_id
    } else {
        layout.session_id + ":"@ + layout.agent_id
    }
}

/// No two agents of one session have a conversation of one name.
pub proof fn agents_of_a_session_are_told_apart(a: LayoutView, b: LayoutView)
    requires
        a.session_id == b.session_id,
        agent_external_id(a) == agent_external_id(b),
    ensures
        a.agent_id == b.agent_id,
{
    reveal_strlit(":");
    let n = a.session_id.len() as int;
    if a.agent_id != "main"@ && b.agent_id != "main"@ {
        assert(agent_external_id(a).skip(n + 1) =~= a.agent_id);
        assert(agent_external_id(b).skip(n + 1) =~= b.agent_id);
    } else if a.agent_id != "main"@ {
        assert(agent_external_id(a).len() > n);
    } else if b.agent_id != "main"@ {
        assert(agent_external_id(b).len() > n);
    }
}

impl ModernWireLayout {
    pub fn external_id(&self) -> (r: String)
        ensures
            r@ == agent_external_id(self.deep_view()),
    {
        if same_text(self.agent_id.as_str(), "main") {
            self.session_id.clone()
        } else {
            cat3(self.session_id.as_str(), ":", self.agent_id.as_str())
        }
    }
}

/// The layout that a path follows, if it is that of Kimi Code.
pub open spec fn modern_layout(wire: Seq<Seq<char>>) -> Option<LayoutView> {
    match parent(wire) {
        None => None,
        Some(dir) => match parent(dir) {
            None => None,
            Some(agents) => if file_name(agents) != Some("agents"@) {
                None
            } else {
                match parent(agents) {
                    None => None,
                    Some(session) => match (file_name(session), file_name(dir)) {
                        (Some(session_id), Some(agent_id)) => Some(
                            LayoutView { session_root: session, session_id, agent_id },
                        ),
                        _ => None,
                    },
                }
            },
        },
    }
}

/// The layout that a path follows, if it is that of Kimi Code.
pub fn modern_wire_layout(wire_path: &SourcePath) -> (r: Option<ModernWireLayout>)
    ensures
        r.deep_view() == modern_layout(wire_path.deep_view()),
{
    let wire_dir = match wire_path.parent() {
        Some(dir) => dir,
        None => return None,
    };
    let agents_dir = match wire_dir.parent() {
        Some(dir) => dir,
        None => return None,
    };
    if !agents_dir.is_named("agents") {
        return None;
    }
    let session_root = match agents_dir.parent() {
        Some(dir) => dir,
        None => return None,
    };
    let session_id = match session_root.file_name() {
        Some(name) => name.to_owned(),
        None => return None,
    };
    let agent_id = match wire_dir.file_name() {
        Some(name) => name.to_owned(),
        None => return None,
    };
    Some(ModernWireLayout { session_root, session_id, agent_id })
}

/// What the state of a session says of it.
pub struct KimiCodeState {
    pub title: Option<String>,
    pub workspace: Option<String>,
    pub created_at: Option<i64>,
    pub updated_at: Option<i64>,
}

#[verifier::ext_equal]
pub struct StateView {
    pub title: Option<Seq<char>>,
    pub workspace: Option<Seq<char>>,
    pub created_at: Option<i64>,
    pub updated_at: Option<i64>,
}

impl DeepView for KimiCodeState {
    type V = StateView;

    open spec fn deep_view(&self) -> StateView {
        StateView {
            title: self.title.deep_view(),
            workspace: self.workspace.deep_view(),
            created_at: self.created_at,
            updated_at: self.updated_at,
        }
    }
}

pub open spec fn empty_state() -> StateView {
    StateView { title: None, workspace: None, created_at: None, updated_at: None }
}

/// What a document of the state says.
pub open spec fn state_of(v: JsonView) -> StateView {
    StateView {
        title: match member_text(v, "title"@) {
            Some(t) => if blank(t) {
                None
            } else {
                Some(t)
            },
            None => None,
        },
        workspace: match member_text(v, "workDir"@) {
            Some(t) => if t.len() == 0 {
                None
            } else {
                Some(t)
            },
            None => None,
        },
        created_at: timestamp_in(member(v, "createdAt"@)),
        updated_at: timestamp_in(member(v, "updatedAt"@)),
    }
}

/// What a text of the state says: nothing where it is missing or no document.
pub open spec fn state_in(text: Option<Seq<char>>) -> StateView {
    match text {
        Some(text) => match document_in(text) {
            Some(v) => state_of(v),
            None => empty_state(),
        },
        None => empty_state(),
    }
}

/// The state of the session in that directory.
pub fn read_kimi_code_state(files: &FileTable, session_root: &SourcePath) -> (r: KimiCodeState)
    ensures
        r.deep_view() == state_in(
            text_at(files.deep_view(), below(session_root.deep_view(), "state.json"@)),
        ),
{
    let text = match files.read_text(&session_root.join("state.json")) {
        Some(text) => text,
        None => return KimiCodeState { title: None, workspace: None, created_at: None, updated_at: None },
    };
    match parse_json(text.as_str()) {
        Some(v) => state_from(&v),
        None => KimiCodeState { title: None, workspace: None, created_at: None, updated_at: None },
    }
}

/// What a document of the state says.
pub fn state_from(v: &Json) -> (r: KimiCodeState)
    ensures
        r.deep_view() == state_of(v@),
{
    let title = match v.get_str("title") {
        Some(t) => if is_blank(t) {
            None
        } else {
            Some(t.to_owned())
        },
        None => None,
    };
    let workspace = match v.get_str("workDir") {
        Some(t) => if t.is_empty() {
            None
        } else {
            Some(t.to_owned())
        },
        None => None,
    };
    KimiCodeState {
        title,
        workspace,
        created_at: timestamp_of(v.get("createdAt")),
        updated_at: timestamp_of(v.get("updatedAt")),
    }
}

/// What a call is about, by its arguments.
pub open spec fn call_about(event: JsonView) -> Seq<char> {
    let args = member(event, "args"@);
    or_default(
        text_in(
            or_else(
                member_of(args, "description"@),
                or_else(
                    member_of(args, "file_path"@),
                    or_else(member_of(args, "path"@), member_of(args, "command"@)),
                ),
            ),
        ),
        ""@,
    )
}

/// The name of the tool that an event calls.
pub open spec fn call_name(event: JsonView) -> Seq<char> {
    or_default(member_text(event, "name"@), "unknown"@)
}

/// How a call of a tool reads.
pub fn extract_kimi_code_tool_call_text(event: &Json) -> (r: String)
    ensures
        r@ == tool_label(call_name(event@), call_about(event@)),
{
    let name = str_or(event.get_str("name"), "unknown");
    let args = event.get("args");
    let about = str_or(
        str_in(
            either(
                get_in(args, "description"),
                either(get_in(args, "file_path"), either(get_in(args, "path"), get_in(args, "command"))),
            ),
        ),
        "",
    );
    tool_label_of(name, about)
}

/// What the result of a call says.
pub open spec fn result_text(event: JsonView) -> Seq<char> {
    match member(event, "result"@) {
        None => Seq::empty(),
        Some(result) => match result {
            JsonView::Text(t) => t,
            _ => {
                let output = flat_text_in(member(result, "output"@));
                if output.len() > 0 {
                    output
                } else {
                    flat_text(result)
                }
            },
        },
    }
}

/// What the result of a call says.
pub fn extract_kimi_code_tool_result_text(event: &Json) -> (r: String)
    ensures
        r@ == result_text(event@),
{
    let result = match event.get("result") {
        Some(result) => result,
        None => {
            let none = String::new();
            assert(none@ =~= Seq::empty());
            return none;
        },
    };
    match result {
        Json::Text(t) => return t.clone(),
        _ => {},
    }
    let output = flatten_in(result.get("output"));
    if !output.as_str().is_empty() {
        return output;
    }
    flatten_content(result)
}

/// Whether the result of a call is an error.
pub open spec fn result_is_error(event: JsonView) -> bool {
    match member_of(member(event, "result"@), "error"@) {
        Some(error) => !(error is Null),
        None => false,
    }
}

/// Whether a message already holds the result of its call.
pub open spec fn has_result(extra: JsonView) -> bool {
    match member_of(member(extra, "cass"@), "tool_result"@) {
        Some(result) => !(result is Null),
        None => false,
    }
}

/// The document itself where it is an object, an empty one where not.
pub open spec fn object_or_empty(v: Option<JsonView>) -> JsonView {
    match v {
        Some(v) => if v is Object {
            v
        } else {
            JsonView::Object(Seq::empty())
        },
        None => JsonView::Object(Seq::empty()),
    }
}

/// What is kept of the result of a call.
pub open spec fn kept_result(text: Seq<char>, is_error: bool) -> JsonView {
    JsonView::Object(seq![("content"@, JsonView::Text(text)), ("is_error"@, JsonView::Bool(is_error))])
}

/// What the source says of a message, with the result of its call.
pub open spec fn extra_with_result(extra: JsonView, text: Seq<char>, is_error: bool) -> JsonView {
    let base = object_or_empty(Some(extra));
    with_field(
        base,
        "cass"@,
        with_field(object_or_empty(member(base, "cass"@)), "tool_result"@, kept_result(text, is_error)),
    )
}

/// The call that can take a result: the last one of that name, unless it has a
/// result.
pub open spec fn open_call(messages: Seq<MessageView>, id: Seq<char>) -> Option<int> {
    match last_call(messages, id) {
        Some(i) => if has_result(messages[i].extra) {
            None
        } else {
            Some(i)
        },
        None => None,
    }
}

/// The messages with the result of a call at that place.
pub open spec fn with_result_at(messages: Seq<MessageView>, i: int, text: Seq<char>, is_error: bool) -> Seq<
    MessageView,
> {
    messages.update(
        i,
        MessageView { extra: extra_with_result(messages[i].extra, text, is_error), ..messages[i] },
    )
}

/// A message that holds a result keeps it: what is attached is read back as a
/// result.
pub proof fn attached_result_is_kept(extra: JsonView, text: Seq<char>, is_error: bool)
    ensures
        has_result(extra_with_result(extra, text, is_error)),
        member_of(member(extra_with_result(extra, text, is_error), "cass"@), "tool_result"@) == Some(
            kept_result(text, is_error),
        ),
{
    let base = object_or_empty(Some(extra));
    let cass = object_or_empty(member(base, "cass"@));
    let inner = with_field(cass, "tool_result"@, kept_result(text, is_error));
    crate::query::with_member_reads_back(base->Object_0, "cass"@, inner, ""@);
    crate::query::with_member_reads_back(cass->Object_0, "tool_result"@, kept_result(text, is_error), ""@);
}

fn object_of(v: Option<Json>) -> (r: Json)
    ensures
        r@ == object_or_empty(v.deep_view()),
{
    broadcast use crate::json::object_view;

    match v {
        Some(Json::Object(members)) => Json::Object(members),
        _ => {
            let none: Vec<(String, Json)> = Vec::new();
            assert(none.deep_view() =~= Seq::empty());
            object(none)
        },
    }
}

fn add_result(extra: &Json, text: &str, is_error: bool) -> (r: Json)
    ensures
        r@ == extra_with_result(extra@, text@, is_error),
{
    let base = object_of(Some(extra.copy()));
    let cass = object_of(copied(base.get("cass")));
    let mut members: Vec<(String, Json)> = Vec::new();
    put(&mut members, "content", text_json(text));
    put(&mut members, "is_error", Json::Bool(is_error));
    assert(members.deep_view() =~= seq![
        ("content"@, JsonView::Text(text@)),
        ("is_error"@, JsonView::Bool(is_error)),
    ]);
    let cass = set_field(cass, "tool_result", object(members));
    set_field(base, "cass", cass)
}

/// Puts the result of a call on the message that makes it, unless there is none
/// or it holds a result. Says whether it did.
pub fn attach_tool_result_to_call(
    messages: &mut Vec<Message>,
    tool_call_id: &str,
    result_text: &str,
    is_error: bool,
) -> (r: bool)
    ensures
        match open_call(old(messages).deep_view(), tool_call_id@) {
            Some(i) => r && final(messages).deep_view() == with_result_at(
                old(messages).deep_view(),
                i,
                result_text@,
                is_error,
            ),
            None => !r && final(messages).deep_view() == old(messages).deep_view(),
        },
{
    let ghost all = messages.deep_view();
    let idx = match find_last_call(messages, tool_call_id) {
        Some(i) => i,
        None => return false,
    };
    let held = match get_in(messages[idx].extra.get("cass"), "tool_result") {
        Some(result) => !result.is_null(),
        None => false,
    };
    if held {
        return false;
    }
    let extra = add_result(&messages[idx].extra, result_text, is_error);
    let ghost before = messages@;
    let m = &mut messages[idx];
    m.extra = extra;
    assert(messages.deep_view() =~= with_result_at(all, idx as int, result_text@, is_error));
    true
}

/// A prompt that waits for its echo.
pub struct PendingPrompt {
    pub text: String,
    pub created_at: Option<i64>,
    pub raw: Json,
}

#[verifier::ext_equal]
pub struct PromptView {
    pub text: Seq<char>,
    pub created_at: Option<i64>,
    pub raw: JsonView,
}

impl DeepView for PendingPrompt {
    type V = PromptView;

    open spec fn deep_view(&self) -> PromptView {
        PromptView { text: self.text@, created_at: self.created_at, raw: self.raw@ }
    }
}

/// What was read of a wire log so far.
pub struct WireLog {
    pub messages: Vec<Message>,
    pub pending: Option<PendingPrompt>,
    pub started_at: Option<i64>,
    pub ended_at: Option<i64>,
}

#[verifier::ext_equal]
pub struct LogView {
    pub messages: Seq<MessageView>,
    pub pending: Option<PromptView>,
    pub started_at: Option<i64>,
    pub ended_at: Option<i64>,
}

impl DeepView for WireLog {
    type V = LogView;

    open spec fn deep_view(&self) -> LogView {
        LogView {
            messages: self.messages.deep_view(),
            pending: self.pending.deep_view(),
            started_at: self.started_at,
            ended_at: self.ended_at,
        }
    }
}

pub open spec fn empty_log() -> LogView {
    LogView { messages: Seq::empty(), pending: None, started_at: None, ended_at: None }
}

/// The log with another message.
pub open spec fn log_said(log: LogView, m: MessageView) -> LogView {
    LogView { messages: log.messages.push(m), ..log }
}

/// The log with a prompt that waited said by the user.
pub open spec fn flushed(log: LogView) -> LogView {
    match log.pending {
        Some(p) => LogView {
            messages: log.messages.push(simple_message("user"@, p.created_at, p.text, p.raw)),
            pending: None,
            ..log
        },
        None => log,
    }
}

/// A prompt waits for its echo; one that waited already is said.
pub open spec fn after_prompt(log: LogView, val: JsonView, created: Option<i64>) -> LogView {
    let text = flat_text_in(member(val, "input"@));
    let log = flushed(log);
    if blank(text) {
        log
    } else {
        LogView { pending: Some(PromptView { text, created_at: created, raw: val }), ..log }
    }
}

/// Whether a message is the echo of the prompt that waits.
pub open spec fn is_echo(log: LogView, role: Seq<char>, text: Seq<char>) -> bool {
    &&& role == "user"@ || role == "human"@
    &&& log.pending matches Some(p) && trim(p.text) == trim(text)
}

/// A message is said, but for the echo of the prompt that waits: that stands for
/// it.
pub open spec fn after_append(log: LogView, val: JsonView, created: Option<i64>) -> LogView {
    let message = member(val, "message"@);
    let role = or_default(text_in(member_of(message, "role"@)), "assistant"@);
    let text = flat_text_in(member_of(message, "content"@));
    if is_echo(log, role, text) || blank(text) {
        flushed(log)
    } else {
        log_said(flushed(log), simple_message(role, created, text, val))
    }
}

/// A part of the answer.
pub open spec fn after_part(log: LogView, val: JsonView, event: JsonView, created: Option<i64>) -> LogView {
    let part = member(event, "part"@);
    let kind = or_default(text_in(member_of(part, "type"@)), "text"@);
    let text = or_default(text_in(member_of(part, "text"@)), ""@);
    if blank(text) {
        log
    } else {
        log_said(
            log,
            MessageView {
                author: if kind == "think"@ {
                    Some("reasoning"@)
                } else {
                    None
                },
                ..simple_message("assistant"@, created, text, val)
            },
        )
    }
}

/// A call of a tool.
pub open spec fn after_call(log: LogView, val: JsonView, event: JsonView, created: Option<i64>) -> LogView {
    log_said(
        log,
        MessageView {
            invocations: seq![
                InvocationView {
                    kind: "tool"@,
                    name: call_name(event),
                    raw_name: None,
                    call_id: member_text(event, "toolCallId"@),
                    arguments: member(event, "args"@),
                },
            ],
            ..simple_message("assistant"@, created, tool_label(call_name(event), call_about(event)), val)
        },
    )
}

/// The result of a call goes to the call, or stands alone where no call takes it.
pub open spec fn after_result(log: LogView, val: JsonView, event: JsonView, created: Option<i64>) -> LogView {
    match member_text(event, "toolCallId"@) {
        None => log,
        Some(id) => {
            let text = result_text(event);
            if blank(text) {
                log
            } else {
                match open_call(log.messages, id) {
                    Some(i) => LogView {
                        messages: with_result_at(log.messages, i, text, result_is_error(event)),
                        ..log
                    },
                    None => log_said(
                        log,
                        simple_message("tool"@, created, "[Tool result: "@ + id + "] "@ + text, val),
                    ),
                }
            }
        },
    }
}

/// An event of the loop.
pub open spec fn after_loop_event(log: LogView, val: JsonView, created: Option<i64>) -> LogView {
    match member(val, "event"@) {
        None => log,
        Some(event) => {
            let kind = or_default(member_text(event, "type"@), ""@);
            if kind == "step.begin"@ || kind == "step.end"@ {
                log
            } else if kind == "content.part"@ {
                after_part(flushed(log), val, event, created)
            } else if kind == "tool.call"@ {
                after_call(flushed(log), val, event, created)
            } else if kind == "tool.result"@ {
                after_result(flushed(log), val, event, created)
            } else {
                flushed(log)
            }
        },
    }
}

/// A count of tokens, by itself or among the `tokens`.
pub open spec fn token_count(block: JsonView, key: Seq<char>) -> Option<i64> {
    or_else(integer_in(member(block, key)), integer_in(member_of(member(block, "tokens"@), key)))
}

/// The members with a count that is there.
pub open spec fn with_count(members: Seq<(Seq<char>, JsonView)>, key: Seq<char>, n: Option<i64>) -> Seq<
    (Seq<char>, JsonView),
> {
    match n {
        Some(n) => with_member(members, key, integer_view(n as int)),
        None => members,
    }
}

/// What is kept of a record of usage.
pub open spec fn usage_kept(block: JsonView) -> JsonView {
    let counts = with_count(
        with_count(
            with_count(
                with_count(Seq::empty(), "input_tokens"@, token_count(block, "input_tokens"@)),
                "output_tokens"@,
                token_count(block, "output_tokens"@),
            ),
            "cached_input_tokens"@,
            token_count(block, "cached_input_tokens"@),
        ),
        "cache_read_tokens"@,
        token_count(block, "cache_read_tokens"@),
    );
    JsonView::Object(with_member(counts, "data_source"@, JsonView::Text("api"@)))
}

/// What the source says of a message, with the usage.
pub open spec fn extra_with_usage(extra: JsonView, usage: JsonView) -> JsonView {
    match member(extra, "cass"@) {
        None => with_field(extra, "cass"@, JsonView::Object(seq![("token_usage"@, usage)])),
        Some(cass) => if cass is Object {
            with_field(extra, "cass"@, with_field(cass, "token_usage"@, usage))
        } else {
            extra
        },
    }
}

/// The last answer that calls no tool.
pub open spec fn last_answer(messages: Seq<MessageView>) -> Option<int>
    decreases messages.len(),
{
    if messages.len() == 0 {
        None
    } else if messages.last().role == "assistant"@ && messages.last().invocations.len() == 0 {
        Some(messages.len() - 1)
    } else {
        last_answer(messages.drop_last())
    }
}

/// A record of usage goes to the last answer.
pub open spec fn after_usage(log: LogView, val: JsonView) -> LogView {
    let block = or_default(member(val, "usage"@), val);
    if token_count(block, "input_tokens"@) is None && token_count(block, "output_tokens"@) is None {
        log
    } else {
        match last_answer(log.messages) {
            None => log,
            Some(i) => LogView {
                messages: log.messages.update(
                    i,
                    MessageView {
                        extra: extra_with_usage(log.messages[i].extra, usage_kept(block)),
                        ..log.messages[i]
                    },
                ),
                ..log
            },
        }
    }
}

/// The log after an event.
pub open spec fn after_event(log: LogView, val: JsonView) -> LogView {
    let created = fractional_timestamp_in(member(val, "time"@));
    let log = LogView {
        started_at: earlier(log.started_at, created),
        ended_at: later(log.ended_at, created),
        ..log
    };
    let kind = or_default(member_text(val, "type"@), ""@);
    if kind == "turn.prompt"@ {
        after_prompt(log, val, created)
    } else if kind == "context.append_message"@ {
        after_append(log, val, created)
    } else if kind == "context.append_loop_event"@ {
        after_loop_event(log, val, created)
    } else if kind == "usage.record"@ {
        after_usage(log, val)
    } else {
        log
    }
}

/// The log after a line: one that cannot be read, is blank or is no document
/// changes nothing.
pub open spec fn after_line(log: LogView, line: Option<Seq<char>>) -> LogView {
    match line {
        None => log,
        Some(text) => if blank(text) {
            log
        } else {
            match document_in(text) {
                Some(val) => after_event(log, val),
                None => log,
            }
        },
    }
}

/// The log after all these lines.
pub open spec fn log_of(lines: Seq<Option<Seq<char>>>) -> LogView
    decreases lines.len(),
{
    if lines.len() == 0 {
        empty_log()
    } else {
        after_line(log_of(lines.drop_last()), lines.last())
    }
}

/// The conversation that a wire log holds: none where nothing was said.
pub open spec fn wire_conversation(
    path: Seq<Seq<char>>,
    layout: LayoutView,
    lines: Seq<Option<Seq<char>>>,
    state: StateView,
) -> Option<ConversationView> {
    let log = flushed(log_of(lines));
    if log.messages.len() == 0 {
        None
    } else {
        let messages = numbered(log.messages);
        Some(
            ConversationView {
                agent_slug: "kimi"@,
                external_id: Some(agent_external_id(layout)),
                title: or_else(state.title, user_caption(messages, 100)),
                workspace: state.workspace,
                source_path: path,
                started_at: earlier(earlier(log.started_at, state.created_at), state.updated_at),
                ended_at: later(later(log.ended_at, state.created_at), state.updated_at),
                metadata: JsonView::Object(
                    seq![
                        ("agentId"@, JsonView::Text(layout.agent_id)),
                        ("sessionId"@, JsonView::Text(layout.session_id)),
                        ("source"@, JsonView::Text("kimi"@)),
                    ],
                ),
                messages,
            },
        )
    }
}

fn add_count(members: &mut Vec<(String, Json)>, key: &str, n: Option<i64>)
    ensures
        final(members).deep_view() == with_count(old(members).deep_view(), key@, n),
{
    if let Some(n) = n {
        assign(members, key, integer_json(n));
    }
}

fn count_of(block: &Json, key: &str) -> (r: Option<i64>)
    ensures
        r == token_count(block@, key@),
{
    match i64_in(block.get(key)) {
        Some(n) => Some(n),
        None => i64_in(get_in(block.get("tokens"), key)),
    }
}

fn keep_usage(block: &Json) -> (r: Json)
    ensures
        r@ == usage_kept(block@),
{
    let mut members: Vec<(String, Json)> = Vec::new();
    assert(members.deep_view() =~= Seq::empty());
    add_count(&mut members, "input_tokens", count_of(block, "input_tokens"));
    add_count(&mut members, "output_tokens", count_of(block, "output_tokens"));
    add_count(&mut members, "cached_input_tokens", count_of(block, "cached_input_tokens"));
    add_count(&mut members, "cache_read_tokens", count_of(block, "cache_read_tokens"));
    assign(&mut members, "data_source", text_json("api"));
    object(members)
}

fn add_usage(extra: &Json, usage: Json) -> (r: Json)
    ensures
        r@ == extra_with_usage(extra@, usage@),
{
    match extra.get("cass") {
        None => {
            let mut members: Vec<(String, Json)> = Vec::new();
            put(&mut members, "token_usage", usage);
            assert(members.deep_view() =~= seq![("token_usage"@, usage@)]);
            set_field(extra.copy(), "cass", object(members))
        },
        Some(cass) => if cass.is_object() {
            let inner = set_field(cass.copy(), "token_usage", usage);
            set_field(extra.copy(), "cass", inner)
        } else {
            extra.copy()
        },
    }
}

fn find_last_answer(messages: &Vec<Message>) -> (r: Option<usize>)
    ensures
        match r {
            Some(i) => last_answer(messages.deep_view()) == Some(i as int) && i < messages@.len(),
            None => last_answer(messages.deep_view()) is None,
        },
{
    let ghost all = messages.deep_view();
    let mut n = messages.len();
    assert(all.take(n as int) =~= all);
    while n > 0
        invariant
            n <= messages@.len(),
            all == messages.deep_view(),
            last_answer(all) == last_answer(all.take(n as int)),
        decreases n,
    {
        let m = &messages[n - 1];
        assert(all.take(n as int).last() == m.deep_view());
        assert(all.take(n as int).drop_last() =~= all.take(n - 1));
        if same_text(m.role.as_str(), "assistant") && m.invocations.len() == 0 {
            return Some(n - 1);
        }
        n = n - 1;
    }
    None
}

impl WireLog {
    pub fn new() -> (r: WireLog)
        ensures
            r.deep_view() == empty_log(),
    {
        let messages: Vec<Message> = Vec::new();
        assert(messages.deep_view() =~= Seq::empty());
        WireLog { messages, pending: None, started_at: None, ended_at: None }
    }

    fn say(&mut self, m: Message)
        ensures
            final(self).deep_view() == log_said(old(self).deep_view(), m.deep_view()),
    {
        let ghost before = self.messages.deep_view();
        self.messages.push(m);
        assert(self.messages.deep_view() =~= before.push(m.deep_view()));
    }

    /// Says a prompt that waits.
    pub fn flush_pending_prompt(&mut self)
        ensures
            final(self).deep_view() == flushed(old(self).deep_view()),
    {
        match self.pending.take() {
            Some(p) => {
                self.say(make_message("user", p.created_at, p.text, p.raw));
            },
            None => {},
        }
    }

    fn take_prompt(&mut self, val: &Json, created: Option<i64>)
        ensures
            final(self).deep_view() == after_prompt(old(self).deep_view(), val@, created),
    {
        self.flush_pending_prompt();
        let text = flatten_in(val.get("input"));
        if !is_blank(text.as_str()) {
            self.pending = Some(PendingPrompt { text, created_at: created, raw: val.copy() });
        }
    }

    fn take_message(&mut self, val: &Json, created: Option<i64>)
        ensures
            final(self).deep_view() == after_append(old(self).deep_view(), val@, created),
    {
        let message = val.get("message");
        let role = str_or(str_in(get_in(message, "role")), "assistant");
        let text = flatten_in(get_in(message, "content"));
        let mut echo = false;
        if same_text(role, "user") || same_text(role, "human") {
            if let Some(p) = &self.pending {
                echo = same_text(trimmed(p.text.as_str()).as_str(), trimmed(text.as_str()).as_str());
            }
        }
        assert(echo == is_echo(self.deep_view(), role@, text@));
        self.flush_pending_prompt();
        if !echo && !is_blank(text.as_str()) {
            self.say(make_message(role, created, text, val.copy()));
        }
    }

    fn take_part(&mut self, val: &Json, event: &Json, created: Option<i64>)
        ensures
            final(self).deep_view() == after_part(old(self).deep_view(), val@, event@, created),
    {
        let part = event.get("part");
        let kind = str_or(str_in(get_in(part, "type")), "text");
        let text = str_or(str_in(get_in(part, "text")), "");
        if is_blank(text) {
            return;
        }
        let mut m = make_message("assistant", created, text.to_owned(), val.copy());
        if same_text(kind, "think") {
            m.author = Some("reasoning".to_owned());
        }
        self.say(m);
    }

    fn take_call(&mut self, val: &Json, event: &Json, created: Option<i64>)
        ensures
            final(self).deep_view() == after_call(old(self).deep_view(), val@, event@, created),
    {
        let content = extract_kimi_code_tool_call_text(event);
        let mut m = make_message("assistant", created, content, val.copy());
        let mut invocations: Vec<Invocation> = Vec::new();
        let call = Invocation {
            kind: "tool".to_owned(),
            name: str_or(event.get_str("name"), "unknown").to_owned(),
            raw_name: None,
            call_id: owned(event.get_str("toolCallId")),
            arguments: copied(event.get("args")),
        };
        let ghost seen = call.deep_view();
        invocations.push(call);
        assert(invocations.deep_view() =~= seq![seen]);
        m.invocations = invocations;
        self.say(m);
    }

    fn take_result(&mut self, val: &Json, event: &Json, created: Option<i64>)
        ensures
            final(self).deep_view() == after_result(old(self).deep_view(), val@, event@, created),
    {
        let id = match event.get_str("toolCallId") {
            Some(id) => id,
            None => return,
        };
        let text = extract_kimi_code_tool_result_text(event);
        if is_blank(text.as_str()) {
            return;
        }
        let is_error = match get_in(event.get("result"), "error") {
            Some(error) => !error.is_null(),
            None => false,
        };
        if !attach_tool_result_to_call(&mut self.messages, id, text.as_str(), is_error) {
            let mut content = cat("[Tool result: ", id);
            push_text(&mut content, "] ");
            push_text(&mut content, text.as_str());
            self.say(make_message("tool", created, content, val.copy()));
        }
    }

    fn take_loop_event(&mut self, val: &Json, created: Option<i64>)
        ensures
            final(self).deep_view() == after_loop_event(old(self).deep_view(), val@, created),
    {
        let event = match val.get("event") {
            Some(event) => event,
            None => return,
        };
        let kind = str_or(event.get_str("type"), "");
        if same_text(kind, "step.begin") || same_text(kind, "step.end") {
            return;
        }
        self.flush_pending_prompt();
        if same_text(kind, "content.part") {
            self.take_part(val, event, created);
        } else if same_text(kind, "tool.call") {
            self.take_call(val, event, created);
        } else if same_text(kind, "tool.result") {
            self.take_result(val, event, created);
        }
    }

    fn take_usage(&mut self, val: &Json)
        ensures
            final(self).deep_view() == after_usage(old(self).deep_view(), val@),
    {
        let block = match val.get("usage") {
            Some(block) => block,
            None => val,
        };
        if count_of(block, "input_tokens").is_none() && count_of(block, "output_tokens").is_none() {
            return;
        }
        let ghost all = self.messages.deep_view();
        match find_last_answer(&self.messages) {
            None => {},
            Some(i) => {
                let usage = keep_usage(block);
                let extra = add_usage(&self.messages[i].extra, usage);
                let m = &mut self.messages[i];
                m.extra = extra;
                assert(self.messages.deep_view() =~= all.update(
                    i as int,
                    MessageView { extra: extra_with_usage(all[i as int].extra, usage_kept(block@)), ..all[i as int] },
                ));
            },
        }
    }

    /// Reads an event.
    pub fn take_event(&mut self, val: &Json)
        ensures
            final(self).deep_view() == after_event(old(self).deep_view(), val@),
    {
        let created = fractional_timestamp_of(val.get("time"));
        update_time_bounds(&mut self.started_at, &mut self.ended_at, created);
        let kind = str_or(val.get_str("type"), "");
        if same_text(kind, "turn.prompt") {
            self.take_prompt(val, created);
        } else if same_text(kind, "context.append_message") {
            self.take_message(val, created);
        } else if same_text(kind, "context.append_loop_event") {
            self.take_loop_event(val, created);
        } else if same_text(kind, "usage.record") {
            self.take_usage(val);
        }
    }

    /// Reads a line.
    pub fn take_line(&mut self, line: &Option<String>)
        ensures
            final(self).deep_view() == after_line(old(self).deep_view(), line.deep_view()),
    {
        if let Some(text) = line {
            if !is_blank(text.as_str()) {
                if let Some(val) = parse_json(text.as_str()) {
                    self.take_event(&val);
                }
            }
        }
    }
}

/// The log of all these lines.
pub fn read_log(lines: &Vec<Option<String>>) -> (r: WireLog)
    ensures
        r.deep_view() == log_of(lines.deep_view()),
{
    let ghost all = lines.deep_view();
    let mut log = WireLog::new();
    let mut i: usize = 0;
    assert(all.take(0) =~= Seq::empty());
    while i < lines.len()
        invariant
            i <= lines@.len(),
            all == lines.deep_view(),
            log.deep_view() == log_of(all.take(i as int)),
        decreases lines.len() - i,
    {
        assert(all.take(i + 1).drop_last() =~= all.take(i as int));
        assert(all.take(i + 1).last() == lines@[i as int].deep_view());
        log.take_line(&lines[i]);
        i = i + 1;
    }
    assert(all.take(all.len() as int) =~= all);
    log
}

/// What a wire log of Kimi Code reads as.
pub open spec fn code_session(t: Seq<EntryView>, path: Seq<Seq<char>>, layout: LayoutView) -> Result<
    Option<ConversationView>,
    ReadError,
> {
    match lines_at(t, path) {
        None => Err(ReadError::Unreadable),
        Some(lines) => Ok(
            wire_conversation(
                path,
                layout,
                lines,
                state_in(text_at(t, below(layout.session_root, "state.json"@))),
            ),
        ),
    }
}

/// Reads the conversation of a wire log: it fails exactly where the log cannot be
/// read, and there is none exactly where nothing was said.
pub fn parse_kimi_code_session(files: &FileTable, path: &SourcePath, layout: &ModernWireLayout) -> (r: Result<
    Option<Conversation>,
    ReadError,
>)
    ensures
        match r {
            Ok(c) => code_session(files.deep_view(), path.deep_view(), layout.deep_view()) == Ok::<
                Option<ConversationView>,
                ReadError,
            >(c.deep_view()),
            Err(e) => code_session(files.deep_view(), path.deep_view(), layout.deep_view()) == Err::<
                Option<ConversationView>,
                ReadError,
            >(e),
        },
{
    let lines = match files.read_lines(path) {
        Some(lines) => lines,
        None => return Err(ReadError::Unreadable),
    };
    let mut log = read_log(&lines);
    log.flush_pending_prompt();
    let ghost read = log.deep_view();
    let mut messages = log.messages;
    let mut started_at = log.started_at;
    let mut ended_at = log.ended_at;
    reindex_messages(&mut messages);
    if messages.len() == 0 {
        assert(messages.deep_view().len() == read.messages.len());
        return Ok(None);
    }
    let state = read_kimi_code_state(files, &layout.session_root);
    update_time_bounds(&mut started_at, &mut ended_at, state.created_at);
    update_time_bounds(&mut started_at, &mut ended_at, state.updated_at);
    let title = match state.title {
        Some(t) => Some(t),
        None => user_caption_of(&messages, 100),
    };
    let mut metadata: Vec<(String, Json)> = Vec::new();
    put(&mut metadata, "agentId", text_json(layout.agent_id.as_str()));
    put(&mut metadata, "sessionId", text_json(layout.session_id.as_str()));
    put(&mut metadata, "source", text_json("kimi"));
    assert(metadata.deep_view() =~= seq![
        ("agentId"@, JsonView::Text(layout.agent_id@)),
        ("sessionId"@, JsonView::Text(layout.session_id@)),
        ("source"@, JsonView::Text("kimi"@)),
    ]);
    Ok(
        Some(
            Conversation {
                agent_slug: "kimi".to_owned(),
                external_id: Some(layout.external_id()),
                title,
                workspace: state.workspace,
                source_path: path.copy(),
                started_at,
                ended_at,
                metadata: object(metadata),
                messages,
            },
        ),
    )
}

/// What holds of a log at any time: nothing that was said or waits is blank, and
/// it ended where it started or later.
pub open spec fn log_is_sound(log: LogView) -> bool {
    &&& forall|i: int| 0 <= i < log.messages.len() ==> !blank((#[trigger] log.messages[i]).content)
    &&& log.pending matches Some(p) ==> !blank(p.text)
    &&& spans(log.started_at, log.ended_at)
}

proof fn standing_result_is_not_blank(id: Seq<char>, text: Seq<char>)
    ensures
        !blank("[Tool result: "@ + id + "] "@ + text),
{
    reveal_strlit("[Tool result: ");
    let content = "[Tool result: "@ + id + "] "@ + text;
    assert(content[0] == '[');
    assert(!crate::text::is_white('['));
}

proof fn event_keeps_log_sound(log: LogView, val: JsonView)
    requires
        log_is_sound(log),
    ensures
        log_is_sound(after_event(log, val)),
        log_is_sound(flushed(log)),
{
    let created = fractional_timestamp_in(member(val, "time"@));
    let timed = LogView {
        started_at: earlier(log.started_at, created),
        ended_at: later(log.ended_at, created),
        ..log
    };
    assert(log_is_sound(timed));
    assert(log_is_sound(flushed(log)));
    assert(log_is_sound(flushed(timed)));
    if let Some(event) = member(val, "event"@) {
        crate::model::tool_label_is_not_blank(call_name(event), call_about(event));
        if let Some(id) = member_text(event, "toolCallId"@) {
            standing_result_is_not_blank(id, result_text(event));
            let messages = flushed(timed).messages;
            last_call_bounds(messages, id);
            if let Some(i) = open_call(messages, id) {
                let changed = with_result_at(messages, i, result_text(event), result_is_error(event));
                assert forall|k: int| 0 <= k < changed.len() implies !blank((#[trigger] changed[k]).content) by {
                    assert(changed[k].content == messages[k].content);
                }
            }
        }
        assert(log_is_sound(after_part(flushed(timed), val, event, created)));
        assert(log_is_sound(after_call(flushed(timed), val, event, created)));
        assert(log_is_sound(after_result(flushed(timed), val, event, created)));
    }
    let block = or_default(member(val, "usage"@), val);
    last_answer_bounds(timed.messages);
    assert(log_is_sound(after_usage(timed, val))) by {
        let after = after_usage(timed, val);
        assert forall|k: int| 0 <= k < after.messages.len() implies !blank((#[trigger] after.messages[k]).content) by {
            assert(after.messages[k].content == timed.messages[k].content);
        }
    }
    assert(log_is_sound(after_prompt(timed, val, created)));
    assert(log_is_sound(after_append(timed, val, created)));
    assert(log_is_sound(after_loop_event(timed, val, created)));
}

proof fn last_answer_bounds(messages: Seq<MessageView>)
    ensures
        last_answer(messages) matches Some(i) ==> 0 <= i < messages.len() && messages[i].role == "assistant"@
            && messages[i].invocations.len() == 0,
    decreases messages.len(),
{
    if messages.len() > 0 {
        last_answer_bounds(messages.drop_last());
    }
}

proof fn log_of_is_sound(lines: Seq<Option<Seq<char>>>)
    ensures
        log_is_sound(log_of(lines)),
    decreases lines.len(),
{
    if lines.len() > 0 {
        log_of_is_sound(lines.drop_last());
        if let Some(text) = lines.last() {
            if let Some(val) = document_in(text) {
                event_keeps_log_sound(log_of(lines.drop_last()), val);
            }
        }
    }
}

/// A conversation that was read has messages, each at its place and none blank,
/// and ended where it started or later.
pub proof fn wire_conversation_is_sound(
    path: Seq<Seq<char>>,
    layout: LayoutView,
    lines: Seq<Option<Seq<char>>>,
    state: StateView,
)
    ensures
        wire_conversation(path, layout, lines, state) matches Some(c) ==> {
            &&& c.messages.len() > 0
            &&& crate::model::is_numbered(c.messages)
            &&& forall|i: int| 0 <= i < c.messages.len() ==> !blank((#[trigger] c.messages[i]).content)
            &&& spans(c.started_at, c.ended_at)
        },
{
    log_of_is_sound(lines);
    event_keeps_log_sound(log_of(lines), JsonView::Null);
    let log = flushed(log_of(lines));
    crate::model::numbering(log.messages);
}

/// The kind of an event.
pub open spec fn event_kind(val: JsonView) -> Seq<char> {
    or_default(member_text(val, "type"@), ""@)
}

/// Whether an event says nothing: a kind that is not known, a record of usage, or
/// the begin or end of a step.
pub open spec fn is_bookkeeping(val: JsonView) -> bool {
    let kind = event_kind(val);
    &&& kind != "turn.prompt"@
    &&& kind != "context.append_message"@
    &&& kind == "context.append_loop_event"@ ==> match member(val, "event"@) {
        None => true,
        Some(event) => event_kind(event) == "step.begin"@ || event_kind(event) == "step.end"@,
    }
}

/// Bookkeeping says nothing, and a prompt waits on.
pub proof fn bookkeeping_keeps_the_prompt(log: LogView, val: JsonView)
    requires
        is_bookkeeping(val),
    ensures
        after_event(log, val).pending == log.pending,
        after_event(log, val).messages.len() == log.messages.len(),
        forall|i: int|
            0 <= i < log.messages.len() ==> (#[trigger] after_event(log, val).messages[i]).content
                == log.messages[i].content && after_event(log, val).messages[i].role == log.messages[i].role,
{
    last_answer_bounds(log.messages);
}

/// A prompt and its echo are said once, as the user's, with the time of the
/// prompt, whatever bookkeeping came between them: `between` is the log that is
/// left by it.
pub proof fn prompt_and_echo_are_said_once(log: LogView, prompt: JsonView, between: LogView, echo: JsonView)
    requires
        event_kind(prompt) == "turn.prompt"@,
        !blank(flat_text_in(member(prompt, "input"@))),
        event_kind(echo) == "context.append_message"@,
        between.pending == after_event(log, prompt).pending,
        ({
            let role = or_default(text_in(member_of(member(echo, "message"@), "role"@)), "assistant"@);
            role == "user"@ || role == "human"@
        }),
        trim(flat_text_in(member_of(member(echo, "message"@), "content"@))) == trim(
            flat_text_in(member(prompt, "input"@)),
        ),
    ensures
        after_event(between, echo).pending is None,
        after_event(between, echo).messages == between.messages.push(
            simple_message(
                "user"@,
                fractional_timestamp_in(member(prompt, "time"@)),
                flat_text_in(member(prompt, "input"@)),
                prompt,
            ),
        ),
{
    reveal_strlit("turn.prompt");
    reveal_strlit("context.append_message");
    assert("turn.prompt"@.len() != "context.append_message"@.len());
}

proof fn last_call_same_calls(a: Seq<MessageView>, b: Seq<MessageView>, id: Seq<char>)
    requires
        a.len() == b.len(),
        forall|i: int| 0 <= i < a.len() ==> (#[trigger] a[i]).invocations == b[i].invocations,
    ensures
        last_call(a, id) == last_call(b, id),
    decreases a.len(),
{
    if a.len() > 0 {
        assert(a[a.len() - 1].invocations == b[b.len() - 1].invocations);
        assert forall|i: int| 0 <= i < a.drop_last().len() implies (#[trigger] a.drop_last()[i]).invocations
            == b.drop_last()[i].invocations by {
            assert(a[i].invocations == b[i].invocations);
        }
        last_call_same_calls(a.drop_last(), b.drop_last(), id);
    }
}

/// The first result of a call stays: once a call took it, no other result of that
/// name goes to any call, and all that the first one changed is what the source
/// says of the call.
pub proof fn first_result_wins(messages: Seq<MessageView>, id: Seq<char>, text: Seq<char>, is_error: bool)
    requires
        open_call(messages, id) is Some,
    ensures
        ({
            let i = open_call(messages, id)->0;
            let after = with_result_at(messages, i, text, is_error);
            &&& 0 <= i < messages.len()
            &&& makes_call(messages[i], id)
            &&& open_call(after, id) is None
            &&& has_result(after[i].extra)
            &&& after[i] == (MessageView { extra: after[i].extra, ..messages[i] })
            &&& forall|k: int| 0 <= k < messages.len() && k != i ==> #[trigger] after[k] == messages[k]
        }),
{
    last_call_bounds(messages, id);
    let i = open_call(messages, id)->0;
    let after = with_result_at(messages, i, text, is_error);
    attached_result_is_kept(messages[i].extra, text, is_error);
    last_call_same_calls(messages, after, id);
}

/// Whether a line says nothing: it cannot be read, is blank or is no document.
pub open spec fn is_idle(line: Option<Seq<char>>) -> bool {
    match line {
        None => true,
        Some(text) => blank(text) || document_in(text) is None,
    }
}

/// The lines that say something.
pub open spec fn telling_lines(lines: Seq<Option<Seq<char>>>) -> Seq<Option<Seq<char>>> {
    lines.filter(|line: Option<Seq<char>>| !is_idle(line))
}

proof fn idle_lines_are_passed_over(lines: Seq<Option<Seq<char>>>)
    ensures
        log_of(lines) == log_of(telling_lines(lines)),
    decreases lines.len(),
{
    reveal(Seq::filter);
    if lines.len() > 0 {
        let front = lines.drop_last();
        idle_lines_are_passed_over(front);
        let kept = telling_lines(front);
        if !is_idle(lines.last()) {
            assert(telling_lines(lines) == kept.push(lines.last()));
            assert(kept.push(lines.last()).drop_last() =~= kept);
        }
    }
}

/// Lines that cannot be read, are blank or are no document change nothing wherever
/// they stand: logs that tell the same without them make the same conversation, with
/// the same messages, title and times.
pub proof fn idle_lines_change_nothing(
    path: Seq<Seq<char>>,
    layout: LayoutView,
    a: Seq<Option<Seq<char>>>,
    b: Seq<Option<Seq<char>>>,
    state: StateView,
)
    requires
        telling_lines(a) == telling_lines(b),
    ensures
        log_of(a) == log_of(b),
        wire_conversation(path, layout, a, state) == wire_conversation(path, layout, b, state),
{
    idle_lines_are_passed_over(a);
    idle_lines_are_passed_over(b);
}

/// A line that says nothing can be put anywhere into a log.
pub proof fn idle_line_can_be_inserted(
    path: Seq<Seq<char>>,
    layout: LayoutView,
    lines: Seq<Option<Seq<char>>>,
    i: int,
    line: Option<Seq<char>>,
    state: StateView,
)
    requires
        0 <= i <= lines.len(),
        is_idle(line),
    ensures
        wire_conversation(path, layout, lines.insert(i, line), state) == wire_conversation(path, layout, lines, state),
{
    broadcast use Seq::filter_distributes_over_add;

    let wanted = |line: Option<Seq<char>>| !is_idle(line);
    let (head, tail) = (lines.take(i), lines.skip(i));
    assert(lines =~= head + tail);
    assert(lines.insert(i, line) =~= head + seq![line] + tail);
    assert(seq![line].filter(wanted) =~= Seq::empty()) by {
        reveal_with_fuel(Seq::filter, 2);
        assert(seq![line].drop_last() =~= Seq::empty());
        assert(seq![line].drop_last().filter(wanted) =~= Seq::empty());
    }
    assert((head + seq![line]).filter(wanted) =~= head.filter(wanted));
    idle_lines_change_nothing(path, layout, lines.insert(i, line), lines, state);
}

/// There is no conversation exactly where nothing was said, and nothing was said where
/// every line says nothing or is bookkeeping.
pub proof fn bookkeeping_makes_no_conversation(
    path: Seq<Seq<char>>,
    layout: LayoutView,
    lines: Seq<Option<Seq<char>>>,
    state: StateView,
)
    ensures
        wire_conversation(path, layout, lines, state) is None <==> flushed(log_of(lines)).messages.len() == 0,
        (forall|i: int|
            0 <= i < lines.len() ==> is_idle(#[trigger] lines[i]) || is_bookkeeping(document_in(lines[i]->0)->0))
            ==> wire_conversation(path, layout, lines, state) is None,
{
    if forall|i: int|
        0 <= i < lines.len() ==> is_idle(#[trigger] lines[i]) || is_bookkeeping(document_in(lines[i]->0)->0) {
        bookkeeping_says_nothing(lines);
    }
}

proof fn bookkeeping_says_nothing(lines: Seq<Option<Seq<char>>>)
    requires
        forall|i: int|
            0 <= i < lines.len() ==> is_idle(#[trigger] lines[i]) || is_bookkeeping(document_in(lines[i]->0)->0),
    ensures
        log_of(lines).pending is None,
        log_of(lines).messages.len() == 0,
    decreases lines.len(),
{
    if lines.len() > 0 {
        let front = lines.drop_last();
        assert forall|i: int| 0 <= i < front.len() implies is_idle(#[trigger] front[i]) || is_bookkeeping(
            document_in(front[i]->0)->0,
        ) by {
            assert(front[i] == lines[i]);
        }
        bookkeeping_says_nothing(front);
        let last = lines[lines.len() - 1];
        if !is_idle(last) {
            bookkeeping_keeps_the_prompt(log_of(front), document_in(last->0)->0);
        }
    }
}

/// Whether the documents of a log are canonical, those that wait to be said among
/// them.
pub open spec fn log_is_canonical(log: LogView) -> bool {
    canonical_messages(log.messages) && (log.pending matches Some(p) ==> canonical(p.raw))
}

proof fn said_keeps_canonical(log: LogView, m: MessageView)
    requires
        log_is_canonical(log),
        canonical_message(m),
    ensures
        log_is_canonical(log_said(log, m)),
{
    messages_grow(log.messages, m);
}

proof fn flushed_keeps_canonical(log: LogView)
    requires
        log_is_canonical(log),
    ensures
        log_is_canonical(flushed(log)),
{
    if let Some(p) = log.pending {
        messages_grow(log.messages, simple_message("user"@, p.created_at, p.text, p.raw));
    }
}

proof fn kept_result_is_canonical(text: Seq<char>, is_error: bool)
    ensures
        canonical(kept_result(text, is_error)),
{
    reveal_strlit("content");
    reveal_strlit("is_error");
    comes_before("content"@, "is_error"@, 0);
    rising_members_are_canonical(
        seq![("content"@, JsonView::Text(text)), ("is_error"@, JsonView::Bool(is_error))],
    );
}

/// What is known of a message stays canonical when a result is put to it.
pub proof fn extra_with_result_is_canonical(extra: JsonView, text: Seq<char>, is_error: bool)
    requires
        canonical(extra),
    ensures
        canonical(extra_with_result(extra, text, is_error)),
{
    let base = object_or_empty(Some(extra));
    let inner = object_or_empty(member(base, "cass"@));
    rising_members_are_canonical(Seq::empty());
    member_canonical(base, "cass"@);
    kept_result_is_canonical(text, is_error);
    with_field_canonical(inner, "tool_result"@, kept_result(text, is_error));
    with_field_canonical(base, "cass"@, with_field(inner, "tool_result"@, kept_result(text, is_error)));
}

proof fn count_keeps_canonical(members: Seq<(Seq<char>, JsonView)>, key: Seq<char>, n: Option<i64>)
    requires
        canonical(JsonView::Object(members)),
    ensures
        canonical(JsonView::Object(with_count(members, key, n))),
{
    if let Some(n) = n {
        with_member_canonical(members, key, integer_view(n as int));
    }
}

/// What is kept of a record of usage is canonical.
pub proof fn usage_kept_is_canonical(block: JsonView)
    ensures
        canonical(usage_kept(block)),
{
    let read = |key: Seq<char>| token_count(block, key);
    let a = with_count(Seq::empty(), "input_tokens"@, read("input_tokens"@));
    let b = with_count(a, "output_tokens"@, read("output_tokens"@));
    let c = with_count(b, "cached_input_tokens"@, read("cached_input_tokens"@));
    let d = with_count(c, "cache_read_tokens"@, read("cache_read_tokens"@));
    rising_members_are_canonical(Seq::empty());
    count_keeps_canonical(Seq::empty(), "input_tokens"@, read("input_tokens"@));
    count_keeps_canonical(a, "output_tokens"@, read("output_tokens"@));
    count_keeps_canonical(b, "cached_input_tokens"@, read("cached_input_tokens"@));
    count_keeps_canonical(c, "cache_read_tokens"@, read("cache_read_tokens"@));
    with_member_canonical(d, "data_source"@, JsonView::Text("api"@));
}

/// What is known of a message stays canonical when usage is put to it.
pub proof fn extra_with_usage_is_canonical(extra: JsonView, usage: JsonView)
    requires
        canonical(extra),
        canonical(usage),
    ensures
        canonical(extra_with_usage(extra, usage)),
{
    match member(extra, "cass"@) {
        None => {
            one_member_is_canonical("token_usage"@, usage);
            with_field_canonical(extra, "cass"@, JsonView::Object(seq![("token_usage"@, usage)]));
        },
        Some(cass) => {
            member_canonical(extra, "cass"@);
            with_field_canonical(cass, "token_usage"@, usage);
            with_field_canonical(extra, "cass"@, with_field(cass, "token_usage"@, usage));
        },
    }
}

proof fn result_keeps_canonical(log: LogView, val: JsonView, event: JsonView, created: Option<i64>)
    requires
        log_is_canonical(log),
        canonical(val),
    ensures
        log_is_canonical(after_result(log, val, event, created)),
{
    if let Some(id) = member_text(event, "toolCallId"@) {
        let text = result_text(event);
        last_call_bounds(log.messages, id);
        match open_call(log.messages, id) {
            Some(i) => {
                let m = log.messages[i];
                let more = MessageView {
                    extra: extra_with_result(m.extra, text, result_is_error(event)),
                    ..m
                };
                assert(canonical_message(m));
                extra_with_result_is_canonical(m.extra, text, result_is_error(event));
                messages_change(log.messages, i, more);
            },
            None => {
                said_keeps_canonical(
                    log,
                    simple_message("tool"@, created, "[Tool result: "@ + id + "] "@ + text, val),
                );
            },
        }
    }
}

proof fn call_keeps_canonical(log: LogView, val: JsonView, event: JsonView, created: Option<i64>)
    requires
        log_is_canonical(log),
        canonical(val),
        canonical(event),
    ensures
        log_is_canonical(after_call(log, val, event, created)),
{
    let m = after_call(log, val, event, created).messages.last();
    member_canonical(event, "args"@);
    assert(canonical_call(m.invocations[0]));
    said_keeps_canonical(log, m);
}

proof fn loop_event_keeps_canonical(log: LogView, val: JsonView, created: Option<i64>)
    requires
        log_is_canonical(log),
        canonical(val),
    ensures
        log_is_canonical(after_loop_event(log, val, created)),
{
    if let Some(event) = member(val, "event"@) {
        let more = flushed(log);
        member_canonical(val, "event"@);
        flushed_keeps_canonical(log);
        result_keeps_canonical(more, val, event, created);
        call_keeps_canonical(more, val, event, created);
        if after_part(more, val, event, created) != more {
            said_keeps_canonical(more, after_part(more, val, event, created).messages.last());
        }
    }
}

proof fn usage_keeps_canonical(log: LogView, val: JsonView)
    requires
        log_is_canonical(log),
    ensures
        log_is_canonical(after_usage(log, val)),
{
    let block = or_default(member(val, "usage"@), val);
    last_answer_bounds(log.messages);
    if let Some(i) = last_answer(log.messages) {
        let m = log.messages[i];
        let more = MessageView { extra: extra_with_usage(m.extra, usage_kept(block)), ..m };
        assert(canonical_message(m));
        usage_kept_is_canonical(block);
        extra_with_usage_is_canonical(m.extra, usage_kept(block));
        messages_change(log.messages, i, more);
    }
}

/// A log stays canonical, whatever event is read next.
pub proof fn event_keeps_canonical(log: LogView, val: JsonView)
    requires
        log_is_canonical(log),
        canonical(val),
    ensures
        log_is_canonical(after_event(log, val)),
{
    let created = fractional_timestamp_in(member(val, "time"@));
    let timed = LogView {
        started_at: earlier(log.started_at, created),
        ended_at: later(log.ended_at, created),
        ..log
    };
    flushed_keeps_canonical(timed);
    loop_event_keeps_canonical(timed, val, created);
    usage_keeps_canonical(timed, val);
    let message = member(val, "message"@);
    said_keeps_canonical(
        flushed(timed),
        simple_message(
            or_default(text_in(member_of(message, "role"@)), "assistant"@),
            created,
            flat_text_in(member_of(message, "content"@)),
            val,
        ),
    );
}

proof fn log_of_is_canonical(lines: Seq<Option<Seq<char>>>)
    ensures
        log_is_canonical(log_of(lines)),
    decreases lines.len(),
{
    if lines.len() > 0 {
        log_of_is_canonical(lines.drop_last());
        if let Some(text) = lines.last() {
            if let Some(val) = document_in(text) {
                event_keeps_canonical(log_of(lines.drop_last()), val);
            }
        }
    }
}

/// The documents of a conversation that was read are canonical.
pub proof fn wire_conversation_is_canonical(
    path: Seq<Seq<char>>,
    layout: LayoutView,
    lines: Seq<Option<Seq<char>>>,
    state: StateView,
)
    ensures
        wire_conversation(path, layout, lines, state) matches Some(c) ==> canonical_conversation(c),
{
    log_of_is_canonical(lines);
    flushed_keeps_canonical(log_of(lines));
    numbered_canonical(flushed(log_of(lines)).messages);
    reveal_strlit("agentId");
    reveal_strlit("sessionId");
    reveal_strlit("source");
    comes_before("agentId"@, "sessionId"@, 0);
    comes_before("sessionId"@, "source"@, 1);
    rising_members_are_canonical(
        seq![
            ("agentId"@, JsonView::Text(layout.agent_id)),
            ("sessionId"@, JsonView::Text(layout.session_id)),
            ("source"@, JsonView::Text("kimi"@)),
        ],
    );
}

proof fn event_kinds_differ()
    ensures
        "turn.prompt"@ != "context.append_message"@,
        "turn.prompt"@ != "context.append_loop_event"@,
        "turn.prompt"@ != "usage.record"@,
        "context.append_message"@ != "context.append_loop_event"@,
        "context.append_message"@ != "usage.record"@,
        "context.append_loop_event"@ != "usage.record"@,
        "step.begin"@ != "content.part"@,
        "step.begin"@ != "tool.call"@,
        "step.begin"@ != "tool.result"@,
        "step.end"@ != "content.part"@,
        "step.end"@ != "tool.call"@,
        "step.end"@ != "tool.result"@,
        "content.part"@ != "tool.call"@,
        "content.part"@ != "tool.result"@,
        "tool.call"@ != "tool.result"@,
{
    reveal_strlit("turn.prompt");
    reveal_strlit("context.append_message");
    reveal_strlit("context.append_loop_event");
    reveal_strlit("usage.record");
    reveal_strlit("step.begin");
    reveal_strlit("step.end");
    reveal_strlit("content.part");
    reveal_strlit("tool.call");
    reveal_strlit("tool.result");
    assert("turn.prompt"@.len() == 11 && "context.append_message"@.len() == 22 && "usage.record"@.len() == 12);
    assert("context.append_loop_event"@.len() == 25);
    assert("step.begin"@.len() == 10 && "step.end"@.len() == 8 && "content.part"@.len() == 12);
    assert("tool.call"@.len() == 9 && "tool.result"@.len() == 11);
}

/// Whether a message is behind all that was said before, with a prompt that waited said
/// right before it.
pub open spec fn is_said_next(before: LogView, after: LogView, m: MessageView) -> bool {
    &&& after.pending is None
    &&& before.pending is None ==> after.messages == before.messages.push(m)
    &&& before.pending matches Some(p) ==> {
        let n = before.messages.len() as int;
        &&& after.messages.len() == n + 2
        &&& after.messages.take(n) == before.messages
        &&& after.messages[n].role == "user"@
        &&& after.messages[n].content == p.text
        &&& after.messages[n].created_at == p.created_at
        &&& after.messages[n].extra == p.raw
        &&& after.messages[n].invocations.len() == 0
        &&& after.messages[n + 1] == m
    }
}

proof fn saying_next(log: LogView, m: MessageView)
    ensures
        is_said_next(log, log_said(flushed(log), m), m),
{
    if let Some(p) = log.pending {
        let n = log.messages.len() as int;
        let after = log_said(flushed(log), m).messages;
        assert(after.take(n) =~= log.messages);
    }
}

/// A part of an answer is said by the assistant, as reasoning where it is thought, with
/// its own text and at the time of its own event, whatever the log held before.
pub proof fn answers_are_said_at_their_own_time(log: LogView, val: JsonView, event: JsonView, part: JsonView, text: Seq<char>)
    requires
        member_text(val, "type"@) == Some("context.append_loop_event"@),
        member(val, "event"@) == Some(event),
        member_text(event, "type"@) == Some("content.part"@),
        member(event, "part"@) == Some(part),
        member_text(part, "text"@) == Some(text),
        !blank(text),
    ensures
        ({
            let after = after_event(log, val);
            let m = after.messages.last();
            &&& is_said_next(log, after, m)
            &&& m.role == "assistant"@
            &&& m.content == text
            &&& m.created_at == fractional_timestamp_in(member(val, "time"@))
            &&& m.extra == val
            &&& m.invocations.len() == 0
            &&& member_text(part, "type"@) == Some("think"@) ==> m.author == Some("reasoning"@)
            &&& member_text(part, "type"@) != Some("think"@) ==> m.author is None
        }),
{
    event_kinds_differ();
    reveal_strlit("text");
    reveal_strlit("think");
    assert("text"@.len() == 4 && "think"@.len() == 5);
    let created = fractional_timestamp_in(member(val, "time"@));
    let timed = LogView { started_at: earlier(log.started_at, created), ended_at: later(log.ended_at, created), ..log };
    let m = after_part(flushed(timed), val, event, created).messages.last();
    saying_next(timed, m);
}

/// A call of a tool is said by the assistant at the time of its own event, and names the
/// tool, what it is about, its own name and its arguments.
pub proof fn calls_are_said_at_their_own_time(log: LogView, val: JsonView, event: JsonView)
    requires
        member_text(val, "type"@) == Some("context.append_loop_event"@),
        member(val, "event"@) == Some(event),
        member_text(event, "type"@) == Some("tool.call"@),
    ensures
        ({
            let after = after_event(log, val);
            let m = after.messages.last();
            let name = or_default(member_text(event, "name"@), "unknown"@);
            &&& is_said_next(log, after, m)
            &&& m.role == "assistant"@
            &&& m.created_at == fractional_timestamp_in(member(val, "time"@))
            &&& m.extra == val
            &&& m.author is None
            &&& m.content == tool_label(name, call_about(event))
            &&& m.invocations.len() == 1
            &&& m.invocations[0].kind == "tool"@
            &&& m.invocations[0].name == name
            &&& m.invocations[0].raw_name is None
            &&& m.invocations[0].call_id == member_text(event, "toolCallId"@)
            &&& m.invocations[0].arguments == member(event, "args"@)
        }),
{
    event_kinds_differ();
    let created = fractional_timestamp_in(member(val, "time"@));
    let timed = LogView { started_at: earlier(log.started_at, created), ended_at: later(log.ended_at, created), ..log };
    let m = after_call(flushed(timed), val, event, created).messages.last();
    saying_next(timed, m);
}

/// What a call is about is its description, or else the file or path it names, or else
/// its command.
pub proof fn calls_are_about_their_arguments(event: JsonView, args: JsonView, t: Seq<char>)
    requires
        member(event, "args"@) == Some(args),
    ensures
        member_text(args, "description"@) == Some(t) ==> call_about(event) == t,
        member(args, "description"@) is None && member_text(args, "file_path"@) == Some(t) ==> call_about(event) == t,
        member(args, "description"@) is None && member(args, "file_path"@) is None && member_text(args, "path"@)
            == Some(t) ==> call_about(event) == t,
        member(args, "description"@) is None && member(args, "file_path"@) is None && member(args, "path"@) is None
            && member_text(args, "command"@) == Some(t) ==> call_about(event) == t,
        member(args, "description"@) is None && member(args, "file_path"@) is None && member(args, "path"@) is None
            && member(args, "command"@) is None ==> call_about(event).len() == 0,
{
    reveal_strlit("");
}

/// A message is said by its own role, the assistant where none is given, with its own
/// content and at the time of its own event, unless it is the echo of the prompt that
/// waits or blank: then the prompt alone is said.
pub proof fn messages_are_said_at_their_own_time(log: LogView, val: JsonView, message: JsonView)
    requires
        member_text(val, "type"@) == Some("context.append_message"@),
        member(val, "message"@) == Some(message),
        !blank(flat_text_in(member(message, "content"@))),
    ensures
        ({
            let after = after_event(log, val);
            let m = after.messages.last();
            let text = flat_text_in(member(message, "content"@));
            let role = member_text(message, "role"@);
            let is_users = role == Some("user"@) || role == Some("human"@);
            let echoes = is_users && (log.pending matches Some(p) && trim(p.text) == trim(text));
            &&& !echoes ==> {
                &&& is_said_next(log, after, m)
                &&& role matches Some(role) ==> m.role == role
                &&& role is None ==> m.role == "assistant"@
                &&& m.content == text
                &&& m.created_at == fractional_timestamp_in(member(val, "time"@))
                &&& m.extra == val
                &&& m.author is None
                &&& m.invocations.len() == 0
            }
            &&& echoes ==> {
                &&& after.pending is None
                &&& after.messages.len() == log.messages.len() + 1
                &&& after.messages.drop_last() == log.messages
                &&& m.role == "user"@
                &&& m.content == log.pending->0.text
                &&& m.created_at == log.pending->0.created_at
            }
        }),
{
    event_kinds_differ();
    let created = fractional_timestamp_in(member(val, "time"@));
    let timed = LogView { started_at: earlier(log.started_at, created), ended_at: later(log.ended_at, created), ..log };
    let text = flat_text_in(member(message, "content"@));
    let role = or_default(member_text(message, "role"@), "assistant"@);
    reveal_strlit("assistant");
    reveal_strlit("user");
    reveal_strlit("human");
    assert("assistant"@.len() == 9 && "user"@.len() == 4 && "human"@.len() == 5);
    saying_next(timed, simple_message(role, created, text, val));
    if let Some(p) = log.pending {
        assert(flushed(timed).messages.drop_last() =~= log.messages);
    }
}

/// A prompt waits with its own text and time; one that waited before is said.
pub proof fn prompts_wait_with_their_own_time(log: LogView, val: JsonView)
    requires
        member_text(val, "type"@) == Some("turn.prompt"@),
        !blank(flat_text_in(member(val, "input"@))),
    ensures
        ({
            let after = after_event(log, val);
            &&& after.pending matches Some(p) && p.text == flat_text_in(member(val, "input"@)) && p.created_at
                == fractional_timestamp_in(member(val, "time"@)) && p.raw == val
            &&& log.pending is None ==> after.messages == log.messages
            &&& log.pending matches Some(p) ==> {
                &&& after.messages.len() == log.messages.len() + 1
                &&& after.messages.drop_last() == log.messages
                &&& after.messages.last().role == "user"@
                &&& after.messages.last().content == p.text
                &&& after.messages.last().created_at == p.created_at
            }
        }),
{
    if let Some(p) = log.pending {
        let m = simple_message("user"@, p.created_at, p.text, p.raw);
        assert(log.messages.push(m).drop_last() =~= log.messages);
    }
}

/// The result of a call goes to the last message that makes the call, where that holds no
/// result yet: its text and whether it is an error, and nothing else of any message
/// changes. A result that no call takes is a message of its own, at its own time.
pub proof fn results_go_to_their_call(log: LogView, val: JsonView, event: JsonView, id: Seq<char>)
    requires
        member_text(val, "type"@) == Some("context.append_loop_event"@),
        member(val, "event"@) == Some(event),
        member_text(event, "type"@) == Some("tool.result"@),
        member_text(event, "toolCallId"@) == Some(id),
        !blank(result_text(event)),
        log.pending is None,
    ensures
        ({
            let after = after_event(log, val);
            let i = last_call(log.messages, id);
            &&& i is Some && !has_result(log.messages[i->0].extra) ==> {
                let kept = member_of(member(after.messages[i->0].extra, "cass"@), "tool_result"@);
                &&& after.messages.len() == log.messages.len()
                &&& forall|k: int| 0 <= k < log.messages.len() && k != i->0 ==> after.messages[k] == log.messages[k]
                &&& after.messages[i->0] == (MessageView {
                    extra: after.messages[i->0].extra,
                    ..log.messages[i->0]
                })
                &&& member_of(kept, "content"@) == Some(JsonView::Text(result_text(event)))
                &&& member_of(kept, "is_error"@) == Some(JsonView::Bool(result_is_error(event)))
            }
            &&& i is None || has_result(log.messages[i->0].extra) ==> {
                let m = after.messages.last();
                &&& after.messages == log.messages.push(m)
                &&& m.role == "tool"@
                &&& m.created_at == fractional_timestamp_in(member(val, "time"@))
                &&& m.content == "[Tool result: "@ + id + "] "@ + result_text(event)
                &&& m.extra == val
                &&& m.invocations.len() == 0
            }
        }),
{
    event_kinds_differ();
    last_call_bounds(log.messages, id);
    let text = result_text(event);
    let failed = result_is_error(event);
    if let Some(i) = last_call(log.messages, id) {
        attached_result_is_kept(log.messages[i].extra, text, failed);
        let members = seq![("content"@, JsonView::Text(text)), ("is_error"@, JsonView::Bool(failed))];
        reveal_strlit("content");
        reveal_strlit("is_error");
        assert("content"@.len() == 7 && "is_error"@.len() == 8);
        member_is_the_first_of_its_key(JsonView::Null, members, "content"@, 0);
        member_is_the_first_of_its_key(JsonView::Null, members, "is_error"@, 1);
    }
}

/// What a result says is its text, or else its output, or else what its content says; it is
/// an error where it gives one.
pub proof fn results_say_their_output(event: JsonView, result: JsonView, t: Seq<char>)
    requires
        member(event, "result"@) == Some(result),
    ensures
        result == JsonView::Text(t) ==> result_text(event) == t,
        member_text(result, "output"@) == Some(t) && t.len() > 0 ==> result_text(event) == t,
        result_is_error(event) <==> (member(result, "error"@) is Some && member(result, "error"@) != Some(JsonView::Null)),
{
}

/// The usage that is recorded, by itself or under `usage`, goes to the last answer that
/// calls no tool, and changes nothing else of any message: each count that is given is
/// kept, and none that is not.
pub proof fn usage_goes_to_the_last_answer(log: LogView, val: JsonView, block: JsonView, i: int, key: Seq<char>)
    requires
        member_text(val, "type"@) == Some("usage.record"@),
        member(val, "usage"@) == Some(block) || (member(val, "usage"@) is None && block == val),
        integer_in(member(block, "input_tokens"@)) is Some || integer_in(member(block, "output_tokens"@)) is Some,
        0 <= i < log.messages.len(),
        log.messages[i].role == "assistant"@,
        log.messages[i].invocations.len() == 0,
        forall|k: int|
            i < k < log.messages.len() ==> (#[trigger] log.messages[k]).role != "assistant"@
                || log.messages[k].invocations.len() > 0,
        log.messages[i].extra is Object,
        member(log.messages[i].extra, "cass"@) is None,
        key == "input_tokens"@ || key == "output_tokens"@ || key == "cached_input_tokens"@ || key
            == "cache_read_tokens"@,
    ensures
        ({
            let after = after_event(log, val);
            let usage = member_of(member(after.messages[i].extra, "cass"@), "token_usage"@);
            let given = integer_in(member(block, key));
            let inner = integer_in(member_of(member(block, "tokens"@), key));
            &&& after.messages.len() == log.messages.len()
            &&& forall|k: int| 0 <= k < log.messages.len() && k != i ==> after.messages[k] == log.messages[k]
            &&& after.messages[i] == (MessageView { extra: after.messages[i].extra, ..log.messages[i] })
            &&& given matches Some(n) ==> member_of(usage, key) == Some(integer_view(n as int))
            &&& given is None ==> (inner matches Some(n) ==> member_of(usage, key) == Some(integer_view(n as int)))
            &&& given is None && inner is None ==> member_of(usage, key) is None
            &&& member_of(usage, "data_source"@) == Some(JsonView::Text("api"@))
            &&& after.pending == log.pending
        }),
{
    event_kinds_differ();
    last_answer_bounds(log.messages);
    last_answer_is(log.messages, i);
    let extra = log.messages[i].extra;
    let usage = usage_kept(block);
    let cass = JsonView::Object(seq![("token_usage"@, usage)]);
    member_is_the_first_of_its_key(JsonView::Null, seq![("token_usage"@, usage)], "token_usage"@, 0);
    if let JsonView::Object(members) = extra {
        with_member_reads_back(members, "cass"@, cass, "cass"@);
    }
    usage_is_kept(block, key);
}

proof fn last_answer_is(messages: Seq<MessageView>, i: int)
    requires
        0 <= i < messages.len(),
        messages[i].role == "assistant"@,
        messages[i].invocations.len() == 0,
        forall|k: int|
            i < k < messages.len() ==> (#[trigger] messages[k]).role != "assistant"@ || messages[k].invocations.len() > 0,
    ensures
        last_answer(messages) == Some(i),
    decreases messages.len(),
{
    if i < messages.len() - 1 {
        let front = messages.drop_last();
        assert(messages[messages.len() - 1].role != "assistant"@ || messages[messages.len() - 1].invocations.len() > 0);
        assert forall|k: int| i < k < front.len() implies (#[trigger] front[k]).role != "assistant"@
            || front[k].invocations.len() > 0 by {
            assert(messages[k].role != "assistant"@ || messages[k].invocations.len() > 0);
        }
        last_answer_is(front, i);
    }
}

proof fn count_reads_back(members: Seq<(Seq<char>, JsonView)>, key: Seq<char>, n: Option<i64>, other: Seq<char>)
    ensures
        n matches Some(x) ==> member(JsonView::Object(with_count(members, key, n)), key) == Some(integer_view(x as int)),
        n is None ==> with_count(members, key, n) == members,
        other != key ==> member(JsonView::Object(with_count(members, key, n)), other) == member(
            JsonView::Object(members),
            other,
        ),
{
    if let Some(n) = n {
        with_member_reads_back(members, key, integer_view(n as int), other);
    }
}

proof fn usage_is_kept(block: JsonView, key: Seq<char>)
    requires
        key == "input_tokens"@ || key == "output_tokens"@ || key == "cached_input_tokens"@ || key
            == "cache_read_tokens"@,
    ensures
        token_count(block, key) matches Some(n) ==> member(usage_kept(block), key) == Some(integer_view(n as int)),
        token_count(block, key) is None ==> member(usage_kept(block), key) is None,
        member(usage_kept(block), "data_source"@) == Some(JsonView::Text("api"@)),
{
    let read = |key: Seq<char>| token_count(block, key);
    let a = with_count(Seq::empty(), "input_tokens"@, read("input_tokens"@));
    let b = with_count(a, "output_tokens"@, read("output_tokens"@));
    let c = with_count(b, "cached_input_tokens"@, read("cached_input_tokens"@));
    let d = with_count(c, "cache_read_tokens"@, read("cache_read_tokens"@));
    reveal_strlit("input_tokens");
    reveal_strlit("output_tokens");
    reveal_strlit("cached_input_tokens");
    reveal_strlit("cache_read_tokens");
    reveal_strlit("data_source");
    assert("input_tokens"@.len() == 12 && "output_tokens"@.len() == 13 && "cached_input_tokens"@.len() == 19);
    assert("cache_read_tokens"@.len() == 17 && "data_source"@.len() == 11);
    count_reads_back(Seq::empty(), "input_tokens"@, read("input_tokens"@), key);
    count_reads_back(a, "output_tokens"@, read("output_tokens"@), key);
    count_reads_back(b, "cached_input_tokens"@, read("cached_input_tokens"@), key);
    count_reads_back(c, "cache_read_tokens"@, read("cache_read_tokens"@), key);
    with_member_reads_back(d, "data_source"@, JsonView::Text("api"@), key);
    with_member_reads_back(d, "data_source"@, JsonView::Text("api"@), "data_source"@);
    assert(member(JsonView::Object(Seq::empty()), key) is None);
}

/// Whether messages are still there, each with its role, author, time, content and calls.
pub open spec fn are_kept(before: Seq<MessageView>, after: Seq<MessageView>) -> bool {
    &&& before.len() <= after.len()
    &&& forall|i: int|
        0 <= i < before.len() ==> #[trigger] after[i] == (MessageView { extra: after[i].extra, ..before[i] })
}

proof fn kept_where_more_is_said(before: Seq<MessageView>, log: LogView, m: MessageView)
    requires
        are_kept(before, log.messages),
    ensures
        are_kept(before, log_said(log, m).messages),
{
    let after = log_said(log, m).messages;
    assert forall|i: int| 0 <= i < before.len() implies #[trigger] after[i] == (MessageView {
        extra: after[i].extra,
        ..before[i]
    }) by {
        assert(after[i] == log.messages[i]);
    }
}

proof fn kept_where_an_extra_changes(before: Seq<MessageView>, messages: Seq<MessageView>, at: int, extra: JsonView)
    requires
        are_kept(before, messages),
        0 <= at < messages.len(),
    ensures
        are_kept(before, messages.update(at, MessageView { extra, ..messages[at] })),
{
    let after = messages.update(at, MessageView { extra, ..messages[at] });
    assert forall|i: int| 0 <= i < before.len() implies #[trigger] after[i] == (MessageView {
        extra: after[i].extra,
        ..before[i]
    }) by {
        assert(messages[i] == (MessageView { extra: messages[i].extra, ..before[i] }));
    }
}

proof fn flushed_keeps(log: LogView)
    ensures
        are_kept(log.messages, flushed(log).messages),
{
}

proof fn result_keeps(before: Seq<MessageView>, log: LogView, val: JsonView, event: JsonView, created: Option<i64>)
    requires
        are_kept(before, log.messages),
    ensures
        are_kept(before, after_result(log, val, event, created).messages),
{
    if let Some(id) = member_text(event, "toolCallId"@) {
        let text = result_text(event);
        last_call_bounds(log.messages, id);
        match open_call(log.messages, id) {
            Some(i) => {
                let extra = extra_with_result(log.messages[i].extra, text, result_is_error(event));
                kept_where_an_extra_changes(before, log.messages, i, extra);
            },
            None => {
                kept_where_more_is_said(
                    before,
                    log,
                    simple_message("tool"@, created, "[Tool result: "@ + id + "] "@ + text, val),
                );
            },
        }
    }
}

proof fn loop_event_keeps(log: LogView, val: JsonView, created: Option<i64>)
    ensures
        are_kept(log.messages, after_loop_event(log, val, created).messages),
{
    if let Some(event) = member(val, "event"@) {
        let more = flushed(log);
        flushed_keeps(log);
        result_keeps(log.messages, more, val, event, created);
        kept_where_more_is_said(log.messages, more, after_call(more, val, event, created).messages.last());
        kept_where_more_is_said(log.messages, more, after_part(more, val, event, created).messages.last());
    }
}

proof fn usage_keeps(log: LogView, val: JsonView)
    ensures
        are_kept(log.messages, after_usage(log, val).messages),
{
    let block = or_default(member(val, "usage"@), val);
    last_answer_bounds(log.messages);
    if let Some(i) = last_answer(log.messages) {
        let extra = extra_with_usage(log.messages[i].extra, usage_kept(block));
        kept_where_an_extra_changes(log.messages, log.messages, i, extra);
    }
}

proof fn append_keeps(log: LogView, val: JsonView, created: Option<i64>)
    ensures
        are_kept(log.messages, after_append(log, val, created).messages),
{
    let message = member(val, "message"@);
    flushed_keeps(log);
    kept_where_more_is_said(
        log.messages,
        flushed(log),
        simple_message(
            or_default(text_in(member_of(message, "role"@)), "assistant"@),
            created,
            flat_text_in(member_of(message, "content"@)),
            val,
        ),
    );
}

proof fn event_times(log: LogView, val: JsonView)
    ensures
        after_event(log, val).started_at == earlier(log.started_at, fractional_timestamp_in(member(val, "time"@))),
        after_event(log, val).ended_at == later(log.ended_at, fractional_timestamp_in(member(val, "time"@))),
{
}

/// Whatever event comes next, what was said stays: each message keeps its role, author,
/// time, content and calls. The span of the log widens to hold the time of the event, and
/// holds no other.
pub proof fn events_keep_what_was_said(log: LogView, val: JsonView)
    ensures
        are_kept(log.messages, after_event(log, val).messages),
        ({
            let after = after_event(log, val);
            let time = fractional_timestamp_in(member(val, "time"@));
            &&& after.started_at == log.started_at || after.started_at == time
            &&& after.ended_at == log.ended_at || after.ended_at == time
            &&& time is Some ==> after.started_at is Some && after.ended_at is Some && after.started_at->0 <= time->0
                && time->0 <= after.ended_at->0
            &&& log.started_at is Some ==> after.started_at is Some && after.started_at->0 <= log.started_at->0
            &&& log.ended_at is Some ==> after.ended_at is Some && after.ended_at->0 >= log.ended_at->0
        }),
{
    let time = fractional_timestamp_in(member(val, "time"@));
    let timed = LogView { started_at: earlier(log.started_at, time), ended_at: later(log.ended_at, time), ..log };
    widened_spans_hold_both(log.started_at, time);
    widened_spans_hold_both(log.ended_at, time);
    event_times(log, val);
    flushed_keeps(timed);
    append_keeps(timed, val, time);
    loop_event_keeps(timed, val, time);
    usage_keeps(timed, val);
}

/// A log is read line by line, in the order of the lines: a line that holds a document is
/// the next event.
pub proof fn lines_are_read_in_order(lines: Seq<Option<Seq<char>>>, text: Seq<char>, val: JsonView)
    requires
        !blank(text),
        document_in(text) == Some(val),
    ensures
        log_of(lines.push(Some(text))) == after_event(log_of(lines), val),
        log_of(Seq::empty()).messages.len() == 0,
        log_of(Seq::empty()).pending is None,
        log_of(Seq::empty()).started_at is None,
        log_of(Seq::empty()).ended_at is None,
{
    let more = lines.push(Some(text));
    assert(more.drop_last() =~= lines);
    assert(more.last() == Some(text));
}

/// A conversation holds what was said in the log, a prompt that still waits behind it. It
/// has the title of the state, or else the caption of the user's first message; the
/// workspace of the state; the name of the session and the agent; and it spans the time of
/// the log and of the state.
pub proof fn wire_conversations_are_told_of(
    path: Seq<Seq<char>>,
    layout: LayoutView,
    lines: Seq<Option<Seq<char>>>,
    state: StateView,
)
    ensures
        wire_conversation(path, layout, lines, state) is None <==> log_of(lines).messages.len() == 0 && log_of(
            lines,
        ).pending is None,
        wire_conversation(path, layout, lines, state) matches Some(c) ==> {
            let log = log_of(lines);
            &&& c.agent_slug == "kimi"@
            &&& layout.agent_id == "main"@ ==> c.external_id == Some(layout.session_id)
            &&& layout.agent_id != "main"@ ==> c.external_id == Some(layout.session_id + ":"@ + layout.agent_id)
            &&& c.source_path == path
            &&& c.workspace == state.workspace
            &&& state.title is Some ==> c.title == state.title
            &&& state.title is None ==> c.title == user_caption(c.messages, 100)
            &&& log.pending is None ==> c.messages.len() == log.messages.len()
            &&& log.pending matches Some(p) ==> {
                &&& c.messages.len() == log.messages.len() + 1
                &&& c.messages.last().role == "user"@
                &&& c.messages.last().content == p.text
                &&& c.messages.last().created_at == p.created_at
            }
            &&& forall|i: int|
                0 <= i < log.messages.len() && i <= i64::MAX ==> #[trigger] c.messages[i] == (MessageView {
                    idx: i as i64,
                    ..log.messages[i]
                })
            &&& c.started_at == log.started_at || c.started_at == state.created_at || c.started_at == state.updated_at
            &&& c.ended_at == log.ended_at || c.ended_at == state.created_at || c.ended_at == state.updated_at
            &&& log.started_at is Some ==> c.started_at is Some && c.started_at->0 <= log.started_at->0
            &&& state.created_at is Some ==> c.started_at is Some && c.started_at->0 <= state.created_at->0
            &&& log.ended_at is Some ==> c.ended_at is Some && c.ended_at->0 >= log.ended_at->0
            &&& state.updated_at is Some ==> c.ended_at is Some && c.ended_at->0 >= state.updated_at->0
            &&& member(c.metadata, "agentId"@) == Some(JsonView::Text(layout.agent_id))
            &&& member(c.metadata, "sessionId"@) == Some(JsonView::Text(layout.session_id))
            &&& member(c.metadata, "source"@) == Some(JsonView::Text("kimi"@))
        },
{
    let log = log_of(lines);
    numbering(flushed(log).messages);
    let members = seq![
        ("agentId"@, JsonView::Text(layout.agent_id)),
        ("sessionId"@, JsonView::Text(layout.session_id)),
        ("source"@, JsonView::Text("kimi"@)),
    ];
    reveal_strlit("agentId");
    reveal_strlit("sessionId");
    reveal_strlit("source");
    assert("agentId"@.len() == 7 && "sessionId"@.len() == 9 && "source"@.len() == 6);
    member_is_the_first_of_its_key(JsonView::Null, members, "agentId"@, 0);
    member_is_the_first_of_its_key(JsonView::Null, members, "sessionId"@, 1);
    member_is_the_first_of_its_key(JsonView::Null, members, "source"@, 2);
}

/// The state of a session gives its title, unless that is blank, its directory, unless
/// that is empty, and when it was created and updated.
pub proof fn states_are_read(v: JsonView, t: Seq<char>)
    ensures
        member_text(v, "title"@) == Some(t) && !blank(t) ==> state_of(v).title == Some(t),
        member_text(v, "title"@) == Some(t) && blank(t) ==> state_of(v).title is None,
        member_text(v, "title"@) is None ==> state_of(v).title is None,
        member_text(v, "workDir"@) == Some(t) && t.len() > 0 ==> state_of(v).workspace == Some(t),
        member_text(v, "workDir"@) is None ==> state_of(v).workspace is None,
        state_of(v).created_at == timestamp_in(member(v, "createdAt"@)),
        state_of(v).updated_at == timestamp_in(member(v, "updatedAt"@)),
        state_in(Some(t)) == (match document_in(t) {
            Some(v) => state_of(v),
            None => StateView { title: None, workspace: None, created_at: None, updated_at: None },
        }),
{
}

/// The log of an agent stands in a directory of its name below `agents`, in the directory
/// of its session.
pub proof fn agents_are_named_by_their_directories(session: Seq<Seq<char>>, agent: Seq<char>, file: Seq<char>)
    requires
        file_name(session) is Some,
        file_name(session.push("agents"@).push(agent)) == Some(agent),
        file.len() > 0,
    ensures
        modern_layout(session.push("agents"@).push(agent).push(file)) == Some(
            LayoutView { session_root: session, session_id: session.last(), agent_id: agent },
        ),
{
    reveal_strlit("agents");
    reveal_strlit(".");
    reveal_strlit("..");
    assert("agents"@.len() == 6 && "."@.len() == 1 && ".."@.len() == 2);
    let agents = session.push("agents"@);
    let dir = agents.push(agent);
    assert(dir.push(file).drop_last() =~= dir);
    assert(dir.drop_last() =~= agents);
    assert(agents.drop_last() =~= session);
}

} // verus!
