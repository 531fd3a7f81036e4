//! Sessions of the Devin CLI: the main chain of a forest of messages.
use vstd::prelude::*;
use std::collections::{HashMap, HashSet};
use crate::bytes::{byte_len, byte_len_of, percent_encoded, url_encode};
use crate::canon::{
    canonical_call, canonical_calls, canonical_conversation, canonical_conversations, canonical_message,
    canonical_messages, comes_before, conversations_grow, conversations_join, messages_grow, nullables_are_canonical,
    numbered_canonical, rising_members_are_canonical, with_text_canonical,
};
use crate::databases::{
    database_at, find_database, names_are_distinct, names_stay_distinct, Database, DatabaseView, ExtractView,
};
use crate::decimal::{decimal, decimal_of};
use crate::files::{path_is_file, EntryView, FileTable};
use crate::json::{array_view, canonical, document_in, parse_json, rendered_json, Json, JsonView};
use crate::lines::{headline, headline_of};
use crate::model::{
    find_role, first_instant, first_of_role, instants, is_first_instant, is_last_instant, is_numbered, last_instant,
    make_message, numbered, numbering, reindex_messages, simple_message, Conversation, ConversationView, Invocation,
    InvocationView, Message, MessageView,
};
use crate::path::{below, extension, SourcePath};
use crate::query::{
    assign, assign_text, get_in, integer_json, integer_view, is_text, items_in, member, member_canonical,
    member_is_the_first_of_its_key, member_of, member_text, nullable_text, nullable_text_json, object, or_default,
    or_else, owned, put, str_in, str_or, text_in, text_json, text_ref, with_member, with_member_canonical,
    with_member_reads_back, with_text,
};
use crate::scan::{
    default_detection, detected_or_nothing, detection_or_nothing, local_root, note_path, note_text,
    path_from_variable, push_conversation, push_source, source, variable_path, was_seen, ContextView,
    DetectionResult, DiscoveredSource, ReadError, RootView, ScanContext, ScanRoot, SourceRole, Surroundings,
    SurroundingsView,
};
use crate::stamp::{earliest, latest};
use crate::text::{blank, cat3, if_said, is_blank, join, join_texts, same_text, trim, trim_empty_iff_blank, trimmed};

verus! {

broadcast use vstd::std_specs::hash::group_hash_axioms;

/// The longest chain that is followed.
pub const MAX_CHAIN_DEPTH: usize = 50_000;

/// The most bytes that the arguments of a call may take.
pub const MAX_TOOL_ARGUMENTS_BYTES: usize = 32_768;

pub struct DevinConnector;

impl Default for DevinConnector {
    fn default() -> (r: DevinConnector)
        ensures
            r == DevinConnector,
    {
        DevinConnector::new()
    }
}

/// The chain so far, from the tip upwards, and what follows above `cursor`: up to
/// a node that is missing, that is on the chain already or that would make the
/// chain too long.
pub open spec fn climb(parents: Map<i64, Option<i64>>, chain: Seq<i64>, cursor: Option<i64>) -> Seq<i64>
    decreases MAX_CHAIN_DEPTH - chain.len(),
{
    match cursor {
        None => chain,
        Some(node) => if chain.len() >= MAX_CHAIN_DEPTH || chain.contains(node) || !parents.dom().contains(node) {
            chain
        } else {
            climb(parents, chain.push(node), parents[node])
        },
    }
}

/// The chain that ends at the tip, from its root.
pub open spec fn main_chain(parents: Map<i64, Option<i64>>, tip: i64) -> Seq<i64> {
    climb(parents, Seq::empty(), Some(tip)).reverse()
}

/// What holds of a chain from the tip upwards.
pub open spec fn is_climb(parents: Map<i64, Option<i64>>, chain: Seq<i64>, tip: i64) -> bool {
    &&& chain.len() <= MAX_CHAIN_DEPTH
    &&& chain.no_duplicates()
    &&& forall|i: int| 0 <= i < chain.len() ==> parents.dom().contains(#[trigger] chain[i])
    &&& chain.len() > 0 ==> chain[0] == tip
    &&& forall|i: int| 0 <= i < chain.len() - 1 ==> #[trigger] parents[chain[i]] == Some(chain[i + 1])
}

proof fn climb_is_climb(parents: Map<i64, Option<i64>>, chain: Seq<i64>, cursor: Option<i64>, tip: i64)
    requires
        is_climb(parents, chain, tip),
        chain.len() == 0 ==> cursor == Some(tip),
        chain.len() > 0 ==> cursor == parents[chain.last()],
    ensures
        is_climb(parents, climb(parents, chain, cursor), tip),
        climb(parents, chain, cursor).len() >= chain.len(),
        ({
            let all = climb(parents, chain, cursor);
            all.len() < MAX_CHAIN_DEPTH ==> {
                ||| all.len() == 0 && !parents.dom().contains(tip)
                ||| all.len() > 0 && (parents[all.last()] matches Some(up) ==> all.contains(up)
                    || !parents.dom().contains(up))
            }
        }),
    decreases MAX_CHAIN_DEPTH - chain.len(),
{
    if let Some(node) = cursor {
        if chain.len() < MAX_CHAIN_DEPTH && !chain.contains(node) && parents.dom().contains(node) {
            let longer = chain.push(node);
            assert(longer.no_duplicates()) by {
                assert forall|i: int, j: int| 0 <= i < longer.len() && 0 <= j < longer.len() && i != j implies longer[i]
                    != longer[j] by {
                    if i == chain.len() {
                        assert(chain.contains(chain[j]));
                    } else if j == chain.len() {
                        assert(chain.contains(chain[i]));
                    }
                }
            }
            assert forall|i: int| 0 <= i < longer.len() - 1 implies #[trigger] parents[longer[i]] == Some(
                longer[i + 1],
            ) by {
                if i < chain.len() - 1 {
                    assert(parents[chain[i]] == Some(chain[i + 1]));
                }
            }
            climb_is_climb(parents, longer, parents[node], tip);
        }
    }
}

/// The main chain visits no node twice, holds nodes of the session alone and no
/// more than the limit, ends at the tip, and each node but the first follows its
/// parent. It is empty exactly where the tip is missing, and unless it is as long
/// as allowed its first node has no parent, or one that is missing or that comes
/// later on the chain.
pub proof fn main_chain_follows_parents(parents: Map<i64, Option<i64>>, tip: i64)
    ensures
        ({
            let chain = main_chain(parents, tip);
            &&& chain.no_duplicates()
            &&& chain.len() <= MAX_CHAIN_DEPTH
            &&& chain.len() == 0 <==> !parents.dom().contains(tip)
            &&& chain.len() > 0 ==> chain.last() == tip
            &&& forall|i: int| 0 <= i < chain.len() ==> parents.dom().contains(#[trigger] chain[i])
            &&& forall|i: int| 1 <= i < chain.len() ==> #[trigger] parents[chain[i]] == Some(chain[i - 1])
            &&& 0 < chain.len() < MAX_CHAIN_DEPTH ==> (parents[chain[0]] matches Some(up) ==> chain.contains(up)
                || !parents.dom().contains(up))
        }),
{
    let upward = climb(parents, Seq::empty(), Some(tip));
    let chain = upward.reverse();
    climb_is_climb(parents, Seq::empty(), Some(tip), tip);
    if parents.dom().contains(tip) {
        climb_is_climb(parents, seq![tip], parents[tip], tip);
        assert(Seq::<i64>::empty().push(tip) =~= seq![tip]);
    }
    assert forall|i: int| 0 <= i < chain.len() implies #[trigger] chain[i] == upward[chain.len() - 1 - i] by {}
    assert forall|i: int, j: int| 0 <= i < chain.len() && 0 <= j < chain.len() && i != j implies chain[i]
        != chain[j] by {
        assert(upward[chain.len() - 1 - i] != upward[chain.len() - 1 - j]);
    }
    assert forall|i: int| 1 <= i < chain.len() implies #[trigger] parents[chain[i]] == Some(chain[i - 1]) by {
        let k = chain.len() - 1 - i;
        assert(parents[upward[k]] == Some(upward[k + 1]));
    }
    if 0 < chain.len() {
        assert(chain[0] == upward.last());
        if let Some(up) = parents[chain[0]] {
            if upward.contains(up) {
                let k = choose|k: int| 0 <= k < upward.len() && upward[k] == up;
                assert(chain[chain.len() - 1 - k] == up);
            }
        }
    }
}

/// The chain that ends at the tip, from its root.
pub fn walk_main_chain(parents: &HashMap<i64, Option<i64>>, tip: i64) -> (r: Vec<i64>)
    ensures
        r@ == main_chain(parents@, tip),
{
    let mut order: Vec<i64> = Vec::new();
    let mut visited: HashSet<i64> = HashSet::new();
    let mut cursor = Some(tip);
    let mut going = true;
    assert(order@ =~= Seq::empty());
    while going
        invariant
            order@.len() <= MAX_CHAIN_DEPTH,
            climb(parents@, Seq::empty(), Some(tip)) == if going {
                climb(parents@, order@, cursor)
            } else {
                order@
            },
            going ==> forall|n: i64| #[trigger] visited@.contains(n) <==> order@.contains(n),
        decreases MAX_CHAIN_DEPTH - order.len(), if going {
            1int
        } else {
            0int
        },
    {
        match cursor {
            None => {
                going = false;
            },
            Some(node) => {
                if order.len() >= MAX_CHAIN_DEPTH || visited.contains(&node) {
                    going = false;
                } else {
                    visited.insert(node);
                    match parents.get(&node) {
                        None => {
                            going = false;
                        },
                        Some(parent) => {
                            let ghost before = order@;
                            order.push(node);
                            cursor = *parent;
                            assert forall|n: i64| #[trigger] visited@.contains(n) <==> order@.contains(n) by {
                                if before.contains(n) {
                                    let k = choose|k: int| 0 <= k < before.len() && before[k] == n;
                                    assert(order@[k] == n);
                                }
                                assert(order@[before.len() as int] == node);
                            }
                        },
                    }
                }
            },
        }
    }
    let mut out: Vec<i64> = Vec::new();
    let mut i = order.len();
    while i > 0
        invariant
            i <= order@.len(),
            out@.len() == order@.len() - i,
            forall|k: int| 0 <= k < out@.len() ==> #[trigger] out@[k] == order@[order@.len() - 1 - k],
        decreases i,
    {
        out.push(order[i - 1]);
        i = i - 1;
    }
    assert(out@ =~= order@.reverse());
    out
}

/// Epoch seconds in milliseconds, where there are any and the result fits.
pub open spec fn seconds_to_millis(seconds: Option<i64>) -> Option<i64> {
    match seconds {
        Some(n) => if n > 0 && n * 1000 <= i64::MAX {
            Some((n * 1000) as i64)
        } else {
            None
        },
        None => None,
    }
}

pub fn epoch_seconds_to_ms(seconds: Option<i64>) -> (r: Option<i64>)
    ensures
        r == seconds_to_millis(seconds),
{
    match seconds {
        Some(n) => if n > 0 {
            n.checked_mul(1000)
        } else {
            None
        },
        None => None,
    }
}

/// What a part of a content reads as.
pub open spec fn part_chunk(part: JsonView) -> Option<Seq<char>> {
    let kind = member_text(part, "type"@);
    if kind == Some("text"@) {
        member_text(part, "text"@)
    } else if kind == Some("image"@) || kind == Some("image_url"@) {
        Some("[image]"@)
    } else {
        None
    }
}

pub open spec fn part_chunks(parts: Seq<JsonView>) -> Seq<Seq<char>>
    decreases parts.len(),
{
    if parts.len() == 0 {
        Seq::empty()
    } else {
        let front = part_chunks(parts.drop_last());
        match part_chunk(parts.last()) {
            Some(chunk) => front.push(chunk),
            None => front,
        }
    }
}

/// A content as text: itself, or its parts, line by line, with a mark for each
/// image.
pub open spec fn content_text(content: Option<JsonView>) -> Option<Seq<char>> {
    match content {
        Some(JsonView::Text(t)) => Some(t),
        Some(JsonView::Array(parts)) => if part_chunks(parts).len() == 0 {
            None
        } else {
            Some(join(part_chunks(parts), "\n"@))
        },
        _ => None,
    }
}

/// A content as text.
pub fn text_content(content: Option<&Json>) -> (r: Option<String>)
    ensures
        r.deep_view() == content_text(content.deep_view()),
{
    broadcast use array_view;

    match content {
        Some(Json::Text(t)) => Some(t.clone()),
        Some(Json::Array(parts)) => {
            let ghost all = parts.deep_view();
            let mut chunks: Vec<String> = Vec::new();
            let mut i: usize = 0;
            assert(all.take(0) =~= Seq::empty());
            assert(chunks.deep_view() =~= Seq::empty());
            while i < parts.len()
                invariant
                    i <= parts@.len(),
                    all == parts.deep_view(),
                    chunks.deep_view() == part_chunks(all.take(i as int)),
                decreases parts.len() - i,
            {
                let part = &parts[i];
                let ghost before = chunks.deep_view();
                assert(all.take(i + 1).drop_last() =~= all.take(i as int));
                assert(all.take(i + 1).last() == part@);
                let kind = part.get_str("type");
                let chunk = if is_text(kind, "text") {
                    part.get_str("text")
                } else if is_text(kind, "image") || is_text(kind, "image_url") {
                    Some("[image]")
                } else {
                    None
                };
                if let Some(chunk) = chunk {
                    chunks.push(chunk.to_owned());
                    assert(chunks.deep_view() =~= before.push(chunk@));
                }
                i = i + 1;
            }
            assert(all.take(all.len() as int) =~= all);
            if chunks.len() == 0 {
                None
            } else {
                Some(join_texts(&chunks, "\n"))
            }
        },
        _ => None,
    }
}

/// A mark for each image of a message.
pub open spec fn image_marks(v: JsonView) -> Option<Seq<char>> {
    match items_in(member(v, "images"@)) {
        Some(images) => if images.len() == 0 {
            None
        } else {
            Some(join(Seq::new(images.len(), |i: int| "[image]"@), "\n"@))
        },
        None => None,
    }
}

/// A mark for each image of a message.
pub fn image_markers(v: &Json) -> (r: Option<String>)
    ensures
        r.deep_view() == image_marks(v@),
{
    let images = match v.get("images") {
        Some(images) => match images.as_array() {
            Some(items) => items,
            None => return None,
        },
        None => return None,
    };
    if images.len() == 0 {
        return None;
    }
    let mut marks: Vec<String> = Vec::new();
    while marks.len() < images.len()
        invariant
            marks@.len() <= images@.len(),
            forall|i: int| 0 <= i < marks@.len() ==> (#[trigger] marks@[i])@ == "[image]"@,
        decreases images.len() - marks.len(),
    {
        marks.push("[image]".to_owned());
    }
    assert(marks.deep_view() =~= Seq::new(images@.len(), |i: int| "[image]"@));
    Some(join_texts(&marks, "\n"))
}

/// Two texts, line by line, without those that are missing or blank.
pub open spec fn said_lines(a: Option<Seq<char>>, b: Option<Seq<char>>) -> Seq<char> {
    join(if_said(a) + if_said(b), "\n"@)
}

/// Two texts, line by line, without those that are missing or blank.
pub fn join_nonempty(a: Option<String>, b: Option<String>) -> (r: String)
    ensures
        r@ == said_lines(a.deep_view(), b.deep_view()),
{
    let ghost (x, y) = (a.deep_view(), b.deep_view());
    let mut parts: Vec<String> = Vec::new();
    assert(parts.deep_view() =~= Seq::empty());
    if let Some(t) = a {
        if !is_blank(t.as_str()) {
            parts.push(t);
        }
    }
    assert(parts.deep_view() =~= if_said(x));
    let ghost before = parts.deep_view();
    if let Some(t) = b {
        if !is_blank(t.as_str()) {
            let ghost seen = t@;
            parts.push(t);
            assert(parts.deep_view() =~= before.push(seen));
        }
    }
    assert(parts.deep_view() =~= if_said(x) + if_said(y));
    join_texts(&parts, "\n")
}

/// What is said in lines is empty exactly where nothing is said, and else not
/// blank.
pub proof fn said_lines_are_not_blank(a: Option<Seq<char>>, b: Option<Seq<char>>)
    ensures
        said_lines(a, b).len() == 0 || !blank(said_lines(a, b)),
{
    reveal_with_fuel(join, 3);
    let parts = if_said(a) + if_said(b);
    let text = said_lines(a, b);
    if parts.len() == 1 {
        assert(parts.drop_last() =~= Seq::empty());
        assert(text =~= parts[0]);
        assert(!blank(parts[0]));
    } else if parts.len() == 2 {
        assert(parts.drop_last() =~= seq![parts[0]]);
        assert(!blank(parts[0]));
        let k = choose|k: int| 0 <= k < parts[0].len() && !crate::text::is_white(#[trigger] parts[0][k]);
        assert(text[k] == parts[0][k]);
    }
}

/// Arguments, or a mark with their size where they are too large.
pub open spec fn bounded_arguments(arguments: JsonView) -> JsonView {
    let size = byte_len(rendered_json(arguments));
    if size > MAX_TOOL_ARGUMENTS_BYTES {
        JsonView::Text("[OMITTED large JSON payload bytes="@ + decimal(size) + "]"@)
    } else {
        arguments
    }
}

/// Arguments, or a mark with their size where they are too large.
pub fn bound_tool_arguments(arguments: &Json) -> (r: Json)
    requires
        canonical(arguments@),
    ensures
        r@ == bounded_arguments(arguments@),
{
    let text = arguments.render();
    let size = byte_len_of(text.as_str());
    if size > MAX_TOOL_ARGUMENTS_BYTES {
        Json::Text(cat3("[OMITTED large JSON payload bytes=", decimal_of(size as u64).as_str(), "]"))
    } else {
        arguments.copy()
    }
}

/// The call of a tool.
pub open spec fn call_of(call: JsonView) -> InvocationView {
    InvocationView {
        kind: "tool"@,
        name: or_default(member_text(call, "name"@), "unknown"@),
        raw_name: None,
        call_id: member_text(call, "id"@),
        arguments: match member(call, "arguments"@) {
            Some(arguments) => Some(bounded_arguments(arguments)),
            None => None,
        },
    }
}

/// The calls of a message.
pub open spec fn calls_of(v: JsonView) -> Seq<InvocationView> {
    match items_in(member(v, "tool_calls"@)) {
        Some(calls) => calls.map_values(|call: JsonView| call_of(call)),
        None => Seq::empty(),
    }
}

/// A line for each call.
pub open spec fn call_lines(calls: Seq<InvocationView>) -> Option<Seq<char>> {
    if calls.len() == 0 {
        None
    } else {
        Some(join(calls.map_values(|c: InvocationView| "[tool_call: "@ + c.name + "]"@), "\n"@))
    }
}

fn read_calls(v: &Json) -> (r: Vec<Invocation>)
    requires
        canonical(v@),
    ensures
        r.deep_view() == calls_of(v@),
{
    broadcast use array_view;

    let mut out: Vec<Invocation> = Vec::new();
    assert(out.deep_view() =~= Seq::empty());
    let list = match v.get("tool_calls") {
        Some(list) => list,
        None => return out,
    };
    proof {
        member_canonical(v@, "tool_calls"@);
    }
    let calls = match list {
        Json::Array(calls) => calls,
        _ => return out,
    };
    let ghost all = calls.deep_view();
    assert(list@ == JsonView::Array(all));
    assert forall|k: int| 0 <= k < all.len() implies canonical(#[trigger] all[k]) by {
        assert(canonical(list@->Array_0[k]));
    }
    let ghost wanted = all.map_values(|call: JsonView| call_of(call));
    let mut i: usize = 0;
    assert(out.deep_view() =~= wanted.take(0));
    while i < calls.len()
        invariant
            i <= calls@.len(),
            all == calls.deep_view(),
            wanted == all.map_values(|call: JsonView| call_of(call)),
            forall|k: int| 0 <= k < all.len() ==> canonical(#[trigger] all[k]),
            out.deep_view() == wanted.take(i as int),
        decreases calls.len() - i,
    {
        let call = &calls[i];
        let ghost before = out.deep_view();
        assert(all[i as int] == call@);
        assert(canonical(call@));
        proof {
            member_canonical(call@, "arguments"@);
        }
        let arguments = match call.get("arguments") {
            Some(arguments) => Some(bound_tool_arguments(arguments)),
            None => None,
        };
        let made = Invocation {
            kind: "tool".to_owned(),
            name: str_or(call.get_str("name"), "unknown").to_owned(),
            raw_name: None,
            call_id: owned(call.get_str("id")),
            arguments,
        };
        let ghost seen = made.deep_view();
        out.push(made);
        assert(out.deep_view() =~= before.push(seen));
        assert(wanted[i as int] == seen);
        assert(out.deep_view() =~= wanted.take(i + 1));
        i = i + 1;
    }
    assert(wanted.take(wanted.len() as int) =~= wanted);
    out
}

fn lines_of_calls(calls: &Vec<Invocation>) -> (r: Option<String>)
    ensures
        r.deep_view() == call_lines(calls.deep_view()),
{
    if calls.len() == 0 {
        return None;
    }
    let ghost wanted = calls.deep_view().map_values(|c: InvocationView| "[tool_call: "@ + c.name + "]"@);
    let mut lines: Vec<String> = Vec::new();
    let mut i: usize = 0;
    assert(lines.deep_view() =~= wanted.take(0));
    while i < calls.len()
        invariant
            i <= calls@.len(),
            wanted == calls.deep_view().map_values(|c: InvocationView| "[tool_call: "@ + c.name + "]"@),
            lines.deep_view() == wanted.take(i as int),
        decreases calls.len() - i,
    {
        let ghost before = lines.deep_view();
        let line = cat3("[tool_call: ", calls[i].name.as_str(), "]");
        let ghost seen = line@;
        lines.push(line);
        assert(lines.deep_view() =~= before.push(seen));
        assert(wanted[i as int] == seen);
        assert(lines.deep_view() =~= wanted.take(i + 1));
        i = i + 1;
    }
    assert(wanted.take(wanted.len() as int) =~= wanted);
    Some(join_texts(&lines, "\n"))
}

/// What a model thought, if anything.
pub open spec fn thought_of(v: JsonView) -> Option<Seq<char>> {
    match text_in(member_of(member(v, "thinking"@), "thinking"@)) {
        Some(t) => if trim(t).len() == 0 {
            None
        } else {
            Some(trim(t))
        },
        None => None,
    }
}

/// A message that says something.
pub open spec fn if_content(m: MessageView) -> Option<MessageView> {
    if m.content.len() == 0 {
        None
    } else {
        Some(m)
    }
}

/// The message that a document holds: one of a user, of an assistant or of a tool
/// that says something.
pub open spec fn chat_message(v: JsonView, created_at: Option<i64>, model: Option<Seq<char>>) -> Option<MessageView> {
    if !(v is Object) {
        None
    } else {
        let role = or_default(member_text(v, "role"@), ""@);
        let content = content_text(member(v, "content"@));
        let named = with_text(Seq::empty(), "message_id"@, member_text(v, "message_id"@));
        if role == "user"@ {
            let extra = match member_of(member(v, "metadata"@), "is_user_input"@) {
                Some(JsonView::Bool(b)) => with_member(named, "is_user_input"@, JsonView::Bool(b)),
                _ => named,
            };
            if_content(
                simple_message("user"@, created_at, said_lines(image_marks(v), content), JsonView::Object(extra)),
            )
        } else if role == "assistant"@ {
            let extra = with_text(named, "thinking"@, thought_of(v));
            if_content(
                MessageView {
                    author: model,
                    invocations: calls_of(v),
                    ..simple_message(
                        "assistant"@,
                        created_at,
                        said_lines(content, call_lines(calls_of(v))),
                        JsonView::Object(extra),
                    )
                },
            )
        } else if role == "tool"@ {
            let extra = with_text(named, "tool_call_id"@, member_text(v, "tool_call_id"@));
            if_content(
                simple_message("tool"@, created_at, said_lines(image_marks(v), content), JsonView::Object(extra)),
            )
        } else {
            None
        }
    }
}

/// The message that a text holds.
pub open spec fn chat_message_in(text: Seq<char>, created_at: Option<i64>, model: Option<Seq<char>>) -> Option<
    MessageView,
> {
    match document_in(text) {
        Some(v) => chat_message(v, created_at, model),
        None => None,
    }
}

/// The message that a document holds.
pub fn message_from_document(v: &Json, created_at: Option<i64>, model: Option<&str>) -> (r: Option<Message>)
    requires
        canonical(v@),
    ensures
        r.deep_view() == chat_message(v@, created_at, model.deep_view()),
{
    if !v.is_object() {
        return None;
    }
    let role = str_or(v.get_str("role"), "");
    let content = text_content(v.get("content"));
    let mut extra: Vec<(String, Json)> = Vec::new();
    assert(extra.deep_view() =~= Seq::empty());
    assign_text(&mut extra, "message_id", v.get_str("message_id"));
    if same_text(role, "user") {
        let text = join_nonempty(image_markers(v), content);
        if text.as_str().is_empty() {
            return None;
        }
        if let Some(Json::Bool(b)) = get_in(v.get("metadata"), "is_user_input") {
            assign(&mut extra, "is_user_input", Json::Bool(*b));
        }
        Some(make_message("user", created_at, text, object(extra)))
    } else if same_text(role, "assistant") {
        let calls = read_calls(v);
        if let Some(t) = str_in(get_in(v.get("thinking"), "thinking")) {
            let thought = trimmed(t);
            if !thought.as_str().is_empty() {
                assign(&mut extra, "thinking", text_json(thought.as_str()));
            }
        }
        let text = join_nonempty(content, lines_of_calls(&calls));
        if text.as_str().is_empty() {
            return None;
        }
        let mut m = make_message("assistant", created_at, text, object(extra));
        m.author = owned(model);
        m.invocations = calls;
        Some(m)
    } else if same_text(role, "tool") {
        let text = join_nonempty(image_markers(v), content);
        if text.as_str().is_empty() {
            return None;
        }
        assign_text(&mut extra, "tool_call_id", v.get_str("tool_call_id"));
        Some(make_message("tool", created_at, text, object(extra)))
    } else {
        None
    }
}

/// The message that a text holds.
pub fn message_from_chat_message(text: &str, created_at: Option<i64>, model: Option<&str>) -> (r: Option<Message>)
    ensures
        r.deep_view() == chat_message_in(text@, created_at, model.deep_view()),
{
    match parse_json(text) {
        Some(v) => message_from_document(&v, created_at, model),
        None => None,
    }
}

/// A row of the table of messages.
pub struct NodeRow {
    pub node_id: i64,
    pub parent_node_id: Option<i64>,
    pub chat_message: String,
    pub created_at: Option<i64>,
}

/// A row of the table of sessions.
pub struct DevinSession {
    pub id: String,
    pub title: Option<String>,
    pub working_directory: Option<String>,
    pub model: Option<String>,
    pub agent_mode: Option<String>,
    pub created_at: Option<i64>,
    pub last_activity_at: Option<i64>,
    pub main_chain_id: Option<i64>,
}

/// A session and its messages, where they could be read.
pub struct DevinRows {
    pub session: DevinSession,
    pub nodes: Option<Vec<NodeRow>>,
}

/// The sessions of a store, where it could be read.
pub type DevinDatabase = Database<DevinRows>;

#[verifier::ext_equal]
pub struct NodeView {
    pub node_id: i64,
    pub parent_node_id: Option<i64>,
    pub chat_message: Seq<char>,
    pub created_at: Option<i64>,
}

#[verifier::ext_equal]
pub struct SessionView {
    pub id: Seq<char>,
    pub title: Option<Seq<char>>,
    pub working_directory: Option<Seq<char>>,
    pub model: Option<Seq<char>>,
    pub agent_mode: Option<Seq<char>>,
    pub created_at: Option<i64>,
    pub last_activity_at: Option<i64>,
    pub main_chain_id: Option<i64>,
}

#[verifier::ext_equal]
pub struct RowsView {
    pub session: SessionView,
    pub nodes: Option<Seq<NodeView>>,
}

impl DeepView for NodeRow {
    type V = NodeView;

    open spec fn deep_view(&self) -> NodeView {
        NodeView {
            node_id: self.node_id,
            parent_node_id: self.parent_node_id,
            chat_message: self.chat_message@,
            created_at: self.created_at,
        }
    }
}

impl DeepView for DevinSession {
    type V = SessionView;

    open spec fn deep_view(&self) -> SessionView {
        SessionView {
            id: self.id@,
            title: self.title.deep_view(),
            working_directory: self.working_directory.deep_view(),
            model: self.model.deep_view(),
            agent_mode: self.agent_mode.deep_view(),
            created_at: self.created_at,
            last_activity_at: self.last_activity_at,
            main_chain_id: self.main_chain_id,
        }
    }
}

impl DeepView for DevinRows {
    type V = RowsView;

    open spec fn deep_view(&self) -> RowsView {
        RowsView { session: self.session.deep_view(), nodes: self.nodes.deep_view() }
    }
}

/// The parent of each node.
pub open spec fn parents_of(nodes: Seq<NodeView>) -> Map<i64, Option<i64>>
    decreases nodes.len(),
{
    if nodes.len() == 0 {
        Map::empty()
    } else {
        parents_of(nodes.drop_last()).insert(nodes.last().node_id, nodes.last().parent_node_id)
    }
}

/// The first node of that number.
pub open spec fn node_at(nodes: Seq<NodeView>, id: i64) -> Option<NodeView>
    decreases nodes.len(),
{
    if nodes.len() == 0 {
        None
    } else if nodes[0].node_id == id {
        Some(nodes[0])
    } else {
        node_at(nodes.skip(1), id)
    }
}

/// The messages of a chain that say something.
pub open spec fn chain_messages(nodes: Seq<NodeView>, chain: Seq<i64>, model: Option<Seq<char>>) -> Seq<MessageView>
    decreases chain.len(),
{
    if chain.len() == 0 {
        Seq::empty()
    } else {
        let front = chain_messages(nodes, chain.drop_last(), model);
        match node_at(nodes, chain.last()) {
            None => front,
            Some(node) => match chat_message_in(node.chat_message, seconds_to_millis(node.created_at), model) {
                Some(m) => front.push(m),
                None => front,
            },
        }
    }
}

/// A text without white space at its ends, unless nothing is left.
pub open spec fn trimmed_text(t: Option<Seq<char>>) -> Option<Seq<char>> {
    match t {
        Some(t) => if trim(t).len() == 0 {
            None
        } else {
            Some(trim(t))
        },
        None => None,
    }
}

pub fn trim_text(t: &Option<String>) -> (r: Option<String>)
    ensures
        r.deep_view() == trimmed_text(t.deep_view()),
{
    match t {
        Some(t) => {
            let short = trimmed(t.as_str());
            if short.as_str().is_empty() {
                None
            } else {
                Some(short)
            }
        },
        None => None,
    }
}

/// The headline of what the user said first.
pub open spec fn user_headline(messages: Seq<MessageView>) -> Option<Seq<char>> {
    match first_of_role(messages, "user"@) {
        Some(m) => headline(m.content, 100),
        None => None,
    }
}

pub fn user_headline_of(messages: &Vec<Message>) -> (r: Option<String>)
    ensures
        r.deep_view() == user_headline(messages.deep_view()),
{
    match find_role(messages, "user") {
        Some(m) => headline_of(m.content.as_str(), 100),
        None => None,
    }
}

/// Whether a session was last active before `since`.
pub open spec fn is_stale(s: SessionView, since: Option<i64>) -> bool {
    match since {
        Some(since) => or_default(
            or_else(seconds_to_millis(s.last_activity_at), seconds_to_millis(s.created_at)),
            0,
        ) < since,
        None => false,
    }
}

/// The conversation of a session: none where its main chain says nothing.
pub open spec fn session_conversation(
    db: Seq<Seq<char>>,
    s: SessionView,
    tip: i64,
    nodes: Seq<NodeView>,
) -> Option<ConversationView> {
    let chain = main_chain(parents_of(nodes), tip);
    let messages = numbered(chain_messages(nodes, chain, s.model));
    if messages.len() == 0 {
        None
    } else {
        Some(
            ConversationView {
                agent_slug: "devin"@,
                external_id: Some(s.id),
                title: or_else(trimmed_text(s.title), user_headline(messages)),
                workspace: trimmed_text(s.working_directory),
                source_path: below(db, percent_encoded(vstd::utf8::encode_utf8(s.id))),
                started_at: or_else(seconds_to_millis(s.created_at), earliest(instants(messages))),
                ended_at: or_else(seconds_to_millis(s.last_activity_at), latest(instants(messages))),
                metadata: JsonView::Object(
                    seq![
                        ("agent_mode"@, nullable_text(s.agent_mode)),
                        ("main_chain_id"@, integer_view(tip as int)),
                        ("main_chain_nodes"@, integer_view(chain.len() as int)),
                        ("model"@, nullable_text(s.model)),
                        (
                            "off_chain_nodes"@,
                            integer_view(
                                if nodes.len() >= chain.len() {
                                    nodes.len() - chain.len()
                                } else {
                                    0
                                },
                            ),
                        ),
                        ("session_id"@, JsonView::Text(s.id)),
                        ("source"@, JsonView::Text("sqlite"@)),
                    ],
                ),
                messages,
            },
        )
    }
}

/// A session is read if it has a name that is new, was active since, and has a
/// chain; where its messages cannot be read, nothing of the store counts.
pub open spec fn after_session(x: ExtractView, db: Seq<Seq<char>>, rows: RowsView, since: Option<i64>) -> ExtractView {
    let s = rows.session;
    if x.failed || s.id.len() == 0 || x.seen.contains(s.id) {
        x
    } else {
        let seen = x.seen.push(s.id);
        if is_stale(s, since) {
            ExtractView { seen, ..x }
        } else {
            match s.main_chain_id {
                None => ExtractView { seen, ..x },
                Some(tip) => match rows.nodes {
                    None => ExtractView { seen, failed: true, ..x },
                    Some(nodes) => match session_conversation(db, s, tip, nodes) {
                        Some(c) => ExtractView { seen, found: x.found.push(c), ..x },
                        None => ExtractView { seen, ..x },
                    },
                },
            }
        }
    }
}

pub open spec fn extract(db: Seq<Seq<char>>, all: Seq<RowsView>, since: Option<i64>) -> ExtractView
    decreases all.len(),
{
    if all.len() == 0 {
        ExtractView { seen: Seq::empty(), found: Seq::empty(), failed: false }
    } else {
        after_session(extract(db, all.drop_last(), since), db, all.last(), since)
    }
}

/// The conversations of a store: none can be read where one fails.
pub open spec fn extracted(db: Seq<Seq<char>>, all: Seq<RowsView>, since: Option<i64>) -> Result<
    Seq<ConversationView>,
    ReadError,
> {
    if extract(db, all, since).failed {
        Err(ReadError::Unreadable)
    } else {
        Ok(extract(db, all, since).found)
    }
}

fn map_parents(nodes: &Vec<NodeRow>) -> (r: HashMap<i64, Option<i64>>)
    ensures
        r@ == parents_of(nodes.deep_view()),
{
    let ghost all = nodes.deep_view();
    let mut parents: HashMap<i64, Option<i64>> = HashMap::new();
    let mut i: usize = 0;
    assert(all.take(0) =~= Seq::empty());
    assert(parents@ =~= Map::empty());
    while i < nodes.len()
        invariant
            i <= nodes@.len(),
            all == nodes.deep_view(),
            parents@ == parents_of(all.take(i as int)),
        decreases nodes.len() - i,
    {
        assert(all.take(i + 1).drop_last() =~= all.take(i as int));
        assert(all.take(i + 1).last() == nodes@[i as int].deep_view());
        parents.insert(nodes[i].node_id, nodes[i].parent_node_id);
        i = i + 1;
    }
    assert(all.take(all.len() as int) =~= all);
    parents
}

fn find_node<'a>(nodes: &'a Vec<NodeRow>, id: i64) -> (r: Option<&'a NodeRow>)
    ensures
        r.deep_view() == node_at(nodes.deep_view(), id),
{
    let ghost all = nodes.deep_view();
    let mut i: usize = 0;
    assert(all.skip(0) =~= all);
    while i < nodes.len()
        invariant
            i <= nodes@.len(),
            all == nodes.deep_view(),
            node_at(all, id) == node_at(all.skip(i as int), id),
        decreases nodes.len() - i,
    {
        assert(all.skip(i as int)[0] == nodes@[i as int].deep_view());
        if nodes[i].node_id == id {
            return Some(&nodes[i]);
        }
        assert(all.skip(i as int).skip(1) =~= all.skip(i + 1));
        i = i + 1;
    }
    None
}

fn read_chain(nodes: &Vec<NodeRow>, chain: &Vec<i64>, model: Option<&str>) -> (r: Vec<Message>)
    ensures
        r.deep_view() == chain_messages(nodes.deep_view(), chain@, model.deep_view()),
{
    let mut messages: Vec<Message> = Vec::new();
    let mut i: usize = 0;
    assert(chain@.take(0) =~= Seq::empty());
    assert(messages.deep_view() =~= Seq::empty());
    while i < chain.len()
        invariant
            i <= chain@.len(),
            messages.deep_view() == chain_messages(nodes.deep_view(), chain@.take(i as int), model.deep_view()),
        decreases chain.len() - i,
    {
        let ghost before = messages.deep_view();
        assert(chain@.take(i + 1).drop_last() =~= chain@.take(i as int));
        assert(chain@.take(i + 1).last() == chain@[i as int]);
        if let Some(node) = find_node(nodes, chain[i]) {
            if let Some(m) = message_from_chat_message(
                node.chat_message.as_str(),
                epoch_seconds_to_ms(node.created_at),
                model,
            ) {
                let ghost seen = m.deep_view();
                messages.push(m);
                assert(messages.deep_view() =~= before.push(seen));
            }
        }
        i = i + 1;
    }
    assert(chain@.take(chain@.len() as int) =~= chain@);
    messages
}

/// The conversation of a session.
pub fn conversation_from_session(db: &SourcePath, s: &DevinSession, tip: i64, nodes: &Vec<NodeRow>) -> (r: Option<
    Conversation,
>)
    ensures
        r.deep_view() == session_conversation(db.deep_view(), s.deep_view(), tip, nodes.deep_view()),
{
    let parents = map_parents(nodes);
    let chain = walk_main_chain(&parents, tip);
    let mut messages = read_chain(nodes, &chain, text_ref(&s.model));
    reindex_messages(&mut messages);
    if messages.len() == 0 {
        return None;
    }
    let title = match trim_text(&s.title) {
        Some(t) => Some(t),
        None => user_headline_of(&messages),
    };
    let off_chain = if nodes.len() >= chain.len() {
        nodes.len() - chain.len()
    } else {
        0
    };
    let mut metadata: Vec<(String, Json)> = Vec::new();
    put(&mut metadata, "agent_mode", nullable_text_json(&s.agent_mode));
    put(&mut metadata, "main_chain_id", integer_json(tip));
    put(&mut metadata, "main_chain_nodes", Json::Unsigned(chain.len() as u64));
    put(&mut metadata, "model", nullable_text_json(&s.model));
    put(&mut metadata, "off_chain_nodes", Json::Unsigned(off_chain as u64));
    put(&mut metadata, "session_id", text_json(s.id.as_str()));
    put(&mut metadata, "source", text_json("sqlite"));
    assert(metadata.deep_view() =~= seq![
        ("agent_mode"@, nullable_text(s.agent_mode.deep_view())),
        ("main_chain_id"@, integer_view(tip as int)),
        ("main_chain_nodes"@, integer_view(chain@.len() as int)),
        ("model"@, nullable_text(s.model.deep_view())),
        ("off_chain_nodes"@, integer_view(off_chain as int)),
        ("session_id"@, JsonView::Text(s.id@)),
        ("source"@, JsonView::Text("sqlite"@)),
    ]);
    let started_at = match epoch_seconds_to_ms(s.created_at) {
        Some(t) => Some(t),
        None => first_instant(&messages),
    };
    let ended_at = match epoch_seconds_to_ms(s.last_activity_at) {
        Some(t) => Some(t),
        None => last_instant(&messages),
    };
    Some(
        Conversation {
            agent_slug: "devin".to_owned(),
            external_id: Some(s.id.clone()),
            title,
            workspace: trim_text(&s.working_directory),
            source_path: db.join(url_encode(s.id.as_str()).as_str()),
            started_at,
            ended_at,
            metadata: object(metadata),
            messages,
        },
    )
}

/// Where the store stands that a place names: the place itself, or right or one
/// directory below it.
pub open spec fn store_path(t: Seq<EntryView>, root: Seq<Seq<char>>) -> Seq<Seq<char>> {
    let direct = below(root, "sessions.db"@);
    let nested = below(below(root, "cli"@), "sessions.db"@);
    if extension(root) == Some("db"@) {
        root
    } else if !path_is_file(t, direct) && path_is_file(t, nested) {
        nested
    } else {
        direct
    }
}

/// The usual place of the store.
pub open spec fn usual_store(home: Option<Seq<Seq<char>>>) -> Option<Seq<Seq<char>>> {
    match home {
        Some(home) => Some(
            below(below(below(below(below(home, ".local"@), "share"@), "devin"@), "cli"@), "sessions.db"@),
        ),
        None => None,
    }
}

/// Where a store may stand, with the root that names it.
pub open spec fn all_candidates(t: Seq<EntryView>, ctx: ContextView, s: SurroundingsView) -> Seq<
    (RootView, Seq<Seq<char>>),
> {
    if extension(ctx.data_dir) == Some("db"@) {
        seq![(local_root(ctx.data_dir), ctx.data_dir)]
    } else if default_detection(ctx) {
        let scoped = store_path(t, ctx.data_dir);
        if ctx.data_dir.len() > 0 && path_is_file(t, scoped) {
            seq![(local_root(scoped), scoped)]
        } else {
            match variable_path(s, "CASS_DEVIN_DATA_ROOT"@) {
                Some(root) => seq![(local_root(store_path(t, root)), store_path(t, root))],
                None => match usual_store(s.home) {
                    Some(db) => seq![(local_root(db), db)],
                    None => Seq::empty(),
                },
            }
        }
    } else {
        ctx.scan_roots.map_values(|r: RootView| (r, store_path(t, r.path)))
    }
}

/// The candidates where a store stands, each store once.
pub open spec fn kept_candidates(t: Seq<EntryView>, all: Seq<(RootView, Seq<Seq<char>>)>) -> (
    Seq<Seq<Seq<char>>>,
    Seq<(RootView, Seq<Seq<char>>)>,
)
    decreases all.len(),
{
    if all.len() == 0 {
        (Seq::empty(), Seq::empty())
    } else {
        let front = kept_candidates(t, all.drop_last());
        let db = all.last().1;
        if !path_is_file(t, db) || was_seen(front.0, db) {
            front
        } else {
            (front.0.push(db), front.1.push(all.last()))
        }
    }
}

/// The stores to scan.
pub open spec fn stores(t: Seq<EntryView>, ctx: ContextView, s: SurroundingsView) -> Seq<(RootView, Seq<Seq<char>>)> {
    kept_candidates(t, all_candidates(t, ctx, s)).1
}

/// The conversations of these stores; one that cannot be read is passed over.
pub open spec fn scanned(
    dbs: Seq<DatabaseView<RowsView>>,
    all: Seq<(RootView, Seq<Seq<char>>)>,
    since: Option<i64>,
) -> Seq<ConversationView>
    decreases all.len(),
{
    if all.len() == 0 {
        Seq::empty()
    } else {
        let front = scanned(dbs, all.drop_last(), since);
        match database_at(dbs, all.last().1) {
            None => front,
            Some(sessions) => match extracted(all.last().1, sessions, since) {
                Ok(found) => front + found,
                Err(_) => front,
            },
        }
    }
}

fn candidate(root: ScanRoot, db: SourcePath) -> (r: Vec<(ScanRoot, SourcePath)>)
    ensures
        r.deep_view() == seq![(root.deep_view(), db.deep_view())],
{
    let ghost seen = (root.deep_view(), db.deep_view());
    let mut out: Vec<(ScanRoot, SourcePath)> = Vec::new();
    out.push((root, db));
    assert(out.deep_view() =~= seq![seen]);
    out
}

impl DevinConnector {
    pub fn new() -> (r: DevinConnector)
        ensures
            r == DevinConnector,
    {
        DevinConnector
    }

    /// What the registry of agents found, or that nothing was found.
    pub fn detect(&self, found: Option<DetectionResult>) -> (r: DetectionResult)
        ensures
            r.deep_view() == detected_or_nothing(found.deep_view()),
    {
        detection_or_nothing(found)
    }

    /// Where the store stands that a place names.
    pub fn database_path_from_root(files: &FileTable, root: &SourcePath) -> (r: SourcePath)
        ensures
            r.deep_view() == store_path(files.deep_view(), root.deep_view()),
    {
        if root.has_extension("db") {
            return root.copy();
        }
        let direct = root.join("sessions.db");
        if files.is_file(&direct) {
            return direct;
        }
        let nested = root.join("cli").join("sessions.db");
        if files.is_file(&nested) {
            return nested;
        }
        direct
    }

    /// The usual place of the store.
    pub fn default_database_path(home: Option<&SourcePath>) -> (r: Option<SourcePath>)
        ensures
            r.deep_view() == usual_store(home.deep_view()),
    {
        match home {
            Some(home) => Some(home.join(".local").join("share").join("devin").join("cli").join("sessions.db")),
            None => None,
        }
    }

    fn all_candidates(ctx: &ScanContext, surroundings: &Surroundings, files: &FileTable) -> (r: Vec<
        (ScanRoot, SourcePath),
    >)
        ensures
            r.deep_view() == all_candidates(files.deep_view(), ctx.deep_view(), surroundings.deep_view()),
    {
        let ghost t = files.deep_view();
        if ctx.data_dir.has_extension("db") {
            return candidate(ScanRoot::local(ctx.data_dir.copy()), ctx.data_dir.copy());
        }
        if ctx.use_default_detection() {
            assert(ctx.data_dir.parts@.len() == ctx.data_dir.deep_view().len());
            let scoped = DevinConnector::database_path_from_root(files, &ctx.data_dir);
            if ctx.data_dir.parts.len() > 0 && files.is_file(&scoped) {
                return candidate(ScanRoot::local(scoped.copy()), scoped);
            }
            if let Some(root) = path_from_variable(surroundings, "CASS_DEVIN_DATA_ROOT") {
                let db = DevinConnector::database_path_from_root(files, &root);
                return candidate(ScanRoot::local(db.copy()), db);
            }
            return match DevinConnector::default_database_path(surroundings.home.as_ref()) {
                Some(db) => candidate(ScanRoot::local(db.copy()), db),
                None => {
                    let none: Vec<(ScanRoot, SourcePath)> = Vec::new();
                    assert(none.deep_view() =~= Seq::empty());
                    none
                },
            };
        }
        let ghost wanted = ctx.scan_roots.deep_view().map_values(|r: RootView| (r, store_path(t, r.path)));
        let mut out: Vec<(ScanRoot, SourcePath)> = Vec::new();
        let mut i: usize = 0;
        assert(out.deep_view() =~= wanted.take(0));
        while i < ctx.scan_roots.len()
            invariant
                i <= ctx.scan_roots@.len(),
                t == files.deep_view(),
                wanted == ctx.scan_roots.deep_view().map_values(|r: RootView| (r, store_path(t, r.path))),
                out.deep_view() == wanted.take(i as int),
            decreases ctx.scan_roots.len() - i,
        {
            let ghost before = out.deep_view();
            let db = DevinConnector::database_path_from_root(files, &ctx.scan_roots[i].path);
            let ghost seen = (ctx.scan_roots@[i as int].deep_view(), db.deep_view());
            out.push((ctx.scan_roots[i].copy(), db));
            assert(out.deep_view() =~= before.push(seen));
            assert(wanted[i as int] == seen);
            assert(out.deep_view() =~= wanted.take(i + 1));
            i = i + 1;
        }
        assert(wanted.take(wanted.len() as int) =~= wanted);
        out
    }

    /// The stores to scan, with the root that names each.
    pub fn database_candidates(ctx: &ScanContext, surroundings: &Surroundings, files: &FileTable) -> (r: Vec<
        (ScanRoot, SourcePath),
    >)
        ensures
            r.deep_view() == stores(files.deep_view(), ctx.deep_view(), surroundings.deep_view()),
    {
        let ghost t = files.deep_view();
        let candidates = DevinConnector::all_candidates(ctx, surroundings, files);
        let ghost all = candidates.deep_view();
        let mut seen: Vec<SourcePath> = Vec::new();
        let mut out: Vec<(ScanRoot, SourcePath)> = Vec::new();
        assert(all.take(0) =~= Seq::empty());
        assert(seen.deep_view() =~= Seq::empty());
        assert(out.deep_view() =~= Seq::empty());
        for c in it: candidates
            invariant
                it.seq() == candidates@,
                t == files.deep_view(),
                all == candidates.deep_view(),
                kept_candidates(t, all.take(it.index() as int)) == (seen.deep_view(), out.deep_view()),
        {
            let ghost n = it.index() as int;
            let ghost before = out.deep_view();
            let ghost here = (c.0.deep_view(), c.1.deep_view());
            assert(all.take(n + 1).drop_last() =~= all.take(n));
            assert(all.take(n + 1).last() == here);
            if files.is_file(&c.1) && note_path(&mut seen, c.1.copy()) {
                out.push(c);
                assert(out.deep_view() =~= before.push(here));
            }
        }
        assert(all.take(all.len() as int) =~= all);
        out
    }

    /// The conversations of a store. It fails where the messages of a session that
    /// is to be read cannot be.
    pub fn extract_from_sqlite(db_path: &SourcePath, sessions: &Vec<DevinRows>, since_ts: Option<i64>) -> (r: Result<
        Vec<Conversation>,
        ReadError,
    >)
        ensures
            match r {
                Ok(found) => extracted(db_path.deep_view(), sessions.deep_view(), since_ts) == Ok::<
                    Seq<ConversationView>,
                    ReadError,
                >(found.deep_view()),
                Err(e) => extracted(db_path.deep_view(), sessions.deep_view(), since_ts) == Err::<
                    Seq<ConversationView>,
                    ReadError,
                >(e),
            },
    {
        let ghost all = sessions.deep_view();
        let ghost db = db_path.deep_view();
        let mut seen: Vec<String> = Vec::new();
        let mut found: Vec<Conversation> = Vec::new();
        let mut failed = false;
        let mut i: usize = 0;
        assert(all.take(0) =~= Seq::empty());
        assert(seen.deep_view() =~= Seq::empty());
        assert(found.deep_view() =~= Seq::empty());
        while i < sessions.len()
            invariant
                i <= sessions@.len(),
                all == sessions.deep_view(),
                db == db_path.deep_view(),
                extract(db, all.take(i as int), since_ts) == (ExtractView {
                    seen: seen.deep_view(),
                    found: found.deep_view(),
                    failed,
                }),
            decreases sessions.len() - i,
        {
            let rows = &sessions[i];
            let s = &rows.session;
            assert(all.take(i + 1).drop_last() =~= all.take(i as int));
            assert(all.take(i + 1).last() == rows.deep_view());
            if !failed && !s.id.as_str().is_empty() && note_text(&mut seen, s.id.as_str()) {
                let stale = match since_ts {
                    Some(since) => {
                        let last = match epoch_seconds_to_ms(s.last_activity_at) {
                            Some(t) => t,
                            None => match epoch_seconds_to_ms(s.created_at) {
                                Some(t) => t,
                                None => 0,
                            },
                        };
                        last < since
                    },
                    None => false,
                };
                if !stale {
                    if let Some(tip) = s.main_chain_id {
                        match &rows.nodes {
                            None => {
                                failed = true;
                            },
                            Some(nodes) => {
                                if let Some(c) = conversation_from_session(db_path, s, tip, nodes) {
                                    push_conversation(&mut found, c);
                                }
                            },
                        }
                    }
                }
            }
            i = i + 1;
        }
        assert(all.take(all.len() as int) =~= all);
        if failed {
            Err(ReadError::Unreadable)
        } else {
            Ok(found)
        }
    }

    /// Reads the sessions that were active.
    pub fn scan(
        &self,
        ctx: &ScanContext,
        surroundings: &Surroundings,
        files: &FileTable,
        databases: &Vec<DevinDatabase>,
    ) -> (r: Vec<Conversation>)
        ensures
            r.deep_view() == scanned(
                databases.deep_view(),
                stores(files.deep_view(), ctx.deep_view(), surroundings.deep_view()),
                ctx.since_ts,
            ),
    {
        let ghost dbs = databases.deep_view();
        let list = DevinConnector::database_candidates(ctx, surroundings, files);
        let ghost all = list.deep_view();
        let mut found: Vec<Conversation> = Vec::new();
        let mut i: usize = 0;
        assert(all.take(0) =~= Seq::empty());
        assert(found.deep_view() =~= Seq::empty());
        while i < list.len()
            invariant
                i <= list@.len(),
                dbs == databases.deep_view(),
                all == list.deep_view(),
                found.deep_view() == scanned(dbs, all.take(i as int), ctx.since_ts),
            decreases list.len() - i,
        {
            let db = &list[i].1;
            let ghost before = found.deep_view();
            assert(all.take(i + 1).drop_last() =~= all.take(i as int));
            assert(all.take(i + 1).last() == (list@[i as int].0.deep_view(), db.deep_view()));
            if let Some(sessions) = find_database(databases, db) {
                if let Ok(more) = DevinConnector::extract_from_sqlite(db, sessions, ctx.since_ts) {
                    let mut more = more;
                    let ghost added = more.deep_view();
                    found.append(&mut more);
                    assert(found.deep_view() =~= before + added);
                }
            }
            i = i + 1;
        }
        assert(all.take(all.len() as int) =~= all);
        found
    }

    /// The stores that a scan would read.
    pub fn discover_source_files(&self, ctx: &ScanContext, surroundings: &Surroundings, files: &FileTable) -> (r: Vec<
        DiscoveredSource,
    >)
        ensures
            r.deep_view() == stores(files.deep_view(), ctx.deep_view(), surroundings.deep_view()).map_values(
                |c: (RootView, Seq<Seq<char>>)| source("devin"@, c.0, c.1, SourceRole::SqliteDatabase, true),
            ),
    {
        let list = DevinConnector::database_candidates(ctx, surroundings, files);
        let ghost wanted = list.deep_view().map_values(
            |c: (RootView, Seq<Seq<char>>)| source("devin"@, c.0, c.1, SourceRole::SqliteDatabase, true),
        );
        let mut out: Vec<DiscoveredSource> = Vec::new();
        let mut i: usize = 0;
        assert(out.deep_view() =~= wanted.take(0));
        while i < list.len()
            invariant
                i <= list@.len(),
                wanted == list.deep_view().map_values(
                    |c: (RootView, Seq<Seq<char>>)| source("devin"@, c.0, c.1, SourceRole::SqliteDatabase, true),
                ),
                out.deep_view() == wanted.take(i as int),
            decreases list.len() - i,
        {
            push_source(
                &mut out,
                DiscoveredSource::new("devin", &list[i].0, list[i].1.copy(), SourceRole::SqliteDatabase, true),
            );
            assert(wanted[i as int] == source(
                "devin"@,
                list@[i as int].0.deep_view(),
                list@[i as int].1.deep_view(),
                SourceRole::SqliteDatabase,
                true,
            ));
            assert(out.deep_view() =~= wanted.take(i + 1));
            i = i + 1;
        }
        assert(wanted.take(wanted.len() as int) =~= wanted);
        out
    }
}

proof fn chain_messages_are_not_blank(nodes: Seq<NodeView>, chain: Seq<i64>, model: Option<Seq<char>>)
    ensures
        forall|i: int|
            0 <= i < chain_messages(nodes, chain, model).len() ==> !blank(
                (#[trigger] chain_messages(nodes, chain, model)[i]).content,
            ),
    decreases chain.len(),
{
    if chain.len() > 0 {
        chain_messages_are_not_blank(nodes, chain.drop_last(), model);
        if let Some(node) = node_at(nodes, chain.last()) {
            if let Some(v) = document_in(node.chat_message) {
                let content = content_text(member(v, "content"@));
                said_lines_are_not_blank(image_marks(v), content);
                said_lines_are_not_blank(content, call_lines(calls_of(v)));
            }
        }
    }
}

/// The conversation of a session has messages, each at its place, none blank and
/// all on the main chain, of which there are no more than it has nodes.
pub proof fn session_conversation_is_sound(db: Seq<Seq<char>>, s: SessionView, tip: i64, nodes: Seq<NodeView>)
    ensures
        session_conversation(db, s, tip, nodes) matches Some(c) ==> {
            &&& c.messages.len() > 0
            &&& c.messages.len() <= main_chain(parents_of(nodes), tip).len()
            &&& is_numbered(c.messages)
            &&& forall|i: int| 0 <= i < c.messages.len() ==> !blank((#[trigger] c.messages[i]).content)
        },
{
    let chain = main_chain(parents_of(nodes), tip);
    chain_messages_are_not_blank(nodes, chain, s.model);
    chain_messages_are_few(nodes, chain, s.model);
    numbering(chain_messages(nodes, chain, s.model));
}

proof fn chain_messages_are_few(nodes: Seq<NodeView>, chain: Seq<i64>, model: Option<Seq<char>>)
    ensures
        chain_messages(nodes, chain, model).len() <= chain.len(),
    decreases chain.len(),
{
    if chain.len() > 0 {
        chain_messages_are_few(nodes, chain.drop_last(), model);
    }
}

/// No session of a store is read twice.
pub proof fn extracted_sessions_are_distinct(db: Seq<Seq<char>>, all: Seq<RowsView>, since: Option<i64>)
    ensures
        names_are_distinct(extract(db, all, since)),
    decreases all.len(),
{
    if all.len() > 0 {
        extracted_sessions_are_distinct(db, all.drop_last(), since);
        let before = extract(db, all.drop_last(), since);
        let after = extract(db, all, since);
        let id = all.last().session.id;
        if !before.failed && id.len() > 0 && !before.seen.contains(id) {
            names_stay_distinct(before, id, after);
        }
    }
}

/// A session that was not active since is not read, whatever it holds.
pub proof fn stale_sessions_are_not_read(x: ExtractView, db: Seq<Seq<char>>, rows: RowsView, since: Option<i64>)
    requires
        is_stale(rows.session, since),
    ensures
        after_session(x, db, rows, since).found == x.found,
        after_session(x, db, rows, since).failed == x.failed,
{
}

/// What images hold never reaches a message: where two documents differ in nothing
/// but the items of their lists of images, and those lists are of one length, they
/// hold the same message.
pub proof fn images_leave_marks_alone(a: JsonView, b: JsonView, created_at: Option<i64>, model: Option<Seq<char>>)
    requires
        a is Object <==> b is Object,
        forall|key: Seq<char>| key != "images"@ ==> #[trigger] member(a, key) == member(b, key),
        items_in(member(a, "images"@)) is Some,
        items_in(member(b, "images"@)) is Some,
        items_in(member(a, "images"@))->0.len() == items_in(member(b, "images"@))->0.len(),
    ensures
        chat_message(a, created_at, model) == chat_message(b, created_at, model),
{
    reveal_strlit("images");
    reveal_strlit("role");
    reveal_strlit("content");
    reveal_strlit("message_id");
    reveal_strlit("metadata");
    reveal_strlit("thinking");
    reveal_strlit("tool_calls");
    reveal_strlit("tool_call_id");
    let other = |key: Seq<char>| key.len() != "images"@.len();
    assert(other("role"@) && other("content"@) && other("message_id"@) && other("metadata"@) && other("thinking"@)
        && other("tool_calls"@) && other("tool_call_id"@));
}

/// An image among the parts of a content leaves a mark and nothing else.
pub proof fn image_parts_leave_marks_alone(part: JsonView)
    requires
        member_text(part, "type"@) == Some("image"@) || member_text(part, "type"@) == Some("image_url"@),
    ensures
        part_chunk(part) == Some("[image]"@),
{
    reveal_strlit("text");
    reveal_strlit("image");
    reveal_strlit("image_url");
    assert("text"@.len() != "image"@.len() && "text"@.len() != "image_url"@.len());
}

proof fn calls_are_canonical(v: JsonView)
    requires
        canonical(v),
    ensures
        canonical_calls(calls_of(v)),
{
    member_canonical(v, "tool_calls"@);
    if let Some(calls) = items_in(member(v, "tool_calls"@)) {
        assert forall|i: int| 0 <= i < calls.len() implies canonical_call(#[trigger] calls_of(v)[i]) by {
            assert(canonical(calls[i]));
            member_canonical(calls[i], "arguments"@);
        }
    }
}

/// What a message of a chat holds is canonical.
pub proof fn chat_message_is_canonical(text: Seq<char>, created_at: Option<i64>, model: Option<Seq<char>>)
    ensures
        chat_message_in(text, created_at, model) matches Some(m) ==> canonical_message(m),
{
    if let Some(v) = document_in(text) {
        let named = with_text(Seq::empty(), "message_id"@, member_text(v, "message_id"@));
        rising_members_are_canonical(Seq::empty());
        with_text_canonical(Seq::empty(), "message_id"@, member_text(v, "message_id"@));
        with_member_canonical(named, "is_user_input"@, JsonView::Bool(true));
        with_member_canonical(named, "is_user_input"@, JsonView::Bool(false));
        with_text_canonical(named, "thinking"@, thought_of(v));
        with_text_canonical(named, "tool_call_id"@, member_text(v, "tool_call_id"@));
        calls_are_canonical(v);
    }
}

proof fn chain_messages_are_canonical(nodes: Seq<NodeView>, chain: Seq<i64>, model: Option<Seq<char>>)
    ensures
        canonical_messages(chain_messages(nodes, chain, model)),
    decreases chain.len(),
{
    if chain.len() > 0 {
        let front = chain_messages(nodes, chain.drop_last(), model);
        chain_messages_are_canonical(nodes, chain.drop_last(), model);
        if let Some(node) = node_at(nodes, chain.last()) {
            let created_at = seconds_to_millis(node.created_at);
            chat_message_is_canonical(node.chat_message, created_at, model);
            if let Some(m) = chat_message_in(node.chat_message, created_at, model) {
                messages_grow(front, m);
            }
        }
    }
}

/// The documents of the conversation of a session are canonical.
pub proof fn session_conversation_is_canonical(db: Seq<Seq<char>>, s: SessionView, tip: i64, nodes: Seq<NodeView>)
    ensures
        session_conversation(db, s, tip, nodes) matches Some(c) ==> canonical_conversation(c),
{
    let chain = main_chain(parents_of(nodes), tip);
    chain_messages_are_canonical(nodes, chain, s.model);
    numbered_canonical(chain_messages(nodes, chain, s.model));
    if let Some(c) = session_conversation(db, s, tip, nodes) {
        if let JsonView::Object(members) = c.metadata {
            reveal_strlit("agent_mode");
            reveal_strlit("main_chain_id");
            reveal_strlit("main_chain_nodes");
            reveal_strlit("model");
            reveal_strlit("off_chain_nodes");
            reveal_strlit("session_id");
            reveal_strlit("source");
            comes_before("agent_mode"@, "main_chain_id"@, 0);
            comes_before("main_chain_id"@, "main_chain_nodes"@, 11);
            comes_before("main_chain_nodes"@, "model"@, 1);
            comes_before("model"@, "off_chain_nodes"@, 0);
            comes_before("off_chain_nodes"@, "session_id"@, 0);
            comes_before("session_id"@, "source"@, 1);
            nullables_are_canonical(s.agent_mode, None);
            nullables_are_canonical(s.model, None);
            rising_members_are_canonical(members);
        }
    }
}

proof fn extract_is_canonical(db: Seq<Seq<char>>, all: Seq<RowsView>, since: Option<i64>)
    ensures
        canonical_conversations(extract(db, all, since).found),
    decreases all.len(),
{
    if all.len() > 0 {
        let before = extract(db, all.drop_last(), since);
        let s = all.last().session;
        extract_is_canonical(db, all.drop_last(), since);
        if let (Some(tip), Some(nodes)) = (s.main_chain_id, all.last().nodes) {
            session_conversation_is_canonical(db, s, tip, nodes);
            if let Some(c) = session_conversation(db, s, tip, nodes) {
                conversations_grow(before.found, c);
            }
        }
    }
}

/// The documents of all conversations that a scan hands out are canonical, so that
/// each can be rendered.
pub proof fn scanned_documents_are_canonical(
    dbs: Seq<DatabaseView<RowsView>>,
    all: Seq<(RootView, Seq<Seq<char>>)>,
    since: Option<i64>,
)
    ensures
        canonical_conversations(scanned(dbs, all, since)),
    decreases all.len(),
{
    if all.len() > 0 {
        let path = all.last().1;
        scanned_documents_are_canonical(dbs, all.drop_last(), since);
        if let Some(sessions) = database_at(dbs, path) {
            extract_is_canonical(path, sessions, since);
            conversations_join(scanned(dbs, all.drop_last(), since), extract(path, sessions, since).found);
        }
    }
}

/// Seconds count a thousandfold; those that are not above zero, or whose milliseconds do not
/// fit, are none.
pub proof fn seconds_are_a_thousand_millis(n: i64)
    ensures
        0 < n <= 9_223_372_036_854_775 ==> seconds_to_millis(Some(n)) == Some((n * 1000) as i64),
        n <= 0 || n > 9_223_372_036_854_775 ==> seconds_to_millis(Some(n)) is None,
        seconds_to_millis(None) is None,
{
}

/// A content that is a text reads as that text, and a list of parts as its texts and a mark
/// for each image, line by line and in their order.
pub proof fn contents_read_as_their_parts(parts: Seq<JsonView>, part: JsonView, t: Seq<char>)
    ensures
        content_text(Some(JsonView::Text(t))) == Some(t),
        content_text(None) is None,
        content_text(Some(JsonView::Array(Seq::empty()))) is None,
        member_text(part, "type"@) == Some("text"@) && member_text(part, "text"@) == Some(t) ==> content_text(
            Some(JsonView::Array(parts.push(part))),
        ) == match content_text(Some(JsonView::Array(parts))) {
            Some(before) => Some(before + "\n"@ + t),
            None => Some(t),
        },
        member_text(part, "type"@) == Some("image"@) || member_text(part, "type"@) == Some("image_url"@) ==> content_text(
            Some(JsonView::Array(parts.push(part))),
        ) == match content_text(Some(JsonView::Array(parts))) {
            Some(before) => Some(before + "\n[image]"@),
            None => Some("[image]"@),
        },
        member_text(part, "type"@) is None ==> content_text(Some(JsonView::Array(parts.push(part)))) == content_text(
            Some(JsonView::Array(parts)),
        ),
{
    let more = parts.push(part);
    let before = part_chunks(parts);
    assert(more.drop_last() =~= parts);
    reveal_strlit("text");
    reveal_strlit("image");
    reveal_strlit("image_url");
    reveal_strlit("\n[image]");
    reveal_strlit("[image]");
    reveal_strlit("\n");
    assert("text"@.len() == 4 && "image"@.len() == 5 && "image_url"@.len() == 9);
    assert("\n[image]"@ =~= "\n"@ + "[image]"@);
    if let Some(chunk) = part_chunk(part) {
        let all = before.push(chunk);
        assert(part_chunks(more) == all);
        if before.len() > 0 {
            crate::text::join_in_two_steps(before, seq![chunk], "\n"@);
            assert(before + seq![chunk] =~= all);
            assert(join(before, "\n"@) + "\n"@ + "[image]"@ =~= join(before, "\n"@) + "\n[image]"@);
        } else {
            assert(all =~= seq![chunk]);
        }
    }
}

proof fn said_lines_are(a: Seq<char>, b: Seq<char>)
    requires
        !blank(a),
    ensures
        said_lines(Some(a), None) == a,
        said_lines(None, Some(a)) == a,
        blank(b) ==> said_lines(Some(a), Some(b)) == a && said_lines(Some(b), Some(a)) == a,
        !blank(b) ==> said_lines(Some(a), Some(b)) == a + "\n"@ + b,
{
    let none = Seq::<Seq<char>>::empty();
    assert(seq![a] + none =~= seq![a]);
    assert(none + seq![a] =~= seq![a]);
    if !blank(b) {
        crate::text::join_in_two_steps(seq![a], seq![b], "\n"@);
    }
}

proof fn chat_roles_differ()
    ensures
        "user"@ != "assistant"@,
        "user"@ != "tool"@,
        "assistant"@ != "tool"@,
{
    reveal_strlit("user");
    reveal_strlit("assistant");
    reveal_strlit("tool");
    assert("user"@.len() == 4 && "assistant"@.len() == 9 && "tool"@.len() == 4);
    assert("user"@[0] != "tool"@[0]);
}

/// What the user or a tool says is said by them, at the time of its node and with its own
/// content; it keeps its name, and a tool that of its call. Nothing that is blank is said.
pub proof fn chats_of_users_and_tools_are_said(
    text: Seq<char>,
    v: JsonView,
    role: Seq<char>,
    content: Seq<char>,
    created_at: Option<i64>,
    model: Option<Seq<char>>,
)
    requires
        document_in(text) == Some(v),
        v is Object,
        member_text(v, "role"@) == Some(role),
        role == "user"@ || role == "tool"@,
        content_text(member(v, "content"@)) == Some(content),
        !blank(content),
        member(v, "images"@) is None,
    ensures
        ({
            let m = chat_message_in(text, created_at, model)->0;
            &&& chat_message_in(text, created_at, model) is Some
            &&& m.role == role
            &&& m.content == content
            &&& m.created_at == created_at
            &&& m.author is None
            &&& m.invocations.len() == 0
            &&& member(m.extra, "message_id"@) == (match member_text(v, "message_id"@) {
                Some(id) => Some(JsonView::Text(id)),
                None => None,
            })
            &&& role == "tool"@ ==> (member_text(v, "tool_call_id"@) matches Some(id) ==> member(m.extra, "tool_call_id"@)
                == Some(JsonView::Text(id)))
        }),
{
    chat_roles_differ();
    said_lines_are(content, content);
    reveal_strlit("message_id");
    reveal_strlit("is_user_input");
    reveal_strlit("tool_call_id");
    assert("message_id"@.len() == 10 && "is_user_input"@.len() == 13 && "tool_call_id"@.len() == 12);
    let id = member_text(v, "message_id"@);
    let named = with_text(Seq::empty(), "message_id"@, id);
    if let Some(id) = id {
        with_member_reads_back(Seq::empty(), "message_id"@, JsonView::Text(id), "message_id"@);
    }
    assert(member(JsonView::Object(Seq::empty()), "message_id"@) is None);
    with_member_reads_back(named, "is_user_input"@, JsonView::Bool(true), "message_id"@);
    with_member_reads_back(named, "is_user_input"@, JsonView::Bool(false), "message_id"@);
    if let Some(call) = member_text(v, "tool_call_id"@) {
        with_member_reads_back(named, "tool_call_id"@, JsonView::Text(call), "message_id"@);
    }
}

/// What the assistant says is said by it at the time of its node, by the model of the
/// session, with its own content, behind that a line for each of its calls, and with those
/// calls; what it thought is kept beside it.
pub proof fn chats_of_the_assistant_are_said(
    text: Seq<char>,
    v: JsonView,
    content: Seq<char>,
    created_at: Option<i64>,
    model: Option<Seq<char>>,
)
    requires
        document_in(text) == Some(v),
        v is Object,
        member_text(v, "role"@) == Some("assistant"@),
        content_text(member(v, "content"@)) == Some(content),
        !blank(content),
    ensures
        ({
            let m = chat_message_in(text, created_at, model)->0;
            let calls = items_in(member(v, "tool_calls"@));
            &&& chat_message_in(text, created_at, model) is Some
            &&& m.role == "assistant"@
            &&& m.created_at == created_at
            &&& m.author == model
            &&& calls is None ==> m.content == content && m.invocations.len() == 0
            &&& calls matches Some(calls) ==> m.invocations.len() == calls.len()
            &&& m.content.len() >= content.len() && m.content.take(content.len() as int) == content
            &&& text_in(member_of(member(v, "thinking"@), "thinking"@)) matches Some(t) ==> (!blank(t) ==> member(
                m.extra,
                "thinking"@,
            ) == Some(JsonView::Text(trim(t))))
        }),
{
    chat_roles_differ();
    said_lines_are(content, content);
    let calls = calls_of(v);
    if let Some(lines) = call_lines(calls) {
        said_lines_are(content, lines);
        let all = said_lines(Some(content), Some(lines));
        assert(all.take(content.len() as int) =~= content);
    } else {
        assert(content.take(content.len() as int) =~= content);
    }
    reveal_strlit("message_id");
    reveal_strlit("thinking");
    let named = with_text(Seq::empty(), "message_id"@, member_text(v, "message_id"@));
    if let Some(t) = text_in(member_of(member(v, "thinking"@), "thinking"@)) {
        trim_empty_iff_blank(t);
        with_member_reads_back(named, "thinking"@, JsonView::Text(trim(t)), "thinking"@);
    }
}

/// A call of the assistant has its own name, its own id and its own arguments, unless these
/// are too large: then a mark tells how large they were.
pub proof fn calls_are_kept(v: JsonView, calls: Seq<JsonView>, i: int)
    requires
        member(v, "tool_calls"@) == Some(JsonView::Array(calls)),
        0 <= i < calls.len(),
    ensures
        ({
            let c = calls_of(v)[i];
            &&& c.kind == "tool"@
            &&& member_text(calls[i], "name"@) matches Some(name) ==> c.name == name
            &&& member_text(calls[i], "name"@) is None ==> c.name == "unknown"@
            &&& c.call_id == member_text(calls[i], "id"@)
            &&& member(calls[i], "arguments"@) is None ==> c.arguments is None
            &&& member(calls[i], "arguments"@) matches Some(a) ==> (byte_len(rendered_json(a))
                <= MAX_TOOL_ARGUMENTS_BYTES ==> c.arguments == Some(a)) && (byte_len(rendered_json(a))
                > MAX_TOOL_ARGUMENTS_BYTES ==> c.arguments == Some(
                JsonView::Text("[OMITTED large JSON payload bytes="@ + decimal(byte_len(rendered_json(a))) + "]"@),
            ))
        }),
{
}

/// The messages of a chain are those of its nodes, in the order of the chain, each at the
/// time of its own node; a node that says nothing adds none.
pub proof fn chains_are_read_in_order(
    nodes: Seq<NodeView>,
    chain: Seq<i64>,
    id: i64,
    model: Option<Seq<char>>,
    node: NodeView,
)
    requires
        node_at(nodes, id) == Some(node),
    ensures
        ({
            let m = chat_message_in(node.chat_message, seconds_to_millis(node.created_at), model);
            let before = chain_messages(nodes, chain, model);
            &&& m matches Some(m) ==> chain_messages(nodes, chain.push(id), model) == before.push(m)
            &&& m is None ==> chain_messages(nodes, chain.push(id), model) == before
        }),
        chain_messages(nodes, Seq::empty(), model).len() == 0,
{
    assert(chain.push(id).drop_last() =~= chain);
}

/// A node is found by its number, and its parent is the one that it names.
pub proof fn nodes_are_found_by_number(nodes: Seq<NodeView>, k: int)
    requires
        0 <= k < nodes.len(),
        forall|i: int| 0 <= i < nodes.len() && i != k ==> (#[trigger] nodes[i]).node_id != nodes[k].node_id,
    ensures
        node_at(nodes, nodes[k].node_id) == Some(nodes[k]),
        parents_of(nodes).dom().contains(nodes[k].node_id),
        parents_of(nodes)[nodes[k].node_id] == nodes[k].parent_node_id,
{
    node_is_first(nodes, k);
    parent_is_last(nodes, k);
}

proof fn node_is_first(nodes: Seq<NodeView>, k: int)
    requires
        0 <= k < nodes.len(),
        forall|i: int| 0 <= i < k ==> (#[trigger] nodes[i]).node_id != nodes[k].node_id,
    ensures
        node_at(nodes, nodes[k].node_id) == Some(nodes[k]),
    decreases k,
{
    if k > 0 {
        let rest = nodes.skip(1);
        assert(nodes[0].node_id != nodes[k].node_id);
        assert forall|i: int| 0 <= i < k - 1 implies (#[trigger] rest[i]).node_id != rest[k - 1].node_id by {
            assert(nodes[i + 1].node_id != nodes[k].node_id);
        }
        node_is_first(rest, k - 1);
    }
}

proof fn parent_is_last(nodes: Seq<NodeView>, k: int)
    requires
        0 <= k < nodes.len(),
        forall|i: int| k < i < nodes.len() ==> (#[trigger] nodes[i]).node_id != nodes[k].node_id,
    ensures
        parents_of(nodes).dom().contains(nodes[k].node_id),
        parents_of(nodes)[nodes[k].node_id] == nodes[k].parent_node_id,
    decreases nodes.len(),
{
    if k < nodes.len() - 1 {
        let front = nodes.drop_last();
        assert(nodes[nodes.len() - 1].node_id != nodes[k].node_id);
        assert forall|i: int| k < i < front.len() implies (#[trigger] front[i]).node_id != front[k].node_id by {
            assert(nodes[i].node_id != nodes[k].node_id);
        }
        parent_is_last(front, k);
    }
}

/// What a session is told of in its conversation: its name; its own title, or else the first
/// line of what the user said first; where it worked; its own times or else those of its
/// messages; how many nodes are on its chain and how many are not.
pub proof fn sessions_are_told_of(db: Seq<Seq<char>>, s: SessionView, tip: i64, nodes: Seq<NodeView>)
    ensures
        session_conversation(db, s, tip, nodes) matches Some(c) ==> {
            let chain = main_chain(parents_of(nodes), tip);
            &&& c.agent_slug == "devin"@
            &&& c.external_id == Some(s.id)
            &&& c.messages == numbered(chain_messages(nodes, chain, s.model))
            &&& s.title matches Some(t) ==> (!blank(t) ==> c.title == Some(trim(t)))
            &&& s.title is None ==> (first_of_role(c.messages, "user"@) matches Some(m) ==> c.title == headline(
                m.content,
                100,
            ))
            &&& s.working_directory matches Some(t) ==> (!blank(t) ==> c.workspace == Some(trim(t)))
            &&& s.working_directory is None ==> c.workspace is None
            &&& c.source_path == below(db, percent_encoded(vstd::utf8::encode_utf8(s.id)))
            &&& seconds_to_millis(s.created_at) matches Some(n) ==> c.started_at == Some(n)
            &&& seconds_to_millis(s.created_at) is None ==> is_first_instant(c.started_at, c.messages)
            &&& seconds_to_millis(s.last_activity_at) matches Some(n) ==> c.ended_at == Some(n)
            &&& seconds_to_millis(s.last_activity_at) is None ==> is_last_instant(c.ended_at, c.messages)
        },
        session_conversation(db, s, tip, nodes) is None <==> chain_messages(
            nodes,
            main_chain(parents_of(nodes), tip),
            s.model,
        ).len() == 0,
{
    let messages = numbered(chain_messages(nodes, main_chain(parents_of(nodes), tip), s.model));
    crate::model::instants_of_messages_are_bounded(messages);
    if let Some(t) = s.title {
        trim_empty_iff_blank(t);
    }
    if let Some(t) = s.working_directory {
        trim_empty_iff_blank(t);
    }
}

/// What is known of a session stands in the metadata of its conversation.
pub proof fn sessions_are_known_by_their_metadata(db: Seq<Seq<char>>, s: SessionView, tip: i64, nodes: Seq<NodeView>)
    ensures
        session_conversation(db, s, tip, nodes) matches Some(c) ==> {
            let v = c.metadata;
            let chain = main_chain(parents_of(nodes), tip);
            &&& member(v, "agent_mode"@) == Some(nullable_text(s.agent_mode))
            &&& member(v, "main_chain_id"@) == Some(integer_view(tip as int))
            &&& member(v, "main_chain_nodes"@) == Some(integer_view(chain.len() as int))
            &&& member(v, "model"@) == Some(nullable_text(s.model))
            &&& nodes.len() >= chain.len() ==> member(v, "off_chain_nodes"@) == Some(
                integer_view(nodes.len() - chain.len()),
            )
            &&& member(v, "session_id"@) == Some(JsonView::Text(s.id))
            &&& member(v, "source"@) == Some(JsonView::Text("sqlite"@))
        },
{
    if let Some(c) = session_conversation(db, s, tip, nodes) {
        if let JsonView::Object(members) = c.metadata {
            reveal_strlit("agent_mode");
            reveal_strlit("main_chain_id");
            reveal_strlit("main_chain_nodes");
            reveal_strlit("model");
            reveal_strlit("off_chain_nodes");
            reveal_strlit("session_id");
            reveal_strlit("source");
            assert("agent_mode"@.len() == 10 && "main_chain_id"@.len() == 13 && "main_chain_nodes"@.len() == 16);
            assert("model"@.len() == 5 && "off_chain_nodes"@.len() == 15 && "session_id"@.len() == 10);
            assert("source"@.len() == 6);
            assert("agent_mode"@[0] != "session_id"@[0]);
            member_is_the_first_of_its_key(JsonView::Null, members, "agent_mode"@, 0);
            member_is_the_first_of_its_key(JsonView::Null, members, "main_chain_id"@, 1);
            member_is_the_first_of_its_key(JsonView::Null, members, "main_chain_nodes"@, 2);
            member_is_the_first_of_its_key(JsonView::Null, members, "model"@, 3);
            member_is_the_first_of_its_key(JsonView::Null, members, "off_chain_nodes"@, 4);
            member_is_the_first_of_its_key(JsonView::Null, members, "session_id"@, 5);
            member_is_the_first_of_its_key(JsonView::Null, members, "source"@, 6);
        }
    }
}

/// A session that has a name and a chain, was not met before and is not stale is found with
/// the messages of its chain; nodes that cannot be read end the reading of the store.
pub proof fn sessions_are_found(db: Seq<Seq<char>>, all: Seq<RowsView>, rows: RowsView, since: Option<i64>, tip: i64)
    requires
        !extract(db, all, since).failed,
        rows.session.id.len() > 0,
        !extract(db, all, since).seen.contains(rows.session.id),
        !is_stale(rows.session, since),
        rows.session.main_chain_id == Some(tip),
    ensures
        ({
            let before = extract(db, all, since);
            let after = extract(db, all.push(rows), since);
            &&& rows.nodes is None ==> after.failed
            &&& rows.nodes matches Some(nodes) ==> {
                let c = session_conversation(db, rows.session, tip, nodes);
                &&& !after.failed
                &&& c matches Some(c) ==> after.found == before.found.push(c)
                &&& c is None ==> after.found == before.found
            }
        }),
        extract(db, Seq::empty(), since).found.len() == 0,
        !extract(db, Seq::empty(), since).failed,
        extracted(db, all, since) == Ok::<Seq<ConversationView>, ReadError>(extract(db, all, since).found),
{
    assert(all.push(rows).drop_last() =~= all);
}

/// A session was last touched when it was last active, or else created: it is stale where
/// that is before the given time, and never where no time is given.
pub proof fn sessions_are_stale_before_their_time(s: SessionView, since: i64, touched: i64)
    ensures
        seconds_to_millis(s.last_activity_at) == Some(touched) ==> (is_stale(s, Some(since)) <==> touched < since),
        seconds_to_millis(s.last_activity_at) is None && seconds_to_millis(s.created_at) == Some(touched) ==> (is_stale(
            s,
            Some(since),
        ) <==> touched < since),
        !is_stale(s, None),
{
}

/// The stores that can be read are read in their order: what one holds comes behind what
/// those before it hold.
pub proof fn stores_are_read_in_order(
    dbs: Seq<DatabaseView<RowsView>>,
    all: Seq<(RootView, Seq<Seq<char>>)>,
    next: (RootView, Seq<Seq<char>>),
    since: Option<i64>,
    sessions: Seq<RowsView>,
)
    requires
        database_at(dbs, next.1) == Some(sessions),
    ensures
        extracted(next.1, sessions, since) matches Ok(found) ==> scanned(dbs, all.push(next), since) == scanned(
            dbs,
            all,
            since,
        ) + found,
        extracted(next.1, sessions, since) is Err ==> scanned(dbs, all.push(next), since) == scanned(dbs, all, since),
        scanned(dbs, Seq::empty(), since).len() == 0,
{
    assert(all.push(next).drop_last() =~= all);
}

proof fn call_lines_are_not_blank(calls: Seq<InvocationView>)
    ensures
        calls.len() > 0 ==> call_lines(calls) is Some && !blank(call_lines(calls)->0),
{
    if calls.len() > 0 {
        let parts = calls.map_values(|c: InvocationView| "[tool_call: "@ + c.name + "]"@);
        reveal_strlit("[tool_call: ");
        crate::text::join_holds_each(parts, "\n"@, 0);
        let all = join(parts, "\n"@);
        assert(parts[0][0] == '[');
        assert(all[0] == parts[0][0]);
        assert(!crate::text::is_white(all[0]));
    }
}

/// The calls of an answer are told in its content, a line for each, in their order and
/// behind what it says.
pub proof fn calls_are_told_line_by_line(calls: Seq<InvocationView>, call: InvocationView, content: Seq<char>)
    ensures
        call_lines(Seq::empty()) is None,
        call_lines(calls.push(call)) == Some(
            match call_lines(calls) {
                Some(before) => before + "\n"@ + ("[tool_call: "@ + call.name + "]"@),
                None => "[tool_call: "@ + call.name + "]"@,
            },
        ),
        calls.len() > 0 && !blank(content) ==> said_lines(Some(content), call_lines(calls)) == content + "\n"@
            + call_lines(calls)->0,
        calls.len() > 0 ==> said_lines(None, call_lines(calls)) == call_lines(calls)->0,
{
    let told = |c: InvocationView| "[tool_call: "@ + c.name + "]"@;
    let line = told(call);
    let parts = calls.map_values(told);
    let more = calls.push(call).map_values(told);
    assert(more =~= parts + seq![line]);
    if calls.len() > 0 {
        crate::text::join_in_two_steps(parts, seq![line], "\n"@);
        call_lines_are_not_blank(calls);
        said_lines_are(call_lines(calls)->0, call_lines(calls)->0);
        if !blank(content) {
            said_lines_are(content, call_lines(calls)->0);
        }
    } else {
        assert(more =~= seq![line]);
    }
}

/// Images beside a content leave a mark each, line by line, before what is said.
pub proof fn images_leave_a_mark_each(v: JsonView, images: Seq<JsonView>, content: Seq<char>)
    requires
        member(v, "images"@) == Some(JsonView::Array(images)),
    ensures
        images.len() == 0 ==> image_marks(v) is None,
        images.len() == 1 ==> image_marks(v) == Some("[image]"@),
        images.len() > 0 ==> image_marks(v) is Some && image_marks(v)->0.len() == images.len() * 8 - 1,
        images.len() == 1 && !blank(content) ==> said_lines(image_marks(v), Some(content)) == "[image]\n"@ + content,
{
    if images.len() > 0 {
        let marks = Seq::new(images.len(), |i: int| "[image]"@);
        reveal_strlit("[image]");
        reveal_strlit("\n");
        reveal_strlit("[image]\n");
        crate::text::join_length(marks, "\n"@);
        marks_are_long(images.len());
        if images.len() == 1 {
            assert(marks =~= seq!["[image]"@]);
            assert(!crate::text::is_white("[image]"@[0]));
            if !blank(content) {
                said_lines_are("[image]"@, content);
                assert("[image]"@ + "\n"@ =~= "[image]\n"@);
            }
        }
    }
}

proof fn marks_are_long(n: nat)
    ensures
        crate::text::total_length(Seq::new(n, |i: int| "[image]"@)) == n * 7,
    decreases n,
{
    reveal_strlit("[image]");
    if n > 0 {
        let marks = Seq::new(n, |i: int| "[image]"@);
        assert(marks.skip(1) =~= Seq::new((n - 1) as nat, |i: int| "[image]"@));
        marks_are_long((n - 1) as nat);
    }
}

/// A place stands for the store that it is, or that stands right below it, or else in the
/// directory of the command line below it where only that is there.
pub proof fn places_stand_for_stores(t: Seq<EntryView>, root: Seq<Seq<char>>)
    ensures
        extension(root) == Some("db"@) ==> store_path(t, root) == root,
        extension(root) != Some("db"@) && path_is_file(t, below(root, "sessions.db"@)) ==> store_path(t, root) == below(
            root,
            "sessions.db"@,
        ),
        extension(root) != Some("db"@) && !path_is_file(t, below(root, "sessions.db"@)) && path_is_file(
            t,
            below(below(root, "cli"@), "sessions.db"@),
        ) ==> store_path(t, root) == below(below(root, "cli"@), "sessions.db"@),
{
}

/// A scan reads the store that its own data are; or else, with given places, the store of
/// each; or else the store at its own data, that of the environment, or the usual one of
/// the user.
pub proof fn scans_read_their_stores(t: Seq<EntryView>, ctx: ContextView, s: SurroundingsView, set: Seq<Seq<char>>, i: int)
    ensures
        ({
            let all = all_candidates(t, ctx, s);
            let own = ctx.data_dir;
            &&& extension(own) == Some("db"@) ==> all == seq![(local_root(own), own)]
            &&& extension(own) != Some("db"@) && 0 <= i < ctx.scan_roots.len() ==> all.len() == ctx.scan_roots.len()
                && all[i] == (ctx.scan_roots[i], store_path(t, ctx.scan_roots[i].path))
            &&& extension(own) != Some("db"@) && ctx.scan_roots.len() == 0 && own.len() > 0 && path_is_file(
                t,
                store_path(t, own),
            ) ==> all == seq![(local_root(store_path(t, own)), store_path(t, own))]
            &&& own.len() == 0 && extension(own) != Some("db"@) && ctx.scan_roots.len() == 0 && variable_path(
                s,
                "CASS_DEVIN_DATA_ROOT"@,
            ) == Some(set) ==> all == seq![(local_root(store_path(t, set)), store_path(t, set))]
            &&& own.len() == 0 && extension(own) != Some("db"@) && ctx.scan_roots.len() == 0 && variable_path(
                s,
                "CASS_DEVIN_DATA_ROOT"@,
            ) is None ==> (usual_store(s.home) matches Some(db) ==> all == seq![(local_root(db), db)])
        }),
{
}

/// Of the places where a store may stand, those where one stands are kept, each store once
/// and in their order.
pub proof fn stores_are_kept_once(t: Seq<EntryView>, all: Seq<(RootView, Seq<Seq<char>>)>, next: (RootView, Seq<Seq<char>>))
    ensures
        ({
            let before = kept_candidates(t, all);
            let after = kept_candidates(t, all.push(next));
            let wanted = path_is_file(t, next.1) && !was_seen(before.0, next.1);
            &&& wanted ==> after.1 == before.1.push(next)
            &&& !wanted ==> after.1 == before.1
        }),
        kept_candidates(t, Seq::empty()).1.len() == 0,
{
    assert(all.push(next).drop_last() =~= all);
}

/// The usual store of the user stands with the data of the command line below their home.
pub proof fn usual_stores_stand_below_the_home(home: Seq<Seq<char>>)
    requires
        home.len() > 0,
    ensures
        usual_store(Some(home)) == Some(
            home.push(".local"@).push("share"@).push("devin"@).push("cli"@).push("sessions.db"@),
        ),
        usual_store(None) is None,
{
    reveal_strlit(".local");
    reveal_strlit("share");
    reveal_strlit("devin");
    reveal_strlit("cli");
    reveal_strlit("sessions.db");
    reveal_strlit(".");
    assert("."@.len() == 1);
    crate::path::names_go_below(home, ".local"@);
    crate::path::names_go_below(home.push(".local"@), "share"@);
    crate::path::names_go_below(home.push(".local"@).push("share"@), "devin"@);
    crate::path::names_go_below(home.push(".local"@).push("share"@).push("devin"@), "cli"@);
    crate::path::names_go_below(home.push(".local"@).push("share"@).push("devin"@).push("cli"@), "sessions.db"@);
}

} // verus!
