//! Chats of Codebuff and Freebuff, which share one store.
use vstd::prelude::*;
use crate::canon::{
    calls_join, canonical_calls, canonical_conversation, canonical_conversations, canonical_message,
    canonical_messages, comes_before, conversations_grow, messages_grow, one_member_is_canonical,
    rising_members_are_canonical, with_field_canonical, without_member_canonical,
};
use crate::files::{
    canonical_path, path_exists, path_is_dir, path_is_file, path_is_fresh, text_at, walked_files, EntryView,
    FileTable,
};
use crate::json::{array_view, canonical, document_in, object_view, parse_json, rendered_json, Json, JsonView};
use crate::model::{
    at_place, find_role, first_instant, first_of_role, instants, is_first_instant, is_last_instant, is_numbered,
    last_instant, make_message, place, place_of, simple_message, Conversation, ConversationView, Invocation,
    InvocationView, Message, MessageView,
};
use crate::order::{in_order, sort, sorted_is_ordered_permutation, sorted_members, Ranked};
use crate::path::{below, file_name, parent, path_text, with_file_name, SourcePath};
use crate::query::{
    assign, copied, get_in, member, member_canonical, member_decreases, member_is_the_first_of_its_key, member_of,
    member_text, object, owned, put, set_field, str_in, text_in, text_json, unset, with_field, with_member,
    with_member_canonical, with_member_reads_back, without_member, without_member_reads_back,
};
use crate::scan::{
    copy_roots, default_detection, detected_or_nothing, detection_or_nothing, expand_leading_tilde, expanded_path,
    local_root, push_path, push_root, push_source, set_variable, sorted_sources, source, ContextView,
    DetectionResult, DiscoveredSource, RootView, ScanContext, ScanRoot, SourceRole, SourceView, Surroundings,
    SurroundingsView,
};
use crate::stamp::{earliest, latest, parse_timestamp, rfc3339_millis, spans, timestamp};
use crate::text::{blank, cat, cat3, head, is_blank, join, join_texts, push_text, same_text, take_chars};

verus! {

pub struct CodebuffConnector;

impl Default for CodebuffConnector {
    fn default() -> (r: CodebuffConnector)
        ensures
            r == CodebuffConnector,
    {
        CodebuffConnector::new()
    }
}

/// Why a transcript could not be read.
#[derive(Clone, Copy, Debug, PartialEq, Eq, Structural)]
pub enum TranscriptError {
    /// The path is not that of a transcript.
    NotATranscript,
    /// There is no text under the path.
    Unreadable,
    /// The text is no document.
    InvalidJson,
    /// The document is no list of messages.
    NotAnArray,
    /// A text that must be there is missing.
    MissingText,
    /// A message has no name, or that of another.
    BadId,
    /// A message is of an unknown kind.
    UnknownVariant,
    /// A message gives no time.
    BadTimestamp,
    /// The blocks of a message are no list.
    BlocksNotArray,
    /// A call has no input.
    NoInput,
    /// The output of a call is no text.
    OutputNotText,
    /// A block is of an unknown kind.
    UnknownBlock,
}

/// What blocks say, and the calls that they make.
#[verifier::ext_equal]
pub struct BlocksView {
    pub pieces: Seq<Seq<char>>,
    pub calls: Seq<InvocationView>,
}

/// One piece, and no call.
pub open spec fn piece(t: Option<Seq<char>>) -> Result<BlocksView, TranscriptError> {
    match t {
        Some(t) => Ok(BlocksView { pieces: seq![t], calls: Seq::empty() }),
        None => Err(TranscriptError::MissingText),
    }
}

/// The output of a call, as a list.
pub open spec fn output_pieces(b: JsonView) -> Result<Seq<Seq<char>>, TranscriptError> {
    match member(b, "output"@) {
        Some(JsonView::Text(t)) => Ok(seq![t]),
        Some(_) => Err(TranscriptError::OutputNotText),
        None => match member(b, "outputRaw"@) {
            Some(raw) => Ok(seq![rendered_json(raw)]),
            None => Ok(Seq::empty()),
        },
    }
}

/// A call of a tool, with its input and its output.
pub open spec fn tool_block(b: JsonView) -> Result<BlocksView, TranscriptError> {
    match (member_text(b, "toolName"@), member_text(b, "toolCallId"@)) {
        (Some(name), Some(id)) => match member(b, "input"@) {
            None => Err(TranscriptError::NoInput),
            Some(input) => match output_pieces(b) {
                Err(e) => Err(e),
                Ok(output) => Ok(
                    BlocksView {
                        pieces: seq![name + ": "@ + rendered_json(input)] + output,
                        calls: seq![
                            InvocationView {
                                kind: "tool"@,
                                name,
                                raw_name: None,
                                call_id: Some(id),
                                arguments: Some(input),
                            },
                        ],
                    },
                ),
            },
        },
        _ => Err(TranscriptError::MissingText),
    }
}

/// Blocks that are kept as they are.
pub open spec fn is_kept_whole(kind: Seq<char>) -> bool {
    kind == "agent-list"@ || kind == "mode-divider"@ || kind == "ask-user"@ || kind == "sponsored-proposal"@
}

/// What a block says, and the calls that it makes.
pub open spec fn block_result(b: JsonView) -> Result<BlocksView, TranscriptError>
    decreases b, 1int, 0int,
{
    match member_text(b, "type"@) {
        None => Err(TranscriptError::MissingText),
        Some(kind) => if kind == "text"@ || kind == "plan"@ {
            piece(member_text(b, "content"@))
        } else if kind == "tool"@ {
            tool_block(b)
        } else if kind == "agent"@ {
            match member_text(b, "content"@) {
                None => Err(TranscriptError::MissingText),
                Some(content) => match member(b, "blocks"@) {
                    None => piece(Some(content)),
                    Some(list) => if list is Array {
                        proof {
                            member_decreases(b, "blocks"@);
                        }
                        match blocks_result(list, list->Array_0.len()) {
                            Err(e) => Err(e),
                            Ok(inner) => Ok(
                                BlocksView { pieces: seq![content, join(inner.pieces, "\n"@)], calls: inner.calls },
                            ),
                        }
                    } else {
                        Err(TranscriptError::BlocksNotArray)
                    },
                },
            }
        } else if kind == "image"@ {
            match member_text(b, "mediaType"@) {
                None => Err(TranscriptError::MissingText),
                Some(media) => piece(Some("[image: "@ + media + "]"@)),
            }
        } else if is_kept_whole(kind) {
            piece(Some(rendered_json(b)))
        } else {
            Err(TranscriptError::UnknownBlock)
        },
    }
}

/// What the first `n` blocks of a list say: the first that cannot be read makes all
/// fail.
pub open spec fn blocks_result(list: JsonView, n: nat) -> Result<BlocksView, TranscriptError>
    decreases list, 0int, n,
{
    match list {
        JsonView::Array(items) => if n == 0 || n > items.len() {
            Ok(BlocksView { pieces: Seq::empty(), calls: Seq::empty() })
        } else {
            match blocks_result(list, (n - 1) as nat) {
                Err(e) => Err(e),
                Ok(front) => match block_result(items[n - 1]) {
                    Err(e) => Err(e),
                    Ok(b) => Ok(BlocksView { pieces: front.pieces + b.pieces, calls: front.calls + b.calls }),
                },
            }
        },
        _ => Ok(BlocksView { pieces: Seq::empty(), calls: Seq::empty() }),
    }
}

proof fn blocks_error_stays(list: JsonView, n: nat, m: nat)
    requires
        list is Array,
        n <= m <= list->Array_0.len(),
        blocks_result(list, n) is Err,
    ensures
        blocks_result(list, m) == blocks_result(list, n),
    decreases m - n,
{
    if n < m {
        blocks_error_stays(list, n, (m - 1) as nat);
    }
}

fn push_output(b: &Json, pieces: &mut Vec<String>) -> (r: Result<(), TranscriptError>)
    requires
        canonical(b@),
    ensures
        match r {
            Ok(_) => output_pieces(b@) is Ok && final(pieces).deep_view() == old(pieces).deep_view()
                + output_pieces(b@)->Ok_0,
            Err(e) => output_pieces(b@) == Err::<Seq<Seq<char>>, TranscriptError>(e),
        },
{
    let ghost before = pieces.deep_view();
    match b.get("output") {
        Some(Json::Text(t)) => {
            pieces.push(t.clone());
            assert(pieces.deep_view() =~= before + seq![t@]);
        },
        Some(_) => {
            return Err(TranscriptError::OutputNotText);
        },
        None => {
            proof {
                member_canonical(b@, "outputRaw"@);
            }
            match b.get("outputRaw") {
                Some(raw) => {
                    let text = raw.render();
                    let ghost said = text@;
                    pieces.push(text);
                    assert(pieces.deep_view() =~= before + seq![said]);
                },
                None => {
                    assert(pieces.deep_view() =~= before + Seq::<Seq<char>>::empty());
                },
            }
        },
    }
    Ok(())
}

fn push_tool(b: &Json, pieces: &mut Vec<String>, calls: &mut Vec<Invocation>) -> (r: Result<(), TranscriptError>)
    requires
        canonical(b@),
    ensures
        match r {
            Ok(_) => tool_block(b@) matches Ok(v) && final(pieces).deep_view() == old(pieces).deep_view() + v.pieces
                && final(calls).deep_view() == old(calls).deep_view() + v.calls,
            Err(e) => tool_block(b@) == Err::<BlocksView, TranscriptError>(e),
        },
{
    let name = match b.get_str("toolName") {
        Some(name) => name,
        None => return Err(TranscriptError::MissingText),
    };
    let id = match b.get_str("toolCallId") {
        Some(id) => id,
        None => return Err(TranscriptError::MissingText),
    };
    proof {
        member_canonical(b@, "input"@);
    }
    let input = match b.get("input") {
        Some(input) => input,
        None => return Err(TranscriptError::NoInput),
    };
    let ghost (x, y) = (pieces.deep_view(), calls.deep_view());
    let call = Invocation {
        kind: "tool".to_owned(),
        name: name.to_owned(),
        raw_name: None,
        call_id: Some(id.to_owned()),
        arguments: Some(input.copy()),
    };
    let ghost made = call.deep_view();
    calls.push(call);
    assert(calls.deep_view() =~= y + seq![made]);
    let mut text = cat(name, ": ");
    push_text(&mut text, input.render().as_str());
    let ghost said = text@;
    pieces.push(text);
    assert(pieces.deep_view() =~= x.push(said));
    match push_output(b, pieces) {
        Ok(_) => {
            assert(pieces.deep_view() =~= x + tool_block(b@)->Ok_0.pieces);
            Ok(())
        },
        Err(e) => Err(e),
    }
}

fn push_piece(pieces: &mut Vec<String>, t: Option<String>) -> (r: Result<(), TranscriptError>)
    ensures
        match r {
            Ok(_) => piece(t.deep_view()) matches Ok(v) && final(pieces).deep_view() == old(pieces).deep_view()
                + v.pieces && v.calls.len() == 0,
            Err(e) => piece(t.deep_view()) == Err::<BlocksView, TranscriptError>(e),
        },
{
    let ghost before = pieces.deep_view();
    match t {
        Some(t) => {
            let ghost said = t@;
            pieces.push(t);
            assert(pieces.deep_view() =~= before + seq![said]);
            Ok(())
        },
        None => Err(TranscriptError::MissingText),
    }
}

/// Reads a block.
pub fn render_block(b: &Json, pieces: &mut Vec<String>, calls: &mut Vec<Invocation>) -> (r: Result<
    (),
    TranscriptError,
>)
    requires
        canonical(b@),
    ensures
        match r {
            Ok(_) => block_result(b@) matches Ok(v) && final(pieces).deep_view() == old(pieces).deep_view() + v.pieces
                && final(calls).deep_view() == old(calls).deep_view() + v.calls,
            Err(e) => block_result(b@) == Err::<BlocksView, TranscriptError>(e),
        },
    decreases b@, 1int,
{
    let kind = match b.get_str("type") {
        Some(kind) => kind,
        None => return Err(TranscriptError::MissingText),
    };
    if same_text(kind, "text") || same_text(kind, "plan") {
        push_piece(pieces, owned(b.get_str("content")))
    } else if same_text(kind, "tool") {
        push_tool(b, pieces, calls)
    } else if same_text(kind, "agent") {
        let content = match b.get_str("content") {
            Some(content) => content.to_owned(),
            None => return Err(TranscriptError::MissingText),
        };
        proof {
            member_canonical(b@, "blocks"@);
            member_decreases(b@, "blocks"@);
        }
        match b.get("blocks") {
            None => push_piece(pieces, Some(content)),
            Some(list) => {
                match list {
                    Json::Array(_) => {},
                    _ => return Err(TranscriptError::BlocksNotArray),
                }
                let ghost x = pieces.deep_view();
                let ghost said = content@;
                match render_blocks(list, calls) {
                    Ok(inner) => {
                        let ghost below = inner@;
                        pieces.push(content);
                        pieces.push(inner);
                        assert(pieces.deep_view() =~= x + seq![said, below]);
                        Ok(())
                    },
                    Err(e) => Err(e),
                }
            },
        }
    } else if same_text(kind, "image") {
        match b.get_str("mediaType") {
            Some(media) => push_piece(pieces, Some(cat3("[image: ", media, "]"))),
            None => Err(TranscriptError::MissingText),
        }
    } else if same_text(kind, "agent-list") || same_text(kind, "mode-divider") || same_text(kind, "ask-user")
        || same_text(kind, "sponsored-proposal") {
        push_piece(pieces, Some(b.render()))
    } else {
        Err(TranscriptError::UnknownBlock)
    }
}

/// Reads a list of blocks, line by line.
pub fn render_blocks(list: &Json, calls: &mut Vec<Invocation>) -> (r: Result<String, TranscriptError>)
    requires
        canonical(list@),
        list@ is Array,
    ensures
        match r {
            Ok(text) => blocks_result(list@, list@->Array_0.len()) matches Ok(v) && text@ == join(v.pieces, "\n"@)
                && final(calls).deep_view() == old(calls).deep_view() + v.calls,
            Err(e) => blocks_result(list@, list@->Array_0.len()) == Err::<BlocksView, TranscriptError>(e),
        },
    decreases list@, 0int,
{
    broadcast use array_view;

    let ghost whole = list@;
    let ghost start = calls.deep_view();
    let mut pieces: Vec<String> = Vec::new();
    assert(pieces.deep_view() =~= Seq::empty());
    if let Json::Array(items) = list {
        let ghost all = items.deep_view();
        assert(whole == JsonView::Array(all));
        let ghost mut added: Seq<InvocationView> = Seq::empty();
        let mut i: usize = 0;
        assert(start + added =~= start);
        while i < items.len()
            invariant
                i <= items@.len(),
                all == items.deep_view(),
                whole == list@,
                whole == JsonView::Array(all),
                canonical(whole),
                start == old(calls).deep_view(),
                calls.deep_view() == start + added,
                blocks_result(whole, i as nat) == Ok::<BlocksView, TranscriptError>(
                    BlocksView { pieces: pieces.deep_view(), calls: added },
                ),
            decreases items.len() - i,
        {
            assert(whole->Array_0[i as int] == items@[i as int]@);
            assert(canonical(whole->Array_0[i as int]));
            let ghost before = pieces.deep_view();
            match render_block(&items[i], &mut pieces, calls) {
                Ok(_) => {
                    proof {
                        let own = block_result(items@[i as int]@)->Ok_0;
                        assert(calls.deep_view() =~= start + (added + own.calls));
                        added = added + own.calls;
                        assert(pieces.deep_view() =~= before + own.pieces);
                    }
                },
                Err(e) => {
                    proof {
                        blocks_error_stays(whole, (i + 1) as nat, all.len());
                    }
                    return Err(e);
                },
            }
            i = i + 1;
        }
    }
    Ok(join_texts(&pieces, "\n"))
}

/// Who speaks, by the kind of a message.
pub open spec fn variant_role(variant: Seq<char>) -> Option<Seq<char>> {
    if variant == "user"@ {
        Some("user"@)
    } else if variant == "ai"@ || variant == "agent"@ {
        Some("assistant"@)
    } else if variant == "error"@ {
        Some("system"@)
    } else {
        None
    }
}

/// The blocks of a message, where it has any.
pub open spec fn record_blocks(record: JsonView) -> Result<BlocksView, TranscriptError> {
    match member(record, "blocks"@) {
        None => Ok(BlocksView { pieces: Seq::empty(), calls: Seq::empty() }),
        Some(list) => if list is Array {
            blocks_result(list, list->Array_0.len())
        } else {
            Err(TranscriptError::BlocksNotArray)
        },
    }
}

/// The content of a message: its own, with that of its blocks where that says more.
pub open spec fn record_content(base: Seq<char>, blocks: Seq<char>) -> Seq<char> {
    if blocks.len() == 0 || blocks == base {
        base
    } else if base.len() == 0 {
        blocks
    } else {
        base + "\n"@ + blocks
    }
}

/// What is kept of a message: all but the state of the run, and its name.
pub open spec fn record_extra(record: JsonView, id: Seq<char>) -> JsonView {
    let kept = match member(record, "metadata"@) {
        Some(JsonView::Object(members)) => with_field(
            record,
            "metadata"@,
            JsonView::Object(without_member(members, "runState"@)),
        ),
        _ => record,
    };
    with_field(kept, "codebuff_message_id"@, JsonView::Text(id))
}

/// The message of a record at its place. The names of those before it are taken.
pub open spec fn record_message(record: JsonView, n: int, taken: Seq<Seq<char>>) -> Result<
    (Seq<char>, MessageView),
    TranscriptError,
> {
    match member_text(record, "id"@) {
        None => Err(TranscriptError::MissingText),
        Some(id) => if blank(id) || taken.contains(id) {
            Err(TranscriptError::BadId)
        } else {
            match member_text(record, "variant"@) {
                None => Err(TranscriptError::MissingText),
                Some(variant) => match variant_role(variant) {
                    None => Err(TranscriptError::UnknownVariant),
                    Some(role) => match (member_text(record, "content"@), member_text(record, "timestamp"@)) {
                        (Some(base), Some(time)) => match timestamp(JsonView::Text(time)) {
                            None => Err(TranscriptError::BadTimestamp),
                            Some(created) => match record_blocks(record) {
                                Err(e) => Err(e),
                                Ok(blocks) => Ok(
                                    (
                                        id,
                                        MessageView {
                                            author: text_in(member_of(member(record, "agent"@), "agentName"@)),
                                            invocations: blocks.calls,
                                            ..at_place(
                                                simple_message(
                                                    role,
                                                    Some(created),
                                                    record_content(base, join(blocks.pieces, "\n"@)),
                                                    record_extra(record, id),
                                                ),
                                                n,
                                            )
                                        },
                                    ),
                                ),
                            },
                        },
                        _ => Err(TranscriptError::MissingText),
                    },
                },
            }
        },
    }
}

/// The messages of records, and their names.
#[verifier::ext_equal]
pub struct RecordsView {
    pub ids: Seq<Seq<char>>,
    pub messages: Seq<MessageView>,
}

/// The messages of records: the first that cannot be read makes all fail.
pub open spec fn records_result(records: Seq<JsonView>) -> Result<RecordsView, TranscriptError>
    decreases records.len(),
{
    if records.len() == 0 {
        Ok(RecordsView { ids: Seq::empty(), messages: Seq::empty() })
    } else {
        match records_result(records.drop_last()) {
            Err(e) => Err(e),
            Ok(front) => match record_message(records.last(), records.len() - 1, front.ids) {
                Err(e) => Err(e),
                Ok(one) => Ok(RecordsView { ids: front.ids.push(one.0), messages: front.messages.push(one.1) }),
            },
        }
    }
}

proof fn records_error_stays(records: Seq<JsonView>, n: int)
    requires
        0 <= n <= records.len(),
        records_result(records.take(n)) is Err,
    ensures
        records_result(records) == records_result(records.take(n)),
    decreases records.len() - n,
{
    if n < records.len() {
        assert(records.take(n + 1).drop_last() =~= records.take(n));
        records_error_stays(records, n + 1);
    } else {
        assert(records.take(n) =~= records);
    }
}

fn make_extra(record: &Json, id: &str) -> (r: Json)
    ensures
        r@ == record_extra(record@, id@),
{
    broadcast use object_view;

    let kept = match copied(record.get("metadata")) {
        Some(Json::Object(members)) => {
            let mut members = members;
            unset(&mut members, "runState");
            set_field(record.copy(), "metadata", Json::Object(members))
        },
        _ => record.copy(),
    };
    set_field(kept, "codebuff_message_id", text_json(id))
}

fn contains_id(ids: &Vec<String>, id: &str) -> (r: bool)
    ensures
        r == ids.deep_view().contains(id@),
{
    let mut i: usize = 0;
    while i < ids.len()
        invariant
            i <= ids@.len(),
            forall|k: int| 0 <= k < i ==> ids.deep_view()[k] != id@,
        decreases ids.len() - i,
    {
        assert(ids.deep_view()[i as int] == ids@[i as int]@);
        if same_text(ids[i].as_str(), id) {
            return true;
        }
        i = i + 1;
    }
    false
}

/// The name and the message of a record, `n` being its place and `ids` the names before
/// it.
pub fn read_record(record: &Json, n: usize, ids: &Vec<String>) -> (r: Result<(String, Message), TranscriptError>)
    requires
        canonical(record@),
    ensures
        match r {
            Ok(one) => record_message(record@, n as int, ids.deep_view()) == Ok::<
                (Seq<char>, MessageView),
                TranscriptError,
            >((one.0@, one.1.deep_view())),
            Err(e) => record_message(record@, n as int, ids.deep_view()) == Err::<
                (Seq<char>, MessageView),
                TranscriptError,
            >(e),
        },
{
    let id = match record.get_str("id") {
        Some(id) => id,
        None => return Err(TranscriptError::MissingText),
    };
    if is_blank(id) || contains_id(ids, id) {
        return Err(TranscriptError::BadId);
    }
    let variant = match record.get_str("variant") {
        Some(variant) => variant,
        None => return Err(TranscriptError::MissingText),
    };
    let role = if same_text(variant, "user") {
        "user"
    } else if same_text(variant, "ai") || same_text(variant, "agent") {
        "assistant"
    } else if same_text(variant, "error") {
        "system"
    } else {
        return Err(TranscriptError::UnknownVariant);
    };
    let base = match record.get_str("content") {
        Some(base) => base,
        None => return Err(TranscriptError::MissingText),
    };
    let time = match record.get_str("timestamp") {
        Some(time) => time,
        None => return Err(TranscriptError::MissingText),
    };
    let created = match parse_timestamp(&text_json(time)) {
        Some(created) => created,
        None => return Err(TranscriptError::BadTimestamp),
    };
    let mut calls: Vec<Invocation> = Vec::new();
    assert(calls.deep_view() =~= Seq::empty());
    proof {
        member_canonical(record@, "blocks"@);
    }
    let block_text = match record.get("blocks") {
        None => {
            let none = String::new();
            assert(none@ =~= join(Seq::<Seq<char>>::empty(), "\n"@));
            none
        },
        Some(list) => {
            match list {
                Json::Array(_) => {},
                _ => return Err(TranscriptError::BlocksNotArray),
            }
            match render_blocks(list, &mut calls) {
                Ok(text) => text,
                Err(e) => return Err(e),
            }
        },
    };
    proof {
        let made = record_blocks(record@)->Ok_0.calls;
        assert(calls.deep_view() =~= made);
    }
    let content = if block_text.as_str().is_empty() || same_text(block_text.as_str(), base) {
        base.to_owned()
    } else if base.is_empty() {
        block_text
    } else {
        cat3(base, "\n", block_text.as_str())
    };
    let mut m = make_message(role, Some(created), content, make_extra(record, id));
    m.idx = place_of(n);
    m.author = owned(str_in(get_in(record.get("agent"), "agentName")));
    m.invocations = calls;
    Ok((id.to_owned(), m))
}

/// The messages of records.
pub fn read_records(records: &Vec<Json>) -> (r: Result<Vec<Message>, TranscriptError>)
    requires
        forall|i: int| 0 <= i < records@.len() ==> canonical((#[trigger] records@[i])@),
    ensures
        match r {
            Ok(messages) => records_result(records.deep_view()) matches Ok(v) && messages.deep_view() == v.messages,
            Err(e) => records_result(records.deep_view()) == Err::<RecordsView, TranscriptError>(e),
        },
{
    let ghost all = records.deep_view();
    let mut ids: Vec<String> = Vec::new();
    let mut messages: Vec<Message> = Vec::new();
    let mut i: usize = 0;
    assert(all.take(0) =~= Seq::empty());
    assert(ids.deep_view() =~= Seq::empty());
    assert(messages.deep_view() =~= Seq::empty());
    while i < records.len()
        invariant
            i <= records@.len(),
            all == records.deep_view(),
            forall|k: int| 0 <= k < records@.len() ==> canonical((#[trigger] records@[k])@),
            records_result(all.take(i as int)) == Ok::<RecordsView, TranscriptError>(
                RecordsView { ids: ids.deep_view(), messages: messages.deep_view() },
            ),
        decreases records.len() - i,
    {
        let ghost (x, y) = (ids.deep_view(), messages.deep_view());
        assert(all.take(i + 1).drop_last() =~= all.take(i as int));
        assert(all.take(i + 1).last() == records@[i as int]@);
        match read_record(&records[i], i, &ids) {
            Ok((id, m)) => {
                let ghost (a, b) = (id@, m.deep_view());
                ids.push(id);
                messages.push(m);
                assert(ids.deep_view() =~= x.push(a));
                assert(messages.deep_view() =~= y.push(b));
            },
            Err(e) => {
                proof {
                    records_error_stays(all, i + 1);
                }
                return Err(e);
            },
        }
        i = i + 1;
    }
    assert(all.take(all.len() as int) =~= all);
    Ok(messages)
}

/// The name of a chat: its store, its project and its own name, links resolved.
/// Only the path of a transcript has one.
pub open spec fn key_of(p: Seq<Seq<char>>) -> Option<JsonView> {
    if file_name(p) != Some("chat-messages.json"@) {
        None
    } else {
        match parent(p) {
            None => None,
            Some(chat) => match parent(chat) {
                None => None,
                Some(chats) => match parent(chats) {
                    None => None,
                    Some(project) => match parent(project) {
                        None => None,
                        Some(projects) => if file_name(chats) != Some("chats"@) || file_name(projects) != Some(
                            "projects"@,
                        ) {
                            None
                        } else {
                            match (file_name(chat), parent(projects), file_name(project)) {
                                (Some(id), Some(store), Some(name)) => Some(
                                    JsonView::Array(
                                        seq![
                                            JsonView::Text(path_text(store)),
                                            JsonView::Text(name),
                                            JsonView::Text(id),
                                        ],
                                    ),
                                ),
                                _ => None,
                            }
                        },
                    },
                },
            },
        }
    }
}

/// The name of the chat of a transcript, as text.
pub open spec fn chat_key(t: Seq<EntryView>, p: Seq<Seq<char>>) -> Option<Seq<char>> {
    match key_of(canonical_path(t, p)) {
        Some(key) => Some(rendered_json(key)),
        None => None,
    }
}

/// The name of the chat of a transcript, as text.
pub fn session_key(files: &FileTable, path: &SourcePath) -> (r: Option<String>)
    ensures
        r.deep_view() == chat_key(files.deep_view(), path.deep_view()),
{
    broadcast use array_view;

    let path = files.canonical(path);
    if !path.is_named("chat-messages.json") {
        return None;
    }
    let chat = match path.parent() {
        Some(p) => p,
        None => return None,
    };
    let chats = match chat.parent() {
        Some(p) => p,
        None => return None,
    };
    let project = match chats.parent() {
        Some(p) => p,
        None => return None,
    };
    let projects = match project.parent() {
        Some(p) => p,
        None => return None,
    };
    if !chats.is_named("chats") || !projects.is_named("projects") {
        return None;
    }
    let id = match chat.file_name() {
        Some(id) => id,
        None => return None,
    };
    let store = match projects.parent() {
        Some(p) => p,
        None => return None,
    };
    let name = match project.file_name() {
        Some(name) => name,
        None => return None,
    };
    let mut parts: Vec<Json> = Vec::new();
    parts.push(text_json(store.text().as_str()));
    parts.push(text_json(name));
    parts.push(text_json(id));
    assert(parts.deep_view() =~= seq![
        JsonView::Text(path_text(store.deep_view())),
        JsonView::Text(name@),
        JsonView::Text(id@),
    ]);
    let key = Json::Array(parts);
    assert(canonical(key@)) by {
        let items = key@->Array_0;
        assert forall|i: int| 0 <= i < items.len() implies canonical(#[trigger] items[i]) by {
            assert(items[i] is Text);
        }
    }
    Some(key.render())
}

/// The estimate of the tokens of a chat.
pub open spec fn token_estimate(tokens: u64) -> JsonView {
    JsonView::Object(
        seq![
            ("is_provider_usage"@, JsonView::Bool(false)),
            ("method"@, JsonView::Text("upstream_local_gpt4o_bpe"@)),
            ("source"@, JsonView::Text("run-state.sessionState.mainAgentState.contextTokenCount"@)),
            ("tokens"@, JsonView::Unsigned(tokens)),
        ],
    )
}

/// What is known of every chat of an origin.
pub open spec fn base_metadata(origin: JsonView) -> Seq<(Seq<char>, JsonView)> {
    seq![
        ("display_name"@, JsonView::Text("Codebuff / Freebuff"@)),
        ("origin"@, origin),
        ("shared_lineage"@, JsonView::Bool(true)),
        ("storage_format"@, JsonView::Text("manicode-chat-messages-array"@)),
    ]
}

/// The state of the run of a chat: `None` where it cannot be read.
pub open spec fn run_state(t: Seq<EntryView>, state: Seq<Seq<char>>) -> Option<JsonView> {
    match text_at(t, state) {
        Some(text) => document_in(text),
        None => None,
    }
}

/// The workspace and what else is known of a chat, by the document of its run.
pub open spec fn state_metadata(v: JsonView, origin: JsonView) -> (Option<Seq<char>>, JsonView) {
    let session = member(v, "sessionState"@);
    let root = text_in(member_of(member_of(session, "fileContext"@), "projectRoot"@));
    let tokens = member_of(member_of(session, "mainAgentState"@), "contextTokenCount"@);
    (
        match root {
            Some(root) => if blank(root) {
                None
            } else {
                Some(root)
            },
            None => None,
        },
        JsonView::Object(
            match tokens {
                Some(JsonView::Unsigned(n)) => with_member(
                    base_metadata(origin),
                    "context_token_estimate"@,
                    token_estimate(n),
                ),
                _ => base_metadata(origin),
            },
        ),
    )
}

/// The workspace and what else is known of a chat, by the state of its run.
pub open spec fn chat_metadata(t: Seq<EntryView>, path: Seq<Seq<char>>, origin: JsonView) -> (
    Option<Seq<char>>,
    JsonView,
) {
    let state = with_file_name(path, "run-state.json"@);
    if !path_is_file(t, state) {
        (None, JsonView::Object(base_metadata(origin)))
    } else {
        match run_state(t, state) {
            None => (
                None,
                JsonView::Object(
                    with_member(
                        base_metadata(origin),
                        "run_state_status"@,
                        JsonView::Text("unreadable_or_oversized"@),
                    ),
                ),
            ),
            Some(v) => state_metadata(v, origin),
        }
    }
}

fn known_members(origin: &Json) -> (r: Vec<(String, Json)>)
    ensures
        r.deep_view() == base_metadata(origin@),
{
    let mut members: Vec<(String, Json)> = Vec::new();
    put(&mut members, "display_name", text_json("Codebuff / Freebuff"));
    put(&mut members, "origin", origin.copy());
    put(&mut members, "shared_lineage", Json::Bool(true));
    put(&mut members, "storage_format", text_json("manicode-chat-messages-array"));
    assert(members.deep_view() =~= base_metadata(origin@));
    members
}

/// The workspace and what else is known of a chat, by the document of its run.
pub fn metadata_from_state(v: &Json, origin: &Json) -> (r: (Option<String>, Json))
    ensures
        (r.0.deep_view(), r.1@) == state_metadata(v@, origin@),
{
    let mut members = known_members(origin);
    let session = v.get("sessionState");
    let workspace = match str_in(get_in(get_in(session, "fileContext"), "projectRoot")) {
        Some(root) => if is_blank(root) {
            None
        } else {
            Some(root.to_owned())
        },
        None => None,
    };
    if let Some(Json::Unsigned(n)) = get_in(get_in(session, "mainAgentState"), "contextTokenCount") {
        let mut estimate: Vec<(String, Json)> = Vec::new();
        put(&mut estimate, "is_provider_usage", Json::Bool(false));
        put(&mut estimate, "method", text_json("upstream_local_gpt4o_bpe"));
        put(
            &mut estimate,
            "source",
            text_json("run-state.sessionState.mainAgentState.contextTokenCount"),
        );
        put(&mut estimate, "tokens", Json::Unsigned(*n));
        assert(estimate.deep_view() =~= token_estimate(*n)->Object_0);
        assign(&mut members, "context_token_estimate", object(estimate));
    }
    (workspace, object(members))
}

/// The workspace and what else is known of a chat.
pub fn session_metadata(files: &FileTable, found: &DiscoveredSource) -> (r: (Option<String>, Json))
    ensures
        (r.0.deep_view(), r.1@) == chat_metadata(
            files.deep_view(),
            found.source_path.deep_view(),
            found.origin.detail@,
        ),
{
    let state_path = found.source_path.with_file_name("run-state.json");
    if !files.is_file(&state_path) {
        return (None, object(known_members(&found.origin.detail)));
    }
    let state = match files.read_text(&state_path) {
        Some(text) => parse_json(text.as_str()),
        None => None,
    };
    match state {
        None => {
            let mut members = known_members(&found.origin.detail);
            assign(&mut members, "run_state_status", text_json("unreadable_or_oversized"));
            (None, object(members))
        },
        Some(v) => metadata_from_state(&v, &found.origin.detail),
    }
}

/// The beginning of what the user said first.
pub open spec fn chat_title(messages: Seq<MessageView>) -> Option<Seq<char>> {
    match first_of_role(messages, "user"@) {
        Some(m) => Some(head(m.content, 120)),
        None => None,
    }
}

/// What a transcript reads as: none where it holds no message.
pub open spec fn transcript(t: Seq<EntryView>, path: Seq<Seq<char>>, origin: JsonView) -> Result<
    Option<ConversationView>,
    TranscriptError,
> {
    match chat_key(t, path) {
        None => Err(TranscriptError::NotATranscript),
        Some(key) => match text_at(t, path) {
            None => Err(TranscriptError::Unreadable),
            Some(text) => match document_in(text) {
                None => Err(TranscriptError::InvalidJson),
                Some(JsonView::Array(records)) => match records_result(records) {
                    Err(e) => Err(e),
                    Ok(read) => if read.messages.len() == 0 {
                        Ok(None)
                    } else {
                        let known = chat_metadata(t, path, origin);
                        Ok(
                            Some(
                                ConversationView {
                                    agent_slug: "codebuff"@,
                                    external_id: Some(key),
                                    title: chat_title(read.messages),
                                    workspace: known.0,
                                    source_path: path,
                                    started_at: earliest(instants(read.messages)),
                                    ended_at: latest(instants(read.messages)),
                                    metadata: known.1,
                                    messages: read.messages,
                                },
                            ),
                        )
                    },
                },
                Some(_) => Err(TranscriptError::NotAnArray),
            },
        },
    }
}

/// Reads the conversation of a transcript.
pub fn parse_session(files: &FileTable, found: &DiscoveredSource) -> (r: Result<
    Option<Conversation>,
    TranscriptError,
>)
    ensures
        match r {
            Ok(c) => transcript(files.deep_view(), found.source_path.deep_view(), found.origin.detail@) == Ok::<
                Option<ConversationView>,
                TranscriptError,
            >(c.deep_view()),
            Err(e) => transcript(files.deep_view(), found.source_path.deep_view(), found.origin.detail@) == Err::<
                Option<ConversationView>,
                TranscriptError,
            >(e),
        },
{
    broadcast use array_view;

    let external_id = match session_key(files, &found.source_path) {
        Some(key) => key,
        None => return Err(TranscriptError::NotATranscript),
    };
    let text = match files.read_text(&found.source_path) {
        Some(text) => text,
        None => return Err(TranscriptError::Unreadable),
    };
    let v = match parse_json(text.as_str()) {
        Some(v) => v,
        None => return Err(TranscriptError::InvalidJson),
    };
    let ghost whole = v@;
    let records = match v {
        Json::Array(records) => records,
        _ => return Err(TranscriptError::NotAnArray),
    };
    assert(whole == JsonView::Array(records.deep_view()));
    assert forall|i: int| 0 <= i < records@.len() implies canonical((#[trigger] records@[i])@) by {
        assert(whole->Array_0[i] == records@[i]@);
        assert(canonical(whole->Array_0[i]));
    }
    let messages = match read_records(&records) {
        Ok(messages) => messages,
        Err(e) => return Err(e),
    };
    if messages.len() == 0 {
        return Ok(None);
    }
    let (workspace, metadata) = session_metadata(files, found);
    let title = match find_role(&messages, "user") {
        Some(m) => Some(take_chars(m.content.as_str(), 120)),
        None => None,
    };
    let started_at = first_instant(&messages);
    let ended_at = last_instant(&messages);
    Ok(
        Some(
            Conversation {
                agent_slug: "codebuff".to_owned(),
                external_id: Some(external_id),
                title,
                workspace,
                source_path: found.source_path.copy(),
                started_at,
                ended_at,
                metadata,
                messages,
            },
        ),
    )
}

/// The roots to scan.
pub open spec fn codebuff_roots(ctx: ContextView, s: SurroundingsView) -> Seq<RootView> {
    if !default_detection(ctx) {
        ctx.scan_roots
    } else {
        match set_variable(s, "CASS_CODEBUFF_DATA_ROOT"@) {
            Some(text) => seq![local_root(expanded_path(text, s.home))],
            None => match s.home {
                Some(home) => seq![local_root(below(home, ".config/manicode/projects"@))],
                None => Seq::empty(),
            },
        }
    }
}

/// The directory of projects that a root stands for.
pub open spec fn projects_of(t: Seq<EntryView>, root: Seq<Seq<char>>) -> Seq<Seq<char>> {
    if file_name(root) == Some("projects"@) {
        root
    } else if path_is_dir(t, below(root, "projects"@)) {
        below(root, "projects"@)
    } else {
        below(root, ".config/manicode/projects"@)
    }
}

/// The files that may be transcripts: the root itself, or what stands where a
/// transcript does in its projects.
pub open spec fn candidates(t: Seq<EntryView>, root: Seq<Seq<char>>) -> Seq<Seq<Seq<char>>> {
    if path_is_file(t, root) {
        seq![root]
    } else if path_exists(t, projects_of(t, root)) {
        walked_files(t, projects_of(t, root), 4, Some(4))
    } else {
        Seq::empty()
    }
}

/// What was discovered so far: the chats, each with its origin, and the sources.
#[verifier::ext_equal]
pub struct DiscoveryView {
    pub seen: Seq<(Seq<char>, Seq<char>)>,
    pub found: Seq<SourceView>,
}

/// A transcript of a chat that is new is a source, and so is the state of its run,
/// if either changed.
pub open spec fn discovered_one(
    t: Seq<EntryView>,
    d: DiscoveryView,
    root: RootView,
    path: Seq<Seq<char>>,
) -> DiscoveryView {
    match chat_key(t, path) {
        None => d,
        Some(key) => if d.seen.contains((root.origin.source_id, key)) {
            d
        } else {
            let seen = d.seen.push((root.origin.source_id, key));
            let state = with_file_name(path, "run-state.json"@);
            let has_state = path_is_file(t, state);
            if path_is_fresh(t, path) || has_state && path_is_fresh(t, state) {
                let found = d.found.push(source("codebuff"@, root, path, SourceRole::PrimarySessionLog, true));
                DiscoveryView {
                    seen,
                    found: if has_state {
                        found.push(source("codebuff"@, root, state, SourceRole::MetadataSidecar, false))
                    } else {
                        found
                    },
                }
            } else {
                DiscoveryView { seen, ..d }
            }
        },
    }
}

pub open spec fn discovered_all(
    t: Seq<EntryView>,
    d: DiscoveryView,
    root: RootView,
    all: Seq<Seq<Seq<char>>>,
) -> DiscoveryView
    decreases all.len(),
{
    if all.len() == 0 {
        d
    } else {
        discovered_one(t, discovered_all(t, d, root, all.drop_last()), root, all.last())
    }
}

pub open spec fn discovery_of(t: Seq<EntryView>, roots: Seq<RootView>) -> DiscoveryView
    decreases roots.len(),
{
    if roots.len() == 0 {
        DiscoveryView { seen: Seq::empty(), found: Seq::empty() }
    } else {
        discovered_all(
            t,
            discovery_of(t, roots.drop_last()),
            roots.last(),
            candidates(t, roots.last().path),
        )
    }
}

/// The sources, in the order of their paths.
pub open spec fn discovered(t: Seq<EntryView>, ctx: ContextView, s: SurroundingsView) -> Seq<SourceView> {
    sorted_sources(discovery_of(t, codebuff_roots(ctx, s)).found)
}

/// The conversations of sources: the first transcript that cannot be read makes all
/// fail.
pub open spec fn conversations_of(t: Seq<EntryView>, sources: Seq<SourceView>) -> Result<
    Seq<ConversationView>,
    TranscriptError,
>
    decreases sources.len(),
{
    if sources.len() == 0 {
        Ok(Seq::empty())
    } else {
        match conversations_of(t, sources.drop_last()) {
            Err(e) => Err(e),
            Ok(front) => {
                let last = sources.last();
                if !(last.role is PrimarySessionLog) {
                    Ok(front)
                } else {
                    match transcript(t, last.source_path, last.origin.detail) {
                        Err(e) => Err(e),
                        Ok(Some(c)) => Ok(front.push(c)),
                        Ok(None) => Ok(front),
                    }
                }
            },
        }
    }
}

proof fn conversations_error_stays(t: Seq<EntryView>, sources: Seq<SourceView>, n: int)
    requires
        0 <= n <= sources.len(),
        conversations_of(t, sources.take(n)) is Err,
    ensures
        conversations_of(t, sources) == conversations_of(t, sources.take(n)),
    decreases sources.len() - n,
{
    if n < sources.len() {
        assert(sources.take(n + 1).drop_last() =~= sources.take(n));
        conversations_error_stays(t, sources, n + 1);
    } else {
        assert(sources.take(n) =~= sources);
    }
}

fn note_chat(seen: &mut Vec<(String, String)>, origin: &str, key: &str) -> (r: bool)
    ensures
        r == !old(seen).deep_view().contains((origin@, key@)),
        final(seen).deep_view() == if r {
            old(seen).deep_view().push((origin@, key@))
        } else {
            old(seen).deep_view()
        },
{
    let ghost all = seen.deep_view();
    let mut i: usize = 0;
    while i < seen.len()
        invariant
            i <= seen@.len(),
            all == seen.deep_view(),
            all == old(seen).deep_view(),
            forall|k: int| 0 <= k < i ==> all[k] != (origin@, key@),
        decreases seen.len() - i,
    {
        assert(all[i as int] == (seen@[i as int].0@, seen@[i as int].1@));
        if same_text(seen[i].0.as_str(), origin) && same_text(seen[i].1.as_str(), key) {
            return false;
        }
        i = i + 1;
    }
    seen.push((origin.to_owned(), key.to_owned()));
    assert(seen.deep_view() =~= all.push((origin@, key@)));
    true
}

impl CodebuffConnector {
    pub fn new() -> (r: CodebuffConnector)
        ensures
            r == CodebuffConnector,
    {
        CodebuffConnector
    }

    /// What the registry of agents found, or that nothing was found.
    pub fn detect(&self, found: Option<DetectionResult>) -> (r: DetectionResult)
        ensures
            r.deep_view() == detected_or_nothing(found.deep_view()),
    {
        detection_or_nothing(found)
    }

    /// Chats can be handed on one by one.
    pub fn supports_streaming_scan(&self) -> (r: bool)
        ensures
            r,
    {
        true
    }

    /// The roots to scan.
    pub fn roots(ctx: &ScanContext, surroundings: &Surroundings) -> (r: Vec<ScanRoot>)
        ensures
            r.deep_view() == codebuff_roots(ctx.deep_view(), surroundings.deep_view()),
    {
        if !ctx.use_default_detection() {
            return copy_roots(&ctx.scan_roots);
        }
        let mut roots: Vec<ScanRoot> = Vec::new();
        assert(roots.deep_view() =~= Seq::empty());
        match surroundings.set_variable("CASS_CODEBUFF_DATA_ROOT") {
            Some(text) => {
                let path = expand_leading_tilde(text.as_str(), surroundings.home.as_ref());
                push_root(&mut roots, ScanRoot::local(path));
            },
            None => match &surroundings.home {
                Some(home) => {
                    push_root(&mut roots, ScanRoot::local(home.join(".config/manicode/projects")));
                },
                None => {},
            },
        }
        assert(roots.deep_view() =~= codebuff_roots(ctx.deep_view(), surroundings.deep_view()));
        roots
    }

    fn list_candidates(files: &FileTable, root: &SourcePath) -> (r: Vec<SourcePath>)
        ensures
            r.deep_view() == candidates(files.deep_view(), root.deep_view()),
    {
        let mut out: Vec<SourcePath> = Vec::new();
        assert(out.deep_view() =~= Seq::empty());
        if files.is_file(root) {
            push_path(&mut out, root.copy());
            return out;
        }
        let child = root.join("projects");
        let projects = if root.is_named("projects") {
            root.copy()
        } else if files.is_dir(&child) {
            child
        } else {
            root.join(".config/manicode/projects")
        };
        if !files.has(&projects) {
            return out;
        }
        files.walk(&projects, 4, Some(4))
    }

    fn discover_one(
        files: &FileTable,
        root: &ScanRoot,
        path: &SourcePath,
        seen: &mut Vec<(String, String)>,
        found: &mut Vec<DiscoveredSource>,
    )
        ensures
            discovered_one(
                files.deep_view(),
                (DiscoveryView { seen: old(seen).deep_view(), found: old(found).deep_view() }),
                root.deep_view(),
                path.deep_view(),
            ) == (DiscoveryView { seen: final(seen).deep_view(), found: final(found).deep_view() }),
    {
        let key = match session_key(files, path) {
            Some(key) => key,
            None => return,
        };
        if !note_chat(seen, root.origin.source_id.as_str(), key.as_str()) {
            return;
        }
        let state = path.with_file_name("run-state.json");
        let has_state = files.is_file(&state);
        if !(files.is_fresh(path) || has_state && files.is_fresh(&state)) {
            return;
        }
        push_source(
            found,
            DiscoveredSource::new("codebuff", root, path.copy(), SourceRole::PrimarySessionLog, true),
        );
        if has_state {
            push_source(found, DiscoveredSource::new("codebuff", root, state, SourceRole::MetadataSidecar, false));
        }
    }

    /// The files that a scan would read, in the order of their paths.
    pub fn discover(ctx: &ScanContext, surroundings: &Surroundings, files: &FileTable) -> (r: Vec<DiscoveredSource>)
        ensures
            r.deep_view() == discovered(files.deep_view(), ctx.deep_view(), surroundings.deep_view()),
    {
        let ghost t = files.deep_view();
        let roots = CodebuffConnector::roots(ctx, surroundings);
        let ghost all = roots.deep_view();
        let mut seen: Vec<(String, String)> = Vec::new();
        let mut found: Vec<DiscoveredSource> = Vec::new();
        let mut i: usize = 0;
        assert(all.take(0) =~= Seq::empty());
        assert(seen.deep_view() =~= Seq::empty());
        assert(found.deep_view() =~= Seq::empty());
        while i < roots.len()
            invariant
                i <= roots@.len(),
                t == files.deep_view(),
                all == roots.deep_view(),
                discovery_of(t, all.take(i as int)) == (DiscoveryView {
                    seen: seen.deep_view(),
                    found: found.deep_view(),
                }),
            decreases roots.len() - i,
        {
            let root = &roots[i];
            let ghost before = discovery_of(t, all.take(i as int));
            assert(all.take(i + 1).drop_last() =~= all.take(i as int));
            assert(all.take(i + 1).last() == root.deep_view());
            let list = CodebuffConnector::list_candidates(files, &root.path);
            let ghost fs = list.deep_view();
            let mut k: usize = 0;
            assert(fs.take(0) =~= Seq::empty());
            while k < list.len()
                invariant
                    k <= list@.len(),
                    t == files.deep_view(),
                    fs == list.deep_view(),
                    discovered_all(t, before, root.deep_view(), fs.take(k as int)) == (DiscoveryView {
                        seen: seen.deep_view(),
                        found: found.deep_view(),
                    }),
                decreases list.len() - k,
            {
                assert(fs.take(k + 1).drop_last() =~= fs.take(k as int));
                assert(fs.take(k + 1).last() == list@[k as int].deep_view());
                CodebuffConnector::discover_one(files, root, &list[k], &mut seen, &mut found);
                k = k + 1;
            }
            assert(fs.take(fs.len() as int) =~= fs);
            i = i + 1;
        }
        assert(all.take(all.len() as int) =~= all);
        sort(found)
    }

    /// The files that a scan would read, in the order of their paths.
    pub fn discover_source_files(&self, ctx: &ScanContext, surroundings: &Surroundings, files: &FileTable) -> (r: Vec<
        DiscoveredSource,
    >)
        ensures
            r.deep_view() == discovered(files.deep_view(), ctx.deep_view(), surroundings.deep_view()),
    {
        CodebuffConnector::discover(ctx, surroundings, files)
    }

    /// Reads the chats that changed. It fails with the first transcript that cannot
    /// be read.
    pub fn scan(&self, ctx: &ScanContext, surroundings: &Surroundings, files: &FileTable) -> (r: Result<
        Vec<Conversation>,
        TranscriptError,
    >)
        ensures
            match r {
                Ok(found) => conversations_of(
                    files.deep_view(),
                    discovered(files.deep_view(), ctx.deep_view(), surroundings.deep_view()),
                ) == Ok::<Seq<ConversationView>, TranscriptError>(found.deep_view()),
                Err(e) => conversations_of(
                    files.deep_view(),
                    discovered(files.deep_view(), ctx.deep_view(), surroundings.deep_view()),
                ) == Err::<Seq<ConversationView>, TranscriptError>(e),
            },
    {
        let ghost t = files.deep_view();
        let sources = CodebuffConnector::discover(ctx, surroundings, files);
        let ghost all = sources.deep_view();
        let ghost wanted = discovered(files.deep_view(), ctx.deep_view(), surroundings.deep_view());
        let mut found: Vec<Conversation> = Vec::new();
        let mut i: usize = 0;
        assert(all.take(0) =~= Seq::empty());
        assert(found.deep_view() =~= Seq::empty());
        while i < sources.len()
            invariant
                i <= sources@.len(),
                t == files.deep_view(),
                all == sources.deep_view(),
                all == wanted,
                wanted == discovered(files.deep_view(), ctx.deep_view(), surroundings.deep_view()),
                conversations_of(t, all.take(i as int)) == Ok::<Seq<ConversationView>, TranscriptError>(
                    found.deep_view(),
                ),
            decreases sources.len() - i,
        {
            let here = &sources[i];
            assert(all.take(i + 1).drop_last() =~= all.take(i as int));
            assert(all.take(i + 1).last() == here.deep_view());
            let primary = match here.role {
                SourceRole::PrimarySessionLog => true,
                _ => false,
            };
            if primary {
                match parse_session(files, here) {
                    Ok(Some(c)) => {
                        crate::scan::push_conversation(&mut found, c);
                    },
                    Ok(None) => {},
                    Err(e) => {
                        proof {
                            conversations_error_stays(t, all, i + 1);
                        }
                        return Err(e);
                    },
                }
            }
            i = i + 1;
        }
        assert(all.take(all.len() as int) =~= all);
        Ok(found)
    }
}

proof fn records_are_sound(records: Seq<JsonView>)
    ensures
        records_result(records) matches Ok(read) ==> {
            &&& is_numbered(read.messages)
            &&& read.messages.len() == records.len()
            &&& read.ids.len() == records.len()
            &&& read.ids.no_duplicates()
            &&& forall|i: int| 0 <= i < read.messages.len() ==> (#[trigger] read.messages[i]).created_at is Some
        },
    decreases records.len(),
{
    if records.len() > 0 {
        records_are_sound(records.drop_last());
        if let Ok(front) = records_result(records.drop_last()) {
            if let Ok(read) = records_result(records) {
                assert forall|i: int, j: int|
                    0 <= i < read.ids.len() && 0 <= j < read.ids.len() && i != j implies read.ids[i] != read.ids[j] by {
                    if i == front.ids.len() {
                        assert(front.ids.contains(front.ids[j]));
                    } else if j == front.ids.len() {
                        assert(front.ids.contains(front.ids[i]));
                    }
                }
            }
        }
    }
}

/// A chat that was read has a message for each record, at its place and with a
/// time, no two of one name, and ended where it started or later.
pub proof fn transcript_is_sound(t: Seq<EntryView>, path: Seq<Seq<char>>, origin: JsonView, records: Seq<JsonView>)
    requires
        text_at(t, path) is Some,
        document_in(text_at(t, path)->0) == Some(JsonView::Array(records)),
    ensures
        transcript(t, path, origin) matches Ok(Some(c)) ==> {
            &&& c.messages.len() == records.len()
            &&& is_numbered(c.messages)
            &&& forall|i: int| 0 <= i < c.messages.len() ==> (#[trigger] c.messages[i]).created_at is Some
            &&& spans(c.started_at, c.ended_at)
            &&& c.started_at is Some
            &&& records_result(records)->Ok_0.ids.no_duplicates()
        },
{
    records_are_sound(records);
    if let Ok(read) = records_result(records) {
        let times = instants(read.messages);
        crate::stamp::bounds_enclose(times);
        if read.messages.len() > 0 {
            assert(times[0] == read.messages[0].created_at);
            assert(times[0] is Some);
        }
    }
}

/// The sources are in the order of their paths.
pub proof fn discovered_in_order(t: Seq<EntryView>, ctx: ContextView, s: SurroundingsView)
    ensures
        in_order(
            discovered(t, ctx, s),
            |a: SourceView, b: SourceView| DiscoveredSource::rank(a, b),
        ),
        discovered(t, ctx, s).to_multiset() == discovery_of(t, codebuff_roots(ctx, s)).found.to_multiset(),
{
    crate::scan::source_order_laws();
    sorted_is_ordered_permutation(
        discovery_of(t, codebuff_roots(ctx, s)).found,
        |a: SourceView, b: SourceView| DiscoveredSource::rank(a, b),
    );
}

proof fn block_calls_are_canonical(b: JsonView)
    requires
        canonical(b),
    ensures
        block_result(b) matches Ok(v) ==> canonical_calls(v.calls),
    decreases b, 1int, 0int,
{
    member_canonical(b, "input"@);
    member_canonical(b, "blocks"@);
    if let Some(list) = member(b, "blocks"@) {
        if list is Array {
            member_decreases(b, "blocks"@);
            blocks_calls_are_canonical(list, list->Array_0.len());
        }
    }
}

proof fn blocks_calls_are_canonical(list: JsonView, n: nat)
    requires
        canonical(list),
    ensures
        blocks_result(list, n) matches Ok(v) ==> canonical_calls(v.calls),
    decreases list, 0int, n,
{
    if let JsonView::Array(items) = list {
        if 0 < n <= items.len() {
            blocks_calls_are_canonical(list, (n - 1) as nat);
            block_calls_are_canonical(items[n - 1]);
            if let (Ok(front), Ok(b)) = (blocks_result(list, (n - 1) as nat), block_result(items[n - 1])) {
                calls_join(front.calls, b.calls);
            }
        }
    }
}

proof fn record_extra_is_canonical(record: JsonView, id: Seq<char>)
    requires
        canonical(record),
    ensures
        canonical(record_extra(record, id)),
{
    member_canonical(record, "metadata"@);
    match member(record, "metadata"@) {
        Some(JsonView::Object(members)) => {
            let less = JsonView::Object(without_member(members, "runState"@));
            without_member_canonical(members, "runState"@);
            with_field_canonical(record, "metadata"@, less);
            with_field_canonical(
                with_field(record, "metadata"@, less),
                "codebuff_message_id"@,
                JsonView::Text(id),
            );
        },
        _ => {
            with_field_canonical(record, "codebuff_message_id"@, JsonView::Text(id));
        },
    }
}

/// What the message of a record holds is canonical.
pub proof fn record_message_is_canonical(record: JsonView, n: int, taken: Seq<Seq<char>>)
    requires
        canonical(record),
    ensures
        record_message(record, n, taken) matches Ok(one) ==> canonical_message(one.1),
{
    member_canonical(record, "blocks"@);
    if let Some(id) = member_text(record, "id"@) {
        record_extra_is_canonical(record, id);
    }
    if let Some(list) = member(record, "blocks"@) {
        if list is Array {
            blocks_calls_are_canonical(list, list->Array_0.len());
        }
    }
}

proof fn records_are_canonical(records: Seq<JsonView>)
    requires
        forall|i: int| 0 <= i < records.len() ==> canonical(#[trigger] records[i]),
    ensures
        records_result(records) matches Ok(read) ==> canonical_messages(read.messages),
    decreases records.len(),
{
    if records.len() > 0 {
        let front = records.drop_last();
        assert forall|i: int| 0 <= i < front.len() implies canonical(#[trigger] front[i]) by {
            assert(canonical(records[i]));
        }
        records_are_canonical(front);
        assert(canonical(records[records.len() - 1]));
        if let Ok(read) = records_result(front) {
            record_message_is_canonical(records.last(), records.len() - 1, read.ids);
            if let Ok(one) = record_message(records.last(), records.len() - 1, read.ids) {
                messages_grow(read.messages, one.1);
            }
        }
    }
}

proof fn base_metadata_is_canonical(origin: JsonView)
    requires
        canonical(origin),
    ensures
        canonical(JsonView::Object(base_metadata(origin))),
{
    reveal_strlit("display_name");
    reveal_strlit("origin");
    reveal_strlit("shared_lineage");
    reveal_strlit("storage_format");
    comes_before("display_name"@, "origin"@, 0);
    comes_before("origin"@, "shared_lineage"@, 0);
    comes_before("shared_lineage"@, "storage_format"@, 1);
    rising_members_are_canonical(base_metadata(origin));
}

proof fn token_estimate_is_canonical(tokens: u64)
    ensures
        canonical(token_estimate(tokens)),
{
    if let JsonView::Object(members) = token_estimate(tokens) {
        reveal_strlit("is_provider_usage");
        reveal_strlit("method");
        reveal_strlit("source");
        reveal_strlit("tokens");
        comes_before("is_provider_usage"@, "method"@, 0);
        comes_before("method"@, "source"@, 0);
        comes_before("source"@, "tokens"@, 0);
        rising_members_are_canonical(members);
    }
}

/// What is known of a chat is canonical where its origin is.
pub proof fn chat_metadata_is_canonical(t: Seq<EntryView>, path: Seq<Seq<char>>, origin: JsonView)
    requires
        canonical(origin),
    ensures
        canonical(chat_metadata(t, path, origin).1),
{
    let base = base_metadata(origin);
    base_metadata_is_canonical(origin);
    with_member_canonical(base, "run_state_status"@, JsonView::Text("unreadable_or_oversized"@));
    if let Some(v) = run_state(t, with_file_name(path, "run-state.json"@)) {
        let session = member(v, "sessionState"@);
        if let Some(JsonView::Unsigned(n)) = member_of(
            member_of(session, "mainAgentState"@),
            "contextTokenCount"@,
        ) {
            token_estimate_is_canonical(n);
            with_member_canonical(base, "context_token_estimate"@, token_estimate(n));
        }
    }
}

/// The documents of the conversation of a transcript are canonical where its origin is.
pub proof fn transcript_is_canonical(t: Seq<EntryView>, path: Seq<Seq<char>>, origin: JsonView)
    requires
        canonical(origin),
    ensures
        transcript(t, path, origin) matches Ok(Some(c)) ==> canonical_conversation(c),
{
    chat_metadata_is_canonical(t, path, origin);
    if let Some(text) = text_at(t, path) {
        if let Some(JsonView::Array(records)) = document_in(text) {
            records_are_canonical(records);
        }
    }
}

/// Whether all that is known of the origins of these sources is canonical.
pub open spec fn canonical_origins(sources: Seq<SourceView>) -> bool {
    forall|i: int| 0 <= i < sources.len() ==> canonical((#[trigger] sources[i]).origin.detail)
}

proof fn origins_grow(sources: Seq<SourceView>, s: SourceView)
    requires
        canonical_origins(sources),
        canonical(s.origin.detail),
    ensures
        canonical_origins(sources.push(s)),
{
    let more = sources.push(s);
    assert forall|i: int| 0 <= i < more.len() implies canonical((#[trigger] more[i]).origin.detail) by {
        if i < sources.len() {
            assert(more[i] == sources[i]);
        }
    }
}

proof fn discovered_all_keeps_origins(t: Seq<EntryView>, d: DiscoveryView, root: RootView, all: Seq<Seq<Seq<char>>>)
    requires
        canonical_origins(d.found),
        canonical(root.origin.detail),
    ensures
        canonical_origins(discovered_all(t, d, root, all).found),
    decreases all.len(),
{
    if all.len() > 0 {
        let path = all.last();
        let before = discovered_all(t, d, root, all.drop_last());
        let log = source("codebuff"@, root, path, SourceRole::PrimarySessionLog, true);
        let state = with_file_name(path, "run-state.json"@);
        discovered_all_keeps_origins(t, d, root, all.drop_last());
        origins_grow(before.found, log);
        origins_grow(
            before.found.push(log),
            source("codebuff"@, root, state, SourceRole::MetadataSidecar, false),
        );
    }
}

proof fn discovery_keeps_origins(t: Seq<EntryView>, roots: Seq<RootView>)
    requires
        forall|i: int| 0 <= i < roots.len() ==> canonical((#[trigger] roots[i]).origin.detail),
    ensures
        canonical_origins(discovery_of(t, roots).found),
    decreases roots.len(),
{
    if roots.len() > 0 {
        let front = roots.drop_last();
        assert forall|i: int| 0 <= i < front.len() implies canonical((#[trigger] front[i]).origin.detail) by {
            assert(canonical(roots[i].origin.detail));
        }
        discovery_keeps_origins(t, front);
        assert(canonical(roots[roots.len() - 1].origin.detail));
        discovered_all_keeps_origins(t, discovery_of(t, front), roots.last(), candidates(t, roots.last().path));
    }
}

proof fn conversations_of_are_canonical(t: Seq<EntryView>, sources: Seq<SourceView>)
    requires
        canonical_origins(sources),
    ensures
        conversations_of(t, sources) matches Ok(found) ==> canonical_conversations(found),
    decreases sources.len(),
{
    if sources.len() > 0 {
        let front = sources.drop_last();
        let last = sources.last();
        assert forall|i: int| 0 <= i < front.len() implies canonical((#[trigger] front[i]).origin.detail) by {
            assert(canonical(sources[i].origin.detail));
        }
        conversations_of_are_canonical(t, front);
        assert(canonical(sources[sources.len() - 1].origin.detail));
        transcript_is_canonical(t, last.source_path, last.origin.detail);
        if let (Ok(found), Ok(Some(c))) = (
            conversations_of(t, front),
            transcript(t, last.source_path, last.origin.detail),
        ) {
            conversations_grow(found, c);
        }
    }
}

/// The documents of all conversations that a scan hands out are canonical, so that
/// each can be rendered, where what is known of the origins of the roots is.
pub proof fn scanned_documents_are_canonical(t: Seq<EntryView>, ctx: ContextView, s: SurroundingsView)
    requires
        forall|i: int| 0 <= i < ctx.scan_roots.len() ==> canonical((#[trigger] ctx.scan_roots[i]).origin.detail),
    ensures
        conversations_of(t, discovered(t, ctx, s)) matches Ok(found) ==> canonical_conversations(found),
{
    let roots = codebuff_roots(ctx, s);
    let found = discovery_of(t, roots).found;
    let order = |a: SourceView, b: SourceView| DiscoveredSource::rank(a, b);
    one_member_is_canonical("source_id"@, JsonView::Text("local"@));
    assert forall|i: int| 0 <= i < roots.len() implies canonical((#[trigger] roots[i]).origin.detail) by {
        if !default_detection(ctx) {
            assert(canonical(ctx.scan_roots[i].origin.detail));
        }
    }
    discovery_keeps_origins(t, roots);
    sorted_members(found, order);
    let all = sorted_sources(found);
    assert forall|i: int| 0 <= i < all.len() implies canonical((#[trigger] all[i]).origin.detail) by {
        assert(found.contains(all[i]));
        let k = choose|k: int| 0 <= k < found.len() && found[k] == all[i];
        assert(canonical(found[k].origin.detail));
    }
    conversations_of_are_canonical(t, all);
}

proof fn block_kinds_differ()
    ensures
        "text"@ != "tool"@ && "text"@ != "agent"@ && "text"@ != "image"@,
        "plan"@ != "tool"@ && "plan"@ != "agent"@ && "plan"@ != "image"@,
        "tool"@ != "agent"@ && "tool"@ != "image"@,
        "agent"@ != "image"@,
{
    reveal_strlit("text");
    reveal_strlit("plan");
    reveal_strlit("tool");
    reveal_strlit("agent");
    reveal_strlit("image");
    assert("text"@.len() == 4 && "plan"@.len() == 4 && "tool"@.len() == 4 && "agent"@.len() == 5);
    assert("image"@.len() == 5);
    assert("text"@[1] != "tool"@[1]);
    assert("plan"@[0] != "tool"@[0]);
    assert("agent"@[0] != "image"@[0]);
}

/// A block of text or of a plan says its content, an image its type, and an agent its
/// content and behind that what its own blocks say; what lacks its text cannot be read.
pub proof fn blocks_say_their_content(b: JsonView, t: Seq<char>)
    ensures
        (member_text(b, "type"@) == Some("text"@) || member_text(b, "type"@) == Some("plan"@)) && member_text(b, "content"@)
            == Some(t) ==> (block_result(b) matches Ok(v) && v.pieces == seq![t] && v.calls.len() == 0),
        (member_text(b, "type"@) == Some("text"@) || member_text(b, "type"@) == Some("plan"@)) && member_text(b, "content"@)
            is None ==> block_result(b) == Err::<BlocksView, TranscriptError>(TranscriptError::MissingText),
        member_text(b, "type"@) == Some("image"@) && member_text(b, "mediaType"@) == Some(t) ==> (
        block_result(b) matches Ok(v) && v.pieces == seq!["[image: "@ + t + "]"@] && v.calls.len() == 0),
        member_text(b, "type"@) == Some("agent"@) && member_text(b, "content"@) == Some(t) && member(b, "blocks"@) is None
            ==> (block_result(b) matches Ok(v) && v.pieces == seq![t] && v.calls.len() == 0),
        member_text(b, "type"@) is None ==> block_result(b) == Err::<BlocksView, TranscriptError>(
            TranscriptError::MissingText,
        ),
{
    block_kinds_differ();
}

/// An agent whose blocks can be read says its content and behind that what they say, line
/// by line, and makes their calls.
pub proof fn agents_say_what_their_blocks_say(b: JsonView, t: Seq<char>, items: Seq<JsonView>)
    requires
        member_text(b, "type"@) == Some("agent"@),
        member_text(b, "content"@) == Some(t),
        member(b, "blocks"@) == Some(JsonView::Array(items)),
    ensures
        blocks_result(JsonView::Array(items), items.len()) matches Ok(inner) ==> (block_result(b) matches Ok(v) && v.pieces
            == seq![t, join(inner.pieces, "\n"@)] && v.calls == inner.calls),
        blocks_result(JsonView::Array(items), items.len()) is Err ==> block_result(b) is Err,
{
    block_kinds_differ();
    member_decreases(b, "blocks"@);
}

/// A tool says its name and its input, and behind that its output where it gives one, and
/// makes a call of that name and input.
pub proof fn tools_say_their_input_and_output(b: JsonView, name: Seq<char>, id: Seq<char>, input: JsonView, t: Seq<char>)
    requires
        member_text(b, "type"@) == Some("tool"@),
        member_text(b, "toolName"@) == Some(name),
        member_text(b, "toolCallId"@) == Some(id),
        member(b, "input"@) == Some(input),
    ensures
        ({
            let said = name + ": "@ + rendered_json(input);
            let r = block_result(b);
            &&& member(b, "output"@) == Some(JsonView::Text(t)) ==> r is Ok && r->Ok_0.pieces == seq![said, t]
            &&& member(b, "output"@) is None && member(b, "outputRaw"@) is None ==> r is Ok && r->Ok_0.pieces == seq![said]
            &&& member(b, "output"@) is None ==> (member(b, "outputRaw"@) matches Some(raw) ==> r is Ok && r->Ok_0.pieces
                == seq![said, rendered_json(raw)])
            &&& member(b, "output"@) is Some && !(member(b, "output"@)->0 is Text) ==> r == Err::<
                BlocksView,
                TranscriptError,
            >(TranscriptError::OutputNotText)
            &&& r is Ok ==> {
                let calls = r->Ok_0.calls;
                &&& calls.len() == 1
                &&& calls[0].kind == "tool"@
                &&& calls[0].name == name
                &&& calls[0].call_id == Some(id)
                &&& calls[0].arguments == Some(input)
            }
        }),
{
    block_kinds_differ();
    let said = name + ": "@ + rendered_json(input);
    assert(seq![said] + seq![t] =~= seq![said, t]);
    assert(seq![said] + Seq::<Seq<char>>::empty() =~= seq![said]);
    if let Some(raw) = member(b, "outputRaw"@) {
        assert(seq![said] + seq![rendered_json(raw)] =~= seq![said, rendered_json(raw)]);
    }
}

/// Blocks are read in their order, and what one says and calls comes behind what those
/// before it say and call; one that cannot be read makes all fail.
pub proof fn blocks_are_read_in_order(items: Seq<JsonView>, n: nat)
    requires
        n < items.len(),
    ensures
        ({
            let list = JsonView::Array(items);
            let front = blocks_result(list, n);
            let all = blocks_result(list, n + 1);
            &&& front is Err || block_result(items[n as int]) is Err ==> all is Err
            &&& front is Ok && block_result(items[n as int]) is Ok ==> {
                &&& all is Ok
                &&& all->Ok_0.pieces == front->Ok_0.pieces + block_result(items[n as int])->Ok_0.pieces
                &&& all->Ok_0.calls == front->Ok_0.calls + block_result(items[n as int])->Ok_0.calls
            }
        }),
        blocks_result(JsonView::Array(items), 0) matches Ok(v) && v.pieces.len() == 0 && v.calls.len() == 0,
{
}

/// A record is a message of its own role and time: what it says is its content and, behind
/// that on a line of its own, what its blocks say, where that is more; and its calls are
/// theirs.
pub proof fn records_say_their_content(
    record: JsonView,
    n: int,
    taken: Seq<Seq<char>>,
    id: Seq<char>,
    variant: Seq<char>,
    base: Seq<char>,
    time: Seq<char>,
    created: i64,
)
    requires
        member_text(record, "id"@) == Some(id),
        !blank(id),
        !taken.contains(id),
        member_text(record, "variant"@) == Some(variant),
        variant == "user"@ || variant == "ai"@ || variant == "agent"@ || variant == "error"@,
        member_text(record, "content"@) == Some(base),
        member_text(record, "timestamp"@) == Some(time),
        rfc3339_millis(time) == Some(created),
        record_blocks(record) is Ok,
        0 <= n <= i64::MAX,
    ensures
        ({
            let r = record_message(record, n, taken);
            let m = r->Ok_0.1;
            let blocks = join(record_blocks(record)->Ok_0.pieces, "\n"@);
            &&& r is Ok
            &&& r->Ok_0.0 == id
            &&& variant == "user"@ ==> m.role == "user"@
            &&& variant == "ai"@ || variant == "agent"@ ==> m.role == "assistant"@
            &&& variant == "error"@ ==> m.role == "system"@
            &&& m.idx == n
            &&& m.created_at == Some(created)
            &&& blocks.len() == 0 ==> m.content == base
            &&& blocks.len() > 0 && base.len() == 0 ==> m.content == blocks
            &&& blocks.len() > 0 && base.len() > 0 && blocks != base ==> m.content == base + "\n"@ + blocks
            &&& blocks == base ==> m.content == base
            &&& m.invocations == record_blocks(record)->Ok_0.calls
            &&& m.author == text_in(member_of(member(record, "agent"@), "agentName"@))
            &&& record is Object ==> member(m.extra, "codebuff_message_id"@) == Some(JsonView::Text(id))
        }),
{
    reveal_strlit("user");
    reveal_strlit("ai");
    reveal_strlit("agent");
    reveal_strlit("error");
    assert("user"@.len() == 4 && "ai"@.len() == 2 && "agent"@.len() == 5 && "error"@.len() == 5);
    assert("agent"@[0] != "error"@[0]);
    extra_keeps_the_record(record, id, "id"@);
}

/// What is known of a message is its record, with its name and without the state of the
/// run: every other member stays.
pub proof fn extra_keeps_the_record(record: JsonView, id: Seq<char>, key: Seq<char>)
    ensures
        record is Object ==> member(record_extra(record, id), "codebuff_message_id"@) == Some(JsonView::Text(id)),
        record is Object && key != "codebuff_message_id"@ && key != "metadata"@ ==> member(record_extra(record, id), key)
            == member(record, key),
        member(record, "metadata"@) matches Some(JsonView::Object(members)) ==> {
            let kept = member(record_extra(record, id), "metadata"@);
            &&& kept is Some && kept->0 is Object
            &&& key != "runState"@ ==> member(kept->0, key) == member(JsonView::Object(members), key)
            &&& canonical(JsonView::Object(members)) ==> member(kept->0, "runState"@) is None
        },
{
    reveal_strlit("codebuff_message_id");
    reveal_strlit("metadata");
    assert("codebuff_message_id"@.len() == 19 && "metadata"@.len() == 8);
    if let JsonView::Object(all) = record {
        match member(record, "metadata"@) {
            Some(JsonView::Object(members)) => {
                let less = without_member(members, "runState"@);
                let kept = with_member(all, "metadata"@, JsonView::Object(less));
                without_member_reads_back(members, "runState"@, key);
                with_member_reads_back(all, "metadata"@, JsonView::Object(less), key);
                with_member_reads_back(kept, "codebuff_message_id"@, JsonView::Text(id), key);
                with_member_reads_back(kept, "codebuff_message_id"@, JsonView::Text(id), "metadata"@);
            },
            _ => {
                with_member_reads_back(all, "codebuff_message_id"@, JsonView::Text(id), key);
            },
        }
    }
}

/// A record without a name, with a blank one or with one that was taken, of an unknown kind,
/// without content or time, or with a time that is none, cannot be read, and says why.
pub proof fn records_that_cannot_be_read(record: JsonView, n: int, taken: Seq<Seq<char>>, id: Seq<char>, variant: Seq<char>)
    ensures
        member_text(record, "id"@) is None ==> record_message(record, n, taken) == Err::<
            (Seq<char>, MessageView),
            TranscriptError,
        >(TranscriptError::MissingText),
        member_text(record, "id"@) == Some(id) && (blank(id) || taken.contains(id)) ==> record_message(record, n, taken)
            == Err::<(Seq<char>, MessageView), TranscriptError>(TranscriptError::BadId),
        member_text(record, "id"@) == Some(id) && !blank(id) && !taken.contains(id) && member_text(record, "variant"@)
            == Some(variant) && variant != "user"@ && variant != "ai"@ && variant != "agent"@ && variant != "error"@
            ==> record_message(record, n, taken) == Err::<(Seq<char>, MessageView), TranscriptError>(
            TranscriptError::UnknownVariant,
        ),
        member_text(record, "content"@) is None || member_text(record, "timestamp"@) is None ==> record_message(
            record,
            n,
            taken,
        ) is Err,
        member_text(record, "timestamp"@) matches Some(t) ==> (rfc3339_millis(t) is None ==> record_message(record, n, taken)
            is Err),
{
}

/// The messages of a transcript are those of its records, in their order; the first record
/// that cannot be read makes all fail, as it does.
pub proof fn records_are_read_in_order(records: Seq<JsonView>, record: JsonView)
    ensures
        ({
            let front = records_result(records);
            let all = records_result(records.push(record));
            &&& front matches Err(e) ==> all == Err::<RecordsView, TranscriptError>(e)
            &&& front matches Ok(read) ==> {
                let one = record_message(record, records.len() as int, read.ids);
                &&& one matches Err(e) ==> all == Err::<RecordsView, TranscriptError>(e)
                &&& one matches Ok(one) ==> all is Ok && all->Ok_0.messages == read.messages.push(one.1) && all->Ok_0.ids
                    == read.ids.push(one.0)
            }
        }),
        records_result(Seq::empty()) matches Ok(read) && read.messages.len() == 0 && read.ids.len() == 0,
{
    assert(records.push(record).drop_last() =~= records);
}

/// A transcript that was read is told of by what its records say: its title is the beginning
/// of what the user said first, it works where the state of its run says, and it spans its
/// messages.
pub proof fn transcripts_are_told_of(
    t: Seq<EntryView>,
    path: Seq<Seq<char>>,
    origin: JsonView,
    key: Seq<char>,
    text: Seq<char>,
    records: Seq<JsonView>,
)
    requires
        chat_key(t, path) == Some(key),
        text_at(t, path) == Some(text),
        document_in(text) == Some(JsonView::Array(records)),
    ensures
        records_result(records) matches Err(e) ==> transcript(t, path, origin) == Err::<
            Option<ConversationView>,
            TranscriptError,
        >(e),
        records_result(records) matches Ok(read) ==> {
            let r = transcript(t, path, origin);
            &&& r is Ok
            &&& read.messages.len() == 0 <==> r->Ok_0 is None
            &&& r->Ok_0 matches Some(c) ==> {
                &&& c.agent_slug == "codebuff"@
                &&& c.external_id == Some(key)
                &&& c.messages == read.messages
                &&& c.source_path == path
                &&& first_of_role(c.messages, "user"@) matches Some(m) ==> c.title == Some(head(m.content, 120))
                &&& first_of_role(c.messages, "user"@) is None ==> c.title is None
                &&& is_first_instant(c.started_at, c.messages)
                &&& is_last_instant(c.ended_at, c.messages)
                &&& !path_is_file(t, with_file_name(path, "run-state.json"@)) ==> c.workspace is None
                &&& member(c.metadata, "origin"@) == Some(origin)
                &&& member(c.metadata, "display_name"@) == Some(JsonView::Text("Codebuff / Freebuff"@))
                &&& member(c.metadata, "shared_lineage"@) == Some(JsonView::Bool(true))
                &&& member(c.metadata, "storage_format"@) == Some(JsonView::Text("manicode-chat-messages-array"@))
            }
        },
{
    if let Ok(read) = records_result(records) {
        crate::model::instants_of_messages_are_bounded(read.messages);
    }
    metadata_tells_of_the_origin(t, path, origin);
}

proof fn metadata_tells_of_the_origin(t: Seq<EntryView>, path: Seq<Seq<char>>, origin: JsonView)
    ensures
        ({
            let v = chat_metadata(t, path, origin).1;
            &&& member(v, "origin"@) == Some(origin)
            &&& member(v, "display_name"@) == Some(JsonView::Text("Codebuff / Freebuff"@))
            &&& member(v, "shared_lineage"@) == Some(JsonView::Bool(true))
            &&& member(v, "storage_format"@) == Some(JsonView::Text("manicode-chat-messages-array"@))
        }),
{
    let base = base_metadata(origin);
    reveal_strlit("origin");
    reveal_strlit("display_name");
    reveal_strlit("shared_lineage");
    reveal_strlit("storage_format");
    reveal_strlit("run_state_status");
    reveal_strlit("context_token_estimate");
    assert("origin"@.len() == 6 && "display_name"@.len() == 12 && "shared_lineage"@.len() == 14);
    assert("storage_format"@.len() == 14 && "run_state_status"@.len() == 16 && "context_token_estimate"@.len() == 22);
    assert("shared_lineage"@[1] != "storage_format"@[1]);
    member_is_the_first_of_its_key(JsonView::Null, base, "display_name"@, 0);
    member_is_the_first_of_its_key(JsonView::Null, base, "origin"@, 1);
    member_is_the_first_of_its_key(JsonView::Null, base, "shared_lineage"@, 2);
    member_is_the_first_of_its_key(JsonView::Null, base, "storage_format"@, 3);
    let status = JsonView::Text("unreadable_or_oversized"@);
    with_member_reads_back(base, "run_state_status"@, status, "display_name"@);
    with_member_reads_back(base, "run_state_status"@, status, "origin"@);
    with_member_reads_back(base, "run_state_status"@, status, "shared_lineage"@);
    with_member_reads_back(base, "run_state_status"@, status, "storage_format"@);
    if let Some(v) = run_state(t, with_file_name(path, "run-state.json"@)) {
        let session = member(v, "sessionState"@);
        if let Some(JsonView::Unsigned(n)) = member_of(
            member_of(session, "mainAgentState"@),
            "contextTokenCount"@,
        ) {
            with_member_reads_back(base, "context_token_estimate"@, token_estimate(n), "display_name"@);
            with_member_reads_back(base, "context_token_estimate"@, token_estimate(n), "origin"@);
            with_member_reads_back(base, "context_token_estimate"@, token_estimate(n), "shared_lineage"@);
            with_member_reads_back(base, "context_token_estimate"@, token_estimate(n), "storage_format"@);
        }
    }
}

/// The state of a run tells where the chat works, unless that is blank, and how many tokens
/// its context takes, as an estimate that no provider gave.
pub proof fn run_states_are_read(v: JsonView, origin: JsonView, root: Seq<char>, n: u64)
    ensures
        text_in(member_of(member_of(member(v, "sessionState"@), "fileContext"@), "projectRoot"@)) == Some(root) && !blank(
            root,
        ) ==> state_metadata(v, origin).0 == Some(root),
        text_in(member_of(member_of(member(v, "sessionState"@), "fileContext"@), "projectRoot"@)) is None ==> state_metadata(
            v,
            origin,
        ).0 is None,
        member_of(member_of(member(v, "sessionState"@), "mainAgentState"@), "contextTokenCount"@) == Some(
            JsonView::Unsigned(n),
        ) ==> {
            let estimate = member(state_metadata(v, origin).1, "context_token_estimate"@);
            &&& member_of(estimate, "tokens"@) == Some(JsonView::Unsigned(n))
            &&& member_of(estimate, "is_provider_usage"@) == Some(JsonView::Bool(false))
        },
{
    let base = base_metadata(origin);
    with_member_reads_back(base, "context_token_estimate"@, token_estimate(n), "context_token_estimate"@);
    if let JsonView::Object(members) = token_estimate(n) {
        reveal_strlit("is_provider_usage");
        reveal_strlit("method");
        reveal_strlit("source");
        reveal_strlit("tokens");
        assert("is_provider_usage"@.len() == 17 && "method"@.len() == 6 && "source"@.len() == 6 && "tokens"@.len() == 6);
        assert("method"@[0] != "tokens"@[0]);
        assert("source"@[0] != "tokens"@[0]);
        member_is_the_first_of_its_key(JsonView::Null, members, "is_provider_usage"@, 0);
        member_is_the_first_of_its_key(JsonView::Null, members, "tokens"@, 3);
    }
}

/// Each transcript among the sources is read, in their order, and sidecars are not; the
/// first that cannot be read makes all fail, as it does.
pub proof fn transcripts_are_read_in_order(t: Seq<EntryView>, sources: Seq<SourceView>, next: SourceView)
    ensures
        ({
            let front = conversations_of(t, sources);
            let all = conversations_of(t, sources.push(next));
            let one = transcript(t, next.source_path, next.origin.detail);
            &&& front matches Err(e) ==> all == Err::<Seq<ConversationView>, TranscriptError>(e)
            &&& front is Ok && next.role is MetadataSidecar ==> all == front
            &&& front matches Ok(found) ==> (next.role is PrimarySessionLog ==> match one {
                Err(e) => all == Err::<Seq<ConversationView>, TranscriptError>(e),
                Ok(Some(c)) => all == Ok::<Seq<ConversationView>, TranscriptError>(found.push(c)),
                Ok(None) => all == Ok::<Seq<ConversationView>, TranscriptError>(found),
            })
        }),
        conversations_of(t, Seq::empty()) matches Ok(found) && found.len() == 0,
{
    assert(sources.push(next).drop_last() =~= sources);
}

/// A transcript stands in the directory of its chat, below `chats` in that of its project,
/// below `projects` in the store; and its chat is named by the store, the project and its
/// own name. No other path has such a name.
pub proof fn chats_are_named_by_their_place(store: Seq<Seq<char>>, project: Seq<char>, chat: Seq<char>, p: Seq<Seq<char>>)
    requires
        store.len() > 0,
        file_name(store.push(project)) == Some(project),
        file_name(store.push(chat)) == Some(chat),
    ensures
        key_of(store.push("projects"@).push(project).push("chats"@).push(chat).push("chat-messages.json"@)) == Some(
            JsonView::Array(seq![JsonView::Text(path_text(store)), JsonView::Text(project), JsonView::Text(chat)]),
        ),
        file_name(p) != Some("chat-messages.json"@) ==> key_of(p) is None,
{
    reveal_strlit("projects");
    reveal_strlit("chats");
    reveal_strlit("chat-messages.json");
    reveal_strlit(".");
    reveal_strlit("..");
    assert("projects"@.len() == 8 && "chats"@.len() == 5 && "chat-messages.json"@.len() == 18);
    assert("."@.len() == 1 && ".."@.len() == 2);
    let projects = store.push("projects"@);
    let own = projects.push(project);
    let chats = own.push("chats"@);
    let dir = chats.push(chat);
    let file = dir.push("chat-messages.json"@);
    assert(file.drop_last() =~= dir);
    assert(dir.drop_last() =~= chats);
    assert(chats.drop_last() =~= own);
    assert(own.drop_last() =~= projects);
    assert(projects.drop_last() =~= store);
    assert(store.push(project).last() == project && store.push(chat).last() == chat);
}

/// A transcript of a chat that was not met at its origin is a source that the scan needs
/// where it or the state of its run changed, and that state one that it can do without.
pub proof fn transcripts_that_changed_are_sources(
    t: Seq<EntryView>,
    d: DiscoveryView,
    root: RootView,
    path: Seq<Seq<char>>,
    key: Seq<char>,
)
    requires
        chat_key(t, path) == Some(key),
        !d.seen.contains((root.origin.source_id, key)),
    ensures
        ({
            let after = discovered_one(t, d, root, path);
            let state = with_file_name(path, "run-state.json"@);
            let n = d.found.len() as int;
            let changed = path_is_fresh(t, path) || path_is_file(t, state) && path_is_fresh(t, state);
            &&& !changed ==> after.found == d.found
            &&& changed ==> {
                &&& after.found.len() == if path_is_file(t, state) {
                    n + 2
                } else {
                    n + 1
                }
                &&& after.found.take(n) == d.found
                &&& after.found[n].source_path == path
                &&& after.found[n].role is PrimarySessionLog
                &&& after.found[n].required_for_reconstruction
                &&& after.found[n].provider_slug == "codebuff"@
                &&& after.found[n].origin == root.origin
                &&& path_is_file(t, state) ==> after.found[n + 1].source_path == state && after.found[n + 1].role is MetadataSidecar
                    && !after.found[n + 1].required_for_reconstruction
            }
            &&& after.seen == d.seen.push((root.origin.source_id, key))
        }),
{
    let after = discovered_one(t, d, root, path);
    let n = d.found.len() as int;
    if after.found.len() > n {
        assert(after.found.take(n) =~= d.found);
    }
}

/// A root that is a file is looked at itself; the projects of any other are looked for at
/// the root, right below it, and at their usual place below it, and in them the files four
/// steps down.
pub proof fn transcripts_are_looked_for(t: Seq<EntryView>, root: Seq<Seq<char>>, p: Seq<Seq<char>>)
    ensures
        path_is_file(t, root) ==> candidates(t, root) == seq![root],
        file_name(root) == Some("projects"@) ==> projects_of(t, root) == root,
        file_name(root) != Some("projects"@) && path_is_dir(t, below(root, "projects"@)) ==> projects_of(t, root) == below(
            root,
            "projects"@,
        ),
        file_name(root) != Some("projects"@) && !path_is_dir(t, below(root, "projects"@)) ==> projects_of(t, root) == below(
            root,
            ".config/manicode/projects"@,
        ),
        !path_is_file(t, root) && path_exists(t, projects_of(t, root)) ==> (candidates(t, root).contains(p)
            <==> crate::files::can_walk_to(t, projects_of(t, root), 4, Some(4), p)),
{
    crate::files::walk_is_sound_and_complete(t, projects_of(t, root), 4, Some(4));
}

/// Without given places a scan reads where the environment says, or else the usual projects
/// of the user; with given places it reads those.
pub proof fn scans_read_their_roots(ctx: ContextView, s: SurroundingsView, text: Seq<char>, home: Seq<Seq<char>>)
    ensures
        ctx.scan_roots.len() > 0 ==> codebuff_roots(ctx, s) == ctx.scan_roots,
        ctx.scan_roots.len() == 0 && set_variable(s, "CASS_CODEBUFF_DATA_ROOT"@) == Some(text) ==> codebuff_roots(ctx, s)
            == seq![local_root(expanded_path(text, s.home))],
        ctx.scan_roots.len() == 0 && set_variable(s, "CASS_CODEBUFF_DATA_ROOT"@) is None && s.home == Some(home)
            ==> codebuff_roots(ctx, s) == seq![local_root(below(home, ".config/manicode/projects"@))],
{
}

} // verus!
