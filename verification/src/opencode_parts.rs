//! The parts that a message of OpenCode is put together from.
use vstd::prelude::*;
use crate::bytes::{byte_len, byte_len_concat, byte_len_of, fitting, fitting_is_longest, truncate_on_char_boundary};
use crate::decimal::{decimal, decimal_of};
use crate::order::{is_order, order_texts, sort, sorted, sorted_is_arrangement, text_order, text_order_laws, Ranked};
use crate::pending::{place_or_last, place_or_last_of};
use crate::query::{or_default, text_ref};
use crate::records::{fits, integer_in_field, record_in_field, text_in_field, Record, RecordView};
use crate::text::{blank, cat, is_blank, join, join_in_two_steps, join_texts, push_text, same_text};

verus! {

/// The state of a tool.
pub struct ToolState {
    pub output: Option<String>,
}

/// A part of a message.
pub struct PartInfo {
    pub id: Option<String>,
    pub index: Option<i64>,
    pub message_id: Option<String>,
    pub part_type: Option<String>,
    pub text: Option<String>,
    pub state: Option<ToolState>,
}

#[verifier::ext_equal]
pub struct PartView {
    pub id: Option<Seq<char>>,
    pub index: Option<i64>,
    pub message_id: Option<Seq<char>>,
    pub part_type: Option<Seq<char>>,
    pub text: Option<Seq<char>>,
    /// The output of a tool, where there is a state.
    pub state: Option<Option<Seq<char>>>,
}

impl DeepView for ToolState {
    type V = Option<Seq<char>>;

    open spec fn deep_view(&self) -> Option<Seq<char>> {
        self.output.deep_view()
    }
}

impl DeepView for PartInfo {
    type V = PartView;

    open spec fn deep_view(&self) -> PartView {
        PartView {
            id: self.id.deep_view(),
            index: self.index,
            message_id: self.message_id.deep_view(),
            part_type: self.part_type.deep_view(),
            text: self.text.deep_view(),
            state: self.state.deep_view(),
        }
    }
}

/// The state of a tool in a field, if the record may do without it.
pub open spec fn state_in_field(r: RecordView, place: int) -> Option<Option<Option<Seq<char>>>> {
    match record_in_field(r, "state"@, place) {
        None => None,
        Some(None) => Some(None),
        Some(Some(state)) => if !fits(state, 1) {
            None
        } else {
            match text_in_field(state, "output"@, 0) {
                Some(output) => Some(Some(output)),
                None => None,
            }
        },
    }
}

/// The names under which the place of a part may be given.
pub open spec fn index_names() -> Seq<Seq<char>> {
    seq!["index"@, "order"@, "sequence"@]
}

/// The part that a record holds: none where a field is of another type, is given twice
/// or is one too many. `named` says whether it may name its message.
pub open spec fn part_in(r: RecordView, named: bool) -> Option<PartView> {
    let next: int = if named {
        3
    } else {
        2
    };
    if !fits(r, next + 3) {
        None
    } else {
        match (
            text_in_field(r, "id"@, 0),
            integer_in_field(r, index_names(), 1),
            if named {
                text_in_field(r, "messageID"@, 2)
            } else {
                Some(None)
            },
            text_in_field(r, "type"@, next),
            text_in_field(r, "text"@, next + 1),
            state_in_field(r, next + 2),
        ) {
            (Some(id), Some(index), Some(message_id), Some(part_type), Some(text), Some(state)) => Some(
                PartView { id, index, message_id, part_type, text, state },
            ),
            _ => None,
        }
    }
}

fn state_field(record: &Record, place: usize) -> (r: Option<Option<ToolState>>)
    ensures
        r.deep_view() == state_in_field(record.deep_view(), place as int),
{
    match record.record_field("state", place) {
        None => None,
        Some(None) => Some(None),
        Some(Some(state)) => if !state.fits(1) {
            None
        } else {
            match state.text_field("output", 0) {
                Some(output) => Some(Some(ToolState { output })),
                None => None,
            }
        },
    }
}

/// The part that a record holds.
pub fn part_from(record: &Record, named: bool) -> (r: Option<PartInfo>)
    ensures
        r.deep_view() == part_in(record.deep_view(), named),
{
    let next: usize = if named {
        3
    } else {
        2
    };
    if !record.fits(next + 3) {
        return None;
    }
    let id = match record.text_field("id", 0) {
        Some(id) => id,
        None => return None,
    };
    let names = vec!["index", "order", "sequence"];
    assert(names.deep_view() =~= index_names());
    let index = match record.integer_field(&names, 1) {
        Some(index) => index,
        None => return None,
    };
    let message_id = if named {
        match record.text_field("messageID", 2) {
            Some(id) => id,
            None => return None,
        }
    } else {
        None
    };
    let part_type = match record.text_field("type", next) {
        Some(t) => t,
        None => return None,
    };
    let text = match record.text_field("text", next + 1) {
        Some(t) => t,
        None => return None,
    };
    match state_field(record, next + 2) {
        Some(state) => Some(PartInfo { id, index, message_id, part_type, text, state }),
        None => None,
    }
}

/// A text, the empty one where there is none.
pub open spec fn text_or_empty(t: Option<Seq<char>>) -> Seq<char> {
    or_default(t, Seq::empty())
}

/// Parts are ordered by their place, then by name, kind and text.
pub open spec fn part_order(a: PartView, b: PartView) -> int {
    if place_or_last(a.index) != place_or_last(b.index) {
        place_or_last(a.index) - place_or_last(b.index)
    } else if text_order(text_or_empty(a.id), text_or_empty(b.id)) != 0 {
        text_order(text_or_empty(a.id), text_or_empty(b.id))
    } else if text_order(text_or_empty(a.part_type), text_or_empty(b.part_type)) != 0 {
        text_order(text_or_empty(a.part_type), text_or_empty(b.part_type))
    } else {
        text_order(text_or_empty(a.text), text_or_empty(b.text))
    }
}

/// The order of parts is one.
pub proof fn part_order_laws()
    ensures
        is_order(|a: PartView, b: PartView| part_order(a, b)),
{
    text_order_laws();
    let text = |a: Seq<char>, b: Seq<char>| text_order(a, b);
    let part = |a: PartView, b: PartView| part_order(a, b);
    assert forall|a: PartView, b: PartView| #[trigger] part(a, b) == -part(b, a) by {
        assert(text(text_or_empty(a.id), text_or_empty(b.id)) == -text(text_or_empty(b.id), text_or_empty(a.id)));
        assert(text(text_or_empty(a.part_type), text_or_empty(b.part_type)) == -text(
            text_or_empty(b.part_type),
            text_or_empty(a.part_type),
        ));
        assert(text(text_or_empty(a.text), text_or_empty(b.text)) == -text(
            text_or_empty(b.text),
            text_or_empty(a.text),
        ));
    }
    assert forall|a: PartView, b: PartView, c: PartView|
        #[trigger] part(a, b) <= 0 && #[trigger] part(b, c) <= 0 implies part(a, c) <= 0 by {
        level(text_or_empty(a.id), text_or_empty(b.id), text_or_empty(c.id));
        level(text_or_empty(a.part_type), text_or_empty(b.part_type), text_or_empty(c.part_type));
        level(text_or_empty(a.text), text_or_empty(b.text), text_or_empty(c.text));
    }
}

/// Texts chain: where one step is not level, the whole is not.
proof fn level(a: Seq<char>, b: Seq<char>, c: Seq<char>)
    ensures
        text_order(a, b) <= 0 && text_order(b, c) <= 0 ==> text_order(a, c) <= 0,
        text_order(a, b) < 0 && text_order(b, c) <= 0 ==> text_order(a, c) < 0,
        text_order(a, b) <= 0 && text_order(b, c) < 0 ==> text_order(a, c) < 0,
{
    text_order_laws();
    let text = |x: Seq<char>, y: Seq<char>| text_order(x, y);
    assert(text(a, b) <= 0 && text(b, c) <= 0 ==> text(a, c) <= 0);
    assert(text(a, c) == 0 ==> a == c);
    assert(text(a, b) == -text(b, a));
    assert(text(b, c) == -text(c, b));
}

fn or_empty<'a>(t: &'a Option<String>) -> (r: &'a str)
    ensures
        r@ == text_or_empty(t.deep_view()),
{
    match t {
        Some(t) => t.as_str(),
        None => {
            proof {
                reveal_strlit("");
                assert(""@ =~= Seq::empty());
            }
            ""
        },
    }
}

impl Ranked for PartInfo {
    open spec fn rank(a: PartView, b: PartView) -> int {
        part_order(a, b)
    }

    fn rank_with(&self, other: &PartInfo) -> (r: i8) {
        let a = place_or_last_of(self.index);
        let b = place_or_last_of(other.index);
        if a < b {
            return -1;
        }
        if a > b {
            return 1;
        }
        let step = order_texts(or_empty(&self.id), or_empty(&other.id));
        if step != 0 {
            return step;
        }
        let step = order_texts(or_empty(&self.part_type), or_empty(&other.part_type));
        if step != 0 {
            return step;
        }
        order_texts(or_empty(&self.text), or_empty(&other.text))
    }
}

/// The parts in order.
pub open spec fn sorted_parts(parts: Seq<PartView>) -> Seq<PartView> {
    sorted(parts, |a: PartView, b: PartView| PartInfo::rank(a, b))
}

/// Puts the parts of a message in order.
pub fn sort_parts_for_message(parts: Vec<PartInfo>) -> (r: Vec<PartInfo>)
    ensures
        r.deep_view() == sorted_parts(parts.deep_view()),
{
    sort(parts)
}

/// How many bytes of a single part are kept.
pub const MAX_PART_CONTENT_BYTES: usize = 262_144;

/// How many bytes of a message are kept before anything more is left out.
pub const MAX_MESSAGE_CONTENT_BYTES: usize = 1_048_576;

/// The mark behind a part of which that many bytes were cut off.
pub open spec fn cut_mark(bytes: nat) -> Seq<char> {
    "\n[… truncated "@ + decimal(bytes) + " bytes]"@
}

/// A body, cut off with a mark where it is too long.
pub open spec fn capped_body(body: Seq<char>) -> Seq<char> {
    let kept = fitting(body, MAX_PART_CONTENT_BYTES as int);
    if byte_len(body) > MAX_PART_CONTENT_BYTES {
        kept + cut_mark((byte_len(body) - byte_len(kept)) as nat)
    } else {
        kept
    }
}

/// A body that is short enough is kept as it is.
pub proof fn short_body_is_kept(body: Seq<char>)
    requires
        byte_len(body) <= MAX_PART_CONTENT_BYTES,
    ensures
        capped_body(body) == body,
{
}

/// Cuts off a body that is too long.
pub fn cap_part_body(body: &str) -> (r: String)
    ensures
        r@ == capped_body(body@),
        byte_len(r@) <= MAX_PART_CONTENT_BYTES + 43,
{
    let total = byte_len_of(body);
    proof {
        fitting_is_longest(body@, MAX_PART_CONTENT_BYTES as int);
        capped_body_is_short(body@);
    }
    let (head, cut) = truncate_on_char_boundary(body, MAX_PART_CONTENT_BYTES);
    if !cut {
        return head;
    }
    let lost = (total - byte_len_of(head.as_str())) as u64;
    let mut out = head;
    push_text(&mut out, "\n[… truncated ");
    push_text(&mut out, decimal_of(lost).as_str());
    push_text(&mut out, " bytes]");
    assert(out@ =~= capped_body(body@));
    out
}

/// A body under a heading, unless it is missing or blank.
pub open spec fn headed(heading: Seq<char>, body: Option<Seq<char>>) -> Option<Seq<char>> {
    match body {
        Some(body) => if blank(body) {
            None
        } else {
            Some(heading + capped_body(body))
        },
        None => None,
    }
}

/// What a part adds to the message, if anything.
pub open spec fn part_piece(part: PartView) -> Option<Seq<char>> {
    if part.part_type == Some("text"@) {
        headed(""@, part.text)
    } else if part.part_type == Some("tool"@) {
        headed(
            "[Tool Output]\n"@,
            match part.state {
                Some(output) => output,
                None => None,
            },
        )
    } else if part.part_type == Some("reasoning"@) {
        headed("[Reasoning]\n"@, part.text)
    } else if part.part_type == Some("patch"@) {
        headed("[Patch]\n"@, part.text)
    } else {
        None
    }
}

fn heading_over(heading: &str, body: Option<&str>) -> (r: Option<String>)
    ensures
        r.deep_view() == headed(heading@, body.deep_view()),
        r matches Some(piece) ==> byte_len(piece@) <= byte_len(heading@) + MAX_PART_CONTENT_BYTES + 43,
{
    match body {
        Some(body) => if is_blank(body) {
            None
        } else {
            let kept = cap_part_body(body);
            proof {
                byte_len_concat(heading@, kept@);
            }
            Some(cat(heading, kept.as_str()))
        },
        None => None,
    }
}

fn piece_of(part: &PartInfo) -> (r: Option<String>)
    ensures
        r.deep_view() == part_piece(part.deep_view()),
        r matches Some(piece) ==> byte_len(piece@) <= MAX_PART_CONTENT_BYTES + 57,
{
    proof {
        literal_bytes();
    }
    let kind = match &part.part_type {
        Some(kind) => kind.as_str(),
        None => return None,
    };
    if same_text(kind, "text") {
        heading_over("", text_ref(&part.text))
    } else if same_text(kind, "tool") {
        let output = match &part.state {
            Some(state) => text_ref(&state.output),
            None => None,
        };
        heading_over("[Tool Output]\n", output)
    } else if same_text(kind, "reasoning") {
        heading_over("[Reasoning]\n", text_ref(&part.text))
    } else if same_text(kind, "patch") {
        heading_over("[Patch]\n", text_ref(&part.text))
    } else {
        None
    }
}

/// What was put together so far.
#[verifier::ext_equal]
pub struct Assembly {
    pub pieces: Seq<Seq<char>>,
    /// How many bytes the pieces take, each with a separator.
    pub bytes: int,
    /// Whether something was left out.
    pub full: bool,
}

/// The mark in the place of what is left out.
pub open spec fn left_out() -> Seq<char> {
    "[… message content truncated]"@
}

/// The message with another part. Once the limit is reached, a part that would
/// add something leaves a mark, and nothing follows.
pub open spec fn with_part(a: Assembly, part: PartView) -> Assembly {
    match part_piece(part) {
        Some(piece) => if a.full {
            a
        } else if a.bytes >= MAX_MESSAGE_CONTENT_BYTES {
            Assembly { pieces: a.pieces.push(left_out()), full: true, ..a }
        } else {
            Assembly { pieces: a.pieces.push(piece), bytes: a.bytes + byte_len(piece) + 2, ..a }
        },
        None => a,
    }
}

pub open spec fn assembly(parts: Seq<PartView>) -> Assembly
    decreases parts.len(),
{
    if parts.len() == 0 {
        Assembly { pieces: Seq::empty(), bytes: 0, full: false }
    } else {
        with_part(assembly(parts.drop_last()), parts.last())
    }
}

/// The content of a message of these parts.
pub open spec fn assembled(parts: Seq<PartView>) -> Seq<char> {
    join(assembly(parts).pieces, "\n\n"@)
}

proof fn full_stays(parts: Seq<PartView>, n: int)
    requires
        0 <= n <= parts.len(),
        assembly(parts.take(n)).full,
    ensures
        assembly(parts) == assembly(parts.take(n)),
    decreases parts.len() - n,
{
    if n < parts.len() {
        assert(parts.take(n + 1).drop_last() =~= parts.take(n));
        assert(assembly(parts.take(n + 1)) == assembly(parts.take(n)));
        full_stays(parts, n + 1);
    } else {
        assert(parts.take(n) =~= parts);
    }
}

/// Puts the content of a message together.
pub fn assemble_content_from_parts(parts: &Vec<PartInfo>) -> (r: String)
    ensures
        r@ == assembled(parts.deep_view()),
{
    let ghost all = parts.deep_view();
    let mut pieces: Vec<String> = Vec::new();
    let mut total: usize = 0;
    let mut full = false;
    let mut i: usize = 0;
    assert(all.take(0) =~= Seq::empty());
    assert(pieces.deep_view() =~= Seq::empty());
    while i < parts.len() && !full
        invariant
            i <= parts@.len(),
            all == parts.deep_view(),
            assembly(all.take(i as int)) == (Assembly {
                pieces: pieces.deep_view(),
                bytes: total as int,
                full,
            }),
            total <= MAX_MESSAGE_CONTENT_BYTES + MAX_PART_CONTENT_BYTES + 100,
        decreases parts.len() - i,
    {
        let part = &parts[i];
        assert(all.take(i + 1).drop_last() =~= all.take(i as int));
        assert(all.take(i + 1).last() == part.deep_view());
        let ghost before = pieces.deep_view();
        if let Some(piece) = piece_of(part) {
            if total >= MAX_MESSAGE_CONTENT_BYTES {
                pieces.push("[… message content truncated]".to_owned());
                full = true;
                assert(pieces.deep_view() =~= before.push(left_out()));
            } else {
                total = total + byte_len_of(piece.as_str()) + 2;
                let ghost p = piece@;
                pieces.push(piece);
                assert(pieces.deep_view() =~= before.push(p));
            }
        }
        i = i + 1;
    }
    proof {
        if full {
            full_stays(all, i as int);
        }
        assert(all.take(all.len() as int) =~= all);
    }
    join_texts(&pieces, "\n\n")
}

proof fn decimal_is_short(n: nat, digits: nat, bound: nat)
    requires
        digits >= 1,
        bound == vstd::arithmetic::power::pow(10, digits),
        n < bound,
    ensures
        decimal(n).len() <= digits,
        forall|i: int| 0 <= i < decimal(n).len() ==> (#[trigger] decimal(n)[i] as u32) < 0x80,
    decreases digits,
{
    if n >= 10 {
        reveal(vstd::arithmetic::power::pow);
        let smaller = vstd::arithmetic::power::pow(10, (digits - 1) as nat);
        assert(bound == 10 * smaller);
        if digits == 1 {
            assert(smaller == 1);
        } else {
            assert(n / 10 < smaller);
            decimal_is_short(n / 10, (digits - 1) as nat, smaller as nat);
        }
    }
}

/// A text of ASCII takes a byte for each character.
proof fn ascii_bytes(s: Seq<char>)
    requires
        forall|i: int| 0 <= i < s.len() ==> (#[trigger] s[i] as u32) < 0x80,
    ensures
        byte_len(s) == s.len(),
    decreases s.len(),
{
    if s.len() > 0 {
        let front = s.drop_last();
        assert forall|i: int| 0 <= i < front.len() implies (#[trigger] front[i] as u32) < 0x80 by {
            assert(front[i] == s[i]);
        }
        ascii_bytes(front);
        assert(s[s.len() - 1] == s.last());
        crate::bytes::byte_len_push(front, s.last());
        assert(front.push(s.last()) =~= s);
    }
}

proof fn literal_bytes()
    ensures
        byte_len("\n[… truncated "@) == 16,
        byte_len(" bytes]"@) == 7,
        byte_len(left_out()) == 31,
        byte_len("[Tool Output]\n"@) == 14,
        byte_len("[Reasoning]\n"@) == 12,
        byte_len("[Patch]\n"@) == 8,
        byte_len(""@) == 0,
        byte_len("\n\n"@) == 2,
{
    reveal_strlit("\n[… truncated ");
    reveal_strlit(" bytes]");
    reveal_strlit("[… message content truncated]");
    reveal_strlit("[Tool Output]\n");
    reveal_strlit("[Reasoning]\n");
    reveal_strlit("[Patch]\n");
    reveal_strlit("");
    reveal_strlit("\n\n");
    ascii_bytes(" bytes]"@);
    ascii_bytes("[Tool Output]\n"@);
    ascii_bytes("[Reasoning]\n"@);
    ascii_bytes("[Patch]\n"@);
    ascii_bytes(""@);
    ascii_bytes("\n\n"@);
    let a = "\n[… truncated "@;
    assert(a =~= seq!['\n', '['].push('…') + a.skip(3));
    byte_len_concat(seq!['\n', '['].push('…'), a.skip(3));
    crate::bytes::byte_len_push(seq!['\n', '['], '…');
    ascii_bytes(seq!['\n', '[']);
    assert forall|i: int| 0 <= i < a.skip(3).len() implies (#[trigger] a.skip(3)[i] as u32) < 0x80 by {
        assert(a.skip(3)[i] == a[i + 3]);
    }
    ascii_bytes(a.skip(3));
    let b = left_out();
    assert(b =~= seq!['['].push('…') + b.skip(2));
    byte_len_concat(seq!['['].push('…'), b.skip(2));
    crate::bytes::byte_len_push(seq!['['], '…');
    ascii_bytes(seq!['[']);
    assert forall|i: int| 0 <= i < b.skip(2).len() implies (#[trigger] b.skip(2)[i] as u32) < 0x80 by {
        assert(b.skip(2)[i] == b[i + 2]);
    }
    ascii_bytes(b.skip(2));
}

/// A body that memory can hold leaves a short piece.
pub proof fn capped_body_is_short(body: Seq<char>)
    requires
        byte_len(body) <= u64::MAX,
    ensures
        byte_len(capped_body(body)) <= MAX_PART_CONTENT_BYTES + 43,
{
    let kept = fitting(body, MAX_PART_CONTENT_BYTES as int);
    fitting_is_longest(body, MAX_PART_CONTENT_BYTES as int);
    if byte_len(body) > MAX_PART_CONTENT_BYTES {
        let lost = (byte_len(body) - byte_len(kept)) as nat;
        literal_bytes();
        assert(vstd::arithmetic::power::pow(10, 20) == 100_000_000_000_000_000_000) by {
            reveal_with_fuel(vstd::arithmetic::power::pow, 21);
        }
        decimal_is_short(lost, 20, 100_000_000_000_000_000_000);
        ascii_bytes(decimal(lost));
        byte_len_concat("\n[… truncated "@, decimal(lost));
        byte_len_concat("\n[… truncated "@ + decimal(lost), " bytes]"@);
        byte_len_concat(kept, cut_mark(lost));
    }
}

/// Whether memory can hold the texts of a part.
pub open spec fn is_storable(part: PartView) -> bool {
    &&& part.text matches Some(t) ==> byte_len(t) <= u64::MAX
    &&& part.state matches Some(Some(t)) ==> byte_len(t) <= u64::MAX
}

/// What a part adds is short.
pub proof fn piece_is_short(part: PartView)
    requires
        is_storable(part),
    ensures
        part_piece(part) matches Some(piece) ==> byte_len(piece) <= MAX_PART_CONTENT_BYTES + 57,
{
    literal_bytes();
    if let Some(t) = part.text {
        capped_body_is_short(t);
        byte_len_concat(""@, capped_body(t));
        byte_len_concat("[Reasoning]\n"@, capped_body(t));
        byte_len_concat("[Patch]\n"@, capped_body(t));
    }
    if let Some(Some(t)) = part.state {
        capped_body_is_short(t);
        byte_len_concat("[Tool Output]\n"@, capped_body(t));
    }
}

/// How many bytes pieces take once they are joined.
proof fn join_bytes(pieces: Seq<Seq<char>>, piece: Seq<char>)
    ensures
        byte_len(join(pieces.push(piece), "\n\n"@)) == if pieces.len() == 0 {
            byte_len(piece)
        } else {
            byte_len(join(pieces, "\n\n"@)) + 2 + byte_len(piece)
        },
{
    literal_bytes();
    let more = pieces.push(piece);
    assert(more.drop_last() =~= pieces);
    if pieces.len() > 0 {
        let front = join(pieces, "\n\n"@);
        byte_len_concat(front, "\n\n"@);
        byte_len_concat(front + "\n\n"@, piece);
        assert(join(more, "\n\n"@) =~= front + "\n\n"@ + piece);
    } else {
        assert(join(more, "\n\n"@) =~= piece);
    }
}

/// The count of bytes is that of the joined pieces.
proof fn assembly_counts(parts: Seq<PartView>)
    ensures
        ({
            let a = assembly(parts);
            &&& a.pieces.len() == 0 ==> a.bytes == 0
            &&& !a.full && a.pieces.len() > 0 ==> a.bytes == byte_len(join(a.pieces, "\n\n"@)) + 2
            &&& a.full ==> byte_len(join(a.pieces, "\n\n"@)) == a.bytes + 31
            &&& a.bytes >= 0
        }),
    decreases parts.len(),
{
    if parts.len() > 0 {
        let front = assembly(parts.drop_last());
        assembly_counts(parts.drop_last());
        literal_bytes();
        if let Some(piece) = part_piece(parts.last()) {
            join_bytes(front.pieces, piece);
            join_bytes(front.pieces, left_out());
        }
    }
}

proof fn assembly_bytes_bounded(parts: Seq<PartView>)
    requires
        forall|i: int| 0 <= i < parts.len() ==> is_storable(#[trigger] parts[i]),
    ensures
        assembly(parts).bytes <= MAX_MESSAGE_CONTENT_BYTES + MAX_PART_CONTENT_BYTES + 58,
    decreases parts.len(),
{
    if parts.len() > 0 {
        let front = parts.drop_last();
        assert forall|i: int| 0 <= i < front.len() implies is_storable(#[trigger] front[i]) by {
            assert(front[i] == parts[i]);
        }
        assembly_bytes_bounded(front);
        assert(is_storable(parts[parts.len() - 1]));
        piece_is_short(parts.last());
    }
}

/// The content of a message is bounded, however many and however long its parts
/// are: by the two limits and the marks and headings around what is kept.
pub proof fn assembled_content_is_bounded(parts: Seq<PartView>)
    requires
        forall|i: int| 0 <= i < parts.len() ==> is_storable(#[trigger] parts[i]),
    ensures
        byte_len(assembled(parts)) <= MAX_MESSAGE_CONTENT_BYTES + MAX_PART_CONTENT_BYTES + 89,
{
    assembly_counts(parts);
    assembly_bytes_bounded(parts);
    if assembly(parts).pieces.len() == 0 {
        assert(join(assembly(parts).pieces, "\n\n"@) =~= Seq::<char>::empty());
        assert(vstd::utf8::encode_utf8(Seq::<char>::empty()) =~= Seq::empty());
    }
}

/// What a part adds when nothing is cut off.
pub open spec fn whole_piece(part: PartView) -> Option<Seq<char>> {
    if part.part_type == Some("text"@) {
        whole_headed(""@, part.text)
    } else if part.part_type == Some("tool"@) {
        whole_headed(
            "[Tool Output]\n"@,
            match part.state {
                Some(output) => output,
                None => None,
            },
        )
    } else if part.part_type == Some("reasoning"@) {
        whole_headed("[Reasoning]\n"@, part.text)
    } else if part.part_type == Some("patch"@) {
        whole_headed("[Patch]\n"@, part.text)
    } else {
        None
    }
}

/// A body under a heading, of whatever length, unless it is missing or blank.
pub open spec fn whole_headed(heading: Seq<char>, body: Option<Seq<char>>) -> Option<Seq<char>> {
    match body {
        Some(body) => if blank(body) {
            None
        } else {
            Some(heading + body)
        },
        None => None,
    }
}

/// What the parts add when nothing is cut off or left out.
pub open spec fn whole_pieces(parts: Seq<PartView>) -> Seq<Seq<char>>
    decreases parts.len(),
{
    if parts.len() == 0 {
        Seq::empty()
    } else {
        match whole_piece(parts.last()) {
            Some(piece) => whole_pieces(parts.drop_last()).push(piece),
            None => whole_pieces(parts.drop_last()),
        }
    }
}

/// Whether the bodies of a part are short enough to be kept as they are.
pub open spec fn is_short(part: PartView) -> bool {
    &&& part.text matches Some(t) ==> byte_len(t) <= MAX_PART_CONTENT_BYTES
    &&& part.state matches Some(Some(t)) ==> byte_len(t) <= MAX_PART_CONTENT_BYTES
}

/// Content below the limits is kept as it is.
pub proof fn content_below_the_limits_is_whole(parts: Seq<PartView>)
    requires
        forall|i: int| 0 <= i < parts.len() ==> is_short(#[trigger] parts[i]),
        byte_len(join(whole_pieces(parts), "\n\n"@)) < MAX_MESSAGE_CONTENT_BYTES,
    ensures
        assembled(parts) == join(whole_pieces(parts), "\n\n"@),
        assembly(parts).pieces == whole_pieces(parts),
        !assembly(parts).full,
    decreases parts.len(),
{
    if parts.len() > 0 {
        let front = parts.drop_last();
        assert forall|i: int| 0 <= i < front.len() implies is_short(#[trigger] front[i]) by {
            assert(front[i] == parts[i]);
        }
        assert(is_short(parts[parts.len() - 1]));
        assert(whole_piece(parts.last()) == part_piece(parts.last()));
        if let Some(piece) = whole_piece(parts.last()) {
            join_bytes(whole_pieces(front), piece);
            if whole_pieces(front).len() == 0 {
                assert(join(whole_pieces(front), "\n\n"@) =~= Seq::<char>::empty());
                assert(vstd::utf8::encode_utf8(Seq::<char>::empty()) =~= Seq::empty());
            }
        }
        content_below_the_limits_is_whole(front);
        assembly_counts(front);
    }
}

/// The parts of a message are put in order by their index, those without one behind the
/// others; of parts that share an index or all have none, the one whose name comes first
/// comes first, then by kind and by text. Each part is kept, once, and of parts alike in
/// all of these the one that was given first comes first.
pub proof fn parts_are_in_order(parts: Seq<PartView>) -> (places: Seq<int>)
    ensures
        sorted_parts(parts).len() == parts.len(),
        places.len() == parts.len(),
        forall|i: int|
            0 <= i < parts.len() ==> 0 <= #[trigger] places[i] < parts.len() && sorted_parts(parts)[i] == parts[places[i]],
        forall|i: int, j: int| 0 <= i < j < parts.len() ==> #[trigger] places[i] != #[trigger] places[j],
        forall|i: int, j: int|
            0 <= i < j < parts.len() ==> match (
                (#[trigger] sorted_parts(parts)[i]).index,
                (#[trigger] sorted_parts(parts)[j]).index,
            ) {
                (Some(x), Some(y)) => x <= y,
                (None, Some(y)) => y == i64::MAX,
                _ => true,
            },
        forall|i: int, j: int|
            0 <= i < j < parts.len() ==> {
                let a = #[trigger] sorted_parts(parts)[i];
                let b = #[trigger] sorted_parts(parts)[j];
                a.index == b.index ==> match (a.id, b.id) {
                    (Some(x), Some(y)) => text_order(x, y) <= 0,
                    (Some(x), None) => x.len() == 0,
                    _ => true,
                }
            },
        forall|i: int, j: int|
            0 <= i < j < parts.len() ==> {
                let a = #[trigger] sorted_parts(parts)[i];
                let b = #[trigger] sorted_parts(parts)[j];
                a.index == b.index && a.id == b.id ==> match (a.part_type, b.part_type) {
                    (Some(x), Some(y)) => text_order(x, y) <= 0,
                    (Some(x), None) => x.len() == 0,
                    _ => true,
                }
            },
        forall|i: int, j: int|
            0 <= i < j < parts.len() ==> {
                let a = #[trigger] sorted_parts(parts)[i];
                let b = #[trigger] sorted_parts(parts)[j];
                a.index == b.index && a.id == b.id && a.part_type == b.part_type ==> match (a.text, b.text) {
                    (Some(x), Some(y)) => text_order(x, y) <= 0,
                    (Some(x), None) => x.len() == 0,
                    _ => true,
                } && (a.text == b.text ==> places[i] < places[j])
            },
{
    let order = |a: PartView, b: PartView| PartInfo::rank(a, b);
    part_order_laws();
    text_order_laws();
    assert(order =~= (|a: PartView, b: PartView| part_order(a, b)));
    let places = sorted_is_arrangement(parts, order);
    let text = |a: Seq<char>, b: Seq<char>| text_order(a, b);
    let r = sorted_parts(parts);
    assert forall|i: int, j: int| 0 <= i < j < parts.len() implies part_order(#[trigger] r[i], #[trigger] r[j]) < 0 || (
    part_order(r[i], r[j]) == 0 && places[i] < places[j]) by {
        assert(r[i] == parts[places[i]] && r[j] == parts[places[j]]);
        assert(order(parts[places[i]], parts[places[j]]) <= 0);
    }
    assert(forall|x: Seq<char>| #[trigger] text_order(x, x) == 0) by {
        assert forall|x: Seq<char>| #[trigger] text_order(x, x) == 0 by {
            assert(text(x, x) == 0);
        }
    }
    assert forall|i: int, j: int| 0 <= i < j < parts.len() implies ({
        let a = #[trigger] r[i];
        let b = #[trigger] r[j];
        &&& a.index == b.index ==> match (a.id, b.id) {
            (Some(x), Some(y)) => text_order(x, y) <= 0,
            (Some(x), None) => x.len() == 0,
            _ => true,
        }
        &&& a.index == b.index && a.id == b.id ==> match (a.part_type, b.part_type) {
            (Some(x), Some(y)) => text_order(x, y) <= 0,
            (Some(x), None) => x.len() == 0,
            _ => true,
        }
        &&& a.index == b.index && a.id == b.id && a.part_type == b.part_type ==> match (a.text, b.text) {
            (Some(x), Some(y)) => text_order(x, y) <= 0,
            (Some(x), None) => x.len() == 0,
            _ => true,
        }
        &&& a.index == b.index && a.id == b.id && a.part_type == b.part_type && a.text == b.text ==> places[i] < places[j]
    }) by {
        let a = r[i];
        let b = r[j];
        assert(part_order(a, b) < 0 || (part_order(a, b) == 0 && places[i] < places[j]));
    }
    places
}

/// What a single part makes of a message: its text as it stands, or under a heading that
/// tells of reasoning, a patch or the output of a tool. What is blank, missing or of
/// another kind makes nothing.
pub proof fn single_parts_say_their_text(part: PartView, body: Seq<char>)
    requires
        !blank(body),
        byte_len(body) <= MAX_PART_CONTENT_BYTES,
    ensures
        part.part_type == Some("text"@) && part.text == Some(body) ==> assembled(seq![part]) == body,
        part.part_type == Some("reasoning"@) && part.text == Some(body) ==> assembled(seq![part]) == "[Reasoning]\n"@
            + body,
        part.part_type == Some("patch"@) && part.text == Some(body) ==> assembled(seq![part]) == "[Patch]\n"@ + body,
        part.part_type == Some("tool"@) && part.state == Some(Some(body)) ==> assembled(seq![part])
            == "[Tool Output]\n"@ + body,
        part.part_type is None ==> assembled(seq![part]).len() == 0,
        part.part_type matches Some(kind) && kind != "text"@ && kind != "reasoning"@ && kind != "patch"@ && kind
            != "tool"@ ==> assembled(seq![part]).len() == 0,
        part.part_type != Some("tool"@) && (part.text is None || blank(part.text->0)) ==> assembled(seq![part]).len()
            == 0,
        part.part_type == Some("tool"@) && !(part.state matches Some(Some(_))) ==> assembled(seq![part]).len() == 0,
        part.part_type == Some("tool"@) ==> (part.state matches Some(Some(output)) ==> (blank(output) ==> assembled(
            seq![part],
        ).len() == 0)),
{
    reveal_strlit("");
    reveal_strlit("text");
    reveal_strlit("tool");
    reveal_strlit("reasoning");
    reveal_strlit("patch");
    assert("text"@[1] != "tool"@[1]);
    assert("text"@.len() == 4 && "tool"@.len() == 4 && "reasoning"@.len() == 9 && "patch"@.len() == 5);
    let one = seq![part];
    assert(assembly(one.drop_last()) == (Assembly { pieces: Seq::empty(), bytes: 0, full: false }));
    assert(one.last() == part);
    short_body_is_kept(body);
    assert(""@ + body =~= body);
    match part_piece(part) {
        Some(piece) => {
            assert(assembly(one).pieces =~= seq![piece]);
        },
        None => {
            assert(assembly(one).pieces =~= Seq::empty());
        },
    }
}

proof fn whole_pieces_in_two_steps(a: Seq<PartView>, b: Seq<PartView>)
    ensures
        whole_pieces(a + b) == whole_pieces(a) + whole_pieces(b),
    decreases b.len(),
{
    let all = a + b;
    if b.len() == 0 {
        assert(all =~= a);
        assert(whole_pieces(a) + whole_pieces(b) =~= whole_pieces(a));
    } else {
        assert(all.drop_last() =~= a + b.drop_last());
        whole_pieces_in_two_steps(a, b.drop_last());
        assert(whole_pieces(all) =~= whole_pieces(a) + whole_pieces(b));
    }
}

/// The content of a message is that of its parts in their order, with an empty line
/// between what one part says and what the next says: below the limits, the parts before
/// any place and those from it on can be put together on their own, and nothing of either
/// is lost.
pub proof fn parts_are_put_together_in_order(a: Seq<PartView>, b: Seq<PartView>)
    requires
        forall|i: int| 0 <= i < a.len() ==> is_short(#[trigger] a[i]),
        forall|i: int| 0 <= i < b.len() ==> is_short(#[trigger] b[i]),
        byte_len(assembled(a)) + 2 + byte_len(assembled(b)) < MAX_MESSAGE_CONTENT_BYTES,
    ensures
        assembled(a).len() > 0 && assembled(b).len() > 0 ==> assembled(a + b) == assembled(a) + "\n\n"@ + assembled(b),
        assembled(a).len() == 0 ==> assembled(a + b) == assembled(b),
        assembled(b).len() == 0 ==> assembled(a + b) == assembled(a),
{
    let all = a + b;
    short_content_is_whole(a);
    short_content_is_whole(b);
    whole_pieces_in_two_steps(a, b);
    whole_pieces_are_not_empty(a);
    whole_pieces_are_not_empty(b);
    let x = whole_pieces(a);
    let y = whole_pieces(b);
    literal_bytes();
    if x.len() == 0 {
        assert(x + y =~= y);
    } else if y.len() == 0 {
        assert(x + y =~= x);
    } else {
        join_in_two_steps(x, y, "\n\n"@);
        byte_len_concat(join(x, "\n\n"@), "\n\n"@);
        byte_len_concat(join(x, "\n\n"@) + "\n\n"@, join(y, "\n\n"@));
    }
    assert forall|i: int| 0 <= i < all.len() implies is_short(#[trigger] all[i]) by {
        if i < a.len() {
            assert(all[i] == a[i]);
        } else {
            assert(all[i] == b[i - a.len()]);
        }
    }
    content_below_the_limits_is_whole(all);
}

proof fn whole_pieces_are_not_empty(parts: Seq<PartView>)
    ensures
        whole_pieces(parts).len() == 0 <==> join(whole_pieces(parts), "\n\n"@).len() == 0,
        whole_pieces(parts).len() > 0 ==> whole_pieces(parts).last().len() > 0,
    decreases parts.len(),
{
    if parts.len() > 0 {
        let front = parts.drop_last();
        whole_pieces_are_not_empty(front);
        if let Some(piece) = whole_piece(parts.last()) {
            let pieces = whole_pieces(parts);
            assert(piece.len() > 0);
            assert(pieces.drop_last() =~= whole_pieces(front));
            if pieces.len() == 1 {
                assert(pieces[0] == piece);
            }
        }
    }
}

proof fn assembly_is_whole_unless_long(parts: Seq<PartView>)
    requires
        forall|i: int| 0 <= i < parts.len() ==> is_short(#[trigger] parts[i]),
    ensures
        !assembly(parts).full ==> assembly(parts).pieces == whole_pieces(parts),
        assembly(parts).full ==> assembly(parts).bytes >= MAX_MESSAGE_CONTENT_BYTES,
    decreases parts.len(),
{
    if parts.len() > 0 {
        let front = parts.drop_last();
        assert forall|i: int| 0 <= i < front.len() implies is_short(#[trigger] front[i]) by {
            assert(front[i] == parts[i]);
        }
        assert(is_short(parts[parts.len() - 1]));
        assert(whole_piece(parts.last()) == part_piece(parts.last()));
        assembly_is_whole_unless_long(front);
    }
}

proof fn short_content_is_whole(parts: Seq<PartView>)
    requires
        forall|i: int| 0 <= i < parts.len() ==> is_short(#[trigger] parts[i]),
        byte_len(assembled(parts)) < MAX_MESSAGE_CONTENT_BYTES,
    ensures
        assembled(parts) == join(whole_pieces(parts), "\n\n"@),
{
    assembly_is_whole_unless_long(parts);
    assembly_counts(parts);
}

/// A body that is too long is cut after as many characters as fit, at most a few short of
/// the limit, and a mark behind it tells that something was cut off.
pub proof fn long_bodies_are_cut_at_the_limit(body: Seq<char>)
    requires
        byte_len(body) > MAX_PART_CONTENT_BYTES,
    ensures
        ({
            let kept = fitting(body, MAX_PART_CONTENT_BYTES as int);
            &&& kept == body.take(kept.len() as int)
            &&& MAX_PART_CONTENT_BYTES - 4 < byte_len(kept) <= MAX_PART_CONTENT_BYTES
            &&& capped_body(body) == kept + "\n[… truncated "@ + decimal((byte_len(body) - byte_len(kept)) as nat)
                + " bytes]"@
        }),
{
    let kept = fitting(body, MAX_PART_CONTENT_BYTES as int);
    fitting_is_longest(body, MAX_PART_CONTENT_BYTES as int);
    if kept.len() == body.len() {
        assert(body.take(body.len() as int) =~= body);
    }
    let n = kept.len() as int;
    assert(body.take(n + 1) =~= kept.push(body[n]));
    crate::bytes::byte_len_push(kept, body[n]);
    let lost = (byte_len(body) - byte_len(kept)) as nat;
    assert(capped_body(body) =~= kept + "\n[… truncated "@ + decimal(lost) + " bytes]"@);
}

/// The record of a part gives its name, its place under whichever of its names, its kind,
/// its text and the output of its tool under those names, or in that order; with the name
/// of its message behind the place where that may be given.
pub proof fn part_records_are_read(r: RecordView, part: PartView)
    ensures
        part_in(r, false) == Some(part) ==> {
            &&& text_in_field(r, "id"@, 0) == Some(part.id)
            &&& integer_in_field(r, seq!["index"@, "order"@, "sequence"@], 1) == Some(part.index)
            &&& part.message_id is None
            &&& text_in_field(r, "type"@, 2) == Some(part.part_type)
            &&& text_in_field(r, "text"@, 3) == Some(part.text)
            &&& record_in_field(r, "state"@, 4) matches Some(Some(state)) ==> text_in_field(state, "output"@, 0)
                == Some(part.state->0) && part.state is Some
            &&& record_in_field(r, "state"@, 4) matches Some(None) ==> part.state is None
        },
        part_in(r, true) == Some(part) ==> {
            &&& text_in_field(r, "id"@, 0) == Some(part.id)
            &&& integer_in_field(r, seq!["index"@, "order"@, "sequence"@], 1) == Some(part.index)
            &&& text_in_field(r, "messageID"@, 2) == Some(part.message_id)
            &&& text_in_field(r, "type"@, 3) == Some(part.part_type)
            &&& text_in_field(r, "text"@, 4) == Some(part.text)
            &&& record_in_field(r, "state"@, 5) matches Some(Some(state)) ==> text_in_field(state, "output"@, 0)
                == Some(part.state->0) && part.state is Some
            &&& record_in_field(r, "state"@, 5) matches Some(None) ==> part.state is None
        },
{
}

} // verus!
