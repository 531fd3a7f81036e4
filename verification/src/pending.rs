//! Messages before they are put in order.
use vstd::prelude::*;
use crate::lines::{headline, headline_of};
use crate::model::{is_numbered, numbered, numbering, reindex_messages, Message, MessageView};
use crate::order::{is_order, order_texts, sort, sorted, sorted_is_arrangement, text_order, text_order_laws, Ranked};

verus! {

/// A place, the last of all where there is none.
pub open spec fn place_or_last(n: Option<i64>) -> int {
    match n {
        Some(n) => n as int,
        None => i64::MAX as int,
    }
}

pub fn place_or_last_of(n: Option<i64>) -> (r: i64)
    ensures
        r == place_or_last(n),
{
    match n {
        Some(n) => n,
        None => 0x7fff_ffff_ffff_ffff,
    }
}

/// A message whose place is not known yet.
pub struct PendingMessage {
    pub message_id: String,
    pub message: Message,
}

#[verifier::ext_equal]
pub struct PendingView {
    pub message_id: Seq<char>,
    pub message: MessageView,
}

impl DeepView for PendingMessage {
    type V = PendingView;

    open spec fn deep_view(&self) -> PendingView {
        PendingView { message_id: self.message_id@, message: self.message.deep_view() }
    }
}

/// Messages are ordered by time, those without one last, and then by name.
pub open spec fn pending_order(a: PendingView, b: PendingView) -> int {
    let x = place_or_last(a.message.created_at);
    let y = place_or_last(b.message.created_at);
    if x != y {
        x - y
    } else {
        text_order(a.message_id, b.message_id)
    }
}

/// The order of messages is one.
pub proof fn pending_order_laws()
    ensures
        is_order(|a: PendingView, b: PendingView| pending_order(a, b)),
{
    text_order_laws();
    let text = |a: Seq<char>, b: Seq<char>| text_order(a, b);
    let order = |a: PendingView, b: PendingView| pending_order(a, b);
    assert forall|a: PendingView, b: PendingView| #[trigger] order(a, b) == -order(b, a) by {
        assert(text(a.message_id, b.message_id) == -text(b.message_id, a.message_id));
    }
    assert forall|a: PendingView, b: PendingView, c: PendingView|
        #[trigger] order(a, b) <= 0 && #[trigger] order(b, c) <= 0 implies order(a, c) <= 0 by {
        assert(text(a.message_id, b.message_id) <= 0 && text(b.message_id, c.message_id) <= 0 ==> text(
            a.message_id,
            c.message_id,
        ) <= 0);
    }
}

impl Ranked for PendingMessage {
    open spec fn rank(a: PendingView, b: PendingView) -> int {
        pending_order(a, b)
    }

    fn rank_with(&self, other: &PendingMessage) -> (r: i8) {
        let a = place_or_last_of(self.message.created_at);
        let b = place_or_last_of(other.message.created_at);
        if a < b {
            -1
        } else if a > b {
            1
        } else {
            order_texts(self.message_id.as_str(), other.message_id.as_str())
        }
    }
}

/// The messages in order, each with its place.
pub open spec fn ordered_messages(pending: Seq<PendingView>) -> Seq<MessageView> {
    numbered(
        sorted(pending, |a: PendingView, b: PendingView| PendingMessage::rank(a, b)).map_values(
            |p: PendingView| p.message,
        ),
    )
}

/// Puts messages in order, each with its place.
pub fn order_messages(pending: Vec<PendingMessage>) -> (r: Vec<Message>)
    ensures
        r.deep_view() == ordered_messages(pending.deep_view()),
{
    let settled = sort(pending);
    let ghost all = settled.deep_view().map_values(|p: PendingView| p.message);
    let mut messages: Vec<Message> = Vec::new();
    assert(messages.deep_view() =~= all.take(0));
    for p in it: settled
        invariant
            it.seq() == settled@,
            all == settled.deep_view().map_values(|p: PendingView| p.message),
            messages.deep_view() == all.take(it.index() as int),
    {
        let ghost n = it.index() as int;
        let ghost before = messages.deep_view();
        let ghost m = p.message.deep_view();
        messages.push(p.message);
        assert(messages.deep_view() =~= before.push(m));
        assert(all[n] == m);
        assert(all.take(n + 1) =~= all.take(n).push(m));
    }
    assert(all.take(all.len() as int) =~= all);
    reindex_messages(&mut messages);
    messages
}

/// Ordered messages carry their places, and are those that were given.
pub proof fn ordered_messages_are_given(pending: Seq<PendingView>)
    ensures
        is_numbered(ordered_messages(pending)),
        ordered_messages(pending).len() == pending.len(),
        forall|i: int|
            0 <= i < pending.len() ==> exists|k: int|
                0 <= k < pending.len() && (#[trigger] pending[k]).message.content == (
                #[trigger] ordered_messages(pending)[i]).content,
        forall|i: int, j: int|
            0 <= i < j < pending.len() ==> place_or_last((#[trigger] ordered_messages(pending)[i]).created_at)
                <= place_or_last((#[trigger] ordered_messages(pending)[j]).created_at),
{
    let order = |a: PendingView, b: PendingView| PendingMessage::rank(a, b);
    let settled = sorted(pending, order);
    let plain = settled.map_values(|p: PendingView| p.message);
    pending_order_laws();
    assert(order =~= (|a: PendingView, b: PendingView| pending_order(a, b)));
    crate::order::sorted_is_ordered_permutation(pending, order);
    crate::order::sorted_members(pending, order);
    numbering(plain);
    let r = ordered_messages(pending);
    assert forall|i: int| 0 <= i < pending.len() implies exists|k: int|
        0 <= k < pending.len() && (#[trigger] pending[k]).message.content == (#[trigger] r[i]).content by {
        assert(pending.contains(settled[i]));
        let k = choose|k: int| 0 <= k < pending.len() && pending[k] == settled[i];
        assert(r[i] == crate::model::at_place(plain[i], i));
        assert(pending[k].message.content == r[i].content);
    }
    assert forall|i: int, j: int| 0 <= i < j < pending.len() implies place_or_last((#[trigger] r[i]).created_at)
        <= place_or_last((#[trigger] r[j]).created_at) by {
        assert(order(settled[i], settled[j]) <= 0);
        assert(r[i] == crate::model::at_place(plain[i], i));
        assert(r[j] == crate::model::at_place(plain[j], j));
    }
}

/// The title of a session, or the headline of its first message.
pub open spec fn session_title(title: Option<Seq<char>>, messages: Seq<MessageView>) -> Option<Seq<char>> {
    match title {
        Some(t) => Some(t),
        None => if messages.len() == 0 {
            None
        } else {
            headline(messages[0].content, 100)
        },
    }
}

pub fn title_of(title: Option<String>, messages: &Vec<Message>) -> (r: Option<String>)
    ensures
        r.deep_view() == session_title(title.deep_view(), messages.deep_view()),
{
    match title {
        Some(t) => Some(t),
        None => if messages.len() == 0 {
            None
        } else {
            assert(messages.deep_view()[0] == messages@[0].deep_view());
            headline_of(messages[0].content.as_str(), 100)
        },
    }
}

/// A message without a time stands behind all that have one, and of two with a time the
/// earlier stands first.
pub proof fn missing_places_are_last(a: i64, b: i64)
    ensures
        place_or_last(Some(a)) <= place_or_last(None),
        a < b ==> place_or_last(Some(a)) < place_or_last(Some(b)),
        place_or_last(Some(a)) < place_or_last(None) || a == i64::MAX,
{
}

/// Ordering messages keeps each one, once and whole, and gives it its place. The earlier
/// of two comes first, one without a time behind those that have one, and of two of one
/// time the one whose name comes first; where the names are the same too, the one that
/// was given first.
pub proof fn ordered_messages_are_an_arrangement(pending: Seq<PendingView>) -> (places: Seq<int>)
    requires
        pending.len() <= i64::MAX,
    ensures
        ordered_messages(pending).len() == pending.len(),
        places.len() == pending.len(),
        forall|i: int|
            0 <= i < pending.len() ==> 0 <= #[trigger] places[i] < pending.len() && ordered_messages(pending)[i] == (
            MessageView { idx: i as i64, ..pending[places[i]].message }),
        forall|i: int, j: int| 0 <= i < j < pending.len() ==> #[trigger] places[i] != #[trigger] places[j],
        forall|i: int, j: int|
            0 <= i < j < pending.len() ==> {
                let a = pending[#[trigger] places[i]];
                let b = pending[#[trigger] places[j]];
                match (a.message.created_at, b.message.created_at) {
                    (Some(x), Some(y)) => x <= y && (x == y ==> text_order(a.message_id, b.message_id) <= 0),
                    (Some(_), None) => true,
                    (None, Some(y)) => y == i64::MAX,
                    (None, None) => text_order(a.message_id, b.message_id) <= 0,
                }
            },
        forall|i: int, j: int|
            0 <= i < j < pending.len() ==> pending[#[trigger] places[i]].message.created_at != pending[
                #[trigger] places[j]
            ].message.created_at || pending[places[i]].message_id != pending[places[j]].message_id || places[i]
                < places[j],
{
    let order = |a: PendingView, b: PendingView| PendingMessage::rank(a, b);
    pending_order_laws();
    text_order_laws();
    assert(order =~= (|a: PendingView, b: PendingView| pending_order(a, b)));
    let places = sorted_is_arrangement(pending, order);
    let settled = sorted(pending, order);
    let plain = settled.map_values(|p: PendingView| p.message);
    let text = |a: Seq<char>, b: Seq<char>| text_order(a, b);
    assert forall|i: int| 0 <= i < pending.len() implies 0 <= #[trigger] places[i] < pending.len()
        && ordered_messages(pending)[i] == (MessageView { idx: i as i64, ..pending[places[i]].message }) by {
        assert(settled[i] == pending[places[i]]);
        crate::model::numbered_messages_keep_all_else(plain, i);
    }
    assert forall|i: int, j: int| 0 <= i < j < pending.len() implies ({
        let a = pending[#[trigger] places[i]];
        let b = pending[#[trigger] places[j]];
        match (a.message.created_at, b.message.created_at) {
            (Some(x), Some(y)) => x <= y && (x == y ==> text_order(a.message_id, b.message_id) <= 0),
            (Some(_), None) => true,
            (None, Some(y)) => y == i64::MAX,
            (None, None) => text_order(a.message_id, b.message_id) <= 0,
        }
    }) by {
        assert(order(pending[places[i]], pending[places[j]]) <= 0);
    }
    assert forall|i: int, j: int| 0 <= i < j < pending.len() implies pending[#[trigger] places[i]].message.created_at
        != pending[#[trigger] places[j]].message.created_at || pending[places[i]].message_id
        != pending[places[j]].message_id || places[i] < places[j] by {
        let a = pending[places[i]];
        let b = pending[places[j]];
        if a.message.created_at == b.message.created_at && a.message_id == b.message_id {
            assert(text(a.message_id, b.message_id) == 0);
            assert(order(a, b) == 0);
        }
    }
    places
}

/// A session keeps its own title; one without is titled by the first line of its first
/// message, up to a hundred characters.
pub proof fn own_titles_are_kept(title: Option<Seq<char>>, messages: Seq<MessageView>)
    ensures
        title is Some ==> session_title(title, messages) == title,
        title is None && messages.len() > 0 ==> session_title(title, messages) == headline(messages[0].content, 100),
        title is None && messages.len() == 0 ==> session_title(title, messages) is None,
{
}

} // verus!
