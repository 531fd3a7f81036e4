//! Documents that are handed out are canonical: whatever a conversation holds can be
//! rendered.
use vstd::prelude::*;
use crate::json::{canonical, JsonView};
use crate::model::{at_place, numbered, numbering, ConversationView, InvocationView, MessageView};
use crate::order::{sorted, sorted_members, text_order, text_order_laws, Ranked};
use crate::pending::{ordered_messages, PendingMessage, PendingView};
use crate::query::{
    member, member_canonical, member_of, nullable_integer, nullable_text, with_field, with_member_canonical,
    with_text, without_member,
};

verus! {

/// Whether the arguments of a call are canonical, where it has any.
pub open spec fn canonical_call(c: InvocationView) -> bool {
    c.arguments matches Some(a) ==> canonical(a)
}

pub open spec fn canonical_calls(calls: Seq<InvocationView>) -> bool {
    forall|i: int| 0 <= i < calls.len() ==> canonical_call(#[trigger] calls[i])
}

/// Whether what a message holds beside its content is canonical.
pub open spec fn canonical_message(m: MessageView) -> bool {
    canonical(m.extra) && canonical_calls(m.invocations)
}

pub open spec fn canonical_messages(messages: Seq<MessageView>) -> bool {
    forall|i: int| 0 <= i < messages.len() ==> canonical_message(#[trigger] messages[i])
}

/// Whether all documents of a conversation are canonical: what is known of it, and what
/// its messages hold beside their contents.
pub open spec fn canonical_conversation(c: ConversationView) -> bool {
    canonical(c.metadata) && canonical_messages(c.messages)
}

pub open spec fn canonical_conversations(all: Seq<ConversationView>) -> bool {
    forall|i: int| 0 <= i < all.len() ==> canonical_conversation(#[trigger] all[i])
}

/// A text comes before another where it is smaller at the first difference, or is a
/// beginning of it.
pub proof fn comes_before(a: Seq<char>, b: Seq<char>, k: int)
    requires
        0 <= k <= a.len(),
        k < b.len(),
        forall|i: int| 0 <= i < k ==> a[i] == b[i],
        k < a.len() ==> (a[k] as int) < (b[k] as int),
    ensures
        text_order(a, b) < 0,
    decreases k,
{
    if k > 0 {
        comes_before(a.skip(1), b.skip(1), k - 1);
    }
}

/// An object with another member behind the others, whose key comes behind theirs.
pub proof fn object_grows(members: Seq<(Seq<char>, JsonView)>, key: Seq<char>, value: JsonView)
    requires
        canonical(JsonView::Object(members)),
        canonical(value),
        members.len() > 0 ==> text_order(members.last().0, key) < 0,
    ensures
        canonical(JsonView::Object(members.push((key, value)))),
{
    let more = members.push((key, value));
    text_order_laws();
    let order = |a: Seq<char>, b: Seq<char>| text_order(a, b);
    assert forall|i: int, j: int| 0 <= i < j < more.len() implies text_order(
        (#[trigger] more[i]).0,
        (#[trigger] more[j]).0,
    ) < 0 by {
        if j < members.len() {
            assert(text_order(members[i].0, members[j].0) < 0);
        } else {
            let last = members.len() - 1;
            if i < last {
                assert(text_order(members[i].0, members[last].0) < 0);
                assert(order(members[i].0, members[last].0) <= 0 && order(members[last].0, key) <= 0);
                assert(order(members[i].0, key) <= 0);
                if order(members[i].0, key) == 0 {
                    assert(members[i].0 == key);
                    assert(order(members[last].0, key) == -order(key, members[last].0));
                }
            }
        }
    }
    assert forall|i: int| 0 <= i < more.len() implies canonical((#[trigger] more[i]).1) by {
        if i < members.len() {
            assert(canonical(members[i].1));
        }
    }
}

/// An object is canonical where each key comes behind the one before it.
pub proof fn rising_members_are_canonical(members: Seq<(Seq<char>, JsonView)>)
    requires
        forall|i: int| 0 <= i < members.len() ==> canonical((#[trigger] members[i]).1),
        forall|i: int, j: int|
            0 <= i && j == i + 1 && j < members.len() ==> text_order(
                (#[trigger] members[i]).0,
                (#[trigger] members[j]).0,
            ) < 0,
    ensures
        canonical(JsonView::Object(members)),
    decreases members.len(),
{
    if members.len() > 0 {
        let front = members.drop_last();
        let last = members.last();
        assert forall|i: int| 0 <= i < front.len() implies canonical((#[trigger] front[i]).1) by {
            assert(canonical(members[i].1));
        }
        assert forall|i: int, j: int| 0 <= i && j == i + 1 && j < front.len() implies text_order(
            (#[trigger] front[i]).0,
            (#[trigger] front[j]).0,
        ) < 0 by {
            assert(text_order(members[i].0, members[j].0) < 0);
        }
        rising_members_are_canonical(front);
        assert(canonical(members[members.len() - 1].1));
        if front.len() > 0 {
            assert(text_order(members[front.len() - 1].0, members[front.len() as int].0) < 0);
        }
        object_grows(front, last.0, last.1);
        assert(front.push((last.0, last.1)) =~= members);
    }
}

/// An object of one member.
pub proof fn one_member_is_canonical(key: Seq<char>, value: JsonView)
    requires
        canonical(value),
    ensures
        canonical(JsonView::Object(seq![(key, value)])),
{
    rising_members_are_canonical(seq![(key, value)]);
}

/// A member of a document that is there is canonical.
pub proof fn inner_canonical(v: Option<JsonView>, key: Seq<char>)
    requires
        v matches Some(v) ==> canonical(v),
    ensures
        member_of(v, key) matches Some(m) ==> canonical(m),
{
    if let Some(v) = v {
        member_canonical(v, key);
    }
}

pub proof fn with_field_canonical(v: JsonView, key: Seq<char>, value: JsonView)
    requires
        canonical(v),
        canonical(value),
    ensures
        canonical(with_field(v, key, value)),
{
    if let JsonView::Object(members) = v {
        with_member_canonical(members, key, value);
    }
}

pub proof fn with_text_canonical(members: Seq<(Seq<char>, JsonView)>, key: Seq<char>, t: Option<Seq<char>>)
    requires
        canonical(JsonView::Object(members)),
    ensures
        canonical(JsonView::Object(with_text(members, key, t))),
{
    if let Some(t) = t {
        with_member_canonical(members, key, JsonView::Text(t));
    }
}

/// An object without one of its members.
pub proof fn without_member_canonical(members: Seq<(Seq<char>, JsonView)>, key: Seq<char>)
    requires
        canonical(JsonView::Object(members)),
    ensures
        canonical(JsonView::Object(without_member(members, key))),
        forall|i: int|
            0 <= i < without_member(members, key).len() ==> members.contains(
                #[trigger] without_member(members, key)[i],
            ),
    decreases members.len(),
{
    let less = without_member(members, key);
    if members.len() > 0 {
        let rest = members.skip(1);
        assert(canonical(JsonView::Object(rest))) by {
            assert forall|i: int, j: int| 0 <= i < j < rest.len() implies text_order(
                (#[trigger] rest[i]).0,
                (#[trigger] rest[j]).0,
            ) < 0 by {
                assert(text_order(members[i + 1].0, members[j + 1].0) < 0);
            }
            assert forall|i: int| 0 <= i < rest.len() implies canonical((#[trigger] rest[i]).1) by {
                assert(canonical(members[i + 1].1));
            }
        }
        assert forall|i: int| 0 <= i < rest.len() implies members.contains(#[trigger] rest[i]) by {
            assert(members[i + 1] == rest[i]);
        }
        if members[0].0 != key {
            let inner = without_member(rest, key);
            without_member_canonical(rest, key);
            assert forall|i: int| 0 <= i < less.len() implies members.contains(#[trigger] less[i]) by {
                if i == 0 {
                    assert(members[0] == less[0]);
                } else {
                    assert(less[i] == inner[i - 1]);
                    assert(rest.contains(inner[i - 1]));
                    let k = choose|k: int| 0 <= k < rest.len() && rest[k] == inner[i - 1];
                    assert(members[k + 1] == less[i]);
                }
            }
            assert forall|i: int, j: int| 0 <= i < j < less.len() implies text_order(
                (#[trigger] less[i]).0,
                (#[trigger] less[j]).0,
            ) < 0 by {
                assert(less[j] == inner[j - 1]);
                if i > 0 {
                    assert(less[i] == inner[i - 1]);
                    assert(text_order(inner[i - 1].0, inner[j - 1].0) < 0);
                } else {
                    assert(rest.contains(inner[j - 1]));
                    let k = choose|k: int| 0 <= k < rest.len() && rest[k] == inner[j - 1];
                    assert(text_order(members[0].0, members[k + 1].0) < 0);
                }
            }
            assert forall|i: int| 0 <= i < less.len() implies canonical((#[trigger] less[i]).1) by {
                if i == 0 {
                    assert(canonical(members[0].1));
                } else {
                    assert(canonical(inner[i - 1].1));
                }
            }
        }
    }
}

pub proof fn calls_join(a: Seq<InvocationView>, b: Seq<InvocationView>)
    requires
        canonical_calls(a),
        canonical_calls(b),
    ensures
        canonical_calls(a + b),
{
    let all = a + b;
    assert forall|i: int| 0 <= i < all.len() implies canonical_call(#[trigger] all[i]) by {
        if i < a.len() {
            assert(all[i] == a[i]);
        } else {
            assert(all[i] == b[i - a.len()]);
        }
    }
}

pub proof fn calls_grow(calls: Seq<InvocationView>, c: InvocationView)
    requires
        canonical_calls(calls),
        canonical_call(c),
    ensures
        canonical_calls(calls.push(c)),
{
    calls_join(calls, seq![c]);
    assert(calls + seq![c] =~= calls.push(c));
}

pub proof fn messages_grow(messages: Seq<MessageView>, m: MessageView)
    requires
        canonical_messages(messages),
        canonical_message(m),
    ensures
        canonical_messages(messages.push(m)),
{
    let more = messages.push(m);
    assert forall|i: int| 0 <= i < more.len() implies canonical_message(#[trigger] more[i]) by {
        if i < messages.len() {
            assert(more[i] == messages[i]);
        }
    }
}

pub proof fn messages_change(messages: Seq<MessageView>, at: int, m: MessageView)
    requires
        canonical_messages(messages),
        canonical_message(m),
        0 <= at < messages.len(),
    ensures
        canonical_messages(messages.update(at, m)),
{
    let more = messages.update(at, m);
    assert forall|i: int| 0 <= i < more.len() implies canonical_message(#[trigger] more[i]) by {
        if i != at {
            assert(more[i] == messages[i]);
        }
    }
}

pub proof fn filtered_canonical(messages: Seq<MessageView>, keep: spec_fn(MessageView) -> bool)
    requires
        canonical_messages(messages),
    ensures
        canonical_messages(messages.filter(keep)),
    decreases messages.len(),
{
    reveal(Seq::filter);
    if messages.len() > 0 {
        let front = messages.drop_last();
        assert forall|i: int| 0 <= i < front.len() implies canonical_message(#[trigger] front[i]) by {
            assert(canonical_message(messages[i]));
        }
        filtered_canonical(front, keep);
        assert(canonical_message(messages[messages.len() - 1]));
        messages_grow(front.filter(keep), messages.last());
    }
}

pub proof fn numbered_canonical(messages: Seq<MessageView>)
    requires
        canonical_messages(messages),
    ensures
        canonical_messages(numbered(messages)),
{
    numbering(messages);
    assert forall|i: int| 0 <= i < numbered(messages).len() implies canonical_message(
        #[trigger] numbered(messages)[i],
    ) by {
        assert(canonical_message(messages[i]));
        assert(numbered(messages)[i] == at_place(messages[i], i));
    }
}

pub open spec fn canonical_pending(pending: Seq<PendingView>) -> bool {
    forall|i: int| 0 <= i < pending.len() ==> canonical_message((#[trigger] pending[i]).message)
}

pub proof fn pending_grows(pending: Seq<PendingView>, p: PendingView)
    requires
        canonical_pending(pending),
        canonical_message(p.message),
    ensures
        canonical_pending(pending.push(p)),
{
    let more = pending.push(p);
    assert forall|i: int| 0 <= i < more.len() implies canonical_message((#[trigger] more[i]).message) by {
        if i < pending.len() {
            assert(more[i] == pending[i]);
        }
    }
}

pub proof fn ordered_canonical(pending: Seq<PendingView>)
    requires
        canonical_pending(pending),
    ensures
        canonical_messages(ordered_messages(pending)),
{
    let order = |a: PendingView, b: PendingView| PendingMessage::rank(a, b);
    let settled = sorted(pending, order);
    let plain = settled.map_values(|p: PendingView| p.message);
    sorted_members(pending, order);
    assert forall|i: int| 0 <= i < plain.len() implies canonical_message(#[trigger] plain[i]) by {
        assert(pending.contains(settled[i]));
        let k = choose|k: int| 0 <= k < pending.len() && pending[k] == settled[i];
        assert(canonical_message(pending[k].message));
        assert(plain[i] == settled[i].message);
    }
    numbered_canonical(plain);
}

pub proof fn conversations_grow(all: Seq<ConversationView>, c: ConversationView)
    requires
        canonical_conversations(all),
        canonical_conversation(c),
    ensures
        canonical_conversations(all.push(c)),
{
    let more = all.push(c);
    assert forall|i: int| 0 <= i < more.len() implies canonical_conversation(#[trigger] more[i]) by {
        if i < all.len() {
            assert(more[i] == all[i]);
        }
    }
}

pub proof fn conversations_join(a: Seq<ConversationView>, b: Seq<ConversationView>)
    requires
        canonical_conversations(a),
        canonical_conversations(b),
    ensures
        canonical_conversations(a + b),
{
    let all = a + b;
    assert forall|i: int| 0 <= i < all.len() implies canonical_conversation(#[trigger] all[i]) by {
        if i < a.len() {
            assert(all[i] == a[i]);
        } else {
            assert(all[i] == b[i - a.len()]);
        }
    }
}

/// Texts and integers that may be missing are canonical.
pub proof fn nullables_are_canonical(t: Option<Seq<char>>, n: Option<i64>)
    ensures
        canonical(nullable_text(t)),
        canonical(nullable_integer(n)),
{
}

} // verus!
