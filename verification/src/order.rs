//! Lexicographic order, a stable sort, and the first of each kind.
use vstd::prelude::*;
use crate::text::chars_of;

verus! {

/// A comparison: negative, zero or positive where the first argument stands
/// before, with or behind the second.
pub open spec fn is_order<T>(order: spec_fn(T, T) -> int) -> bool {
    &&& forall|a: T, b: T| #[trigger] order(a, b) == -order(b, a)
    &&& forall|a: T, b: T, c: T| #[trigger]
        order(a, b) <= 0 && #[trigger] order(b, c) <= 0 ==> order(a, c) <= 0
}

/// A comparison that calls only equal values equal.
pub open spec fn is_strict<T>(order: spec_fn(T, T) -> int) -> bool {
    forall|a: T, b: T| #[trigger] order(a, b) == 0 <==> a == b
}

/// Sequences in lexicographic order: the first difference decides, and a
/// proper beginning stands first.
pub open spec fn lexicographic<T>(a: Seq<T>, b: Seq<T>, order: spec_fn(T, T) -> int) -> int
    decreases a.len(),
{
    if a.len() == 0 {
        if b.len() == 0 {
            0
        } else {
            -1
        }
    } else if b.len() == 0 {
        1
    } else if order(a[0], b[0]) != 0 {
        order(a[0], b[0])
    } else {
        lexicographic(a.skip(1), b.skip(1), order)
    }
}

proof fn lexicographic_flips<T>(a: Seq<T>, b: Seq<T>, order: spec_fn(T, T) -> int)
    requires
        is_order(order),
    ensures
        lexicographic(a, b, order) == -lexicographic(b, a, order),
    decreases a.len(),
{
    if a.len() > 0 && b.len() > 0 {
        assert(order(a[0], b[0]) == -order(b[0], a[0]));
        lexicographic_flips(a.skip(1), b.skip(1), order);
    }
}

proof fn lexicographic_chains<T>(a: Seq<T>, b: Seq<T>, c: Seq<T>, order: spec_fn(T, T) -> int)
    requires
        is_order(order),
        lexicographic(a, b, order) <= 0,
        lexicographic(b, c, order) <= 0,
    ensures
        lexicographic(a, c, order) <= 0,
    decreases a.len(),
{
    if a.len() > 0 && b.len() > 0 && c.len() > 0 {
        assert(order(a[0], b[0]) <= 0 && order(b[0], c[0]) <= 0);
        assert(order(a[0], c[0]) <= 0);
        if order(a[0], c[0]) == 0 {
            assert(order(c[0], a[0]) == -order(a[0], c[0]));
            assert(order(b[0], c[0]) <= 0 && order(c[0], a[0]) <= 0);
            assert(order(b[0], a[0]) <= 0);
            assert(order(b[0], a[0]) == -order(a[0], b[0]));
            assert(order(c[0], a[0]) <= 0 && order(a[0], b[0]) <= 0);
            assert(order(c[0], b[0]) <= 0);
            assert(order(c[0], b[0]) == -order(b[0], c[0]));
            lexicographic_chains(a.skip(1), b.skip(1), c.skip(1), order);
        }
    }
}

/// Two sequences compare equal exactly where they are equal.
pub proof fn lexicographic_zero<T>(a: Seq<T>, b: Seq<T>, order: spec_fn(T, T) -> int)
    requires
        is_strict(order),
    ensures
        lexicographic(a, b, order) == 0 <==> a == b,
    decreases a.len(),
{
    if a.len() > 0 && b.len() > 0 {
        assert(order(a[0], b[0]) == 0 <==> a[0] == b[0]);
        lexicographic_zero(a.skip(1), b.skip(1), order);
        if a.skip(1) == b.skip(1) && a[0] == b[0] {
            assert(a =~= seq![a[0]] + a.skip(1));
            assert(b =~= seq![b[0]] + b.skip(1));
        }
    } else if a.len() == 0 && b.len() == 0 {
        assert(a =~= b);
    }
}

/// The lexicographic order of a comparison is one too.
pub proof fn lexicographic_is_order<T>(order: spec_fn(T, T) -> int)
    requires
        is_order(order),
    ensures
        is_order(|a: Seq<T>, b: Seq<T>| lexicographic(a, b, order)),
{
    let lifted = |a: Seq<T>, b: Seq<T>| lexicographic(a, b, order);
    assert forall|a: Seq<T>, b: Seq<T>| #[trigger] lifted(a, b) == -lifted(b, a) by {
        lexicographic_flips(a, b, order);
    }
    assert forall|a: Seq<T>, b: Seq<T>, c: Seq<T>| #[trigger]
        lifted(a, b) <= 0 && #[trigger] lifted(b, c) <= 0 implies lifted(a, c) <= 0 by {
        lexicographic_chains(a, b, c, order);
    }
}

/// Characters in the order of their code points.
pub open spec fn char_order(a: char, b: char) -> int {
    a as int - b as int
}

/// Texts in the order of their characters.
pub open spec fn text_order(a: Seq<char>, b: Seq<char>) -> int {
    lexicographic(a, b, |x: char, y: char| char_order(x, y))
}

/// Text order is an order, and only equal texts stand level in it.
pub proof fn text_order_laws()
    ensures
        is_order(|a: Seq<char>, b: Seq<char>| text_order(a, b)),
        is_strict(|a: Seq<char>, b: Seq<char>| text_order(a, b)),
{
    let by_char = |x: char, y: char| char_order(x, y);
    assert(is_order(by_char));
    lexicographic_is_order(by_char);
    let lifted = |a: Seq<char>, b: Seq<char>| lexicographic(a, b, by_char);
    assert(lifted =~= (|a: Seq<char>, b: Seq<char>| text_order(a, b)));
    assert forall|a: Seq<char>, b: Seq<char>| #[trigger] lifted(a, b) == 0 <==> a == b by {
        lexicographic_zero(a, b, by_char);
    }
}

/// The sign of a comparison.
pub open spec fn sign(n: int) -> int {
    if n < 0 {
        -1
    } else if n > 0 {
        1
    } else {
        0
    }
}

/// The sign of how two texts compare.
pub fn order_texts(a: &str, b: &str) -> (r: i8)
    ensures
        r == sign(text_order(a@, b@)),
{
    let x = chars_of(a);
    let y = chars_of(b);
    let ghost by_char = |p: char, q: char| char_order(p, q);
    let mut i: usize = 0;
    assert(x@.skip(0) =~= x@);
    assert(y@.skip(0) =~= y@);
    while i < x.len() && i < y.len()
        invariant
            x@ == a@,
            y@ == b@,
            i <= x@.len(),
            i <= y@.len(),
            by_char == (|p: char, q: char| char_order(p, q)),
            text_order(a@, b@) == lexicographic(x@.skip(i as int), y@.skip(i as int), by_char),
        decreases x.len() - i,
    {
        let ghost xs = x@.skip(i as int);
        let ghost ys = y@.skip(i as int);
        assert(xs[0] == x@[i as int] && ys[0] == y@[i as int]);
        if x[i] < y[i] {
            return -1;
        }
        if x[i] > y[i] {
            return 1;
        }
        assert(by_char(xs[0], ys[0]) == 0);
        assert(xs.skip(1) =~= x@.skip(i + 1));
        assert(ys.skip(1) =~= y@.skip(i + 1));
        i = i + 1;
    }
    if i < y.len() {
        -1
    } else if i < x.len() {
        1
    } else {
        0
    }
}

/// `x` put into `s` behind everything that does not stand behind it.
pub open spec fn placed<V>(s: Seq<V>, x: V, order: spec_fn(V, V) -> int) -> Seq<V>
    decreases s.len(),
{
    if s.len() == 0 || order(s.last(), x) <= 0 {
        s.push(x)
    } else {
        placed(s.drop_last(), x, order).push(s.last())
    }
}

/// `s` in order, with level items in the order in which they came.
pub open spec fn sorted<V>(s: Seq<V>, order: spec_fn(V, V) -> int) -> Seq<V>
    decreases s.len(),
{
    if s.len() == 0 {
        s
    } else {
        placed(sorted(s.drop_last(), order), s.last(), order)
    }
}

/// Nothing in `s` stands before something that precedes it.
pub open spec fn in_order<V>(s: Seq<V>, order: spec_fn(V, V) -> int) -> bool {
    forall|i: int, j: int| 0 <= i < j < s.len() ==> #[trigger] order(s[i], s[j]) <= 0
}

proof fn placed_members<V>(s: Seq<V>, x: V, order: spec_fn(V, V) -> int)
    ensures
        placed(s, x, order).len() == s.len() + 1,
        placed(s, x, order).to_multiset() == s.to_multiset().insert(x),
        forall|i: int|
            0 <= i < placed(s, x, order).len() ==> #[trigger] placed(s, x, order)[i] == x || s.contains(
                placed(s, x, order)[i],
            ),
    decreases s.len(),
{
    broadcast use vstd::seq_lib::group_to_multiset_ensures;

    let r = placed(s, x, order);
    if s.len() == 0 || order(s.last(), x) <= 0 {
        assert forall|i: int| 0 <= i < r.len() implies #[trigger] r[i] == x || s.contains(r[i]) by {
            if i < s.len() {
                assert(s[i] == r[i]);
            }
        }
    } else {
        placed_members(s.drop_last(), x, order);
        let inner = placed(s.drop_last(), x, order);
        assert(s =~= s.drop_last().push(s.last()));
        assert(r.to_multiset() =~= s.to_multiset().insert(x));
        assert forall|i: int| 0 <= i < r.len() implies #[trigger] r[i] == x || s.contains(r[i]) by {
            if i < inner.len() {
                assert(r[i] == inner[i]);
                if inner[i] != x {
                    let k = choose|k: int| 0 <= k < s.drop_last().len() && s.drop_last()[k] == inner[i];
                    assert(s[k] == r[i]);
                }
            } else {
                assert(r[i] == s[s.len() - 1]);
            }
        }
    }
}

proof fn placed_in_order<V>(s: Seq<V>, x: V, order: spec_fn(V, V) -> int)
    requires
        is_order(order),
        in_order(s, order),
    ensures
        in_order(placed(s, x, order), order),
    decreases s.len(),
{
    let r = placed(s, x, order);
    if s.len() == 0 || order(s.last(), x) <= 0 {
        assert forall|i: int, j: int| 0 <= i < j < r.len() implies #[trigger] order(r[i], r[j]) <= 0 by {
            if j == s.len() {
                if i < s.len() - 1 {
                    assert(order(s[i], s[s.len() - 1]) <= 0);
                    assert(order(s.last(), x) <= 0);
                }
            } else {
                assert(order(s[i], s[j]) <= 0);
            }
        }
    } else {
        let front = s.drop_last();
        assert forall|i: int, j: int| 0 <= i < j < front.len() implies #[trigger] order(front[i], front[j])
            <= 0 by {
            assert(order(s[i], s[j]) <= 0);
        }
        placed_in_order(front, x, order);
        placed_members(front, x, order);
        let inner = placed(front, x, order);
        assert forall|i: int, j: int| 0 <= i < j < r.len() implies #[trigger] order(r[i], r[j]) <= 0 by {
            if j < inner.len() {
                assert(order(inner[i], inner[j]) <= 0);
            } else {
                assert(order(x, s.last()) == -order(s.last(), x));
                if inner[i] != x {
                    let k = choose|k: int| 0 <= k < front.len() && front[k] == inner[i];
                    assert(order(s[k], s[s.len() - 1]) <= 0);
                }
            }
        }
    }
}

/// Sorting puts a sequence in order and keeps its items.
pub proof fn sorted_is_ordered_permutation<V>(s: Seq<V>, order: spec_fn(V, V) -> int)
    requires
        is_order(order),
    ensures
        in_order(sorted(s, order), order),
        sorted(s, order).to_multiset() == s.to_multiset(),
        sorted(s, order).len() == s.len(),
    decreases s.len(),
{
    broadcast use vstd::seq_lib::group_to_multiset_ensures;

    if s.len() > 0 {
        sorted_is_ordered_permutation(s.drop_last(), order);
        placed_in_order(sorted(s.drop_last(), order), s.last(), order);
        placed_members(sorted(s.drop_last(), order), s.last(), order);
        assert(s =~= s.drop_last().push(s.last()));
    }
}

/// Whether an item stands level with another.
pub open spec fn level_with<V>(x: V, order: spec_fn(V, V) -> int) -> spec_fn(V) -> bool {
    |y: V| order(y, x) == 0
}

proof fn placed_keeps_level<V>(s: Seq<V>, x: V, k: V, order: spec_fn(V, V) -> int)
    requires
        is_order(order),
    ensures
        placed(s, x, order).filter(level_with(k, order)) == s.push(x).filter(level_with(k, order)),
    decreases s.len(),
{
    reveal(Seq::filter);
    let level = level_with(k, order);
    if s.len() > 0 && order(s.last(), x) > 0 {
        let front = s.drop_last();
        let last = s.last();
        placed_keeps_level(front, x, k, order);
        assert(s.push(x).drop_last() =~= s);
        assert(front.push(x).drop_last() =~= front);
        assert(placed(s, x, order).drop_last() =~= placed(front, x, order));
        let kept = front.filter(level);
        assert(s.filter(level) == if level(last) {
            kept.push(last)
        } else {
            kept
        });
        assert(front.push(x).filter(level) == if level(x) {
            kept.push(x)
        } else {
            kept
        });
        assert(s.push(x).filter(level) == if level(x) {
            s.filter(level).push(x)
        } else {
            s.filter(level)
        });
        assert(placed(s, x, order).filter(level) == if level(last) {
            placed(front, x, order).filter(level).push(last)
        } else {
            placed(front, x, order).filter(level)
        });
        if level(last) && level(x) {
            assert(order(k, x) == -order(x, k));
            assert(order(last, k) <= 0 && order(k, x) <= 0);
        }
    }
}

/// Level items keep the order in which they came.
pub proof fn sorted_keeps_level<V>(s: Seq<V>, x: V, order: spec_fn(V, V) -> int)
    requires
        is_order(order),
    ensures
        sorted(s, order).filter(level_with(x, order)) == s.filter(level_with(x, order)),
    decreases s.len(),
{
    reveal(Seq::filter);
    if s.len() > 0 {
        let front = s.drop_last();
        let before = sorted(front, order);
        sorted_keeps_level(front, x, order);
        placed_keeps_level(before, s.last(), x, order);
        assert(before.push(s.last()).drop_last() =~= before);
    }
}

/// Every item of a sorted sequence was there before.
pub proof fn sorted_members<V>(s: Seq<V>, order: spec_fn(V, V) -> int)
    ensures
        sorted(s, order).len() == s.len(),
        forall|i: int| 0 <= i < s.len() ==> s.contains(#[trigger] sorted(s, order)[i]),
    decreases s.len(),
{
    if s.len() > 0 {
        let front = sorted(s.drop_last(), order);
        sorted_members(s.drop_last(), order);
        placed_members(front, s.last(), order);
        let r = sorted(s, order);
        assert forall|i: int| 0 <= i < s.len() implies s.contains(#[trigger] r[i]) by {
            assert(r[i] == s.last() || front.contains(r[i]));
            if r[i] != s.last() {
                let k = choose|k: int| 0 <= k < front.len() && front[k] == r[i];
                assert(s.drop_last().contains(front[k]));
                let m = choose|m: int| 0 <= m < s.drop_last().len() && s.drop_last()[m] == front[k];
                assert(s[m] == r[i]);
            } else {
                assert(s[s.len() - 1] == r[i]);
            }
        }
    }
}

/// Items with an order of their own.
pub trait Ranked: DeepView + Sized {
    /// How two items compare.
    spec fn rank(a: Self::V, b: Self::V) -> int;

    /// The sign of how this item and another compare.
    fn rank_with(&self, other: &Self) -> (r: i8)
        ensures
            r == sign(Self::rank(self.deep_view(), other.deep_view())),
    ;
}

/// The items in order, with level items in the order in which they came.
pub fn sort<T: Ranked>(items: Vec<T>) -> (r: Vec<T>)
    ensures
        r.deep_view() == sorted(items.deep_view(), |a: T::V, b: T::V| T::rank(a, b)),
{
    let ghost order = |a: T::V, b: T::V| T::rank(a, b);
    let ghost all = items.deep_view();
    let mut out: Vec<T> = Vec::new();
    assert(all.take(0) =~= Seq::<T::V>::empty());
    assert(out.deep_view() =~= sorted(all.take(0), order));
    for item in it: items
        invariant
            order == (|a: T::V, b: T::V| T::rank(a, b)),
            it.seq() == items@,
            all == items.deep_view(),
            out.deep_view() == sorted(all.take(it.index() as int), order),
    {
        let ghost n = it.index() as int;
        let ghost x = item.deep_view();
        let ghost before = out.deep_view();
        assert(x == all[n]);
        let mut at: usize = out.len();
        assert(before.take(at as int) =~= before);
        assert(before.skip(at as int) =~= Seq::<T::V>::empty());
        assert(placed(before, x, order) =~= placed(before.take(at as int), x, order) + before.skip(
            at as int,
        ));
        while at > 0 && out[at - 1].rank_with(&item) > 0
            invariant
                order == (|a: T::V, b: T::V| T::rank(a, b)),
                at <= out@.len(),
                before == out.deep_view(),
                x == item.deep_view(),
                placed(before, x, order) == placed(before.take(at as int), x, order) + before.skip(
                    at as int,
                ),
            decreases at,
        {
            proof {
                let part = before.take(at as int);
                assert(part.last() == out@[at - 1].deep_view());
                assert(part.drop_last() =~= before.take(at - 1));
                assert(placed(before, x, order) =~= placed(before.take(at - 1), x, order) + before.skip(
                    at - 1,
                ));
            }
            at = at - 1;
        }
        proof {
            let part = before.take(at as int);
            if at > 0 {
                assert(part.last() == out@[at - 1].deep_view());
            }
            assert(placed(part, x, order) == part.push(x));
        }
        out.insert(at, item);
        proof {
            assert(out.deep_view() =~= before.take(at as int).push(x) + before.skip(at as int));
            assert(all.take(n + 1).drop_last() =~= all.take(n));
            assert(all.take(n + 1).last() == x);
        }
    }
    assert(all.take(all.len() as int) =~= all);
    out
}

/// Whether something in `s` is of one kind with `x`.
pub open spec fn has_kind<V>(s: Seq<V>, x: V, same: spec_fn(V, V) -> bool) -> bool {
    exists|i: int| 0 <= i < s.len() && same(#[trigger] s[i], x)
}

/// The items that are not of one kind with an earlier one.
pub open spec fn firsts<V>(s: Seq<V>, same: spec_fn(V, V) -> bool) -> Seq<V>
    decreases s.len(),
{
    if s.len() == 0 {
        s
    } else if has_kind(s.drop_last(), s.last(), same) {
        firsts(s.drop_last(), same)
    } else {
        firsts(s.drop_last(), same).push(s.last())
    }
}

/// Whether two items are of one kind is an equivalence.
pub open spec fn is_equivalence<V>(same: spec_fn(V, V) -> bool) -> bool {
    &&& forall|a: V| #[trigger] same(a, a)
    &&& forall|a: V, b: V| #[trigger] same(a, b) == same(b, a)
    &&& forall|a: V, b: V, c: V| #[trigger] same(a, b) && #[trigger] same(b, c) ==> same(a, c)
}

/// No two of the first items are of one kind, and each kind is kept.
pub proof fn firsts_are_distinct_and_complete<V>(s: Seq<V>, same: spec_fn(V, V) -> bool)
    requires
        is_equivalence(same),
    ensures
        forall|i: int, j: int|
            0 <= i < j < firsts(s, same).len() ==> !(#[trigger] same(firsts(s, same)[i], firsts(s, same)[j])),
        forall|i: int| 0 <= i < s.len() ==> has_kind(firsts(s, same), #[trigger] s[i], same),
        forall|i: int| 0 <= i < firsts(s, same).len() ==> s.contains(#[trigger] firsts(s, same)[i]),
    decreases s.len(),
{
    if s.len() > 0 {
        let front = s.drop_last();
        let kept = firsts(front, same);
        let r = firsts(s, same);
        firsts_are_distinct_and_complete(front, same);
        assert forall|i: int| 0 <= i < r.len() implies s.contains(#[trigger] r[i]) by {
            if i < kept.len() {
                assert(front.contains(kept[i]));
                let m = choose|m: int| 0 <= m < front.len() && front[m] == kept[i];
                assert(s[m] == r[i]);
            } else {
                assert(s[s.len() - 1] == r[i]);
            }
        }
        assert forall|i: int| 0 <= i < s.len() implies has_kind(r, #[trigger] s[i], same) by {
            if i < front.len() {
                assert(has_kind(kept, front[i], same));
                let m = choose|m: int| 0 <= m < kept.len() && same(#[trigger] kept[m], front[i]);
                assert(same(r[m], s[i]));
            } else if has_kind(front, s.last(), same) {
                let k = choose|k: int| 0 <= k < front.len() && same(#[trigger] front[k], s.last());
                assert(has_kind(kept, front[k], same));
                let m = choose|m: int| 0 <= m < kept.len() && same(#[trigger] kept[m], front[k]);
                assert(same(kept[m], front[k]) && same(front[k], s.last()));
                assert(same(r[m], s[i]));
            } else {
                assert(same(s.last(), s.last()));
                assert(same(r[r.len() - 1], s[i]));
            }
        }
        assert forall|i: int, j: int| 0 <= i < j < r.len() implies !(#[trigger] same(r[i], r[j])) by {
            if j < kept.len() {
                assert(!same(kept[i], kept[j]));
            } else {
                assert(front.contains(kept[i]));
                let m = choose|m: int| 0 <= m < front.len() && front[m] == kept[i];
                if same(r[i], r[j]) {
                    assert(same(front[m], s.last()));
                }
            }
        }
    }
}

/// The first items of a sequence in order are in order.
pub proof fn firsts_keep_order<V>(s: Seq<V>, same: spec_fn(V, V) -> bool, order: spec_fn(V, V) -> int)
    requires
        is_equivalence(same),
        in_order(s, order),
    ensures
        in_order(firsts(s, same), order),
    decreases s.len(),
{
    if s.len() > 0 {
        let front = s.drop_last();
        let kept = firsts(front, same);
        let r = firsts(s, same);
        firsts_keep_order(front, same, order);
        firsts_are_distinct_and_complete(front, same);
        assert forall|i: int, j: int| 0 <= i < j < r.len() implies order(#[trigger] r[i], #[trigger] r[j]) <= 0 by {
            if j < kept.len() {
                assert(order(kept[i], kept[j]) <= 0);
            } else {
                assert(front.contains(kept[i]));
                let m = choose|m: int| 0 <= m < front.len() && front[m] == kept[i];
                assert(order(s[m], s[s.len() - 1]) <= 0);
            }
        }
    }
}

/// Items that can be told to be of one kind.
pub trait Kinded: DeepView + Sized {
    spec fn alike(a: Self::V, b: Self::V) -> bool;

    proof fn alike_is_equivalence()
        ensures
            is_equivalence(|a: Self::V, b: Self::V| Self::alike(a, b)),
    ;

    fn is_like(&self, other: &Self) -> (r: bool)
        ensures
            r == Self::alike(self.deep_view(), other.deep_view()),
    ;
}

/// Whether an item is of one kind with one of a list.
pub fn any_like<T: Kinded>(items: &Vec<T>, x: &T) -> (r: bool)
    ensures
        r == has_kind(items.deep_view(), x.deep_view(), |a: T::V, b: T::V| T::alike(a, b)),
{
    let ghost same = |a: T::V, b: T::V| T::alike(a, b);
    let mut i: usize = 0;
    while i < items.len()
        invariant
            same == (|a: T::V, b: T::V| T::alike(a, b)),
            i <= items@.len(),
            forall|k: int| 0 <= k < i ==> !same(#[trigger] items.deep_view()[k], x.deep_view()),
        decreases items.len() - i,
    {
        if items[i].is_like(x) {
            assert(same(items.deep_view()[i as int], x.deep_view()));
            return true;
        }
        i = i + 1;
    }
    false
}

/// The items that are not of one kind with an earlier one.
pub fn keep_firsts<T: Kinded>(items: Vec<T>) -> (r: Vec<T>)
    ensures
        r.deep_view() == firsts(items.deep_view(), |a: T::V, b: T::V| T::alike(a, b)),
{
    let ghost same = |a: T::V, b: T::V| T::alike(a, b);
    let ghost all = items.deep_view();
    let mut out: Vec<T> = Vec::new();
    assert(all.take(0) =~= Seq::<T::V>::empty());
    assert(out.deep_view() =~= firsts(all.take(0), same));
    for item in it: items
        invariant
            same == (|a: T::V, b: T::V| T::alike(a, b)),
            it.seq() == items@,
            all == items.deep_view(),
            out.deep_view() == firsts(all.take(it.index() as int), same),
    {
        let ghost n = it.index() as int;
        let ghost before = out.deep_view();
        proof {
            assert(all.take(n + 1).drop_last() =~= all.take(n));
            assert(all.take(n + 1).last() == item.deep_view());
            T::alike_is_equivalence();
            firsts_are_distinct_and_complete(all.take(n), same);
            let x = item.deep_view();
            if has_kind(all.take(n), x, same) {
                let k = choose|k: int| 0 <= k < n && same(#[trigger] all.take(n)[k], x);
                assert(has_kind(before, all.take(n)[k], same));
                let m = choose|m: int| 0 <= m < before.len() && same(#[trigger] before[m], all.take(n)[k]);
                assert(same(before[m], all.take(n)[k]) && same(all.take(n)[k], x));
                assert(same(before[m], x));
            }
            if has_kind(before, x, same) {
                let m = choose|m: int| 0 <= m < before.len() && same(#[trigger] before[m], x);
                assert(all.take(n).contains(before[m]));
                let k = choose|k: int| 0 <= k < n && all.take(n)[k] == before[m];
                assert(same(all.take(n)[k], x));
            }
        }
        if !any_like(&out, &item) {
            out.push(item);
            assert(out.deep_view() =~= before.push(item.deep_view()));
        }
    }
    assert(all.take(all.len() as int) =~= all);
    out
}

impl Kinded for String {
    open spec fn alike(a: Seq<char>, b: Seq<char>) -> bool {
        a == b
    }

    proof fn alike_is_equivalence() {
    }

    fn is_like(&self, other: &String) -> (r: bool) {
        *self == *other
    }
}

/// What is in order stays as it is.
pub proof fn sorted_stays<V>(s: Seq<V>, order: spec_fn(V, V) -> int)
    requires
        in_order(s, order),
    ensures
        sorted(s, order) == s,
    decreases s.len(),
{
    if s.len() > 0 {
        let front = s.drop_last();
        assert(in_order(front, order)) by {
            assert forall|i: int, j: int| 0 <= i < j < front.len() implies #[trigger] order(front[i], front[j])
                <= 0 by {
                assert(order(s[i], s[j]) <= 0);
            }
        }
        sorted_stays(front, order);
        if front.len() > 0 {
            assert(order(s[front.len() - 1], s[front.len() as int]) <= 0);
        }
        assert(front.push(s.last()) =~= s);
    }
}

/// What is of different kinds stays as it is.
pub proof fn firsts_stay<V>(s: Seq<V>, same: spec_fn(V, V) -> bool)
    requires
        forall|i: int, j: int| 0 <= i < j < s.len() ==> !(#[trigger] same(s[i], s[j])),
    ensures
        firsts(s, same) == s,
    decreases s.len(),
{
    if s.len() > 0 {
        let front = s.drop_last();
        assert forall|i: int, j: int| 0 <= i < j < front.len() implies !(#[trigger] same(front[i], front[j])) by {
            assert(!same(s[i], s[j]));
        }
        firsts_stay(front, same);
        assert forall|i: int| 0 <= i < front.len() implies !same(#[trigger] front[i], s.last()) by {
            assert(!same(s[i], s[s.len() - 1]));
        }
        assert(front.push(s.last()) =~= s);
    }
}

/// Where an item is put: behind what does not stand behind it, and before the rest.
proof fn placed_is_insertion<V>(s: Seq<V>, x: V, order: spec_fn(V, V) -> int) -> (k: int)
    ensures
        0 <= k <= s.len(),
        placed(s, x, order) == s.insert(k, x),
        k > 0 ==> order(s[k - 1], x) <= 0,
        forall|i: int| k <= i < s.len() ==> order(#[trigger] s[i], x) > 0,
    decreases s.len(),
{
    if s.len() == 0 || order(s.last(), x) <= 0 {
        assert(s.push(x) =~= s.insert(s.len() as int, x));
        s.len() as int
    } else {
        let front = s.drop_last();
        let k = placed_is_insertion(front, x, order);
        assert(front.insert(k, x).push(s.last()) =~= s.insert(k, x));
        assert forall|i: int| k <= i < s.len() implies order(#[trigger] s[i], x) > 0 by {
            if i < front.len() {
                assert(front[i] == s[i]);
            }
        }
        k
    }
}

/// A sorted sequence is an arrangement of the places of the given one, each place once:
/// nothing stands before what precedes it, and level items keep the order in which they
/// came.
pub proof fn sorted_is_arrangement<V>(s: Seq<V>, order: spec_fn(V, V) -> int) -> (places: Seq<int>)
    requires
        is_order(order),
    ensures
        sorted(s, order).len() == s.len(),
        places.len() == s.len(),
        forall|i: int|
            0 <= i < s.len() ==> 0 <= #[trigger] places[i] < s.len() && sorted(s, order)[i] == s[places[i]],
        forall|i: int, j: int| 0 <= i < j < s.len() ==> #[trigger] places[i] != #[trigger] places[j],
        forall|i: int, j: int|
            0 <= i < j < s.len() ==> order(s[#[trigger] places[i]], s[#[trigger] places[j]]) < 0 || (order(
                s[places[i]],
                s[places[j]],
            ) == 0 && places[i] < places[j]),
    decreases s.len(),
{
    if s.len() == 0 {
        Seq::empty()
    } else {
        let front = s.drop_last();
        let n = front.len() as int;
        let x = s.last();
        let before = sorted(front, order);
        let old_places = sorted_is_arrangement(front, order);
        let k = placed_is_insertion(before, x, order);
        let places = old_places.insert(k, n);
        assert forall|i: int| 0 <= i < s.len() implies 0 <= #[trigger] places[i] < s.len() && sorted(s, order)[i]
            == s[places[i]] by {
            if i < k {
                assert(places[i] == old_places[i]);
            } else if i > k {
                assert(places[i] == old_places[i - 1]);
            }
        }
        assert forall|i: int, j: int| 0 <= i < j < s.len() implies #[trigger] places[i] != #[trigger] places[j]
            && (order(s[places[i]], s[places[j]]) < 0 || (order(s[places[i]], s[places[j]]) == 0 && places[i]
            < places[j])) by {
            let a = if i < k {
                i
            } else {
                i - 1
            };
            let b = if j < k {
                j
            } else {
                j - 1
            };
            if j == k {
                assert(places[i] == old_places[i]);
                assert(before[i] == front[old_places[i]]);
                if i < k - 1 {
                    let p = old_places[i];
                    let q = old_places[k - 1];
                    assert(order(front[p], front[q]) <= 0);
                    assert(before[k - 1] == front[q]);
                    assert(order(front[q], x) <= 0);
                    assert(order(front[p], x) <= 0);
                }
            } else if i == k {
                assert(places[j] == old_places[j - 1]);
                assert(before[j - 1] == front[old_places[j - 1]]);
                assert(order(before[j - 1], x) > 0);
                assert(order(before[j - 1], x) == -order(x, before[j - 1]));
            } else {
                assert(places[i] == old_places[a]);
                assert(places[j] == old_places[b]);
                assert(order(front[old_places[a]], front[old_places[b]]) <= 0);
            }
        }
        places
    }
}

/// The first difference decides how texts compare, by the numbers of the characters; of
/// a text and a longer one that begins with it, the shorter comes first.
pub proof fn first_difference_decides(a: Seq<char>, b: Seq<char>, k: int)
    requires
        0 <= k <= a.len(),
        k <= b.len(),
        forall|i: int| 0 <= i < k ==> a[i] == b[i],
    ensures
        k < a.len() && k < b.len() && (a[k] as int) < (b[k] as int) ==> text_order(a, b) < 0,
        k < a.len() && k < b.len() && (a[k] as int) > (b[k] as int) ==> text_order(a, b) > 0,
        k == a.len() && k < b.len() ==> text_order(a, b) < 0,
        k < a.len() && k == b.len() ==> text_order(a, b) > 0,
    decreases k,
{
    if k > 0 {
        first_difference_decides(a.skip(1), b.skip(1), k - 1);
    }
}

/// Where as many places are taken as there are, each once, every place is taken.
pub proof fn every_place_is_taken(places: Seq<int>, k: int) -> (at: int)
    requires
        0 <= k < places.len(),
        forall|i: int| 0 <= i < places.len() ==> 0 <= #[trigger] places[i] < places.len(),
        forall|i: int, j: int| 0 <= i < j < places.len() ==> #[trigger] places[i] != #[trigger] places[j],
    ensures
        0 <= at < places.len(),
        places[at] == k,
{
    if !places.contains(k) {
        let n = places.len();
        places.unique_seq_to_set();
        let all = vstd::set_lib::set_int_range(0, n as int);
        vstd::set_lib::lemma_int_range(0, n as int);
        let taken = places.to_set();
        assert forall|x: int| #[trigger] taken.contains(x) implies all.remove(k).contains(x) by {
            assert(places.contains(x));
        }
        assert(taken.subset_of(all.remove(k)));
        vstd::set_lib::lemma_len_subset(taken, all.remove(k));
        assert(false);
    }
    choose|at: int| 0 <= at < places.len() && places[at] == k
}

/// Of each kind the first item is kept, in the order in which they came: an item is kept
/// exactly where none before it is of its kind.
pub proof fn firsts_come_in_order<V>(s: Seq<V>, x: V, same: spec_fn(V, V) -> bool)
    ensures
        (exists|i: int| 0 <= i < s.len() && same(#[trigger] s[i], x)) ==> firsts(s.push(x), same) == firsts(s, same),
        (forall|i: int| 0 <= i < s.len() ==> !same(#[trigger] s[i], x)) ==> firsts(s.push(x), same) == firsts(
            s,
            same,
        ).push(x),
        firsts(Seq::<V>::empty(), same).len() == 0,
{
    assert(s.push(x).drop_last() =~= s);
    assert(s.push(x).last() == x);
}

proof fn firsts_have_places<V>(s: Seq<V>, same: spec_fn(V, V) -> bool, k: int) -> (j: int)
    requires
        0 <= k < firsts(s, same).len(),
    ensures
        0 <= j < s.len(),
        firsts(s, same)[k] == s[j],
        forall|i: int| 0 <= i < j ==> !same(#[trigger] s[i], s[j]),
    decreases s.len(),
{
    let front = s.drop_last();
    if k < firsts(front, same).len() {
        let j = firsts_have_places(front, same, k);
        assert(front[j] == s[j]);
        assert forall|i: int| 0 <= i < j implies !same(#[trigger] s[i], s[j]) by {
            assert(!same(front[i], front[j]));
        }
        j
    } else {
        let j = s.len() - 1;
        assert(!has_kind(front, s.last(), same));
        assert forall|i: int| 0 <= i < j implies !same(#[trigger] s[i], s[j]) by {
            assert(!same(front[i], s.last()));
        }
        j
    }
}

/// Where items that stand level are of one kind, sorting and keeping the first of each kind
/// keeps, of each kind, the item that was given first; no kind is lost.
pub proof fn settled_items_are_the_first_given<V>(s: Seq<V>, order: spec_fn(V, V) -> int, same: spec_fn(V, V) -> bool, n: int)
    requires
        is_order(order),
        is_equivalence(same),
        forall|a: V, b: V| #[trigger] same(a, b) <==> order(a, b) == 0,
        0 <= n < s.len(),
        forall|i: int| 0 <= i < n ==> !same(#[trigger] s[i], s[n]),
    ensures
        firsts(sorted(s, order), same).contains(s[n]),
{
    let all = sorted(s, order);
    let kept = firsts(all, same);
    let places = sorted_is_arrangement(s, order);
    let at = every_place_is_taken(places, n);
    assert(all[at] == s[n]);
    firsts_are_distinct_and_complete(all, same);
    assert(has_kind(kept, all[at], same));
    let k = choose|k: int| 0 <= k < kept.len() && same(#[trigger] kept[k], all[at]);
    let j = firsts_have_places(all, same, k);
    assert(all[j] == s[places[j]]);
    assert(same(s[places[j]], s[n]));
    if at < j {
        assert(!same(all[at], all[j]));
        assert(order(s[places[j]], s[n]) == 0);
        assert(order(s[n], s[places[j]]) == -order(s[places[j]], s[n]));
        assert(same(s[n], s[places[j]]));
    } else if j < at {
        assert(order(s[places[j]], s[places[at]]) == 0);
        assert(places[j] < places[at]);
        assert(!same(s[places[j]], s[n]));
    }
    assert(j == at);
    assert(kept[k] == s[n]);
}

/// The first item of all is the first that is kept.
pub proof fn first_item_is_kept<V>(s: Seq<V>, same: spec_fn(V, V) -> bool)
    requires
        s.len() > 0,
    ensures
        firsts(s, same).len() > 0,
        firsts(s, same)[0] == s[0],
    decreases s.len(),
{
    if s.len() > 1 {
        first_item_is_kept(s.drop_last(), same);
    } else {
        assert(s.drop_last() =~= Seq::empty());
        assert(firsts(s.drop_last(), same).len() == 0);
        assert(!has_kind(s.drop_last(), s.last(), same));
    }
}

} // verus!
