//! Splitting text and raw bytes into lines.
use vstd::prelude::*;
use vstd::utf8::{decode_utf8, valid_utf8};
use crate::text::{chars_of, head, take_chars, text_of};

verus! {

/// How many items stand before the first `end` in `s`.
pub open spec fn until<T>(s: Seq<T>, end: T) -> int
    decreases s.len(),
{
    if s.len() == 0 || s[0] == end {
        0
    } else {
        1 + until(s.skip(1), end)
    }
}

pub proof fn until_bounds<T>(s: Seq<T>, end: T)
    ensures
        0 <= until(s, end) <= s.len(),
        forall|i: int| 0 <= i < until(s, end) ==> s[i] != end,
        until(s, end) < s.len() ==> s[until(s, end)] == end,
    decreases s.len(),
{
    if s.len() > 0 && s[0] != end {
        until_bounds(s.skip(1), end);
        assert forall|i: int| 0 <= i < until(s, end) implies s[i] != end by {
            if i > 0 {
                assert(s.skip(1)[i - 1] == s[i]);
            }
        }
    }
}

pub proof fn until_is<T>(s: Seq<T>, end: T, n: int)
    requires
        0 <= n <= s.len(),
        forall|i: int| 0 <= i < n ==> s[i] != end,
        n < s.len() ==> s[n] == end,
    ensures
        until(s, end) == n,
{
    until_bounds(s, end);
}

/// A line without the carriage return before its line feed.
pub open spec fn without_last<T>(s: Seq<T>, cr: T) -> Seq<T> {
    if s.len() > 0 && s.last() == cr {
        s.drop_last()
    } else {
        s
    }
}

/// The lines of `s`: each ends at `nl`, which does not belong to it, nor does a
/// `cr` right before that. What follows the last `nl` is a line unless empty.
pub open spec fn split_lines<T>(s: Seq<T>, nl: T, cr: T) -> Seq<Seq<T>>
    decreases s.len(),
{
    if s.len() == 0 {
        Seq::empty()
    } else if !(0 <= until(s, nl) < s.len()) {
        seq![s]
    } else {
        seq![without_last(s.take(until(s, nl)), cr)] + split_lines(s.skip(until(s, nl) + 1), nl, cr)
    }
}

/// The lines of a text.
pub open spec fn lines(s: Seq<char>) -> Seq<Seq<char>> {
    split_lines(s, '\n', '\r')
}

/// The first line of a text, if it has any.
pub open spec fn first_line(s: Seq<char>) -> Option<Seq<char>> {
    if lines(s).len() == 0 {
        None
    } else {
        Some(lines(s)[0])
    }
}

/// Only the empty text has no line.
pub proof fn first_line_none_iff_empty(s: Seq<char>)
    ensures
        first_line(s) is None <==> s.len() == 0,
{
    until_bounds(s, '\n');
}

/// The first line is a beginning of the text, and holds no line feed.
pub proof fn first_line_is_beginning(s: Seq<char>)
    ensures
        first_line(s) matches Some(line) ==> line.len() <= s.len() && line == s.take(line.len() as int)
            && !line.contains('\n'),
{
    if s.len() > 0 {
        let n = until(s, '\n');
        until_bounds(s, '\n');
        if n < s.len() {
            let line = without_last(s.take(n), '\r');
            assert(line =~= s.take(line.len() as int));
        } else {
            assert(s =~= s.take(s.len() as int));
        }
    }
}

/// The lines of a text.
pub fn lines_of(text: &str) -> (r: Vec<String>)
    ensures
        r.deep_view() == lines(text@),
{
    let chars = chars_of(text);
    let mut out: Vec<String> = Vec::new();
    let mut start: usize = 0;
    assert(chars@.skip(0) =~= chars@);
    assert(out.deep_view() + lines(chars@) =~= lines(chars@));
    while start < chars.len()
        invariant
            start <= chars@.len(),
            lines(chars@) == out.deep_view() + lines(chars@.skip(start as int)),
        decreases chars.len() - start,
    {
        let mut end: usize = start;
        while end < chars.len() && chars[end] != '\n'
            invariant
                start <= end <= chars@.len(),
                forall|i: int| start <= i < end ==> chars@[i] != '\n',
            decreases chars.len() - end,
        {
            end = end + 1;
        }
        let ghost rest = chars@.skip(start as int);
        proof {
            until_is(rest, '\n', end - start);
            assert(rest.take(end - start) =~= chars@.subrange(start as int, end as int));
        }
        let ghost before = out.deep_view();
        if end == chars.len() {
            out.push(text_of(&chars, start, end));
            proof {
                assert(rest =~= chars@.subrange(start as int, end as int));
                assert(chars@.skip(end as int) =~= Seq::<char>::empty());
                assert(out.deep_view() =~= before.push(rest));
                assert(lines(chars@) =~= out.deep_view() + lines(chars@.skip(end as int)));
            }
            start = end;
        } else {
            let stop: usize = if end > start && chars[end - 1] == '\r' {
                end - 1
            } else {
                end
            };
            out.push(text_of(&chars, start, stop));
            proof {
                let line = without_last(rest.take(end - start), '\r');
                assert(line =~= chars@.subrange(start as int, stop as int));
                assert(rest.skip(end - start + 1) =~= chars@.skip(end + 1));
                assert(out.deep_view() =~= before.push(line));
                assert(lines(chars@) =~= out.deep_view() + lines(chars@.skip(end + 1)));
            }
            start = end + 1;
        }
    }
    assert(chars@.skip(start as int) =~= Seq::<char>::empty());
    assert(out.deep_view() + lines(chars@.skip(start as int)) =~= out.deep_view());
    out
}

/// The first line of a text, cut to `n` characters.
pub open spec fn headline(s: Seq<char>, n: int) -> Option<Seq<char>> {
    match first_line(s) {
        Some(line) => Some(head(line, n)),
        None => None,
    }
}

pub fn headline_of(text: &str, n: usize) -> (r: Option<String>)
    ensures
        r.deep_view() == headline(text@, n as int),
{
    let all = lines_of(text);
    if all.len() == 0 {
        None
    } else {
        assert(all.deep_view()[0] == all@[0]@);
        Some(take_chars(all[0].as_str(), n))
    }
}

/// What a line of raw bytes reads as: `None` where it is not UTF-8.
pub open spec fn decoded(bytes: Seq<u8>) -> Option<Seq<char>> {
    if valid_utf8(bytes) {
        Some(decode_utf8(bytes))
    } else {
        None
    }
}

/// The lines of a file, each as text where its bytes are UTF-8.
pub open spec fn byte_lines(bytes: Seq<u8>) -> Seq<Option<Seq<char>>> {
    split_lines(bytes, 10u8, 13u8).map_values(|line: Seq<u8>| decoded(line))
}

/// The bytes `from .. to` of a list.
pub fn bytes_between(bytes: &Vec<u8>, from: usize, to: usize) -> (r: Vec<u8>)
    requires
        from <= to <= bytes@.len(),
    ensures
        r@ == bytes@.subrange(from as int, to as int),
{
    let mut out: Vec<u8> = Vec::new();
    let mut i: usize = from;
    while i < to
        invariant
            from <= i <= to <= bytes@.len(),
            out@ == bytes@.subrange(from as int, i as int),
        decreases to - i,
    {
        out.push(bytes[i]);
        i = i + 1;
        assert(bytes@.subrange(from as int, i as int) =~= bytes@.subrange(
            from as int,
            i - 1,
        ).push(bytes@[i - 1]));
    }
    out
}

/// The text that bytes encode, where they are UTF-8.
pub fn decode(bytes: Vec<u8>) -> (r: Option<String>)
    ensures
        r.deep_view() == decoded(bytes@),
{
    match String::from_utf8(bytes) {
        Ok(text) => Some(text),
        Err(_) => None,
    }
}

/// The lines of a file, each as text where its bytes are UTF-8.
pub fn byte_lines_of(bytes: &Vec<u8>) -> (r: Vec<Option<String>>)
    ensures
        r.deep_view() == byte_lines(bytes@),
{
    let mut out: Vec<Option<String>> = Vec::new();
    let mut start: usize = 0;
    assert(bytes@.skip(0) =~= bytes@);
    assert(out.deep_view() + byte_lines(bytes@) =~= byte_lines(bytes@));
    while start < bytes.len()
        invariant
            start <= bytes@.len(),
            byte_lines(bytes@) == out.deep_view() + byte_lines(bytes@.skip(start as int)),
        decreases bytes.len() - start,
    {
        let mut end: usize = start;
        while end < bytes.len() && bytes[end] != 10u8
            invariant
                start <= end <= bytes@.len(),
                forall|i: int| start <= i < end ==> bytes@[i] != 10u8,
            decreases bytes.len() - end,
        {
            end = end + 1;
        }
        let ghost rest = bytes@.skip(start as int);
        proof {
            until_is(rest, 10u8, end - start);
            assert(rest.take(end - start) =~= bytes@.subrange(start as int, end as int));
        }
        let ghost before = out.deep_view();
        if end == bytes.len() {
            out.push(decode(bytes_between(bytes, start, end)));
            proof {
                assert(rest =~= bytes@.subrange(start as int, end as int));
                assert(bytes@.skip(end as int) =~= Seq::<u8>::empty());
                assert(out.deep_view() =~= before.push(decoded(rest)));
                assert(byte_lines(rest) =~= seq![decoded(rest)]);
                assert(byte_lines(bytes@) =~= out.deep_view() + byte_lines(bytes@.skip(end as int)));
            }
            start = end;
        } else {
            let stop: usize = if end > start && bytes[end - 1] == 13u8 {
                end - 1
            } else {
                end
            };
            out.push(decode(bytes_between(bytes, start, stop)));
            proof {
                let line = without_last(rest.take(end - start), 13u8);
                assert(line =~= bytes@.subrange(start as int, stop as int));
                assert(rest.skip(end - start + 1) =~= bytes@.skip(end + 1));
                assert(out.deep_view() =~= before.push(decoded(line)));
                assert(byte_lines(rest) =~= seq![decoded(line)] + byte_lines(bytes@.skip(end + 1)));
                assert(byte_lines(bytes@) =~= out.deep_view() + byte_lines(bytes@.skip(end + 1)));
            }
            start = end + 1;
        }
    }
    assert(bytes@.skip(start as int) =~= Seq::<u8>::empty());
    assert(out.deep_view() + byte_lines(bytes@.skip(start as int)) =~= out.deep_view());
    out
}

/// The lines up to the first that cannot be read.
pub open spec fn readable(lines: Seq<Option<Seq<char>>>) -> Seq<Seq<char>>
    decreases lines.len(),
{
    if lines.len() == 0 {
        Seq::empty()
    } else {
        match lines[0] {
            Some(text) => seq![text] + readable(lines.skip(1)),
            None => Seq::empty(),
        }
    }
}

pub fn readable_lines(lines: &Vec<Option<String>>) -> (r: Vec<String>)
    ensures
        r.deep_view() == readable(lines.deep_view()),
{
    let ghost all = lines.deep_view();
    let mut out: Vec<String> = Vec::new();
    let mut i: usize = 0;
    assert(all.skip(0) =~= all);
    assert(out.deep_view() + readable(all) =~= readable(all));
    while i < lines.len()
        invariant
            i <= lines@.len(),
            all == lines.deep_view(),
            readable(all) == out.deep_view() + readable(all.skip(i as int)),
        decreases lines.len() - i,
    {
        let ghost rest = all.skip(i as int);
        assert(rest[0] == lines@[i as int].deep_view());
        match &lines[i] {
            Some(text) => {
                let ghost before = out.deep_view();
                out.push(text.clone());
                proof {
                    assert(rest.skip(1) =~= all.skip(i + 1));
                    assert(out.deep_view() =~= before.push(text@));
                    assert(before + (seq![text@] + readable(all.skip(i + 1))) =~= out.deep_view() + readable(
                        all.skip(i + 1),
                    ));
                }
            },
            None => {
                assert(out.deep_view() + readable(rest) =~= out.deep_view());
                return out;
            },
        }
        i = i + 1;
    }
    assert(out.deep_view() + readable(all.skip(i as int)) =~= out.deep_view());
    out
}

/// What stands before the first line break is a line, without a carriage return at its
/// end, and the rest is read on its own.
proof fn split_lines_at_break<T>(a: Seq<T>, b: Seq<T>, nl: T, cr: T)
    requires
        forall|i: int| 0 <= i < a.len() ==> a[i] != nl,
    ensures
        split_lines(a.push(nl) + b, nl, cr) == seq![
            if a.len() > 0 && a.last() == cr {
                a.drop_last()
            } else {
                a
            },
        ] + split_lines(b, nl, cr),
{
    let s = a.push(nl) + b;
    until_is(s, nl, a.len() as int);
    assert(s.take(a.len() as int) =~= a);
    assert(s.skip((a.len() + 1) as int) =~= b);
}

/// A line feed ends a line, and a carriage return right before it belongs to neither
/// line; what holds no line feed is one line, as it stands.
pub proof fn lines_end_at_line_feeds(a: Seq<char>, b: Seq<char>)
    requires
        forall|i: int| 0 <= i < a.len() ==> a[i] != '\n',
    ensures
        a.len() == 0 ==> lines(a).len() == 0,
        a.len() > 0 ==> lines(a) == seq![a],
        a.len() == 0 || a.last() != '\r' ==> lines(a.push('\n') + b) == seq![a] + lines(b),
        lines(a.push('\r').push('\n') + b) == seq![a] + lines(b),
{
    until_is(a, '\n', a.len() as int);
    split_lines_at_break(a, b, '\n', '\r');
    let c = a.push('\r');
    split_lines_at_break(c, b, '\n', '\r');
    assert(c.drop_last() =~= a);
}

/// The lines of a file end at line feeds, without a carriage return right before one,
/// and each is read for itself: one that is no text does not touch the others.
pub proof fn byte_lines_end_at_line_feeds(a: Seq<u8>, b: Seq<u8>)
    requires
        forall|i: int| 0 <= i < a.len() ==> a[i] != 10u8,
    ensures
        a.len() == 0 ==> byte_lines(a).len() == 0,
        a.len() > 0 && valid_utf8(a) ==> byte_lines(a) == seq![Some(decode_utf8(a))],
        a.len() > 0 && !valid_utf8(a) ==> byte_lines(a) == seq![None::<Seq<char>>],
        a.len() == 0 || a.last() != 13u8 ==> byte_lines(a.push(10u8) + b) == seq![
            if valid_utf8(a) {
                Some(decode_utf8(a))
            } else {
                None
            },
        ] + byte_lines(b),
        byte_lines(a.push(13u8).push(10u8) + b) == seq![
            if valid_utf8(a) {
                Some(decode_utf8(a))
            } else {
                None
            },
        ] + byte_lines(b),
{
    until_is(a, 10u8, a.len() as int);
    split_lines_at_break(a, b, 10u8, 13u8);
    let c = a.push(13u8);
    split_lines_at_break(c, b, 10u8, 13u8);
    assert(c.drop_last() =~= a);
    if a.len() > 0 {
        assert(split_lines(a, 10u8, 13u8) =~= seq![a]);
        assert(byte_lines(a) =~= seq![decoded(a)]);
    }
    if a.len() == 0 || a.last() != 13u8 {
        assert(byte_lines(a.push(10u8) + b) =~= seq![decoded(a)] + byte_lines(b));
    }
    assert(byte_lines(c.push(10u8) + b) =~= seq![decoded(a)] + byte_lines(b));
}

/// Of a text that holds no line feed, the headline is the beginning, up to so many
/// characters; whatever follows a line feed has no part in it.
pub proof fn headline_is_of_the_first_line(a: Seq<char>, b: Seq<char>, n: int)
    requires
        0 <= n,
        a.len() > 0,
        forall|i: int| 0 <= i < a.len() ==> a[i] != '\n',
    ensures
        a.len() <= n ==> headline(a, n) == Some(a),
        a.len() > n ==> headline(a, n) == Some(a.take(n)),
        a.last() != '\r' ==> headline(a.push('\n') + b, n) == headline(a, n),
        headline(a.push('\r').push('\n') + b, n) == headline(a, n),
{
    lines_end_at_line_feeds(a, b);
}

/// The lines that can be read are all those before the first that cannot.
pub proof fn readable_stops_at_the_first_bad_line(good: Seq<Option<Seq<char>>>, rest: Seq<Option<Seq<char>>>)
    requires
        forall|i: int| 0 <= i < good.len() ==> (#[trigger] good[i]) is Some,
        rest.len() > 0 ==> rest[0] is None,
    ensures
        readable(good + rest).len() == good.len(),
        forall|i: int| 0 <= i < good.len() ==> Some(#[trigger] readable(good + rest)[i]) == good[i],
    decreases good.len(),
{
    let all = good + rest;
    if good.len() == 0 {
        assert(all =~= rest);
    } else {
        let more = good.skip(1);
        assert forall|i: int| 0 <= i < more.len() implies (#[trigger] more[i]) is Some by {
            assert(good[i + 1] is Some);
        }
        readable_stops_at_the_first_bad_line(more, rest);
        assert(all.skip(1) =~= more + rest);
        assert(good[0] is Some);
        assert(all[0] == good[0]);
        assert forall|i: int| 0 <= i < good.len() implies Some(#[trigger] readable(all)[i]) == good[i] by {
            if i > 0 {
                assert(readable(all)[i] == readable(more + rest)[i - 1]);
                assert(more[i - 1] == good[i]);
            }
        }
    }
}

} // verus!
