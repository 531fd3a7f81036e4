//! Text by its length in bytes, and its form in a URL.
use vstd::prelude::*;
use vstd::utf8::{
    encode_scalar, encode_utf8, encode_utf8_decode_utf8, encode_utf8_valid_utf8, is_ascii_chars,
    is_ascii_chars_encode_utf8,
};
use crate::lines::{decode, decoded};
use crate::text::{chars_of, text_of};

verus! {

/// How many bytes a text takes in UTF-8.
pub open spec fn byte_len(s: Seq<char>) -> nat {
    encode_utf8(s).len()
}

/// How many bytes a character takes in UTF-8.
pub open spec fn char_bytes(c: char) -> nat {
    if (c as u32) < 0x80 {
        1
    } else if (c as u32) < 0x800 {
        2
    } else if (c as u32) < 0x1_0000 {
        3
    } else {
        4
    }
}

proof fn char_bytes_is_encoded(c: char)
    ensures
        encode_scalar(c as u32).len() == char_bytes(c),
{
}

/// Texts are encoded one behind the other.
pub proof fn encode_concat(a: Seq<char>, b: Seq<char>)
    ensures
        encode_utf8(a + b) == encode_utf8(a) + encode_utf8(b),
    decreases a.len(),
{
    if a.len() == 0 {
        assert(a + b =~= b);
        assert(encode_utf8(a) + encode_utf8(b) =~= encode_utf8(b));
    } else {
        encode_concat(a.drop_first(), b);
        assert((a + b).drop_first() =~= a.drop_first() + b);
        assert(encode_utf8(a + b) =~= encode_scalar(a[0] as u32) + (encode_utf8(a.drop_first()) + encode_utf8(b)));
    }
}

/// Lengths add up.
pub proof fn byte_len_concat(a: Seq<char>, b: Seq<char>)
    ensures
        byte_len(a + b) == byte_len(a) + byte_len(b),
{
    encode_concat(a, b);
}

/// One character more.
pub proof fn byte_len_push(s: Seq<char>, c: char)
    ensures
        byte_len(s.push(c)) == byte_len(s) + char_bytes(c),
{
    encode_concat(s, seq![c]);
    assert(s.push(c) =~= s + seq![c]);
    assert(seq![c].drop_first() =~= Seq::empty());
    assert(encode_utf8(Seq::<char>::empty()) =~= Seq::empty());
    assert(encode_utf8(seq![c]) =~= encode_scalar(c as u32));
    char_bytes_is_encoded(c);
}

/// The longest beginning that takes at most `max` bytes.
pub open spec fn fitting(s: Seq<char>, max: int) -> Seq<char>
    decreases s.len(),
{
    if s.len() == 0 || byte_len(s) <= max {
        s
    } else {
        fitting(s.drop_last(), max)
    }
}

/// What fits is a beginning that takes at most `max` bytes, and with one more
/// character it would take more.
pub proof fn fitting_is_longest(s: Seq<char>, max: int)
    requires
        0 <= max,
    ensures
        fitting(s, max).len() <= s.len(),
        fitting(s, max) == s.take(fitting(s, max).len() as int),
        byte_len(fitting(s, max)) <= max,
        fitting(s, max).len() < s.len() ==> byte_len(s.take(fitting(s, max).len() as int + 1)) > max,
    decreases s.len(),
{
    if s.len() == 0 || byte_len(s) <= max {
        assert(s.take(s.len() as int) =~= s);
    } else {
        let front = s.drop_last();
        let r = fitting(front, max);
        fitting_is_longest(front, max);
        assert(s.take(r.len() as int) =~= front.take(r.len() as int));
        if r.len() < front.len() {
            assert(s.take(r.len() as int + 1) =~= front.take(r.len() as int + 1));
        } else {
            assert(s.take(r.len() as int + 1) =~= s);
        }
    }
}

/// How many bytes a text takes.
pub fn byte_len_of(text: &str) -> (r: usize)
    ensures
        r == byte_len(text@),
{
    text.as_bytes().len()
}

fn char_bytes_of(c: char) -> (r: usize)
    ensures
        r == char_bytes(c),
{
    let n = c as u32;
    if n < 0x80 {
        1
    } else if n < 0x800 {
        2
    } else if n < 0x1_0000 {
        3
    } else {
        4
    }
}

/// The longest beginning that takes at most `max` bytes, and whether anything is
/// cut off.
pub fn truncate_on_char_boundary(text: &str, max: usize) -> (r: (String, bool))
    ensures
        r.0@ == fitting(text@, max as int),
        r.1 == (byte_len(text@) > max),
{
    let total = byte_len_of(text);
    if total <= max {
        return (text.to_owned(), false);
    }
    let chars = chars_of(text);
    let ghost all = text@;
    let mut n = chars.len();
    let mut size = total;
    assert(all.take(n as int) =~= all);
    while n > 0 && size > max
        invariant
            n <= chars@.len(),
            chars@ == all,
            size == byte_len(all.take(n as int)),
            fitting(all, max as int) == fitting(all.take(n as int), max as int),
        decreases n,
    {
        proof {
            let here = all.take(n as int);
            assert(here.drop_last() =~= all.take(n - 1));
            assert(here =~= here.drop_last().push(all[n - 1]));
            byte_len_push(here.drop_last(), all[n - 1]);
        }
        size = size - char_bytes_of(chars[n - 1]);
        n = n - 1;
    }
    assert(all.take(n as int) =~= all.subrange(0, n as int));
    (text_of(&chars, 0, n), true)
}

/// Whether a byte stands for itself in a URL.
pub open spec fn is_unreserved(b: u8) -> bool {
    ||| 48 <= b <= 57
    ||| 65 <= b <= 90
    ||| 97 <= b <= 122
    ||| b == 45
    ||| b == 46
    ||| b == 95
    ||| b == 126
}

/// The digit of a number below sixteen, in capitals.
pub open spec fn hex_digit(n: int) -> char {
    if n < 10 {
        (48 + n) as char
    } else {
        (55 + n) as char
    }
}

/// Bytes in the form of a URL: each that does not stand for itself as a percent
/// sign and two digits.
pub open spec fn percent_encoded(bytes: Seq<u8>) -> Seq<char>
    decreases bytes.len(),
{
    if bytes.len() == 0 {
        Seq::empty()
    } else {
        let front = percent_encoded(bytes.drop_last());
        let b = bytes.last();
        if is_unreserved(b) {
            front.push(b as char)
        } else {
            front.push('%').push(hex_digit(b as int / 16)).push(hex_digit(b as int % 16))
        }
    }
}

/// `urlencoding::encode`: the UTF-8 bytes of the text in the form of a URL.
#[verifier::external_body]
pub(crate) fn url_encode(text: &str) -> (r: String)
    ensures
        r@ == percent_encoded(encode_utf8(text@)),
{
    urlencoding::encode(text).into_owned()
}

/// The number that a digit of base sixteen stands for.
pub open spec fn hex_value(b: u8) -> Option<int> {
    if 48 <= b <= 57 {
        Some(b - 48)
    } else if 97 <= b <= 102 {
        Some(b - 87)
    } else if 65 <= b <= 70 {
        Some(b - 55)
    } else {
        None
    }
}

fn hex_value_of(b: u8) -> (r: Option<u8>)
    ensures
        match r {
            Some(n) => hex_value(b) == Some(n as int) && n < 16,
            None => hex_value(b) is None,
        },
{
    if 48 <= b && b <= 57 {
        Some(b - 48)
    } else if 97 <= b && b <= 102 {
        Some(b - 87)
    } else if 65 <= b && b <= 70 {
        Some(b - 55)
    } else {
        None
    }
}

/// Bytes in front of others, where there are others.
pub open spec fn with_front(front: Seq<u8>, rest: Option<Seq<u8>>) -> Option<Seq<u8>> {
    match rest {
        Some(rest) => Some(front + rest),
        None => None,
    }
}

/// The bytes that stand behind the escapes of a URL: none where a percent sign has
/// no two digits behind it.
pub open spec fn unescaped(bytes: Seq<u8>) -> Option<Seq<u8>>
    decreases bytes.len(),
{
    if bytes.len() == 0 {
        Some(Seq::empty())
    } else if bytes[0] != 37 {
        with_front(seq![bytes[0]], unescaped(bytes.skip(1)))
    } else if bytes.len() < 3 {
        None
    } else {
        match (hex_value(bytes[1]), hex_value(bytes[2])) {
            (Some(high), Some(low)) => with_front(seq![(high * 16 + low) as u8], unescaped(bytes.skip(3))),
            _ => None,
        }
    }
}

/// The text behind the escapes of a URL: none where an escape is malformed, or what
/// is behind them is not UTF-8.
pub open spec fn percent_decoded(s: Seq<char>) -> Option<Seq<char>> {
    match unescaped(encode_utf8(s)) {
        Some(bytes) => decoded(bytes),
        None => None,
    }
}

/// The text behind the escapes of a URL.
pub fn percent_decode(input: &str) -> (r: Option<String>)
    ensures
        r.deep_view() == percent_decoded(input@),
{
    let bytes = input.as_bytes();
    let ghost all = encode_utf8(input@);
    let mut out: Vec<u8> = Vec::new();
    let mut i: usize = 0;
    assert(all.skip(0) =~= all);
    assert(unescaped(all) == with_front(out@, unescaped(all.skip(0)))) by {
        if let Some(rest) = unescaped(all) {
            assert(Seq::<u8>::empty() + rest =~= rest);
        }
    }
    while i < bytes.len()
        invariant
            i <= bytes@.len(),
            all == bytes@,
            all == encode_utf8(input@),
            unescaped(all) == with_front(out@, unescaped(all.skip(i as int))),
        decreases bytes.len() - i,
    {
        let ghost before = out@;
        let ghost rest = all.skip(i as int);
        if bytes[i] == 37 {
            if bytes.len() - i < 3 {
                return None;
            }
            assert(rest[1] == bytes@[i + 1]);
            assert(rest[2] == bytes@[i + 2]);
            match (hex_value_of(bytes[i + 1]), hex_value_of(bytes[i + 2])) {
                (Some(high), Some(low)) => {
                    let b: u8 = high * 16 + low;
                    out.push(b);
                    assert(rest.skip(3) =~= all.skip(i + 3));
                    assert(unescaped(all) == with_front(out@, unescaped(all.skip(i + 3)))) by {
                        if let Some(more) = unescaped(all.skip(i + 3)) {
                            assert(before + (seq![b] + more) =~= out@ + more);
                        }
                    }
                },
                _ => return None,
            }
            i = i + 3;
        } else {
            out.push(bytes[i]);
            assert(rest.skip(1) =~= all.skip(i + 1));
            assert(unescaped(all) == with_front(out@, unescaped(all.skip(i + 1)))) by {
                if let Some(more) = unescaped(all.skip(i + 1)) {
                    assert(before + (seq![rest[0]] + more) =~= out@ + more);
                }
            }
            i = i + 1;
        }
    }
    assert(all.skip(i as int) =~= Seq::<u8>::empty());
    assert(out@ + Seq::<u8>::empty() =~= out@);
    decode(out)
}

proof fn unescaped_concat(a: Seq<u8>, b: Seq<u8>)
    requires
        unescaped(a) is Some,
    ensures
        unescaped(a + b) == with_front(unescaped(a)->0, unescaped(b)),
    decreases a.len(),
{
    if a.len() == 0 {
        assert(a + b =~= b);
        if let Some(rest) = unescaped(b) {
            assert(Seq::<u8>::empty() + rest =~= rest);
        }
    } else {
        let n: int = if a[0] == 37 {
            3
        } else {
            1
        };
        unescaped_concat(a.skip(n), b);
        assert((a + b).skip(n) =~= a.skip(n) + b);
        if let Some(rest) = unescaped(b) {
            let first: u8 = if a[0] == 37 {
                (hex_value(a[1])->0 * 16 + hex_value(a[2])->0) as u8
            } else {
                a[0]
            };
            let mid = unescaped(a.skip(n))->0;
            assert(seq![first] + (mid + rest) =~= (seq![first] + mid) + rest);
        }
    }
}

proof fn hex_value_of_digit(n: int)
    requires
        0 <= n < 16,
    ensures
        hex_value(hex_digit(n) as u8) == Some(n),
{
}

proof fn unescaped_percent_encoded(bytes: Seq<u8>)
    ensures
        unescaped(encode_utf8(percent_encoded(bytes))) == Some(bytes),
    decreases bytes.len(),
{
    if bytes.len() == 0 {
        assert(bytes =~= Seq::empty());
    } else {
        let front = bytes.drop_last();
        let b = bytes.last();
        unescaped_percent_encoded(front);
        let tail = if is_unreserved(b) {
            seq![b as char]
        } else {
            seq!['%', hex_digit(b as int / 16), hex_digit(b as int % 16)]
        };
        assert(percent_encoded(bytes) =~= percent_encoded(front) + tail);
        encode_concat(percent_encoded(front), tail);
        unescaped_concat(encode_utf8(percent_encoded(front)), encode_utf8(tail));
        assert(is_ascii_chars(tail));
        is_ascii_chars_encode_utf8(tail);
        let raw = encode_utf8(tail);
        if is_unreserved(b) {
            assert(raw[0] == tail[0] as u8);
            assert(raw[0] == b);
            assert(raw.skip(1) =~= Seq::empty());
        } else {
            hex_value_of_digit(b as int / 16);
            hex_value_of_digit(b as int % 16);
            assert(raw[0] == tail[0] as u8);
            assert(raw[1] == tail[1] as u8);
            assert(raw[2] == tail[2] as u8);
            assert(raw.skip(3) =~= Seq::empty());
        }
        assert(unescaped(Seq::<u8>::empty()) == Some(Seq::<u8>::empty()));
        assert(seq![b] + Seq::<u8>::empty() =~= seq![b]);
        assert((b as int / 16) * 16 + b as int % 16 == b);
        assert(unescaped(raw) == Some(seq![b]));
        assert(front + seq![b] =~= bytes);
    }
}

/// Decoding undoes encoding: every text comes back from its form in a URL.
pub proof fn percent_decoding_undoes_encoding(s: Seq<char>)
    ensures
        percent_decoded(percent_encoded(encode_utf8(s))) == Some(s),
{
    unescaped_percent_encoded(encode_utf8(s));
    encode_utf8_valid_utf8(s);
    encode_utf8_decode_utf8(s);
}

} // verus!
