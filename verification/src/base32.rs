//! Base 32 without padding, in small letters: five bits a character, of which none
//! but zeros may be left over.
use vstd::prelude::*;
use vstd::utf8::{decode_utf8_encode_utf8, encode_utf8, encode_utf8_decode_utf8, encode_utf8_valid_utf8};
use crate::lines::{decode, decoded};
use crate::text::chars_of;

verus! {

/// The number that a character stands for.
pub open spec fn digit_value(c: char) -> Option<int> {
    if 'a' <= c <= 'z' {
        Some(c as int - 97)
    } else if '2' <= c <= '7' {
        Some(c as int - 24)
    } else {
        None
    }
}

fn digit_value_of(c: char) -> (r: Option<u16>)
    ensures
        match r {
            Some(n) => digit_value(c) == Some(n as int) && n < 32,
            None => digit_value(c) is None,
        },
{
    let n = c as u32;
    if 'a' <= c && c <= 'z' {
        Some((n - 97) as u16)
    } else if '2' <= c && c <= '7' {
        Some((n - 24) as u16)
    } else {
        None
    }
}

/// The character that stands for a number below 32.
pub open spec fn digit_char(n: int) -> char {
    if n < 26 {
        (97 + n) as char
    } else {
        (24 + n) as char
    }
}

/// Whether every character is a digit.
pub open spec fn all_digits(name: Seq<char>) -> bool {
    forall|i: int| 0 <= i < name.len() ==> digit_value(#[trigger] name[i]) is Some
}

/// The number that digits write.
pub open spec fn digits_number(name: Seq<char>) -> int
    decreases name.len(),
{
    if name.len() == 0 {
        0
    } else {
        digits_number(name.drop_last()) * 32 + digit_value(name.last())->0
    }
}

/// The bytes that write a number, the highest first.
pub open spec fn number_bytes(n: int, len: int) -> Seq<u8>
    decreases len,
{
    if len <= 0 {
        Seq::empty()
    } else {
        number_bytes(n / 256, len - 1).push((n % 256) as u8)
    }
}

/// Powers of two.
pub open spec fn two_to(n: int) -> int
    decreases n,
{
    if n <= 0 {
        1
    } else {
        2 * two_to(n - 1)
    }
}

/// Whether so many digits write whole bytes, with fewer than five bits left over.
pub open spec fn writes_bytes(digits: int) -> bool {
    digits % 8 == 0 || digits % 8 == 2 || digits % 8 == 4 || digits % 8 == 5 || digits % 8 == 7
}

/// How many bits are left over.
pub open spec fn left_over(digits: int) -> int {
    (5 * digits) % 8
}

/// The bytes that a name writes: none where it is empty, has another character than
/// a digit or another length than bytes give, or something but zeros is left over.
pub open spec fn name_bytes(name: Seq<char>) -> Option<Seq<u8>> {
    let n = name.len() as int;
    if n == 0 || !writes_bytes(n) || !all_digits(name) || digits_number(name) % two_to(left_over(n)) != 0 {
        None
    } else {
        Some(number_bytes(digits_number(name) / two_to(left_over(n)), (5 * n) / 8))
    }
}

/// The text that a name writes.
pub open spec fn decoded_name(name: Seq<char>) -> Option<Seq<char>> {
    match name_bytes(name) {
        Some(bytes) => decoded(bytes),
        None => None,
    }
}

/// The number that bytes write, the highest first.
pub open spec fn bytes_number(bytes: Seq<u8>) -> int
    decreases bytes.len(),
{
    if bytes.len() == 0 {
        0
    } else {
        bytes_number(bytes.drop_last()) * 256 + bytes.last()
    }
}

proof fn number_of_bytes(bytes: Seq<u8>)
    ensures
        number_bytes(bytes_number(bytes), bytes.len() as int) == bytes,
        bytes_number(bytes) >= 0,
    decreases bytes.len(),
{
    if bytes.len() > 0 {
        number_of_bytes(bytes.drop_last());
        let n = bytes_number(bytes);
        assert(n / 256 == bytes_number(bytes.drop_last()));
        assert(n % 256 == bytes.last());
        assert(bytes.drop_last().push(bytes.last()) =~= bytes);
    }
}

proof fn bytes_of_number(n: int, len: int)
    requires
        0 <= len,
        0 <= n,
    ensures
        number_bytes(n, len).len() == len,
        n < two_to(8 * len) ==> bytes_number(number_bytes(n, len)) == n,
    decreases len,
{
    if len > 0 {
        bytes_of_number(n / 256, len - 1);
        reveal_with_fuel(two_to, 9);
        assert(two_to(8 * len) == 256 * two_to(8 * (len - 1)));
        assert(number_bytes(n, len).drop_last() =~= number_bytes(n / 256, len - 1));
    }
}

proof fn two_to_is_positive(n: int)
    ensures
        two_to(n) > 0,
    decreases n,
{
    if n > 0 {
        two_to_is_positive(n - 1);
    }
}

proof fn small_powers()
    ensures
        two_to(0) == 1,
        two_to(1) == 2,
        two_to(2) == 4,
        two_to(3) == 8,
        two_to(4) == 16,
        two_to(5) == 32,
        two_to(6) == 64,
        two_to(7) == 128,
{
    reveal_with_fuel(two_to, 9);
}

fn two_to_of(n: u16) -> (r: u16)
    requires
        n < 8,
    ensures
        r == two_to(n as int),
{
    proof {
        small_powers();
    }
    if n == 0 {
        1
    } else if n == 1 {
        2
    } else if n == 2 {
        4
    } else if n == 3 {
        8
    } else if n == 4 {
        16
    } else if n == 5 {
        32
    } else if n == 6 {
        64
    } else {
        128
    }
}

/// The text that a name writes.
pub fn decode_filename(name: &str) -> (r: Option<String>)
    ensures
        r.deep_view() == decoded_name(name@),
{
    let chars = chars_of(name);
    let ghost all = name@;
    let n = chars.len();
    let rest = n % 8;
    if n == 0 || !(rest == 0 || rest == 2 || rest == 4 || rest == 5 || rest == 7) {
        return None;
    }
    let mut out: Vec<u8> = Vec::new();
    let mut bits: u16 = 0;
    let mut pending: u16 = 0;
    let mut i: usize = 0;
    assert(all.take(0) =~= Seq::empty());
    proof {
        small_powers();
    }
    while i < chars.len()
        invariant
            i <= chars@.len(),
            chars@ == all,
            all == name@,
            bits < 8,
            5 * i == 8 * out@.len() + bits,
            pending < two_to(bits as int),
            forall|k: int| 0 <= k < i ==> digit_value(#[trigger] all[k]) is Some,
            digits_number(all.take(i as int)) == bytes_number(out@) * two_to(bits as int) + pending,
        decreases chars.len() - i,
    {
        proof {
            small_powers();
            assert(all.take(i + 1).drop_last() =~= all.take(i as int));
            assert(all.take(i + 1).last() == all[i as int]);
        }
        let digit = match digit_value_of(chars[i]) {
            Some(digit) => digit,
            None => {
                assert(!all_digits(all));
                return None;
            },
        };
        let ghost before = bytes_number(out@);
        let ghost old_bits = bits as int;
        let ghost old_pending = pending as int;
        pending = pending * 32 + digit;
        bits = bits + 5;
        proof {
            shifted(before, old_bits, old_pending, digit as int);
        }
        if bits >= 8 {
            bits = bits - 8;
            let unit = two_to_of(bits);
            let byte = pending / unit;
            proof {
                whole_byte(before, bits as int, pending as int);
            }
            assert(byte < 256);
            let ghost old_out = out@;
            out.push(byte as u8);
            assert(out@.drop_last() =~= old_out);
            pending = pending % unit;
        }
        i = i + 1;
    }
    assert(all.take(all.len() as int) =~= all);
    assert(all_digits(all));
    proof {
        small_powers();
        let value = bytes_number(out@);
        number_of_bytes(out@);
        whole_part(value, bits as int, pending as int);
        assert(left_over(all.len() as int) == bits);
        assert((5 * all.len() as int) / 8 == out@.len());
    }
    if pending != 0 {
        return None;
    }
    decode(out)
}

proof fn shifted(value: int, bits: int, pending: int, digit: int)
    requires
        0 <= bits < 8,
    ensures
        (value * two_to(bits) + pending) * 32 + digit == value * two_to(bits + 5) + (pending * 32 + digit),
        two_to(bits + 5) == 32 * two_to(bits),
{
    reveal_with_fuel(two_to, 6);
    let p = two_to(bits);
    assert(two_to(bits + 5) == 32 * p);
    assert((value * p + pending) * 32 + digit == value * (32 * p) + (pending * 32 + digit)) by (nonlinear_arith);
}

proof fn whole_byte(value: int, bits: int, pending: int)
    requires
        0 <= bits < 8,
        0 <= pending < two_to(bits + 8),
    ensures
        pending / two_to(bits) < 256,
        0 <= pending / two_to(bits),
        0 <= pending % two_to(bits) < two_to(bits),
        value * two_to(bits + 8) + pending == (value * 256 + pending / two_to(bits)) * two_to(bits) + pending % two_to(
            bits,
        ),
{
    reveal_with_fuel(two_to, 9);
    two_to_is_positive(bits);
    let p = two_to(bits);
    assert(two_to(bits + 8) == 256 * p);
    let q = pending / p;
    let m = pending % p;
    assert(pending == q * p + m && 0 <= m < p) by (nonlinear_arith)
        requires
            p > 0,
            q == pending / p,
            m == pending % p,
    ;
    assert(0 <= q < 256) by (nonlinear_arith)
        requires
            pending == q * p + m,
            0 <= m < p,
            0 <= pending < 256 * p,
            p > 0,
    ;
    assert(value * (256 * p) + pending == (value * 256 + q) * p + m) by (nonlinear_arith)
        requires
            pending == q * p + m,
    ;
}

proof fn whole_part(value: int, bits: int, pending: int)
    requires
        0 <= pending < two_to(bits),
    ensures
        (value * two_to(bits) + pending) / two_to(bits) == value,
        (value * two_to(bits) + pending) % two_to(bits) == pending,
{
    let p = two_to(bits);
    let n = value * p + pending;
    assert(n / p == value && n % p == pending) by (nonlinear_arith)
        requires
            n == value * p + pending,
            0 <= pending < p,
    ;
}

proof fn digits_are_bounded(name: Seq<char>)
    requires
        all_digits(name),
    ensures
        0 <= digits_number(name) < two_to(5 * name.len() as int),
    decreases name.len(),
{
    if name.len() > 0 {
        let front = name.drop_last();
        assert forall|i: int| 0 <= i < front.len() implies digit_value(#[trigger] front[i]) is Some by {
            assert(front[i] == name[i]);
        }
        digits_are_bounded(front);
        reveal_with_fuel(two_to, 6);
        assert(digit_value(name[name.len() - 1]) is Some);
        assert(two_to(5 * name.len() as int) == 32 * two_to(5 * front.len() as int));
    }
}

proof fn same_digits(a: Seq<char>, b: Seq<char>)
    requires
        all_digits(a),
        all_digits(b),
        a.len() == b.len(),
        digits_number(a) == digits_number(b),
    ensures
        a == b,
    decreases a.len(),
{
    if a.len() > 0 {
        let (x, y) = (a.drop_last(), b.drop_last());
        assert forall|i: int| 0 <= i < x.len() implies digit_value(#[trigger] x[i]) is Some by {
            assert(x[i] == a[i]);
        }
        assert forall|i: int| 0 <= i < y.len() implies digit_value(#[trigger] y[i]) is Some by {
            assert(y[i] == b[i]);
        }
        assert(digit_value(a[a.len() - 1]) is Some);
        assert(digit_value(b[b.len() - 1]) is Some);
        same_digits(x, y);
        assert(a =~= x.push(a.last()));
        assert(b =~= y.push(b.last()));
    } else {
        assert(a =~= b);
    }
}

proof fn name_value(name: Seq<char>)
    requires
        name_bytes(name) is Some,
    ensures
        ({
            let bytes = name_bytes(name)->0;
            &&& bytes.len() == (5 * name.len() as int) / 8
            &&& digits_number(name) == bytes_number(bytes) * two_to(left_over(name.len() as int))
        }),
{
    let n = name.len() as int;
    let r = left_over(n);
    let len = (5 * n) / 8;
    let value = digits_number(name);
    let p = two_to(r);
    digits_are_bounded(name);
    two_to_is_positive(r);
    two_to_sum(8 * len, r);
    assert(5 * n == 8 * len + r);
    let whole = value / p;
    let high = two_to(8 * len);
    assert(value == whole * p && 0 <= whole < high) by (nonlinear_arith)
        requires
            p > 0,
            whole == value / p,
            value % p == 0,
            0 <= value < high * p,
    ;
    bytes_of_number(whole, len);
}

proof fn two_to_sum(a: int, b: int)
    requires
        0 <= a,
        0 <= b,
    ensures
        two_to(a + b) == two_to(a) * two_to(b),
    decreases b,
{
    if b == 0 {
        assert(two_to(a) * 1 == two_to(a));
    } else {
        two_to_sum(a, b - 1);
        let (x, y) = (two_to(a), two_to(b - 1));
        assert(2 * (x * y) == x * (2 * y)) by (nonlinear_arith);
    }
}

/// A text has one name: no two names write the same.
pub proof fn names_are_canonical(a: Seq<char>, b: Seq<char>)
    requires
        decoded_name(a) is Some,
        decoded_name(a) == decoded_name(b),
    ensures
        a == b,
{
    let x = name_bytes(a)->0;
    let y = name_bytes(b)->0;
    decode_utf8_encode_utf8(x);
    decode_utf8_encode_utf8(y);
    assert(x == y);
    name_value(a);
    name_value(b);
    assert(a.len() == b.len());
    same_digits(a, b);
}

/// The digits that write a number, the highest first.
pub open spec fn number_digits(n: int, len: int) -> Seq<char>
    decreases len,
{
    if len <= 0 {
        Seq::empty()
    } else {
        number_digits(n / 32, len - 1).push(digit_char(n % 32))
    }
}

/// How many digits so many bytes take.
pub open spec fn digits_for(bytes: int) -> int {
    (8 * bytes + 4) / 5
}

/// The name of bytes: their bits, filled up with zeros, five to a digit.
pub open spec fn encoded_bytes(bytes: Seq<u8>) -> Seq<char> {
    let len = bytes.len() as int;
    let digits = digits_for(len);
    number_digits(bytes_number(bytes) * two_to(5 * digits - 8 * len), digits)
}

/// The name of a text.
pub open spec fn encoded_name(text: Seq<char>) -> Seq<char> {
    encoded_bytes(encode_utf8(text))
}

proof fn digits_of_number(n: int, len: int)
    requires
        0 <= len,
        0 <= n,
    ensures
        number_digits(n, len).len() == len,
        all_digits(number_digits(n, len)),
        n < two_to(5 * len) ==> digits_number(number_digits(n, len)) == n,
    decreases len,
{
    if len > 0 {
        let front = number_digits(n / 32, len - 1);
        let all = number_digits(n, len);
        digits_of_number(n / 32, len - 1);
        reveal_with_fuel(two_to, 6);
        assert(two_to(5 * len) == 32 * two_to(5 * (len - 1)));
        assert(all.drop_last() =~= front);
        let d = n % 32;
        assert(digit_value(digit_char(d)) == Some(d));
        assert forall|i: int| 0 <= i < all.len() implies digit_value(#[trigger] all[i]) is Some by {
            if i < front.len() {
                assert(all[i] == front[i]);
            }
        }
    }
}

proof fn bytes_are_bounded(bytes: Seq<u8>)
    ensures
        0 <= bytes_number(bytes) < two_to(8 * bytes.len() as int),
    decreases bytes.len(),
{
    if bytes.len() > 0 {
        let front = bytes.drop_last();
        bytes_are_bounded(front);
        reveal_with_fuel(two_to, 9);
        assert(two_to(8 * bytes.len() as int) == 256 * two_to(8 * front.len() as int));
    }
}

proof fn encoded_bytes_read_back(bytes: Seq<u8>)
    requires
        bytes.len() > 0,
    ensures
        name_bytes(encoded_bytes(bytes)) == Some(bytes),
{
    let len = bytes.len() as int;
    let d = digits_for(len);
    let r = 5 * d - 8 * len;
    let value = bytes_number(bytes);
    let p = two_to(r);
    let high = two_to(8 * len);
    bytes_are_bounded(bytes);
    number_of_bytes(bytes);
    two_to_is_positive(r);
    two_to_sum(8 * len, r);
    let n = value * p;
    assert(0 <= n < high * p) by (nonlinear_arith)
        requires
            0 <= value < high,
            p > 0,
            n == value * p,
    ;
    digits_of_number(n, d);
    whole_part(value, r, 0);
    assert(left_over(d) == r);
    assert((5 * d) / 8 == len);
    assert(writes_bytes(d));
}

/// The name of every text that is not empty is read back as that text.
pub proof fn encoding_is_read_back(text: Seq<char>)
    requires
        text.len() > 0,
    ensures
        decoded_name(encoded_name(text)) == Some(text),
{
    let bytes = encode_utf8(text);
    encode_utf8_decode_utf8(text);
    encode_utf8_valid_utf8(text);
    assert(bytes.len() > 0) by {
        if bytes.len() == 0 {
            assert(bytes =~= encode_utf8(Seq::empty()));
            encode_utf8_decode_utf8(Seq::empty());
        }
    }
    encoded_bytes_read_back(bytes);
}

/// Whatever is read of a name has that name: what is no name of a text, such as one
/// with padding, with capital letters or with other bits than zeros left over, is read
/// as nothing.
pub proof fn only_encodings_are_read(name: Seq<char>)
    ensures
        decoded_name(name) matches Some(text) ==> text.len() > 0 && name == encoded_name(text),
{
    if let Some(text) = decoded_name(name) {
        let bytes = name_bytes(name)->0;
        decode_utf8_encode_utf8(bytes);
        name_value(name);
        assert(bytes.len() > 0);
        if text.len() == 0 {
            assert(text =~= Seq::empty());
            assert(encode_utf8(text).len() == 0);
        }
        encoding_is_read_back(text);
        names_are_canonical(name, encoded_name(text));
    }
}

} // verus!
