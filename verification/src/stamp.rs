//! Points in time, in milliseconds since the epoch.
use vstd::prelude::*;
use crate::binary64::{
    below, cast_integer, cast_to_integer, finite, floor_of, mantissa, nearest, nearest_of, parts, positive, round_of,
    saturate, saturated, scale, scaled_below, scaled_floor, scaled_round, sign_bit, TWO_52,
};
use crate::decimal::{parse_integer, parsed_integer};
use crate::json::{Json, JsonView};
use crate::query::{as_integer, or_else};
use crate::text::{trim, trimmed};

verus! {

/// The instant that a date and time without an offset denotes in UTC, read in a
/// format of `chrono`: `None` where the text is not of that format.
pub uninterp spec fn naive_millis(text: Seq<char>, format: Seq<char>) -> Option<i64>;

/// The instant that a date and time of RFC 3339 denotes: `None` where the text
/// is none.
pub uninterp spec fn rfc3339_millis(text: Seq<char>) -> Option<i64>;

/// `chrono::NaiveDateTime::parse_from_str`, the result taken as UTC and in
/// milliseconds.
#[verifier::external_body]
fn read_naive(text: &str, format: &str) -> (r: Option<i64>)
    ensures
        r == naive_millis(text@, format@),
{
    chrono::NaiveDateTime::parse_from_str(text, format).ok().map(|t| t.and_utc().timestamp_millis())
}

/// `chrono::DateTime::parse_from_rfc3339`, the result in milliseconds.
#[verifier::external_body]
fn read_rfc3339(text: &str) -> (r: Option<i64>)
    ensures
        r == rfc3339_millis(text@),
{
    chrono::DateTime::parse_from_rfc3339(text).ok().map(|t| t.timestamp_millis())
}

/// The instant that a text of RFC 3339 denotes.
pub fn rfc3339_millis_of(text: &str) -> (r: Option<i64>)
    ensures
        r == rfc3339_millis(text@),
{
    read_rfc3339(text)
}

/// A stored integer: plausible epoch seconds become milliseconds.
pub open spec fn plausible_millis(n: i64) -> i64 {
    if 1_000_000_000 <= n < 10_000_000_000 {
        (n * 1000) as i64
    } else {
        n
    }
}

pub fn plausible_millis_of(n: i64) -> (r: i64)
    ensures
        r == plausible_millis(n),
{
    if 1_000_000_000 <= n && n < 10_000_000_000 {
        n * 1000
    } else {
        n
    }
}

/// The instant that a stored integer denotes, where there is one.
pub open spec fn stored_millis(n: Option<i64>) -> Option<i64> {
    match n {
        Some(n) => Some(plausible_millis(n)),
        None => None,
    }
}

/// A stored text: a date and time in one of the usual forms, or an integer.
pub open spec fn stored_text_millis(text: Seq<char>) -> Option<i64> {
    or_else(
        naive_millis(text, "%Y-%m-%d %H:%M:%S"@),
        or_else(
            naive_millis(text, "%Y-%m-%d %H:%M:%S%.f"@),
            or_else(
                naive_millis(text, "%Y-%m-%dT%H:%M:%S"@),
                or_else(
                    naive_millis(text, "%Y-%m-%dT%H:%M:%S%.f"@),
                    or_else(
                        rfc3339_millis(text),
                        match parsed_integer(trim(text)) {
                            Some(n) => Some(plausible_millis(n)),
                            None => None,
                        },
                    ),
                ),
            ),
        ),
    )
}

pub fn stored_text_millis_of(text: &str) -> (r: Option<i64>)
    ensures
        r == stored_text_millis(text@),
{
    if let Some(t) = read_naive(text, "%Y-%m-%d %H:%M:%S") {
        return Some(t);
    }
    if let Some(t) = read_naive(text, "%Y-%m-%d %H:%M:%S%.f") {
        return Some(t);
    }
    if let Some(t) = read_naive(text, "%Y-%m-%dT%H:%M:%S") {
        return Some(t);
    }
    if let Some(t) = read_naive(text, "%Y-%m-%dT%H:%M:%S%.f") {
        return Some(t);
    }
    if let Some(t) = read_rfc3339(text) {
        return Some(t);
    }
    match parse_integer(trimmed(text).as_str()) {
        Some(n) => Some(plausible_millis_of(n)),
        None => None,
    }
}

/// A value of a database column.
pub enum SqlValue {
    Null,
    Integer(i64),
    /// The bits of a binary64 number.
    Float(u64),
    Text(String),
    Blob,
}

pub enum SqlView {
    Null,
    Integer(i64),
    Float(u64),
    Text(Seq<char>),
    Blob,
}

impl DeepView for SqlValue {
    type V = SqlView;

    open spec fn deep_view(&self) -> SqlView {
        match self {
            SqlValue::Null => SqlView::Null,
            SqlValue::Integer(n) => SqlView::Integer(*n),
            SqlValue::Float(b) => SqlView::Float(*b),
            SqlValue::Text(t) => SqlView::Text(t@),
            SqlValue::Blob => SqlView::Blob,
        }
    }
}

/// Whether a finite number lies among plausible epoch seconds.
pub open spec fn plausible_seconds(bits: u64) -> bool {
    &&& !sign_bit(bits)
    &&& !scaled_below(mantissa(bits), scale(bits), 1_000_000_000)
    &&& scaled_below(mantissa(bits), scale(bits), 10_000_000_000)
}

/// The integer part of a thousand times a number, as binary64 multiplies.
pub open spec fn thousandfold_floor(m: nat, q: int) -> i64 {
    let product = nearest(m * 1000, q);
    saturated(scaled_floor(product.0, product.1))
}

/// A thousand times a number, as binary64 multiplies, to the nearest integer.
pub open spec fn thousandfold_round(m: nat, q: int) -> i64 {
    let product = nearest(m * 1000, q);
    saturated(scaled_round(product.0, product.1))
}

/// Below a bound that fits, the scale of a number is small.
proof fn small_scale(m: nat, q: int, n: nat)
    requires
        scaled_below(m, q, n),
        n <= 100_000_000_000,
        q >= 11 ==> m >= TWO_52 || m == 0,
    ensures
        q < 11 || m == 0,
{
    if q >= 11 && m != 0 {
        vstd::arithmetic::power2::lemma2_to64();
        if q > 11 {
            vstd::arithmetic::power2::lemma_pow2_strictly_increases(11, q as nat);
        }
        assert(m * vstd::arithmetic::power2::pow2(q as nat) >= 0x10_0000_0000_0000 * 0x800) by (nonlinear_arith)
            requires
                m >= 0x10_0000_0000_0000,
                vstd::arithmetic::power2::pow2(q as nat) >= 0x800,
        ;
    }
}

fn thousandfold_floor_of(m: u64, q: i32) -> (r: i64)
    requires
        m <= 0x20_0000_0000_0000,
        -1074 <= q <= 1000,
        q < 11 || m == 0,
    ensures
        r == thousandfold_floor(m as nat, q as int),
{
    let product = nearest_of(m * 1000, q);
    saturate(floor_of(product.0, product.1))
}

fn thousandfold_round_of(m: u64, q: i32) -> (r: i64)
    requires
        m <= 0x20_0000_0000_0000,
        -1074 <= q <= 1000,
        q < 11 || m == 0,
    ensures
        r == thousandfold_round(m as nat, q as int),
{
    let product = nearest_of(m * 1000, q);
    saturate(round_of(product.0, product.1))
}

/// A stored number that need not be an integer: plausible epoch seconds become
/// milliseconds, fraction included; anything else counts as its integer part.
pub open spec fn fractional_millis(bits: u64) -> Option<i64> {
    if !finite(bits) {
        None
    } else if plausible_seconds(bits) {
        Some(thousandfold_floor(mantissa(bits), scale(bits)))
    } else {
        Some(plausible_millis(cast_integer(bits)))
    }
}

pub fn fractional_millis_of(bits: u64) -> (r: Option<i64>)
    ensures
        r == fractional_millis(bits),
{
    match parts(bits) {
        None => None,
        Some(number) => {
            let m = number.mantissa;
            let q = number.scale;
            if !number.negative && !below(m, q, 1_000_000_000) && below(m, q, 10_000_000_000) {
                proof {
                    small_scale(m as nat, q as int, 10_000_000_000);
                }
                Some(thousandfold_floor_of(m, q))
            } else {
                Some(plausible_millis_of(cast_to_integer(bits)))
            }
        },
    }
}

/// A stored number of seconds, or of milliseconds where it is too large for that:
/// none where it is neither, or not above zero.
pub open spec fn real_millis(bits: u64) -> Option<i64> {
    if !positive(bits) || scaled_below(mantissa(bits), scale(bits), 1_000_000_000) {
        None
    } else if scaled_below(mantissa(bits), scale(bits), 10_000_000_000) {
        Some(thousandfold_floor(mantissa(bits), scale(bits)))
    } else {
        Some(cast_integer(bits))
    }
}

/// A stored number of seconds, or of milliseconds, by the bits of a binary64 number.
pub fn real_to_millis(bits: u64) -> (r: Option<i64>)
    ensures
        r == real_millis(bits),
{
    match parts(bits) {
        None => None,
        Some(number) => {
            let m = number.mantissa;
            let q = number.scale;
            if number.negative || m == 0 || below(m, q, 1_000_000_000) {
                None
            } else if below(m, q, 10_000_000_000) {
                proof {
                    small_scale(m as nat, q as int, 10_000_000_000);
                }
                Some(thousandfold_floor_of(m, q))
            } else {
                Some(cast_to_integer(bits))
            }
        },
    }
}

/// A stored number of seconds, where there is one.
pub open spec fn real_millis_in(bits: Option<u64>) -> Option<i64> {
    match bits {
        Some(bits) => real_millis(bits),
        None => None,
    }
}

pub fn real_millis_of(bits: Option<u64>) -> (r: Option<i64>)
    ensures
        r == real_millis_in(bits),
{
    match bits {
        Some(bits) => real_to_millis(bits),
        None => None,
    }
}

/// The instant that an integer or a text of RFC 3339 denotes; an integer below
/// 100,000,000,000 counts seconds.
pub open spec fn timestamp(v: JsonView) -> Option<i64> {
    match as_integer(v) {
        Some(n) => if 0 <= n < 100_000_000_000 {
            Some((n * 1000) as i64)
        } else {
            Some(n)
        },
        None => match v {
            JsonView::Text(t) => rfc3339_millis(t),
            _ => None,
        },
    }
}

/// The instant under a key, where there is one.
pub open spec fn timestamp_in(v: Option<JsonView>) -> Option<i64> {
    match v {
        Some(v) => timestamp(v),
        None => None,
    }
}

pub fn parse_timestamp(v: &Json) -> (r: Option<i64>)
    ensures
        r == timestamp(v@),
{
    match v.as_i64() {
        Some(n) => if 0 <= n && n < 100_000_000_000 {
            Some(n * 1000)
        } else {
            Some(n)
        },
        None => match v {
            Json::Text(t) => read_rfc3339(t.as_str()),
            _ => None,
        },
    }
}

pub fn timestamp_of(v: Option<&Json>) -> (r: Option<i64>)
    ensures
        r == timestamp_in(v.deep_view()),
{
    match v {
        Some(v) => parse_timestamp(v),
        None => None,
    }
}

/// `m * 2^q` in epoch seconds below 100,000,000,000, in milliseconds from there.
pub open spec fn second_or_milli(m: nat, q: int) -> i64 {
    if scaled_below(m, q, 100_000_000_000) {
        thousandfold_round(m, q)
    } else {
        saturated(scaled_round(m, q))
    }
}

/// The instant that any positive number denotes, fractions of a second included;
/// other documents as `timestamp` has them.
pub open spec fn fractional_timestamp(v: JsonView) -> Option<i64> {
    match v {
        JsonView::Unsigned(n) => if n > 0 {
            let number = nearest(n as nat, 0);
            Some(second_or_milli(number.0, number.1))
        } else {
            timestamp(v)
        },
        JsonView::Float(bits) => if positive(bits) {
            Some(second_or_milli(mantissa(bits), scale(bits)))
        } else {
            timestamp(v)
        },
        _ => timestamp(v),
    }
}

pub open spec fn fractional_timestamp_in(v: Option<JsonView>) -> Option<i64> {
    match v {
        Some(v) => fractional_timestamp(v),
        None => None,
    }
}

fn second_or_milli_of(m: u64, q: i32) -> (r: i64)
    requires
        m <= 0x20_0000_0000_0000,
        -1074 <= q <= 1000,
        q >= 11 ==> m >= TWO_52 || m == 0,
    ensures
        r == second_or_milli(m as nat, q as int),
{
    if below(m, q, 100_000_000_000) {
        proof {
            small_scale(m as nat, q as int, 100_000_000_000);
        }
        thousandfold_round_of(m, q)
    } else {
        saturate(round_of(m, q))
    }
}

pub fn parse_fractional_timestamp(v: &Json) -> (r: Option<i64>)
    ensures
        r == fractional_timestamp(v@),
{
    match v {
        Json::Unsigned(n) => if *n > 0 {
            let number = nearest_of(*n, 0);
            return Some(second_or_milli_of(number.0, number.1));
        },
        Json::Float(n) => if let Some(number) = parts(n.bits()) {
            if !number.negative && number.mantissa > 0 {
                return Some(second_or_milli_of(number.mantissa, number.scale));
            }
        },
        _ => {},
    }
    parse_timestamp(v)
}

pub fn fractional_timestamp_of(v: Option<&Json>) -> (r: Option<i64>)
    ensures
        r == fractional_timestamp_in(v.deep_view()),
{
    match v {
        Some(v) => parse_fractional_timestamp(v),
        None => None,
    }
}

/// The earlier of two instants that are there.
pub open spec fn earlier(a: Option<i64>, b: Option<i64>) -> Option<i64> {
    match (a, b) {
        (Some(x), Some(y)) => if y < x {
            b
        } else {
            a
        },
        (None, _) => b,
        (_, None) => a,
    }
}

/// The later of two instants that are there.
pub open spec fn later(a: Option<i64>, b: Option<i64>) -> Option<i64> {
    match (a, b) {
        (Some(x), Some(y)) => if y > x {
            b
        } else {
            a
        },
        (None, _) => b,
        (_, None) => a,
    }
}

pub fn earlier_of(a: Option<i64>, b: Option<i64>) -> (r: Option<i64>)
    ensures
        r == earlier(a, b),
{
    match (a, b) {
        (Some(x), Some(y)) => if y < x {
            b
        } else {
            a
        },
        (None, _) => b,
        (_, None) => a,
    }
}

pub fn later_of(a: Option<i64>, b: Option<i64>) -> (r: Option<i64>)
    ensures
        r == later(a, b),
{
    match (a, b) {
        (Some(x), Some(y)) => if y > x {
            b
        } else {
            a
        },
        (None, _) => b,
        (_, None) => a,
    }
}

/// A span of time: both ends or none, the first not behind the last.
pub open spec fn spans(started_at: Option<i64>, ended_at: Option<i64>) -> bool {
    match (started_at, ended_at) {
        (Some(a), Some(b)) => a <= b,
        (None, None) => true,
        _ => false,
    }
}

/// The earliest instant of a sequence.
pub open spec fn earliest(s: Seq<Option<i64>>) -> Option<i64>
    decreases s.len(),
{
    if s.len() == 0 {
        None
    } else {
        earlier(earliest(s.drop_last()), s.last())
    }
}

/// The latest instant of a sequence.
pub open spec fn latest(s: Seq<Option<i64>>) -> Option<i64>
    decreases s.len(),
{
    if s.len() == 0 {
        None
    } else {
        later(latest(s.drop_last()), s.last())
    }
}

/// The earliest and the latest instant bound every one of the sequence and
/// belong to it; they are there together.
pub proof fn bounds_enclose(s: Seq<Option<i64>>)
    ensures
        forall|i: int|
            0 <= i < s.len() && (#[trigger] s[i]) is Some ==> earliest(s) is Some && latest(s) is Some
                && earliest(s)->0 <= s[i]->0 <= latest(s)->0,
        earliest(s) is Some ==> s.contains(earliest(s)),
        latest(s) is Some ==> s.contains(latest(s)),
        earliest(s) is Some <==> latest(s) is Some,
        earliest(s) is Some ==> earliest(s)->0 <= latest(s)->0,
    decreases s.len(),
{
    if s.len() > 0 {
        let front = s.drop_last();
        bounds_enclose(front);
        assert forall|i: int| 0 <= i < s.len() && (#[trigger] s[i]) is Some implies earliest(s) is Some
            && latest(s) is Some && earliest(s)->0 <= s[i]->0 <= latest(s)->0 by {
            if i < front.len() {
                assert(front[i] == s[i]);
            }
        }
        if earliest(s) is Some {
            if earliest(s) == s.last() {
                assert(s[s.len() - 1] == earliest(s));
            } else {
                assert(front.contains(earliest(s)));
                let k = choose|k: int| 0 <= k < front.len() && front[k] == earliest(s);
                assert(s[k] == earliest(s));
            }
        }
        if latest(s) is Some {
            if latest(s) == s.last() {
                assert(s[s.len() - 1] == latest(s));
            } else {
                assert(front.contains(latest(s)));
                let k = choose|k: int| 0 <= k < front.len() && front[k] == latest(s);
                assert(s[k] == latest(s));
            }
        }
    }
}

/// Whole seconds and whole milliseconds denote the same instant: a stored integer of
/// plausible epoch seconds counts a thousandfold, and a larger one stands for itself.
pub proof fn stored_seconds_are_a_thousand_millis(n: i64)
    ensures
        1_000_000_000 <= n < 10_000_000_000 ==> plausible_millis(n) == n * 1000,
        n < 1_000_000_000 || n >= 10_000_000_000 ==> plausible_millis(n) == n,
        1_000_000_000 <= n < 10_000_000_000 ==> plausible_millis((n * 1000) as i64) == plausible_millis(n),
        stored_millis(Some(n)) == Some(plausible_millis(n)),
        stored_millis(None) is None,
{
}

/// An integer in a document counts seconds below 100,000,000,000 and milliseconds from
/// there; one in seconds denotes the instant of its thousandfold. Fractions of a second
/// count where they are read, and integers read the same there.
pub proof fn timestamps_in_seconds_and_millis_agree(n: u64)
    ensures
        n < 100_000_000_000 ==> timestamp(JsonView::Unsigned(n)) == Some((n * 1000) as i64),
        100_000_000 <= n < 100_000_000_000 ==> timestamp(JsonView::Unsigned((n * 1000) as u64)) == timestamp(
            JsonView::Unsigned(n),
        ),
        100_000_000_000 <= n <= i64::MAX ==> timestamp(JsonView::Unsigned(n)) == Some(n as i64),
        n < 0x20_0000_0000_0000 ==> fractional_timestamp(JsonView::Unsigned(n)) == timestamp(JsonView::Unsigned(n)),
{
    if 0 < n < 0x20_0000_0000_0000 {
        crate::binary64::small_integers_are_numbers(n as nat);
        if n < 100_000_000_000 {
            crate::binary64::small_integers_are_numbers((n * 1000) as nat);
        }
    }
}

/// A text of RFC 3339 denotes its instant in whatever reads dates in documents; what is
/// neither number nor text denotes none.
pub proof fn dates_in_documents(t: Seq<char>)
    ensures
        timestamp(JsonView::Text(t)) == rfc3339_millis(t),
        fractional_timestamp(JsonView::Text(t)) == rfc3339_millis(t),
        timestamp(JsonView::Null) is None,
        fractional_timestamp(JsonView::Null) is None,
        timestamp_in(None) is None,
        fractional_timestamp_in(None) is None,
        forall|v: JsonView| #[trigger] timestamp_in(Some(v)) == timestamp(v),
        forall|v: JsonView| #[trigger] fractional_timestamp_in(Some(v)) == fractional_timestamp(v),
{
}

/// A number of seconds whose thousandfold is an integer denotes that many milliseconds,
/// exactly.
pub proof fn fractions_of_seconds_are_exact(bits: u64, millis: nat)
    requires
        finite(bits),
        !sign_bit(bits),
        scale(bits) <= 0,
        mantissa(bits) * 1000 == millis * vstd::arithmetic::power2::pow2((-scale(bits)) as nat),
        1_000_000_000_000 <= millis < 10_000_000_000_000,
    ensures
        real_millis(bits) == Some(millis as i64),
        fractional_millis(bits) == Some(millis as i64),
        fractional_timestamp(JsonView::Float(bits)) == Some(millis as i64),
{
    let m = mantissa(bits);
    let q = scale(bits);
    let k = (-q) as nat;
    let p = vstd::arithmetic::power2::pow2(k);
    vstd::arithmetic::power2::lemma_pow2_pos(k);
    crate::binary64::integers_stay_exact(millis, k);
    assert(m >= 1_000_000_000 * p && m < 10_000_000_000 * p && m < 100_000_000_000 * p) by (nonlinear_arith)
        requires
            m * 1000 == millis * p,
            1_000_000_000_000 <= millis < 10_000_000_000_000,
            p > 0,
    ;
    vstd::arithmetic::power2::lemma2_to64();
    if q == 0 {
        assert(p == 1);
        assert(m * p == m) by (nonlinear_arith)
            requires
                p == 1,
        ;
    }
    assert(m > 0) by (nonlinear_arith)
        requires
            m >= 1_000_000_000 * p,
            p > 0,
    ;
}

/// A stored text denotes the instant of the first form that it is written in, and of
/// none where it is neither a date nor an integer.
pub proof fn stored_texts_denote_instants(text: Seq<char>)
    ensures
        naive_millis(text, "%Y-%m-%d %H:%M:%S"@) matches Some(n) ==> stored_text_millis(text) == Some(n),
        stored_text_millis(text) matches Some(n) ==> {
            ||| naive_millis(text, "%Y-%m-%d %H:%M:%S"@) == Some(n)
            ||| naive_millis(text, "%Y-%m-%d %H:%M:%S%.f"@) == Some(n)
            ||| naive_millis(text, "%Y-%m-%dT%H:%M:%S"@) == Some(n)
            ||| naive_millis(text, "%Y-%m-%dT%H:%M:%S%.f"@) == Some(n)
            ||| rfc3339_millis(text) == Some(n)
            ||| stored_millis(parsed_integer(trim(text))) == Some(n)
        },
        stored_text_millis(text) is None ==> {
            &&& naive_millis(text, "%Y-%m-%d %H:%M:%S%.f"@) is None
            &&& naive_millis(text, "%Y-%m-%dT%H:%M:%S"@) is None
            &&& naive_millis(text, "%Y-%m-%dT%H:%M:%S%.f"@) is None
            &&& rfc3339_millis(text) is None
            &&& parsed_integer(trim(text)) is None
        },
{
}

/// Widening a span holds the new instant and what it held before, and nothing more.
pub proof fn widened_spans_hold_both(a: Option<i64>, b: Option<i64>)
    ensures
        earlier(a, b) is Some <==> a is Some || b is Some,
        later(a, b) is Some <==> a is Some || b is Some,
        earlier(a, b) == a || earlier(a, b) == b,
        later(a, b) == a || later(a, b) == b,
        a is Some ==> earlier(a, b)->0 <= a->0 && a->0 <= later(a, b)->0,
        b is Some ==> earlier(a, b)->0 <= b->0 && b->0 <= later(a, b)->0,
{
}

/// A number that is no plausible count of seconds counts milliseconds where it is larger, and
/// denotes no time where it is smaller or below zero.
pub proof fn whole_numbers_denote_millis(bits: u64, n: nat)
    requires
        finite(bits),
        scale(bits) <= 0,
        mantissa(bits) == n * vstd::arithmetic::power2::pow2((-scale(bits)) as nat),
        n <= i64::MAX,
    ensures
        sign_bit(bits) ==> real_millis(bits) is None,
        !sign_bit(bits) && n < 1_000_000_000 ==> real_millis(bits) is None,
        !sign_bit(bits) && n >= 10_000_000_000 ==> real_millis(bits) == Some(n as i64),
        !sign_bit(bits) && n >= 10_000_000_000 ==> fractional_millis(bits) == Some(n as i64),
        !sign_bit(bits) && n < 1_000_000_000 ==> fractional_millis(bits) == Some(n as i64),
{
    let m = mantissa(bits);
    let k = (-scale(bits)) as nat;
    let p = vstd::arithmetic::power2::pow2(k);
    vstd::arithmetic::power2::lemma_pow2_pos(k);
    crate::binary64::whole_numbers_are_cast_exactly(bits, n);
    assert((m < 1_000_000_000 * p <==> n < 1_000_000_000) && (m < 10_000_000_000 * p <==> n < 10_000_000_000)) by (
    nonlinear_arith)
        requires
            m == n * p,
            p > 0,
    ;
    if k == 0 {
        vstd::arithmetic::power2::lemma2_to64();
        assert(p == 1);
        assert(m * p == m) by (nonlinear_arith)
            requires
                p == 1,
        ;
    }
    if n > 0 {
        assert(m > 0) by (nonlinear_arith)
            requires
                m == n * p,
                p > 0,
                n > 0,
        ;
    }
}

/// A number that is there denotes what it denotes by itself, and one that is not denotes none.
pub proof fn missing_numbers_denote_no_time(bits: u64)
    ensures
        real_millis_in(Some(bits)) == real_millis(bits),
        real_millis_in(None) is None,
        !finite(bits) ==> fractional_millis(bits) is None && real_millis(bits) is None,
{
}

} // verus!
