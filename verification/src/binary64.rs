//! Binary64 numbers by their bits, in integer arithmetic.
use vstd::prelude::*;
use vstd::arithmetic::power2::{lemma2_to64, lemma_pow2_pos, lemma_pow2_strictly_increases, lemma_pow2_unfold, pow2};

verus! {

/// Two to the power of 52, of 53, of 63.
pub const TWO_52: u64 = 0x10_0000_0000_0000;

pub const TWO_53: u64 = 0x20_0000_0000_0000;

pub const TWO_63: u64 = 0x8000_0000_0000_0000;

/// Whether the sign bit is set.
pub open spec fn sign_bit(bits: u64) -> bool {
    bits >= TWO_63
}

pub open spec fn exponent_field(bits: u64) -> u64 {
    (bits / TWO_52) % 2048
}

pub open spec fn fraction_field(bits: u64) -> u64 {
    bits % TWO_52
}

/// Neither infinite nor not-a-number.
pub open spec fn finite(bits: u64) -> bool {
    exponent_field(bits) < 2047
}

pub open spec fn is_nan(bits: u64) -> bool {
    exponent_field(bits) == 2047 && fraction_field(bits) != 0
}

/// A finite number is `mantissa * 2^scale`, up to its sign.
pub open spec fn mantissa(bits: u64) -> nat {
    if exponent_field(bits) == 0 {
        fraction_field(bits) as nat
    } else {
        (fraction_field(bits) + TWO_52) as nat
    }
}

pub open spec fn scale(bits: u64) -> int {
    if exponent_field(bits) == 0 {
        -1074
    } else {
        exponent_field(bits) - 1075
    }
}

/// A finite number above zero.
pub open spec fn positive(bits: u64) -> bool {
    finite(bits) && !sign_bit(bits) && mantissa(bits) > 0
}

/// The integer part of `m * 2^q`.
pub open spec fn scaled_floor(m: nat, q: int) -> nat {
    if q >= 0 {
        m * pow2(q as nat)
    } else {
        m / pow2((-q) as nat)
    }
}

/// The integer nearest to `m * 2^q`, halves upward.
pub open spec fn scaled_round(m: nat, q: int) -> nat {
    if q >= 0 {
        m * pow2(q as nat)
    } else {
        (m + pow2((-q - 1) as nat)) / pow2((-q) as nat)
    }
}

/// Whether `m * 2^q` is less than `n`.
pub open spec fn scaled_below(m: nat, q: int, n: nat) -> bool {
    if q >= 0 {
        m * pow2(q as nat) < n
    } else {
        m < n * pow2((-q) as nat)
    }
}

/// How many low bits of `n` do not fit a mantissa of 53 bits.
pub open spec fn excess(n: nat) -> nat
    decreases n,
{
    if n < TWO_53 {
        0
    } else {
        1 + excess(n / 2)
    }
}

/// `n / 2^d`, to the nearest integer, halves to the even one.
pub open spec fn half_even(n: nat, d: nat) -> nat {
    let low = n / pow2(d);
    let rest = n % pow2(d);
    if 2 * rest > pow2(d) || (2 * rest == pow2(d) && low % 2 == 1) {
        low + 1
    } else {
        low
    }
}

/// The mantissa and the scale of the binary64 number nearest to `n * 2^q`.
pub open spec fn nearest(n: nat, q: int) -> (nat, int) {
    if excess(n) == 0 {
        (n, q)
    } else {
        (half_even(n, excess(n)), q + excess(n))
    }
}

/// `n`, or 2^63 where it is more.
pub open spec fn capped(n: nat) -> u64 {
    if n < TWO_63 {
        n as u64
    } else {
        TWO_63
    }
}

/// `n`, or the largest `i64` where it is more.
pub open spec fn saturated(n: nat) -> i64 {
    if n <= i64::MAX {
        n as i64
    } else {
        i64::MAX
    }
}

/// The `i64` that a capped value saturates to.
pub fn saturate(n: u64) -> (r: i64)
    requires
        n <= TWO_63,
    ensures
        forall|v: nat| #[trigger] capped(v) == n ==> r == saturated(v),
{
    if n < TWO_63 {
        n as i64
    } else {
        i64::MAX
    }
}

/// A power of two.
fn power(k: u32) -> (r: u128)
    requires
        k <= 64,
    ensures
        r == pow2(k as nat),
        1 <= r <= 0x1_0000_0000_0000_0000,
{
    proof {
        lemma2_to64();
    }
    let mut r: u128 = 1;
    let mut i: u32 = 0;
    while i < k
        invariant
            i <= k <= 64,
            r == pow2(i as nat),
            pow2(64) == 0x1_0000_0000_0000_0000,
            1 <= r,
        decreases k - i,
    {
        proof {
            lemma_pow2_strictly_increases(i as nat, 64);
            lemma_pow2_unfold((i + 1) as nat);
        }
        r = r * 2;
        i = i + 1;
    }
    proof {
        if k < 64 {
            lemma_pow2_strictly_increases(k as nat, 64);
        }
    }
    r
}

proof fn far_power(k: nat)
    requires
        k >= 64,
    ensures
        pow2(k) >= 0x1_0000_0000_0000_0000,
{
    lemma2_to64();
    if k > 64 {
        lemma_pow2_strictly_increases(64, k);
    }
}

/// The integer part of `m * 2^q`, saturated.
pub fn floor_of(m: u64, q: i32) -> (r: u64)
    requires
        -1100 <= q <= 1100,
        q >= 11 ==> m >= TWO_52 || m == 0,
    ensures
        r == capped(scaled_floor(m as nat, q as int)),
        r <= TWO_63,
{
    if m == 0 {
        proof {
            if q < 0 {
                lemma_pow2_pos((-q) as nat);
                assert(0nat / pow2((-q) as nat) == 0) by (nonlinear_arith)
                    requires
                        pow2((-q) as nat) > 0,
                ;
            } else {
                assert(0 * pow2(q as nat) == 0) by (nonlinear_arith);
            }
        }
        return 0;
    }
    if q >= 11 {
        proof {
            lemma2_to64();
            if q > 11 {
                lemma_pow2_strictly_increases(11, q as nat);
            }
            assert(m * pow2(q as nat) >= 0x10_0000_0000_0000 * 0x800) by (nonlinear_arith)
                requires
                    m >= 0x10_0000_0000_0000,
                    pow2(q as nat) >= 0x800,
            ;
        }
        return TWO_63;
    }
    if q >= 0 {
        let p = power(q as u32);
        proof {
            lemma2_to64();
            lemma_pow2_strictly_increases(q as nat, 12);
            assert(m * p <= 0x1_0000_0000_0000_0000 * 0x1000) by (nonlinear_arith)
                requires
                    m <= 0x1_0000_0000_0000_0000,
                    p <= 0x1000,
            ;
        }
        let v: u128 = (m as u128) * p;
        if v < TWO_63 as u128 {
            v as u64
        } else {
            TWO_63
        }
    } else if q <= -64 {
        proof {
            far_power((-q) as nat);
            vstd::arithmetic::div_mod::lemma_basic_div(m as int, pow2((-q) as nat) as int);
        }
        0
    } else {
        let p = power((-q) as u32);
        let v: u128 = (m as u128) / p;
        proof {
            assert(v <= m) by (nonlinear_arith)
                requires
                    v == m as u128 / p,
                    p >= 1,
            ;
        }
        if v < TWO_63 as u128 {
            v as u64
        } else {
            TWO_63
        }
    }
}

/// The integer nearest to `m * 2^q`, halves upward, saturated.
pub fn round_of(m: u64, q: i32) -> (r: u64)
    requires
        -1100 <= q <= 1100,
        q >= 11 ==> m >= TWO_52 || m == 0,
    ensures
        r == capped(scaled_round(m as nat, q as int)),
        r <= TWO_63,
{
    if q >= 0 {
        return floor_of(m, q);
    }
    if q < -64 {
        proof {
            far_power((-q - 1) as nat);
            lemma_pow2_unfold((-q) as nat);
            vstd::arithmetic::div_mod::lemma_basic_div(
                m + pow2((-q - 1) as nat),
                pow2((-q) as nat) as int,
            );
        }
        return 0;
    }
    let half = power((-q - 1) as u32);
    let whole = power((-q) as u32);
    let v: u128 = (m as u128 + half) / whole;
    if v < TWO_63 as u128 {
        v as u64
    } else {
        TWO_63
    }
}

/// Whether `m * 2^q` is less than `n`.
pub fn below(m: u64, q: i32, n: u64) -> (r: bool)
    requires
        -1100 <= q <= 1100,
        q >= 11 ==> m >= TWO_52 || m == 0,
        0 < n < TWO_63,
    ensures
        r == scaled_below(m as nat, q as int, n as nat),
{
    if q >= 0 {
        floor_of(m, q) < n
    } else if q <= -64 {
        proof {
            far_power((-q) as nat);
            assert(n * pow2((-q) as nat) >= pow2((-q) as nat)) by (nonlinear_arith)
                requires
                    n >= 1,
                    pow2((-q) as nat) >= 0,
            ;
        }
        true
    } else {
        let p = power((-q) as u32);
        proof {
            assert(n * p <= 0x8000_0000_0000_0000 * 0x1_0000_0000_0000_0000) by (nonlinear_arith)
                requires
                    n <= 0x8000_0000_0000_0000,
                    p <= 0x1_0000_0000_0000_0000,
            ;
        }
        (m as u128) < (n as u128) * p
    }
}

proof fn excess_bound(n: nat, k: nat)
    requires
        n < pow2(53 + k),
    ensures
        excess(n) <= k,
    decreases k,
{
    vstd::arithmetic::power2::lemma2_to64_rest();
    if n >= TWO_53 {
        if k == 0 {
            assert(false);
        }
        lemma_pow2_unfold(53 + k);
        excess_bound(n / 2, (k - 1) as nat);
    }
}

/// The mantissa and the scale of the binary64 number nearest to `n * 2^q`.
pub fn nearest_of(n: u64, q: i32) -> (r: (u64, i32))
    requires
        -1080 <= q <= 1000,
    ensures
        (r.0 as nat, r.1 as int) == nearest(n as nat, q as int),
        r.0 <= TWO_53,
        r.1 == q + excess(n as nat),
        excess(n as nat) <= 11,
        excess(n as nat) > 0 ==> r.0 >= TWO_52,
{
    proof {
        lemma2_to64();
        excess_bound(n as nat, 11);
    }
    let mut d: u32 = 0;
    let mut p: u64 = 1;
    let mut shifted: u64 = n;
    while shifted >= TWO_53
        invariant
            d + excess(shifted as nat) == excess(n as nat),
            excess(n as nat) <= 11,
            d <= 11,
            p == pow2(d as nat),
            1 <= p <= 2048,
            shifted == n as nat / pow2(d as nat),
            pow2(11) == 2048,
            d > 0 ==> shifted >= TWO_52,
        decreases shifted,
    {
        proof {
            lemma_pow2_unfold((d + 1) as nat);
            vstd::arithmetic::div_mod::lemma_div_denominator(n as int, pow2(d as nat) as int, 2);
            assert(pow2(d as nat) * 2 == pow2((d + 1) as nat));
            assert(excess(shifted as nat) >= 1);
            if d + 1 < 11 {
                lemma_pow2_strictly_increases((d + 1) as nat, 11);
            }
        }
        shifted = shifted / 2;
        d = d + 1;
        p = p * 2;
    }
    if d == 0 {
        return (n, q);
    }
    let rest = n % p;
    let m: u64 = if 2 * rest > p || (2 * rest == p && shifted % 2 == 1) {
        shifted + 1
    } else {
        shifted
    };
    (m, q + d as i32)
}

/// A binary64 number taken apart.
pub struct Binary64 {
    pub negative: bool,
    pub mantissa: u64,
    pub scale: i32,
}

/// The parts of a finite number.
pub fn parts(bits: u64) -> (r: Option<Binary64>)
    ensures
        match r {
            Some(number) => {
                &&& finite(bits)
                &&& number.negative == sign_bit(bits)
                &&& number.mantissa == mantissa(bits)
                &&& number.scale == scale(bits)
                &&& number.mantissa < TWO_53
                &&& -1074 <= number.scale <= 971
                &&& number.scale > -1074 ==> number.mantissa >= TWO_52
            },
            None => !finite(bits),
        },
{
    let exponent: u64 = (bits / TWO_52) % 2048;
    let fraction: u64 = bits % TWO_52;
    let negative = bits >= TWO_63;
    if exponent == 2047 {
        None
    } else if exponent == 0 {
        Some(Binary64 { negative, mantissa: fraction, scale: -1074 })
    } else {
        Some(Binary64 { negative, mantissa: fraction + TWO_52, scale: exponent as i32 - 1075 })
    }
}

/// What casting a binary64 number to `i64` gives: the integer part, saturated at
/// both ends, and zero for what is no number.
pub open spec fn cast_integer(bits: u64) -> i64 {
    if is_nan(bits) {
        0
    } else if !finite(bits) {
        if sign_bit(bits) {
            i64::MIN
        } else {
            i64::MAX
        }
    } else {
        let n = scaled_floor(mantissa(bits), scale(bits));
        if !sign_bit(bits) {
            saturated(n)
        } else if n <= i64::MAX {
            (-n) as i64
        } else {
            i64::MIN
        }
    }
}

pub fn cast_to_integer(bits: u64) -> (r: i64)
    ensures
        r == cast_integer(bits),
{
    match parts(bits) {
        None => {
            if bits % TWO_52 != 0 {
                0
            } else if bits >= TWO_63 {
                i64::MIN
            } else {
                i64::MAX
            }
        },
        Some(number) => {
            let n = floor_of(number.mantissa, number.scale);
            if !number.negative {
                saturate(n)
            } else if n < TWO_63 {
                -(n as i64)
            } else {
                i64::MIN
            }
        },
    }
}

proof fn pow2_splits(a: nat, b: nat)
    ensures
        pow2(a + b) == pow2(a) * pow2(b),
        pow2(a) > 0,
        pow2(b) > 0,
{
    vstd::arithmetic::power2::lemma_pow2_adds(a, b);
    lemma_pow2_pos(a);
    lemma_pow2_pos(b);
}

/// An integer that a mantissa can hold stays what it is, however it is scaled: the
/// nearest number to it has it for its integer part, and is rounded to it.
pub proof fn integers_stay_exact(n: nat, k: nat)
    requires
        n < TWO_53,
    ensures
        ({
            let number = nearest(n * pow2(k), -(k as int));
            &&& scaled_floor(number.0, number.1) == n
            &&& scaled_round(number.0, number.1) == n
        }),
{
    let whole = n * pow2(k);
    let d = excess(whole);
    lemma_pow2_pos(k);
    lemma2_to64();
    vstd::arithmetic::power2::lemma2_to64_rest();
    vstd::arithmetic::power2::lemma_pow2_adds(53, k);
    assert(whole < pow2(53 + k)) by (nonlinear_arith)
        requires
            n < TWO_53,
            whole == n * pow2(k),
            pow2(53 + k) == pow2(53) * pow2(k),
            pow2(53) == TWO_53,
            pow2(k) > 0,
    ;
    excess_bound(whole, k);
    let e = (k - d) as nat;
    pow2_splits(d, e);
    let m = n * pow2(e);
    assert(whole == m * pow2(d)) by (nonlinear_arith)
        requires
            whole == n * pow2(k),
            pow2(k) == pow2(d) * pow2(e),
            m == n * pow2(e),
    ;
    vstd::arithmetic::div_mod::lemma_div_multiples_vanish(m as int, pow2(d) as int);
    vstd::arithmetic::div_mod::lemma_mod_multiples_basic(m as int, pow2(d) as int);
    assert(m as int * pow2(d) as int == pow2(d) as int * m as int) by (nonlinear_arith);
    assert(whole / pow2(d) == m);
    assert(whole % pow2(d) == 0);
    if d == 0 {
        assert(pow2(0) == 1);
        assert(whole == m) by (nonlinear_arith)
            requires
                whole == m * pow2(d),
                pow2(d) == 1,
        ;
    } else {
        assert(half_even(whole, d) == m);
    }
    assert(nearest(whole, -(k as int)) == (m, -(e as int)));
    vstd::arithmetic::div_mod::lemma_div_multiples_vanish(n as int, pow2(e) as int);
    assert(n as int * pow2(e) as int == pow2(e) as int * n as int) by (nonlinear_arith);
    if e > 0 {
        let half = pow2((e - 1) as nat);
        lemma_pow2_unfold(e);
        lemma_pow2_pos((e - 1) as nat);
        assert(pow2(e) == 2 * half);
        vstd::arithmetic::div_mod::lemma_fundamental_div_mod_converse(
            (m + half) as int,
            pow2(e) as int,
            n as int,
            half as int,
        );
    } else {
        assert(pow2(0) == 1);
        assert(m == n) by (nonlinear_arith)
            requires
                m == n * pow2(e),
                pow2(e) == 1,
        ;
        assert(m * pow2(0) == m) by (nonlinear_arith)
            requires
                pow2(0) == 1,
        ;
    }
}

/// An integer that a mantissa can hold is the nearest number to itself.
pub proof fn small_integers_are_numbers(n: nat)
    requires
        n < TWO_53,
    ensures
        nearest(n, 0) == (n, 0int),
        scaled_floor(n, 0) == n,
        scaled_round(n, 0) == n,
        forall|bound: nat| scaled_below(n, 0, bound) <==> n < bound,
{
    lemma2_to64();
    assert(pow2(0) == 1);
    assert(n * pow2(0) == n) by (nonlinear_arith)
        requires
            pow2(0) == 1,
    ;
}

/// A number that is an integer is cast to that integer, below zero where its sign says so;
/// what is no number is cast to zero.
pub proof fn whole_numbers_are_cast_exactly(bits: u64, n: nat)
    ensures
        is_nan(bits) ==> cast_integer(bits) == 0,
        finite(bits) && scale(bits) <= 0 && mantissa(bits) == n * pow2((-scale(bits)) as nat) && n <= i64::MAX
            ==> cast_integer(bits) == if sign_bit(bits) {
            -n
        } else {
            n as int
        },
{
    if finite(bits) && scale(bits) <= 0 && mantissa(bits) == n * pow2((-scale(bits)) as nat) && n <= i64::MAX {
        let k = (-scale(bits)) as nat;
        lemma_pow2_pos(k);
        vstd::arithmetic::div_mod::lemma_div_multiples_vanish(n as int, pow2(k) as int);
        assert(n as int * pow2(k) as int == pow2(k) as int * n as int) by (nonlinear_arith);
        if k == 0 {
            lemma2_to64();
            assert(pow2(0) == 1);
            assert(mantissa(bits) * pow2(0) == n) by (nonlinear_arith)
                requires
                    mantissa(bits) == n * pow2(0),
                    pow2(0) == 1,
            ;
        }
    }
}

} // verus!
