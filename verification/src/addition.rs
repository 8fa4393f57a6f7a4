//! Addition and subtraction of IEEE 754 doubles on their bit patterns, in
//! the default rounding mode: the exact result rounded to the nearest
//! double, a tie going to the double whose significand is even.
//!
//! A finite double is a significand of at most 53 bits times a power of two.
//! Counted in units of the smallest subnormal, its magnitude is the natural
//! number `significand * 2^scale`, so sums and differences of finite doubles
//! are exact integers, and rounding is a statement about integers.

use vstd::prelude::*;
use vstd::arithmetic::div_mod::lemma_fundamental_div_mod_converse;
use vstd::arithmetic::power2::{
    lemma2_to64, lemma2_to64_rest, lemma_pow2_adds, lemma_pow2_pos, lemma_pow2_strictly_increases,
    lemma_pow2_unfold, pow2,
};
use crate::binary64::{INFINITY, SIGN_BIT, abs, is_finite, is_nan, is_negative, magnitude, nan};

verus! {

/// Two to the power 52: the hidden bit of a normal significand.
pub const HIDDEN_BIT: u64 = 0x10_0000_0000_0000;

/// The not-a-number that an invalid operation yields: quiet, sign clear,
/// empty payload.
pub const QUIET_NAN: u64 = 0x7ff8_0000_0000_0000;

/// The exponent field of a pattern, between 0 and 2047.
pub open spec fn exponent_field(b: u64) -> nat {
    (magnitude(b) / HIDDEN_BIT) as nat
}

/// The fraction field of a pattern, below `2^52`.
pub open spec fn fraction_field(b: u64) -> nat {
    (magnitude(b) % HIDDEN_BIT) as nat
}

/// The significand of a finite double: the fraction, with the hidden bit on
/// top unless the double is zero or subnormal.
pub open spec fn significand(b: u64) -> nat {
    if exponent_field(b) == 0 {
        fraction_field(b)
    } else {
        (fraction_field(b) + HIDDEN_BIT) as nat
    }
}

/// The power of two by which the significand of a finite double is scaled,
/// in units of the smallest subnormal.
pub open spec fn scale(b: u64) -> nat {
    if exponent_field(b) == 0 {
        0
    } else {
        (exponent_field(b) - 1) as nat
    }
}

/// The magnitude of a finite double in units of the smallest subnormal.
pub open spec fn scaled_magnitude(b: u64) -> nat {
    significand(b) * pow2(scale(b))
}

/// The value of a finite double in units of the smallest subnormal.
pub open spec fn scaled_value(b: u64) -> int {
    if is_negative(b) {
        -(scaled_magnitude(b) as int)
    } else {
        scaled_magnitude(b) as int
    }
}

/// The number of binary digits of a natural number; zero has none.
pub open spec fn bit_length(n: nat) -> nat
    decreases n,
{
    if n == 0 {
        0
    } else {
        1 + bit_length(n / 2)
    }
}

/// `n / 2^k` rounded to the nearest integer, a tie going to the even one.
pub open spec fn round_half_even(n: nat, k: nat) -> nat {
    let quotient = n / pow2(k);
    let rest = n % pow2(k);
    if 2 * rest > pow2(k) || (2 * rest == pow2(k) && quotient % 2 == 1) {
        quotient + 1
    } else {
        quotient
    }
}

/// The pattern of the non-negative double nearest to the magnitude `n`,
/// counted in units of the smallest subnormal; a tie goes to the even
/// significand, and what lies beyond the largest finite double goes to
/// infinity. Below `2^53` every magnitude is a double, and its pattern is
/// the magnitude itself. Above, `n` has `53 + k` digits and is rounded to a
/// multiple of `2^k`; the pattern is the rounded significand added to `k`
/// in the exponent field, so that a carry out of the significand lands in
/// the exponent.
pub open spec fn nearest_magnitude(n: nat) -> u64 {
    if n < 2 * HIDDEN_BIT {
        n as u64
    } else {
        let k = (bit_length(n) - 53) as nat;
        let pattern = k * HIDDEN_BIT + round_half_even(n, k);
        if pattern >= INFINITY {
            INFINITY
        } else {
            pattern as u64
        }
    }
}

/// The pattern of the double nearest to the exact value `s`, which is not
/// zero, counted in units of the smallest subnormal.
pub open spec fn nearest(s: int) -> u64 {
    if s < 0 {
        (SIGN_BIT + nearest_magnitude((-s) as nat)) as u64
    } else {
        nearest_magnitude(s as nat)
    }
}

/// The sum of two doubles. A not-a-number operand, or infinities of
/// opposite sign, give `QUIET_NAN`; an infinity otherwise gives itself.
/// Finite operands give the double nearest to their exact sum; an exact sum
/// of zero is negative zero when both operands are negative, and positive
/// zero otherwise.
pub open spec fn sum(a: u64, b: u64) -> u64 {
    if is_nan(a) || is_nan(b) {
        QUIET_NAN
    } else if !is_finite(a) {
        if !is_finite(b) && is_negative(a) != is_negative(b) {
            QUIET_NAN
        } else {
            a
        }
    } else if !is_finite(b) {
        b
    } else if scaled_value(a) + scaled_value(b) == 0 {
        if is_negative(a) && is_negative(b) {
            SIGN_BIT
        } else {
            0
        }
    } else {
        nearest(scaled_value(a) + scaled_value(b))
    }
}

/// The pattern with the sign bit flipped: the negated double.
pub open spec fn negated(b: u64) -> u64 {
    if b >= SIGN_BIT {
        (b - SIGN_BIT) as u64
    } else {
        (b + SIGN_BIT) as u64
    }
}

/// The difference of two doubles: the sum of the first and the negated
/// second.
pub open spec fn difference(a: u64, b: u64) -> u64 {
    sum(a, negated(b))
}

/// A number between `2^(len-1)` and `2^len` has `len` binary digits.
pub proof fn lemma_bit_length(n: nat, len: nat)
    requires
        len >= 1,
        pow2((len - 1) as nat) <= n < pow2(len),
    ensures
        bit_length(n) == len,
    decreases len,
{
    lemma_pow2_pos((len - 1) as nat);
    lemma_pow2_unfold(len);
    if len == 1 {
        assert(pow2(0) == 1) by {
            lemma2_to64();
        }
        assert(n == 1);
        assert(bit_length(1) == 1) by {
            reveal_with_fuel(bit_length, 3);
        }
    } else {
        lemma_pow2_unfold((len - 1) as nat);
        lemma_bit_length(n / 2, (len - 1) as nat);
    }
}

/// Rounding a number that is given as quotient and rest. If `n` is
/// `quotient * 2^k + rest` with the rest below `2^k` and a quotient of
/// exactly 53 digits, then `n` is rounded at its last `k` digits: up when
/// the rest is above half of `2^k`, or is that half and the quotient is
/// odd, and down otherwise.
pub proof fn lemma_nearest_magnitude(n: nat, k: nat, quotient: nat, rest: nat)
    requires
        k >= 1,
        n == quotient * pow2(k) + rest,
        rest < pow2(k),
        HIDDEN_BIT <= quotient < 2 * HIDDEN_BIT,
    ensures
        n >= 2 * HIDDEN_BIT,
        bit_length(n) == k + 53,
        round_half_even(n, k) == if 2 * rest > pow2(k) || (2 * rest == pow2(k) && quotient % 2
            == 1) {
            quotient + 1
        } else {
            quotient
        },
        nearest_magnitude(n) == if k * HIDDEN_BIT + round_half_even(n, k) >= INFINITY {
            INFINITY
        } else {
            (k * HIDDEN_BIT + round_half_even(n, k)) as u64
        },
{
    let p = pow2(k);
    lemma_pow2_pos(k);
    lemma_pow2_unfold(k);
    lemma_pow2_pos((k - 1) as nat);
    assert(p >= 2);
    lemma2_to64();
    lemma2_to64_rest();
    lemma_pow2_adds(52, k);
    lemma_pow2_adds(53, k);
    assert(pow2(52) == HIDDEN_BIT);
    assert(pow2(53) == 2 * HIDDEN_BIT);
    assert(pow2(52 + k) <= n) by (nonlinear_arith)
        requires
            n == quotient * p + rest,
            pow2(52 + k) == pow2(52) * p,
            pow2(52) <= quotient,
            p > 0,
    ;
    assert(n < pow2(53 + k)) by (nonlinear_arith)
        requires
            n == quotient * p + rest,
            rest < p,
            pow2(53 + k) == pow2(53) * p,
            quotient < pow2(53),
            p > 0,
    ;
    assert(n >= 2 * HIDDEN_BIT) by (nonlinear_arith)
        requires
            n == quotient * p + rest,
            quotient >= HIDDEN_BIT,
            p >= 2,
    ;
    lemma_bit_length(n, 53 + k);
    lemma_fundamental_div_mod_converse(n as int, p as int, quotient as int, rest as int);
}

/// A positive number lies between the powers of two that its number of
/// digits names.
pub proof fn lemma_bit_length_bounds(n: nat)
    requires
        n > 0,
    ensures
        bit_length(n) >= 1,
        pow2((bit_length(n) - 1) as nat) <= n < pow2(bit_length(n)),
    decreases n,
{
    lemma2_to64();
    if n == 1 {
        assert(bit_length(1) == 1) by {
            reveal_with_fuel(bit_length, 3);
        }
    } else {
        lemma_bit_length_bounds(n / 2);
        lemma_pow2_unfold(bit_length(n));
        lemma_pow2_unfold((bit_length(n) - 1) as nat);
    }
}

/// Rounding goes to a nearest double. A magnitude below `2^53` is a double
/// and stays as it is. Above, where the result is finite, it differs from
/// the magnitude by at most half a unit in the last place kept, which is
/// half the distance between neighbouring doubles there; and a result that
/// is half a unit away has an even significand.
pub proof fn lemma_nearest_is_near(n: nat)
    ensures
        n < 2 * HIDDEN_BIT ==> scaled_magnitude(nearest_magnitude(n)) == n,
        n >= 2 * HIDDEN_BIT && nearest_magnitude(n) < INFINITY ==> {
            let unit = pow2((bit_length(n) - 53) as nat);
            let got = scaled_magnitude(nearest_magnitude(n));
            &&& bit_length(n) > 53
            &&& got % unit == 0
            &&& 2 * (got - n) <= unit
            &&& 2 * (n - got) <= unit
            &&& (2 * (got - n) == unit || 2 * (n - got) == unit) ==> (got / unit) % 2 == 0
        },
{
    lemma2_to64();
    lemma2_to64_rest();
    if n < 2 * HIDDEN_BIT {
        let r = nearest_magnitude(n);
        assert(r == n);
        assert(magnitude(r) == r);
        assert(scale(r) == 0);
        assert(significand(r) == n);
        assert(significand(r) * pow2(0) == n) by (nonlinear_arith)
            requires
                significand(r) == n,
                pow2(0) == 1,
        ;
    } else {
        lemma_bit_length_bounds(n);
        let len = bit_length(n);
        if len <= 53 {
            lemma_pow2_strictly_increases(len, 54);
            if len < 53 {
                lemma_pow2_strictly_increases(len, 53);
            }
            assert(false);
        }
        let k = (len - 53) as nat;
        let unit = pow2(k);
        lemma_pow2_pos(k);
        lemma_pow2_adds(52, k);
        lemma_pow2_adds(53, k);
        lemma_pow2_adds(1, k);
        let quotient = n / unit;
        let rest = n % unit;
        assert(n == quotient * unit + rest && 0 <= rest < unit) by (nonlinear_arith)
            requires
                quotient == n / unit,
                rest == n % unit,
                unit > 0,
        ;
        assert(HIDDEN_BIT <= quotient < 2 * HIDDEN_BIT) by (nonlinear_arith)
            requires
                n == quotient * unit + rest,
                0 <= rest < unit,
                pow2(52) * unit <= n < pow2(53) * unit,
                pow2(52) == HIDDEN_BIT,
                pow2(53) == 2 * HIDDEN_BIT,
                unit > 0,
        ;
        lemma_nearest_magnitude(n, k, quotient, rest);
        let rounded = round_half_even(n, k);
        if nearest_magnitude(n) < INFINITY {
            let r = nearest_magnitude(n);
            assert(r == k * HIDDEN_BIT + rounded);
            assert(magnitude(r) == r);
            if rounded < 2 * HIDDEN_BIT {
                assert(exponent_field(r) == k + 1);
                assert(significand(r) == rounded);
                assert(scale(r) == k);
            } else {
                assert(exponent_field(r) == k + 2);
                assert(significand(r) == HIDDEN_BIT);
                assert(scale(r) == k + 1);
                assert(HIDDEN_BIT * pow2(k + 1) == rounded * unit) by (nonlinear_arith)
                    requires
                        pow2(k + 1) == pow2(1) * unit,
                        pow2(1) == 2,
                        rounded == 2 * HIDDEN_BIT,
                ;
            }
            let got = scaled_magnitude(r);
            assert(got == rounded * unit);
            assert(got % unit == 0 && got / unit == rounded) by {
                lemma_fundamental_div_mod_converse(got as int, unit as int, rounded as int, 0);
            }
            assert(got - n == (rounded - quotient) * unit - rest) by (nonlinear_arith)
                requires
                    got == rounded * unit,
                    n == quotient * unit + rest,
            ;
            if rounded == quotient {
                assert((rounded - quotient) * unit == 0) by (nonlinear_arith)
                    requires
                        rounded == quotient,
                ;
            } else {
                assert((rounded - quotient) * unit == unit) by (nonlinear_arith)
                    requires
                        rounded == quotient + 1,
                ;
            }
        }
    }
}

/// The distance between two natural numbers.
pub open spec fn distance(a: nat, b: nat) -> nat {
    if a >= b {
        (a - b) as nat
    } else {
        (b - a) as nat
    }
}

/// From `2^(52+k)` on, the finite doubles are multiples of `2^k`.
pub proof fn lemma_doubles_are_spaced(d: u64, k: nat)
    requires
        is_finite(d),
        scaled_magnitude(d) >= pow2(52 + k),
    ensures
        scaled_magnitude(d) % pow2(k) == 0,
{
    let sig = significand(d);
    let q = scale(d);
    let unit = pow2(k);
    lemma2_to64();
    lemma2_to64_rest();
    lemma_pow2_pos(k);
    lemma_pow2_pos(q);
    if q >= k {
        let up = pow2((q - k) as nat);
        lemma_pow2_adds((q - k) as nat, k);
        assert(scaled_magnitude(d) == (sig * up) * unit) by (nonlinear_arith)
            requires
                scaled_magnitude(d) == sig * pow2(q),
                pow2(q) == up * unit,
        ;
        lemma_fundamental_div_mod_converse(
            scaled_magnitude(d) as int,
            unit as int,
            (sig * up) as int,
            0,
        );
    } else {
        lemma_pow2_adds(53, q);
        if 53 + q < 52 + k {
            lemma_pow2_strictly_increases(53 + q, 52 + k);
        }
        assert(scaled_magnitude(d) < pow2(53 + q)) by (nonlinear_arith)
            requires
                scaled_magnitude(d) == sig * pow2(q),
                sig < pow2(53),
                pow2(53 + q) == pow2(53) * pow2(q),
                pow2(q) > 0,
        ;
    }
}

/// Rounding goes to the nearest double: where the result is finite, no
/// finite double lies nearer to the magnitude than the result does.
pub proof fn lemma_no_double_is_nearer(n: nat, d: u64)
    requires
        is_finite(d),
        nearest_magnitude(n) < INFINITY,
    ensures
        distance(scaled_magnitude(nearest_magnitude(n)), n) <= distance(scaled_magnitude(d), n),
{
    lemma_nearest_is_near(n);
    if n >= 2 * HIDDEN_BIT {
        let k = (bit_length(n) - 53) as nat;
        let unit = pow2(k);
        let got = scaled_magnitude(nearest_magnitude(n));
        let other = scaled_magnitude(d);
        let floor = pow2(52 + k);
        lemma2_to64();
        lemma2_to64_rest();
        lemma_pow2_pos(k);
        lemma_pow2_adds(52, k);
        lemma_bit_length_bounds(n);
        assert(floor <= n);
        assert(got == (got / unit) * unit) by (nonlinear_arith)
            requires
                got % unit == 0,
                unit > 0,
        ;
        assert(got >= floor && (got > n ==> got >= floor + unit)) by (nonlinear_arith)
            requires
                got == (got / unit) * unit,
                floor == HIDDEN_BIT * unit,
                floor <= n,
                2 * (n - got) <= unit,
                unit > 0,
        ;
        if other >= floor {
            lemma_doubles_are_spaced(d, k);
            assert(other == (other / unit) * unit) by (nonlinear_arith)
                requires
                    other % unit == 0,
                    unit > 0,
            ;
            assert(other == got || other >= got + unit || got >= other + unit)
                by (nonlinear_arith)
                requires
                    got == (got / unit) * unit,
                    other == (other / unit) * unit,
                    unit > 0,
            ;
        }
    }
}

/// Rounding leaves a double as it is: the nearest double to the magnitude
/// of a finite double is that double.
pub proof fn lemma_nearest_of_double(b: u64)
    requires
        is_finite(b),
    ensures
        nearest_magnitude(scaled_magnitude(b)) == magnitude(b),
{
    lemma2_to64();
    let k = scale(b);
    let sig = significand(b);
    if k == 0 {
        assert(sig * pow2(0) == sig) by (nonlinear_arith)
            requires
                pow2(0) == 1,
        ;
        assert(sig == magnitude(b));
    } else {
        lemma_pow2_pos(k);
        lemma_nearest_magnitude(scaled_magnitude(b), k, sig, 0);
        assert(k * HIDDEN_BIT + sig == magnitude(b));
    }
}

/// Adding positive zero to a finite double other than zero gives the double
/// back.
pub proof fn lemma_sum_with_zero(a: u64)
    requires
        is_finite(a),
        magnitude(a) != 0,
    ensures
        sum(a, 0) == a,
        sum(0, a) == a,
{
    lemma2_to64();
    lemma_nearest_of_double(a);
    lemma_pow2_pos(scale(a));
    assert(scaled_magnitude(0) == 0) by (nonlinear_arith)
        requires
            scaled_magnitude(0) == significand(0) * pow2(scale(0)),
            significand(0) == 0,
    ;
    assert(scaled_magnitude(a) > 0) by (nonlinear_arith)
        requires
            scaled_magnitude(a) == significand(a) * pow2(scale(a)),
            significand(a) > 0,
            pow2(scale(a)) > 0,
    ;
}

/// The order of the operands does not matter to a sum.
pub proof fn lemma_sum_commutes(a: u64, b: u64)
    ensures
        sum(a, b) == sum(b, a),
{
}

/// Two to the power 110, above every magnitude that the addition rounds.
pub const LIMIT: u128 = 0x4000_0000_0000_0000_0000_0000_0000;

/// `LIMIT` is `2^110`, and the powers of two below it are smaller.
proof fn lemma_limit(k: nat)
    requires
        k <= 110,
    ensures
        pow2(110) == LIMIT,
        0 < pow2(k) <= LIMIT,
{
    lemma2_to64();
    lemma2_to64_rest();
    lemma_pow2_adds(64, 46);
    lemma_pow2_pos(k);
    if k < 110 {
        lemma_pow2_strictly_increases(k, 110);
    }
}

/// Computes a power of two.
fn power_of_two(k: u32) -> (p: u128)
    requires
        k <= 110,
    ensures
        p == pow2(k as nat),
{
    let mut p: u128 = 1;
    let mut i: u32 = 0;
    proof {
        lemma2_to64();
    }
    while i < k
        invariant
            i <= k <= 110,
            p == pow2(i as nat),
        decreases k - i,
    {
        proof {
            lemma_pow2_unfold((i + 1) as nat);
            lemma_limit((i + 1) as nat);
        }
        p = p * 2;
        i += 1;
    }
    p
}

/// Counts the binary digits of a positive number.
fn digits(m: u128) -> (len: u32)
    requires
        0 < m < LIMIT,
    ensures
        len == bit_length(m as nat),
        1 <= len <= 110,
        pow2((len - 1) as nat) <= m < pow2(len as nat),
{
    let mut len: u32 = 0;
    let mut p: u128 = 1;
    proof {
        lemma2_to64();
    }
    while p <= m
        invariant
            0 < m < LIMIT,
            len <= 110,
            p == pow2(len as nat),
            len > 0 ==> pow2((len - 1) as nat) <= m,
        decreases 111 - len,
    {
        proof {
            lemma_limit(len as nat);
            if len == 110 {
                assert(false);
            }
            lemma_pow2_unfold((len + 1) as nat);
            lemma_limit((len + 1) as nat);
        }
        p = p * 2;
        len += 1;
    }
    proof {
        lemma_bit_length(m as nat, len as nat);
    }
    len
}

/// Packs the magnitude `m * 2^q` of a number of at most 53 digits, which is
/// a double as it stands.
fn pack_exact(m: u128, q: u64, len: u32) -> (pattern: u64)
    requires
        0 < m < LIMIT,
        q <= 2045,
        1 <= len <= 53,
        pow2((len - 1) as nat) <= m < pow2(len as nat),
    ensures
        pattern == nearest_magnitude(m as nat * pow2(q as nat)),
        0 < pattern < INFINITY,
{
    let ghost n = m as nat * pow2(q as nat);
    let room = (53 - len) as u64;
    let t = if room < q {
        room
    } else {
        q
    };
    let e = q - t;
    proof {
        lemma2_to64();
        lemma2_to64_rest();
        lemma_pow2_adds((len - 1) as nat, t as nat);
        lemma_pow2_adds(len as nat, t as nat);
        lemma_pow2_adds(t as nat, e as nat);
        lemma_pow2_pos(t as nat);
        lemma_pow2_pos(e as nat);
        lemma_pow2_pos((len - 1 + t) as nat);
        lemma_limit(t as nat);
        if len + t < 53 {
            lemma_pow2_strictly_increases((len + t) as nat, 53);
        }
        assert(m * pow2(t as nat) < pow2((len + t) as nat)) by (nonlinear_arith)
            requires
                m < pow2(len as nat),
                pow2((len + t) as nat) == pow2(len as nat) * pow2(t as nat),
                pow2(t as nat) > 0,
        ;
        assert(m * pow2(t as nat) >= pow2((len - 1 + t) as nat)) by (nonlinear_arith)
            requires
                m >= pow2((len - 1) as nat),
                pow2((len - 1 + t) as nat) == pow2((len - 1) as nat) * pow2(t as nat),
                pow2(t as nat) > 0,
        ;
    }
    let sig = (m * power_of_two(t as u32)) as u64;
    proof {
        assert(n == sig * pow2(e as nat)) by (nonlinear_arith)
            requires
                n == m * pow2(q as nat),
                sig == m * pow2(t as nat),
                pow2(q as nat) == pow2(t as nat) * pow2(e as nat),
        ;
        if e == 0 {
            assert(n == sig);
        } else {
            assert(len + t == 53);
            lemma_nearest_magnitude(n, e as nat, sig as nat, 0);
        }
    }
    e * HIDDEN_BIT + sig
}

/// Rounds the magnitude `m * 2^q` of a number of more than 53 digits to 53
/// digits and packs it.
fn pack_rounded(m: u128, q: u64, len: u32) -> (pattern: u64)
    requires
        0 < m < LIMIT,
        q <= 2045,
        53 < len <= 110,
        pow2((len - 1) as nat) <= m < pow2(len as nat),
    ensures
        pattern == nearest_magnitude(m as nat * pow2(q as nat)),
        0 < pattern <= INFINITY,
{
    let ghost n = m as nat * pow2(q as nat);
    let s = len - 53;
    let unit = power_of_two(s);
    let e = q + s as u64;
    proof {
        lemma2_to64();
        lemma2_to64_rest();
        lemma_pow2_pos(q as nat);
        lemma_pow2_adds(52, s as nat);
        lemma_pow2_adds(53, s as nat);
        lemma_pow2_adds(s as nat, q as nat);
        lemma_pow2_unfold(s as nat);
        lemma_pow2_pos(s as nat);
        assert(m == (m / unit) * unit + m % unit) by (nonlinear_arith)
            requires
                unit > 0,
        ;
        assert(HIDDEN_BIT <= m / unit < 2 * HIDDEN_BIT) by (nonlinear_arith)
            requires
                m == (m / unit) * unit + m % unit,
                0 <= m % unit < unit,
                pow2(52) * unit <= m < pow2(53) * unit,
                pow2(52) == HIDDEN_BIT,
                pow2(53) == 2 * HIDDEN_BIT,
                unit > 0,
        ;
    }
    let quotient = (m / unit) as u64;
    let rest = m % unit;
    let half = unit / 2;
    proof {
        let big_rest = (rest * pow2(q as nat)) as nat;
        assert(n == quotient * pow2(e as nat) + big_rest && big_rest < pow2(e as nat) && (2
            * big_rest > pow2(e as nat) <==> 2 * rest > unit) && (2 * big_rest == pow2(e as nat)
            <==> 2 * rest == unit)) by (nonlinear_arith)
            requires
                n == m * pow2(q as nat),
                m == quotient * unit + rest,
                rest < unit,
                big_rest == rest * pow2(q as nat),
                pow2(e as nat) == unit * pow2(q as nat),
                pow2(q as nat) > 0,
        ;
        lemma_nearest_magnitude(n, e as nat, quotient as nat, big_rest);
    }
    let rounded = if rest > half || (rest == half && quotient % 2 == 1) {
        quotient + 1
    } else {
        quotient
    };
    if e >= 2046 {
        INFINITY
    } else {
        e * HIDDEN_BIT + rounded
    }
}

/// Rounds the magnitude `m * 2^q` to the nearest double and packs it.
fn round_pack(m: u128, q: u64) -> (pattern: u64)
    requires
        0 < m < LIMIT,
        q <= 2045,
    ensures
        pattern == nearest_magnitude(m as nat * pow2(q as nat)),
        0 < pattern <= INFINITY,
{
    let len = digits(m);
    if len <= 53 {
        pack_exact(m, q, len)
    } else {
        pack_rounded(m, q, len)
    }
}

/// Adding or subtracting a double that is far smaller changes nothing. For
/// a normal double of significand `sh` and scale `qh`, and another whose
/// scale is at least 56 below, the nearest double to the exact sum or
/// difference of the magnitudes is the first one.
proof fn lemma_far_apart(sh: nat, qh: nat, sl: nat, ql: nat, same_sign: bool)
    requires
        HIDDEN_BIT <= sh < 2 * HIDDEN_BIT,
        sl < 2 * HIDDEN_BIT,
        qh >= ql + 56,
        qh <= 2045,
    ensures
        sl * pow2(ql) < sh * pow2(qh),
        nearest_magnitude(
            if same_sign {
                sh * pow2(qh) + sl * pow2(ql)
            } else {
                (sh * pow2(qh) - sl * pow2(ql)) as nat
            },
        ) == qh * HIDDEN_BIT + sh,
{
    let whole = pow2(qh);
    let half = pow2((qh - 1) as nat);
    let eighth = pow2((qh - 3) as nat);
    let small = sl * pow2(ql);
    lemma2_to64();
    lemma2_to64_rest();
    lemma_pow2_adds(53, ql);
    lemma_pow2_adds(3, (qh - 3) as nat);
    lemma_pow2_adds(1, (qh - 1) as nat);
    lemma_pow2_pos(ql);
    lemma_pow2_pos((qh - 3) as nat);
    if ql + 53 < qh - 3 {
        lemma_pow2_strictly_increases(ql + 53, (qh - 3) as nat);
    }
    assert(small < eighth) by (nonlinear_arith)
        requires
            small == sl * pow2(ql),
            sl < pow2(53),
            pow2(53 + ql) == pow2(53) * pow2(ql),
            pow2(53 + ql) <= eighth,
            pow2(ql) > 0,
    ;
    assert(whole == 8 * eighth);
    assert(whole == 2 * half);
    assert(small < sh * whole) by (nonlinear_arith)
        requires
            small < whole,
            sh >= 1,
    ;
    if same_sign || small == 0 {
        let n = sh * whole + small;
        lemma_nearest_magnitude(n, qh, sh, small);
    } else if sh > HIDDEN_BIT {
        let n = (sh * whole - small) as nat;
        let rest = (whole - small) as nat;
        assert(n == (sh - 1) * whole + rest) by (nonlinear_arith)
            requires
                n == sh * whole - small,
                rest == whole - small,
        ;
        lemma_nearest_magnitude(n, qh, (sh - 1) as nat, rest);
    } else {
        let n = (sh * whole - small) as nat;
        let rest = (half - small) as nat;
        assert(n == (2 * HIDDEN_BIT - 1) * half + rest) by (nonlinear_arith)
            requires
                n == sh * whole - small,
                sh == HIDDEN_BIT,
                whole == 2 * half,
                rest == half - small,
        ;
        lemma_nearest_magnitude(n, (qh - 1) as nat, (2 * HIDDEN_BIT - 1) as nat, rest);
    }
}

/// Splits a finite double into significand and scale.
fn unpack(b: u64) -> (parts: (u64, u64))
    requires
        is_finite(b),
    ensures
        parts.0 == significand(b),
        parts.1 == scale(b),
        parts.0 < 2 * HIDDEN_BIT,
        parts.1 <= 2045,
        parts.1 > 0 ==> parts.0 >= HIDDEN_BIT,
        magnitude(b) == parts.1 * HIDDEN_BIT + parts.0,
{
    let m = abs(b);
    let e = m / HIDDEN_BIT;
    let f = m % HIDDEN_BIT;
    if e == 0 {
        (f, 0)
    } else {
        (f + HIDDEN_BIT, e - 1)
    }
}

/// Of two finite doubles, the one with the greater pattern has the greater
/// magnitude: its scale is no smaller, and its significand, shifted by the
/// difference of the scales, is no smaller than the other significand.
proof fn lemma_magnitude_order(hi: u64, lo: u64)
    requires
        lo <= hi < INFINITY,
    ensures
        scale(lo) <= scale(hi),
        significand(lo) <= significand(hi) * pow2((scale(hi) - scale(lo)) as nat),
{
    let d = (scale(hi) - scale(lo)) as nat;
    lemma2_to64();
    lemma_pow2_pos(d);
    assert(magnitude(hi) == hi && magnitude(lo) == lo);
    assert(exponent_field(lo) <= exponent_field(hi));
    if d == 0 {
        assert(significand(lo) <= significand(hi));
        assert(significand(hi) * pow2(0) == significand(hi));
    }
    if d >= 1 {
        lemma_pow2_unfold(d);
        lemma_pow2_pos((d - 1) as nat);
        assert(significand(lo) <= significand(hi) * pow2(d)) by (nonlinear_arith)
            requires
                significand(hi) >= HIDDEN_BIT,
                significand(lo) < 2 * HIDDEN_BIT,
                pow2(d) >= 2,
        ;
    }
}

/// Adds or subtracts two magnitudes, of which the first is no smaller, and
/// rounds the exact result to the nearest double.
fn combine(sh: u64, qh: u64, sl: u64, ql: u64, same_sign: bool) -> (pattern: u64)
    requires
        sh < 2 * HIDDEN_BIT,
        sl < 2 * HIDDEN_BIT,
        ql <= qh <= 2045,
        qh > 0 ==> sh >= HIDDEN_BIT,
        sl <= sh * pow2((qh - ql) as nat),
    ensures
        sl * pow2(ql as nat) <= sh * pow2(qh as nat),
        pattern == nearest_magnitude(
            if same_sign {
                (sh * pow2(qh as nat) + sl * pow2(ql as nat)) as nat
            } else {
                (sh * pow2(qh as nat) - sl * pow2(ql as nat)) as nat
            },
        ),
        pattern <= INFINITY,
        pattern == 0 <==> (if same_sign {
            sh * pow2(qh as nat) + sl * pow2(ql as nat)
        } else {
            sh * pow2(qh as nat) - sl * pow2(ql as nat)
        }) == 0,
{
    let d = qh - ql;
    let ghost high: int = sh * pow2(qh as nat);
    let ghost low: int = sl * pow2(ql as nat);
    proof {
        lemma_pow2_adds(d as nat, ql as nat);
        lemma_pow2_pos(d as nat);
        lemma_pow2_pos(ql as nat);
        assert(low <= high) by (nonlinear_arith)
            requires
                high == sh * pow2(qh as nat),
                low == sl * pow2(ql as nat),
                pow2(qh as nat) == pow2(d as nat) * pow2(ql as nat),
                sl <= sh * pow2(d as nat),
                pow2(ql as nat) > 0,
        ;
    }
    if d > 55 {
        proof {
            lemma_far_apart(sh as nat, qh as nat, sl as nat, ql as nat, same_sign);
        }
        return qh * HIDDEN_BIT + sh;
    }
    proof {
        lemma2_to64();
        lemma2_to64_rest();
        lemma_pow2_adds(53, d as nat);
        lemma_limit((53 + d) as nat);
        assert(sh * pow2(d as nat) < pow2((53 + d) as nat)) by (nonlinear_arith)
            requires
                sh < pow2(53),
                pow2((53 + d) as nat) == pow2(53) * pow2(d as nat),
                pow2(d as nat) > 0,
        ;
        if d + 53 < 109 {
            lemma_pow2_strictly_increases((53 + d) as nat, 109);
        }
        lemma_pow2_unfold(110);
    }
    let big = (sh as u128) * power_of_two(d as u32);
    let m = if same_sign {
        big + sl as u128
    } else {
        big - sl as u128
    };
    proof {
        assert(high == big * pow2(ql as nat)) by (nonlinear_arith)
            requires
                high == sh * pow2(qh as nat),
                big == sh * pow2(d as nat),
                pow2(qh as nat) == pow2(d as nat) * pow2(ql as nat),
        ;
        assert(m * pow2(ql as nat) == if same_sign {
            high + low
        } else {
            high - low
        }) by (nonlinear_arith)
            requires
                high == big * pow2(ql as nat),
                low == sl * pow2(ql as nat),
                m == if same_sign {
                    big + sl
                } else {
                    big - sl
                },
        ;
    }
    if m == 0 {
        assert(m * pow2(ql as nat) == 0) by (nonlinear_arith)
            requires
                m == 0,
        ;
        return 0;
    }
    round_pack(m, ql)
}

/// The exact sum of two finite doubles, told by their signs: with equal
/// signs the magnitudes add up, with opposite signs the smaller is taken
/// from the greater, and the sign is that of the greater.
proof fn lemma_exact_sum(a: u64, b: u64, high: int, low: int)
    requires
        is_finite(a),
        is_finite(b),
        low <= high,
        magnitude(a) >= magnitude(b) ==> high == significand(a) * pow2(scale(a)) && low
            == significand(b) * pow2(scale(b)),
        magnitude(a) < magnitude(b) ==> high == significand(b) * pow2(scale(b)) && low
            == significand(a) * pow2(scale(a)),
    ensures
        scaled_value(a) + scaled_value(b) == if is_negative(a) == is_negative(b) {
            if is_negative(a) {
                -(high + low)
            } else {
                high + low
            }
        } else if (magnitude(a) >= magnitude(b)) == is_negative(a) {
            low - high
        } else {
            high - low
        },
{
}

/// Adds two doubles: the pattern of `sum`.
pub fn plus(a: u64, b: u64) -> (r: u64)
    ensures
        r == sum(a, b),
{
    if nan(a) || nan(b) {
        return QUIET_NAN;
    }
    let ma = abs(a);
    let mb = abs(b);
    let na = a >= SIGN_BIT;
    let nb = b >= SIGN_BIT;
    if ma == INFINITY {
        if mb == INFINITY && na != nb {
            return QUIET_NAN;
        }
        return a;
    }
    if mb == INFINITY {
        return b;
    }
    let first = ma >= mb;
    let (sh, qh) = if first {
        unpack(a)
    } else {
        unpack(b)
    };
    let (sl, ql) = if first {
        unpack(b)
    } else {
        unpack(a)
    };
    let neg = if first {
        na
    } else {
        nb
    };
    proof {
        if first {
            lemma_magnitude_order(ma, mb);
        } else {
            lemma_magnitude_order(mb, ma);
        }
    }
    let mag = combine(sh, qh, sl, ql, na == nb);
    proof {
        lemma_exact_sum(a, b, sh * pow2(qh as nat), sl * pow2(ql as nat));
    }
    if mag == 0 {
        if na && nb {
            SIGN_BIT
        } else {
            0
        }
    } else if neg {
        SIGN_BIT + mag
    } else {
        mag
    }
}

/// Flips the sign of a double.
pub fn negate(b: u64) -> (r: u64)
    ensures
        r == negated(b),
{
    if b >= SIGN_BIT {
        b - SIGN_BIT
    } else {
        b + SIGN_BIT
    }
}

/// Subtracts the second double from the first: the pattern of `difference`.
pub fn minus(a: u64, b: u64) -> (r: u64)
    ensures
        r == difference(a, b),
{
    plus(a, negate(b))
}

} // verus!
