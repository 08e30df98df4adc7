//! What rounding to single precision guarantees.
use crate::float32::{
    lemma_steps_increase, one, round_magnitude, steps, Float32, HIDDEN, INFINITE,
};
use crate::rounding::{excess_bits, lemma_excess_bits_bounds, round_half_even, rounded};
use vstd::arithmetic::div_mod::*;
use vstd::arithmetic::mul::*;
use vstd::arithmetic::power2::*;
use vstd::prelude::*;

verus! {

/// The distance of two integers.
pub open spec fn distance(a: int, b: int) -> int {
    if a < b {
        b - a
    } else {
        a - b
    }
}

/// The pattern of `k * 2^e` for a significand of at most 24 bits.
proof fn lemma_steps_of(k: nat, e: nat)
    requires
        k <= 0x100_0000,
        e > 0 ==> k >= HIDDEN,
    ensures
        steps(e * HIDDEN as nat + k) == k * pow2(e),
{
    let h = HIDDEN as nat;
    let mag = e * h + k;
    lemma2_to64();
    if mag < h {
        assert(e == 0);
        lemma_mul_basics(k as int);
    } else if k < 0x100_0000 {
        // mag == (e + 1) * h + (k - h)
        if e == 0 {
        }
        lemma_fundamental_div_mod_converse(mag as int, h as int, (e + 1) as int, k - h);
    } else {
        lemma_fundamental_div_mod_converse(mag as int, h as int, (e + 2) as int, 0);
        lemma_pow2_unfold(e + 1);
        assert(h * (2 * pow2(e)) == k * pow2(e)) by (nonlinear_arith)
            requires
                k == 2 * h,
        ;
    }
}

/// A whole number of at most 24 bits, scaled by a power of two, is represented exactly.
pub proof fn short_significands_are_exact(k: nat, e: nat) -> (mag: nat)
    requires
        k <= 0x100_0000,
        e <= 200,
    ensures
        mag < INFINITE,
        steps(mag) == k * pow2(e),
        round_magnitude(k * pow2(e), 1) == mag,
    decreases e,
{
    let mag = if e == 0 || k >= HIDDEN {
        lemma_steps_of(k, e);
        e * HIDDEN as nat + k
    } else {
        lemma_pow2_unfold(e);
        assert(k * (2 * pow2((e - 1) as nat)) == (2 * k) * pow2((e - 1) as nat))
            by (nonlinear_arith);
        short_significands_are_exact(2 * k, (e - 1) as nat)
    };
    lemma_mul_basics(steps(mag) as int);
    rounding_keeps_values(1, mag);
    mag
}

/// Rounding does not carry a number across one that is exact.
pub proof fn rounding_keeps_sides(n: nat, d: nat, k: nat, e: nat)
    requires
        d > 0,
        k <= 0x100_0000,
        e <= 200,
    ensures
        n <= (k * pow2(e)) * d ==> round_magnitude(n, d) < INFINITE && steps(
            round_magnitude(n, d),
        ) <= k * pow2(e),
        (k * pow2(e)) * d <= n ==> k * pow2(e) <= steps(round_magnitude(n, d)),
{
    let mark = k * pow2(e);
    let mag = short_significands_are_exact(k, e);
    let r = round_magnitude(n, d);
    lemma_mul_basics(n as int);
    lemma_mul_basics((mark * d) as int);
    if n <= mark * d {
        rounding_is_monotone(n, d, mark, 1);
        if r < mag {
            lemma_steps_increase(r, mag);
        }
    }
    if mark * d <= n {
        rounding_is_monotone(mark, 1, n, d);
        if mag < r {
            lemma_steps_increase(mag, r);
        }
    }
}

/// The whole quotient and its exponent before the rounding step.
proof fn lemma_before_rounding(n: nat, d: nat) -> (r: (nat, nat))
    requires
        d > 0,
    ensures
        ({
            let (k, e) = r;
            let unit = d * pow2(e);
            &&& e == rounded(24, n, d).1
            &&& unit > 0
            &&& k == n / unit
            &&& k < 0x100_0000
            &&& (e > 0 ==> k >= HIDDEN)
            &&& k * unit <= n < (k + 1) * unit
            &&& rounded(24, n, d).0 == round_half_even(n, unit)
        }),
{
    let q = n / d;
    let e = excess_bits(24, q);
    let unit = d * pow2(e);
    lemma_excess_bits_bounds(24, q);
    lemma_pow2_pos(e);
    lemma_mul_strictly_positive(d as int, pow2(e) as int);
    let k = n / unit;
    lemma_div_denominator(n as int, d as int, pow2(e) as int);
    assert(k == q / pow2(e));
    lemma_fundamental_div_mod(q as int, pow2(e) as int);
    lemma2_to64();
    lemma_pow2_adds(24, e);
    let p = pow2(e) as int;
    assert(k < 0x100_0000) by (nonlinear_arith)
        requires
            q == p * k + q as int % p,
            q as int % p >= 0,
            q < 0x100_0000 * p,
            p > 0,
    ;
    if e > 0 {
        lemma_pow2_adds(23, e);
        assert(k >= 0x80_0000) by (nonlinear_arith)
            requires
                q == p * k + q as int % p,
                q as int % p < p,
                q >= 0x80_0000 * p,
                p > 0,
        ;
    }
    lemma_fundamental_div_mod(n as int, unit as int);
    assert(k * unit <= n < (k + 1) * unit) by (nonlinear_arith)
        requires
            n == unit * k + n as int % (unit as int),
            0 <= n as int % (unit as int) < unit,
    ;
    (k, e)
}

/// Rounding picks a nearest number: no pattern up to infinity stands for a value closer to
/// `n / d` steps than the one that rounding gives.
pub proof fn rounding_is_nearest(n: nat, d: nat, other: nat)
    requires
        d > 0,
        other <= INFINITE,
    ensures
        distance((d * steps(round_magnitude(n, d))) as int, n as int) <= distance(
            (d * steps(other)) as int,
            n as int,
        ),
{
    let (k, e) = lemma_before_rounding(n, d);
    let unit = d * pow2(e);
    let h = HIDDEN as nat;
    let low = e * h + k;
    let high = low + 1;
    lemma_steps_of(k, e);
    lemma_steps_of(k + 1, e);
    assert(high == e * h + (k + 1));
    let below = (d * steps(low)) as int;
    let above = (d * steps(high)) as int;
    assert(below == k * unit && above == (k + 1) * unit) by {
        lemma_mul_is_associative(d as int, k as int, pow2(e) as int);
        lemma_mul_is_associative(k as int, d as int, pow2(e) as int);
        lemma_mul_is_commutative(d as int, k as int);
        lemma_mul_is_associative(d as int, (k + 1) as int, pow2(e) as int);
        lemma_mul_is_associative((k + 1) as int, d as int, pow2(e) as int);
        lemma_mul_is_commutative(d as int, (k + 1) as int);
    }
    assert(above == below + unit) by (nonlinear_arith)
        requires
            below == k * unit,
            above == (k + 1) * unit,
    ;
    lemma_fundamental_div_mod(n as int, unit as int);
    lemma_mul_is_commutative(unit as int, k as int);
    assert(n == below + n % unit);
    // No value lies strictly between `low` and `high`.
    let x = (d * steps(other)) as int;
    if other <= low {
        if other < low {
            lemma_steps_increase(other, low);
        }
        assert(x <= below) by (nonlinear_arith)
            requires
                x == d * steps(other),
                below == d * steps(low),
                steps(other) <= steps(low),
        ;
    } else {
        if other > high {
            lemma_steps_increase(high, other);
        }
        assert(x >= above) by (nonlinear_arith)
            requires
                x == d * steps(other),
                above == d * steps(high),
                steps(other) >= steps(high),
        ;
    }
    if low >= INFINITE {
        // Every candidate lies at or below infinity, which lies at or below n / d.
        let r = round_magnitude(n, d);
        assert(r == INFINITE);
        let top = (d * steps(INFINITE as nat)) as int;
        if INFINITE < low {
            lemma_steps_increase(INFINITE as nat, low);
        }
        if other < INFINITE {
            lemma_steps_increase(other, INFINITE as nat);
        }
        assert(x <= top <= below) by (nonlinear_arith)
            requires
                x == d * steps(other),
                top == d * steps(INFINITE as nat),
                below == d * steps(low),
                steps(other) <= steps(INFINITE as nat) <= steps(low),
        ;
    }
}

/// Ties go to the even pattern: where another pattern is as near as the one that rounding gives,
/// the latter is even.
pub proof fn ties_go_to_even(n: nat, d: nat, other: nat)
    requires
        d > 0,
        other <= INFINITE,
        other != round_magnitude(n, d),
        distance((d * steps(round_magnitude(n, d))) as int, n as int) == distance(
            (d * steps(other)) as int,
            n as int,
        ),
    ensures
        round_magnitude(n, d) % 2 == 0,
{
    let (k, e) = lemma_before_rounding(n, d);
    let unit = d * pow2(e);
    let h = HIDDEN as nat;
    let low = e * h + k;
    let high = low + 1;
    lemma_steps_of(k, e);
    lemma_steps_of(k + 1, e);
    assert(high == e * h + (k + 1));
    assert(low % 2 == k % 2) by {
        assert(e * h == 2 * (e * 0x40_0000)) by (nonlinear_arith)
            requires
                h == 0x80_0000,
        ;
    }
    let below = (d * steps(low)) as int;
    let above = (d * steps(high)) as int;
    let p = pow2(e);
    assert(below == k * unit && above == below + unit) by (nonlinear_arith)
        requires
            below == d * (k * p),
            above == d * ((k + 1) * p),
            unit == d * p,
    ;
    lemma_fundamental_div_mod(n as int, unit as int);
    lemma_mod_bound(n as int, unit as int);
    lemma_mul_is_commutative(unit as int, k as int);
    let rest = n % unit;
    assert(n == below + rest);
    let x = (d * steps(other)) as int;
    if low < INFINITE {
        if other < low {
            lemma_steps_increase(other, low);
            assert(x < below) by (nonlinear_arith)
                requires
                    x == d * steps(other),
                    below == d * steps(low),
                    steps(other) < steps(low),
                    d > 0,
            ;
        }
        if other > high {
            lemma_steps_increase(high, other);
            assert(x > above) by (nonlinear_arith)
                requires
                    x == d * steps(other),
                    above == d * steps(high),
                    steps(other) > steps(high),
                    d > 0,
            ;
        }
    }
}

/// A value that a finite pattern stands for is rounded to that pattern.
pub proof fn rounding_keeps_values(d: nat, mag: nat)
    requires
        d > 0,
        mag <= INFINITE,
    ensures
        round_magnitude(d * steps(mag), d) == mag,
{
    let n = d * steps(mag);
    rounding_is_nearest(n, d, mag);
    let r = round_magnitude(n, d);
    if r < mag {
        lemma_steps_increase(r, mag);
        assert(d * steps(r) < n) by (nonlinear_arith)
            requires
                n == d * steps(mag),
                steps(r) < steps(mag),
                d > 0,
        ;
    }
    if r > mag {
        lemma_steps_increase(mag, r);
        assert(d * steps(r) > n) by (nonlinear_arith)
            requires
                n == d * steps(mag),
                steps(r) > steps(mag),
                d > 0,
        ;
    }
}

/// Rounding is monotone: a larger value never rounds to a smaller number.
pub proof fn rounding_is_monotone(n1: nat, d1: nat, n2: nat, d2: nat)
    requires
        d1 > 0,
        d2 > 0,
        n1 * d2 <= n2 * d1,
    ensures
        round_magnitude(n1, d1) <= round_magnitude(n2, d2),
{
    let (k1, e1) = lemma_before_rounding(n1, d1);
    let (k2, e2) = lemma_before_rounding(n2, d2);
    let u1 = d1 * pow2(e1);
    let u2 = d2 * pow2(e2);
    let h = HIDDEN as nat;
    lemma_pow2_pos(e1);
    lemma_pow2_pos(e2);
    // The truncated values are in order.
    let low1 = e1 * h + k1;
    let low2 = e2 * h + k2;
    lemma_steps_of(k1, e1);
    lemma_steps_of(k2 + 1, e2);
    assert(low2 + 1 == e2 * h + (k2 + 1));
    if low1 > low2 {
        // then k1 * 2^e1 >= (k2 + 1) * 2^e2 > n2 / d2 >= n1 / d1 >= k1 * 2^e1
        if low1 > low2 + 1 {
            lemma_steps_increase(low2 + 1, low1);
        }
        let v1 = (k1 * pow2(e1)) as int;
        let v2 = ((k2 + 1) * pow2(e2)) as int;
        lemma_swap(k1 as int, pow2(e1) as int, d1 as int);
        lemma_swap((k2 + 1) as int, pow2(e2) as int, d2 as int);
        lemma_cross(v1, v2, d1 as int, d2 as int, n1 as int, n2 as int);
    }
    if low1 == low2 {
        // Same quotient: compare the remainders.
        lemma_same_binade(k1, e1, k2, e2);
        let r1 = n1 % u1;
        let r2 = n2 % u2;
        lemma_fundamental_div_mod(n1 as int, u1 as int);
        lemma_fundamental_div_mod(n2 as int, u2 as int);
        lemma_remainders(
            d1 as int,
            d2 as int,
            pow2(e1) as int,
            k1 as int,
            r1 as int,
            r2 as int,
        );
    }
}

proof fn lemma_swap(k: int, p: int, d: int)
    by (nonlinear_arith)
    ensures
        (k * p) * d == k * (d * p),
{
}

proof fn lemma_cross(v1: int, v2: int, d1: int, d2: int, n1: int, n2: int)
    requires
        v1 * d1 <= n1,
        n2 < v2 * d2,
        n1 * d2 <= n2 * d1,
        d1 > 0,
        d2 > 0,
    ensures
        v1 < v2,
{
    lemma_mul_inequality(v1 * d1, n1, d2);
    lemma_mul_strict_inequality(n2, v2 * d2, d1);
    lemma_mul_strictly_positive(d1, d2);
    lemma_mul_is_associative(v1, d1, d2);
    lemma_mul_is_associative(v2, d2, d1);
    lemma_mul_is_commutative(d1, d2);
    if v1 >= v2 {
        lemma_mul_inequality(v2, v1, d1 * d2);
    }
}

/// With equal quotients the remainders compare as the values do.
proof fn lemma_remainders(d1: int, d2: int, p: int, k: int, r1: int, r2: int)
    requires
        d1 > 0,
        d2 > 0,
        p > 0,
        ((d1 * p) * k + r1) * d2 <= ((d2 * p) * k + r2) * d1,
    ensures
        2 * r1 > d1 * p ==> 2 * r2 > d2 * p,
        2 * r1 >= d1 * p ==> 2 * r2 >= d2 * p,
{
    lemma_expand(d1, d2, p, k, r1);
    lemma_expand(d2, d1, p, k, r2);
    lemma_four(d1, d2, p, k);
    assert(r1 * d2 <= r2 * d1);
    lemma_swap(d1, p, d2);
    lemma_swap(d2, p, d1);
    let t = (d1 * p) * d2;
    assert(t == (d2 * p) * d1) by (nonlinear_arith)
        requires
            t == (d1 * p) * d2,
    ;
    lemma_mul_is_associative(2, r1, d2);
    lemma_mul_is_associative(2, r2, d1);
    if 2 * r1 >= d1 * p {
        lemma_mul_inequality(d1 * p, 2 * r1, d2);
        if 2 * r2 < d2 * p {
            lemma_mul_strict_inequality(2 * r2, d2 * p, d1);
        }
    }
    if 2 * r1 > d1 * p {
        lemma_mul_strict_inequality(d1 * p, 2 * r1, d2);
        if 2 * r2 <= d2 * p {
            lemma_mul_inequality(2 * r2, d2 * p, d1);
        }
    }
}

proof fn lemma_expand(a: int, b: int, p: int, k: int, r: int)
    by (nonlinear_arith)
    ensures
        ((a * p) * k + r) * b == (a * p) * k * b + r * b,
{
}

proof fn lemma_four(a: int, b: int, p: int, k: int)
    by (nonlinear_arith)
    ensures
        (a * p) * k * b == (b * p) * k * a,
{
}

/// Equal patterns below rounding come from equal quotients and exponents.
proof fn lemma_same_binade(k1: nat, e1: nat, k2: nat, e2: nat)
    requires
        k1 < 0x100_0000,
        k2 < 0x100_0000,
        e1 > 0 ==> k1 >= HIDDEN,
        e2 > 0 ==> k2 >= HIDDEN,
        e1 * HIDDEN as nat + k1 == e2 * HIDDEN as nat + k2,
    ensures
        e1 == e2,
        k1 == k2,
{
}

/// How far rounding can exceed the exact value: half a unit in the last place, which is at
/// most `2^-24` of the value, or half a step.
pub proof fn rounding_upper_bound(n: nat, d: nat)
    requires
        d > 0,
    ensures
        0x100_0000 * (d * steps(round_magnitude(n, d))) <= 0x100_0001 * n + 0x80_0000 * d,
{
    let (k, e) = lemma_before_rounding(n, d);
    let unit = d * pow2(e);
    let h = HIDDEN as nat;
    let k2 = rounded(24, n, d).0;
    let mag = e * h + k2;
    lemma_steps_of(k2, e);
    let v = d * steps(mag);
    lemma_mul_is_associative(d as int, k2 as int, pow2(e) as int);
    lemma_mul_is_associative(k2 as int, d as int, pow2(e) as int);
    lemma_mul_is_commutative(d as int, k2 as int);
    assert(v == k2 * unit);
    lemma_fundamental_div_mod(n as int, unit as int);
    assert(n == k * unit + n % unit) by (nonlinear_arith)
        requires
            n == unit * (n / unit) + n % unit,
            k == n / unit,
    ;
    assert((k + 1) * unit == k * unit + unit) by (nonlinear_arith);
    assert(2 * v <= 2 * n + unit);
    if e == 0 {
        lemma2_to64();
        lemma_mul_basics(d as int);
        assert(unit == d);
    } else {
        assert(0x80_0000 * unit <= n) by (nonlinear_arith)
            requires
                k * unit <= n,
                k >= 0x80_0000,
                unit > 0,
        ;
    }
    if mag > INFINITE {
        lemma_steps_increase(INFINITE as nat, mag);
        assert(d * steps(INFINITE as nat) <= v) by (nonlinear_arith)
            requires
                v == d * steps(mag),
                steps(INFINITE as nat) <= steps(mag),
        ;
    }
}

/// How far rounding can fall below the exact value of a number that is not too large.
pub proof fn rounding_lower_bound(n: nat, d: nat)
    requires
        d > 0,
        round_magnitude(n, d) < INFINITE,
    ensures
        0x100_0000 * n <= 0x100_0000 * (d * steps(round_magnitude(n, d))) + n + 0x80_0000 * d,
{
    let (k, e) = lemma_before_rounding(n, d);
    let unit = d * pow2(e);
    let h = HIDDEN as nat;
    let k2 = rounded(24, n, d).0;
    let mag = e * h + k2;
    lemma_steps_of(k2, e);
    let v = d * steps(mag);
    lemma_mul_is_associative(d as int, k2 as int, pow2(e) as int);
    lemma_mul_is_associative(k2 as int, d as int, pow2(e) as int);
    lemma_mul_is_commutative(d as int, k2 as int);
    assert(v == k2 * unit);
    lemma_fundamental_div_mod(n as int, unit as int);
    assert(n == k * unit + n % unit) by (nonlinear_arith)
        requires
            n == unit * (n / unit) + n % unit,
            k == n / unit,
    ;
    assert((k + 1) * unit == k * unit + unit) by (nonlinear_arith);
    assert(2 * n <= 2 * v + unit);
    if e == 0 {
        lemma2_to64();
        lemma_mul_basics(d as int);
        assert(unit == d);
    } else {
        assert(0x80_0000 * unit <= n) by (nonlinear_arith)
            requires
                k * unit <= n,
                k >= 0x80_0000,
                unit > 0,
        ;
    }
}

/// Rounding a whole number of steps is off by at most `2^-24` of it, or half a step.
proof fn lemma_rounding_error(n: nat)
    requires
        n <= 0x100_0000_0000 * one(),
    ensures
        round_magnitude(n, 1) < INFINITE,
        0x100_0000 * distance(steps(round_magnitude(n, 1)) as int, n as int) <= n + 0x80_0000,
{
    lemma_mul_basics((0x100_0000_0000 * one()) as int);
    lemma_not_infinite(n, 1);
    rounding_upper_bound(n, 1);
    rounding_lower_bound(n, 1);
    lemma_mul_basics(steps(round_magnitude(n, 1)) as int);
}

/// The parts of a packed number.
proof fn lemma_packed(negative: bool, mag: nat)
    requires
        mag < INFINITE,
    ensures
        Float32::pack(negative, mag).is_finite(),
        Float32::pack(negative, mag).signed_steps() == if negative {
            -(steps(mag) as int)
        } else {
            steps(mag) as int
        },
{
}

/// A sum is off by at most `2^-24` of its exact value, or half a step.
pub proof fn sums_are_close(a: Float32, b: Float32)
    requires
        a.is_finite(),
        b.is_finite(),
        -0x100_0000_0000 * one() <= a.signed_steps() + b.signed_steps() <= 0x100_0000_0000 * one(),
    ensures
        a.spec_add(b).is_finite(),
        0x100_0000 * distance(
            a.spec_add(b).signed_steps(),
            a.signed_steps() + b.signed_steps(),
        ) <= distance(a.signed_steps() + b.signed_steps(), 0) + 0x80_0000,
{
    let sum = a.signed_steps() + b.signed_steps();
    let n = distance(sum, 0) as nat;
    lemma_rounding_error(n);
    let mag = if sum == 0 {
        0
    } else {
        round_magnitude(n, 1)
    };
    let negative = sum < 0 || (sum == 0 && a.is_negative() && b.is_negative());
    assert(a.spec_add(b) == Float32::pack(negative, mag)) by {
        reveal(Float32::spec_add);
    }
    lemma_packed(negative, mag);
}

/// A difference is off by at most `2^-24` of its exact value, or half a step.
pub proof fn differences_are_close(a: Float32, b: Float32)
    requires
        a.is_finite(),
        b.is_finite(),
        -0x100_0000_0000 * one() <= a.signed_steps() - b.signed_steps() <= 0x100_0000_0000 * one(),
    ensures
        a.spec_sub(b).is_finite(),
        0x100_0000 * distance(
            a.spec_sub(b).signed_steps(),
            a.signed_steps() - b.signed_steps(),
        ) <= distance(a.signed_steps() - b.signed_steps(), 0) + 0x80_0000,
{
    lemma_negation(b);
    sums_are_close(a, b.spec_neg());
}

pub proof fn lemma_negation(x: Float32)
    requires
        x.is_finite(),
    ensures
        x.spec_neg().is_finite(),
        x.spec_neg().signed_steps() == -x.signed_steps(),
{
}

/// Finite numbers compare as their values do.
pub proof fn order_is_that_of_values(a: Float32, b: Float32)
    requires
        a.is_finite(),
        b.is_finite(),
    ensures
        a.spec_lt(b) <==> a.signed_steps() < b.signed_steps(),
        a.spec_le(b) <==> a.signed_steps() <= b.signed_steps(),
{
    let m = a.magnitude();
    let n = b.magnitude();
    if m < n {
        lemma_steps_increase(m, n);
    }
    if n < m {
        lemma_steps_increase(n, m);
    }
    if m > 0 {
        lemma_steps_increase(0, m);
    }
    if n > 0 {
        lemma_steps_increase(0, n);
    }
}

/// Whole numbers up to `2^24` are represented exactly.
pub proof fn small_integers_are_exact(x: u64)
    requires
        x <= 0x100_0000,
    ensures
        Float32::spec_from_u64(x).is_finite(),
        !Float32::spec_from_u64(x).is_negative(),
        Float32::spec_from_u64(x).abs_steps() == x * one(),
{
    reveal(Float32::spec_from_u64);
    let n = x as nat * one();
    let (k, e) = lemma_before_rounding(n, 1);
    lemma2_to64();
    lemma_mul_basics(pow2(e) as int);
    // e is at most 149 unless x is 2^24 itself
    lemma_pow2_adds(24, 149);
    lemma_pow2_adds(25, 149);
    lemma_pow2_pos(149);
    lemma_excess_bits_bounds(24, n);
    assert(n <= pow2(173) && n < pow2(174)) by (nonlinear_arith)
        requires
            n == x * one(),
            x <= 0x100_0000,
            pow2(173) == 0x100_0000 * one(),
            pow2(174) == 0x200_0000 * one(),
            one() > 0,
    ;
    assert(e == excess_bits(24, n)) by {
        lemma_div_basics(n as int);
    }
    if e > 150 {
        lemma_pow2_strictly_increases(174, (24 + e - 1) as nat);
    }
    assert(e <= 150);
    // n is a multiple of 2^e
    let c: nat = if e <= 149 {
        x as nat * pow2((149 - e) as nat)
    } else {
        0x80_0000
    };
    assert(n == c * pow2(e)) by {
        if e <= 149 {
            lemma_pow2_adds((149 - e) as nat, e);
            lemma_mul_is_associative(x as int, pow2((149 - e) as nat) as int, pow2(e) as int);
        } else {
            assert(pow2(173) <= n);
            lemma_pow2_adds(23, 150);
        }
    }
    lemma_pow2_pos(e);
    lemma_fundamental_div_mod_converse(n as int, pow2(e) as int, c as int, 0);
    assert(k == c);
    assert(rounded(24, n, 1) == (k, e));
    lemma_steps_of(k, e);
    assert(e * HIDDEN as nat + k < INFINITE);
    assert(round_magnitude(n, 1) == e * HIDDEN as nat + k);
}

/// A finite number that is not negative and at most `bound` steps.
pub open spec fn within(x: Float32, bound: nat) -> bool {
    &&& !x.is_negative()
    &&& x.is_finite()
    &&& x.abs_steps() <= bound
}

/// One has many steps.
pub proof fn lemma_one_is_large()
    ensures
        one() >= 0x1_0000_0000_0000,
{
    lemma_pow2_adds(48, 101);
    lemma_pow2_pos(101);
    lemma2_to64_rest();
    assert(one() == 0x1_0000_0000_0000 * pow2(101));
}

/// One as a number.
pub open spec fn unity() -> Float32 {
    Float32 { bits: 0x3f80_0000 }
}

pub proof fn lemma_unity()
    ensures
        within(unity(), one()),
        unity().abs_steps() == one(),
{
    // 0x3f800000 == 127 * 2^23
    lemma_pow2_adds(23, 126);
    lemma2_to64();
}

/// Below `2^128` there is no overflow.
pub proof fn lemma_not_infinite(n: nat, d: nat)
    requires
        d > 0,
        n <= d * (0x100_0000_0000 * one()),
    ensures
        round_magnitude(n, d) < INFINITE,
{
    rounding_upper_bound(n, d);
    let r = round_magnitude(n, d);
    if r == INFINITE {
        lemma2_to64();
        lemma_pow2_adds(23, 254);
        lemma2_to64_rest();
        lemma_pow2_adds(44, 149);
        lemma_pow2_strictly_increases(193, 277);
        lemma_pow2_pos(149);
        let top = steps(INFINITE as nat) as int;
        assert(top == pow2(277));
        let o = one() as int;
        assert(top > 0x1000_0000_0000 * o);
        assert(false) by (nonlinear_arith)
            requires
                0x100_0000 * (d * top) <= 0x100_0001 * n + 0x80_0000 * d,
                n <= d * (0x100_0000_0000 * o),
                top > 0x1000_0000_0000 * o,
                o >= 1,
                d >= 1,
        {
            assert(d * top >= d * (0x1000_0000_0000 * o)) by (nonlinear_arith)
                requires
                    top > 0x1000_0000_0000 * o,
                    d >= 1,
            ;
            assert(d * (0x1000_0000_0000 * o) == 0x1000_0000_0000 * (d * o)) by (nonlinear_arith);
            assert(d * (0x100_0000_0000 * o) == 0x100_0000_0000 * (d * o)) by (nonlinear_arith);
            assert(d * o >= d) by (nonlinear_arith)
                requires
                    o >= 1,
                    d >= 1,
            ;
        }
    }
}

/// How large the rounded product of two numbers can be.
pub proof fn lemma_product_bound(a: Float32, b: Float32)
    requires
        !a.is_negative(),
        !b.is_negative(),
        a.is_finite(),
        b.is_finite(),
        a.abs_steps() * b.abs_steps() <= one() * (0x100_0000_0000 * one()),
    ensures
        ({
            let p = a.spec_mul(b);
            &&& !p.is_negative()
            &&& p.is_finite()
            &&& 0x100_0000 * (one() * p.abs_steps()) <= 0x100_0001 * (a.abs_steps()
                * b.abs_steps()) + 0x80_0000 * one()
        }),
{
    reveal(Float32::spec_mul);
    lemma_pow2_pos(149);
    let n = a.abs_steps() * b.abs_steps();
    rounding_upper_bound(n, one());
    lemma_not_infinite(n, one());
}

/// How large the rounded sum of two numbers can be.
pub proof fn lemma_sum_bound(a: Float32, b: Float32)
    requires
        !a.is_negative(),
        !b.is_negative(),
        a.is_finite(),
        b.is_finite(),
        a.abs_steps() + b.abs_steps() <= 0x100_0000_0000 * one(),
    ensures
        ({
            let s = a.spec_add(b);
            &&& !s.is_negative()
            &&& s.is_finite()
            &&& 0x100_0000 * s.abs_steps() <= 0x100_0001 * (a.abs_steps() + b.abs_steps())
                + 0x80_0000
        }),
{
    reveal(Float32::spec_add);
    let n = a.abs_steps() + b.abs_steps();
    lemma_mul_basics((0x100_0000_0000 * one()) as int);
    rounding_upper_bound(n, 1);
    lemma_not_infinite(n, 1);
    lemma_mul_basics(steps(round_magnitude(n, 1)) as int);
}

/// A difference of ordered numbers is not negative, and grows with the larger one.
pub proof fn lemma_difference(low: Float32, mid: Float32, high: Float32)
    requires
        within(low, 0x100_0000_0000 * one()),
        within(mid, 0x100_0000_0000 * one()),
        within(high, 0x100_0000_0000 * one()),
        low.spec_le(mid),
        mid.spec_le(high),
    ensures
        ({
            let a = mid.spec_sub(low);
            let b = high.spec_sub(low);
            &&& !a.is_negative()
            &&& !b.is_negative()
            &&& a.is_finite()
            &&& b.is_finite()
            &&& a.abs_steps() <= b.abs_steps()
        }),
{
    lemma_le_steps(low, mid);
    lemma_le_steps(mid, high);
    lemma_ordered_sub(mid, low);
    lemma_ordered_sub(high, low);
    let na = (mid.abs_steps() - low.abs_steps()) as nat;
    let nb = (high.abs_steps() - low.abs_steps()) as nat;
    rounding_is_monotone(na, 1, nb, 1);
    let ra = round_magnitude(na, 1);
    let rb = round_magnitude(nb, 1);
    if ra < rb {
        lemma_steps_increase(ra, rb);
    }
}

/// Subtracting a number that is not larger.
proof fn lemma_ordered_sub(high: Float32, low: Float32)
    requires
        within(low, 0x100_0000_0000 * one()),
        within(high, 0x100_0000_0000 * one()),
        low.abs_steps() <= high.abs_steps(),
    ensures
        ({
            let r = high.spec_sub(low);
            let n = (high.abs_steps() - low.abs_steps()) as nat;
            &&& !r.is_negative()
            &&& r.is_finite()
            &&& r.magnitude() == round_magnitude(n, 1)
        }),
{
    reveal(Float32::spec_add);
    lemma_negated(low);
    let n = (high.abs_steps() - low.abs_steps()) as nat;
    lemma_mul_basics((0x100_0000_0000 * one()) as int);
    lemma_not_infinite(n, 1);
    assert(round_magnitude(0, 1) == 0) by {
        lemma2_to64();
        rounding_keeps_values(1, 0);
    }
}

/// The order of numbers that are not negative is the order of their steps.
pub proof fn lemma_le_steps(a: Float32, b: Float32)
    requires
        !a.is_negative(),
        !b.is_negative(),
        a.spec_le(b),
    ensures
        a.abs_steps() <= b.abs_steps(),
{
    if a.magnitude() < b.magnitude() {
        lemma_steps_increase(a.magnitude(), b.magnitude());
    }
}

proof fn lemma_negated(x: Float32)
    requires
        !x.is_negative(),
    ensures
        x.spec_neg().is_negative(),
        x.spec_neg().magnitude() == x.magnitude(),
{
}

/// The ratio of a number to one that is not smaller lies between zero and one.
pub proof fn lemma_ratio(a: Float32, b: Float32)
    requires
        !a.is_negative(),
        !b.is_negative(),
        a.is_finite(),
        b.is_finite(),
        !b.is_zero(),
        a.abs_steps() <= b.abs_steps(),
    ensures
        within(a.spec_div(b), one()),
{
    reveal(Float32::spec_div);
    lemma_steps_increase(0, b.magnitude());
    let n = a.abs_steps() * one();
    let d = b.abs_steps();
    let u = unity().magnitude();
    lemma_unity();
    lemma_mul_inequality(a.abs_steps() as int, b.abs_steps() as int, one() as int);
    rounding_keeps_values(d, u);
    assert(n * d <= (d * one()) * d) by (nonlinear_arith)
        requires
            n <= d * one(),
    ;
    rounding_is_monotone(n, d, d * one(), d);
    let r = round_magnitude(n, d);
    if r < u {
        lemma_steps_increase(r, u);
    }
}

/// What is left of one after taking away a number between zero and one.
pub proof fn lemma_complement(w: Float32)
    requires
        within(w, one()),
    ensures
        ({
            let c = unity().spec_sub(w);
            &&& within(c, one())
            &&& 0x100_0000 * c.abs_steps() <= 0x100_0001 * (one() - w.abs_steps()) + 0x80_0000
        }),
{
    reveal(Float32::spec_add);
    lemma_unity();
    lemma_negated(w);
    let n = (one() - w.abs_steps()) as nat;
    let u = unity().magnitude();
    if n > 0 {
        rounding_upper_bound(n, 1);
        lemma_mul_basics(steps(round_magnitude(n, 1)) as int);
        lemma_mul_basics(one() as int);
        lemma_mul_basics(n as int);
        rounding_keeps_values(1, u);
        rounding_is_monotone(n, 1, one(), 1);
        let r = round_magnitude(n, 1);
        if r < u {
            lemma_steps_increase(r, u);
        }
    }
}

/// A mix of two numbers by a weight between zero and one stays within the larger bound, up to
/// rounding: with both at most `limit` parts in 128 of one, the result is at most one part
/// more.
pub proof fn lemma_mix(a: Float32, b: Float32, w: Float32, limit: nat)
    requires
        within(w, one()),
        !a.is_negative(),
        !b.is_negative(),
        a.is_finite(),
        b.is_finite(),
        128 * a.abs_steps() <= limit * one(),
        128 * b.abs_steps() <= limit * one(),
        limit <= 0x1_0000,
    ensures
        ({
            let mixed = a.spec_mul(unity().spec_sub(w)).spec_add(b.spec_mul(w));
            &&& !mixed.is_negative()
            &&& mixed.is_finite()
            &&& 128 * mixed.abs_steps() <= (limit + 1) * one()
        }),
{
    let o = one() as int;
    lemma_complement(w);
    let c = unity().spec_sub(w);
    let cs = c.abs_steps() as int;
    let ws = w.abs_steps() as int;
    let sa = a.abs_steps() as int;
    let sb = b.abs_steps() as int;
    let l = limit as int;
    lemma2_to64_rest();
    lemma_pow2_strictly_increases(60, 149);
    lemma_share(sa, cs, l, o);
    lemma_share(sb, ws, l, o);
    lemma_product_bound(a, c);
    lemma_product_bound(b, w);
    let p = a.spec_mul(c).abs_steps() as int;
    let q = b.spec_mul(w).abs_steps() as int;
    lemma_share_rounded(p, sa * cs, cs, l, o);
    lemma_share_rounded(q, sb * ws, ws, l, o);
    // 128 * 2^24 * p <= (2^24 + 1) * l * cs + 2^30, and likewise q
    lemma_mix_sum(p, q, cs, ws, l, o);
    lemma_sum_bound(a.spec_mul(c), b.spec_mul(w));
    let s = a.spec_mul(c).spec_add(b.spec_mul(w)).abs_steps() as int;
    lemma_mix_total(p, q, s, l, o);
}

proof fn lemma_share(sa: int, cs: int, l: int, o: int)
    requires
        0 <= sa,
        0 <= cs <= o,
        128 * sa <= l * o,
        0 <= l <= 0x1_0000,
        o > 0,
    ensures
        sa * cs <= o * (0x100_0000_0000 * o),
        128 * (sa * cs) <= o * (l * cs),
{
    lemma_mul_inequality(128 * sa, l * o, cs);
    lemma_mul_is_associative(128, sa, cs);
    assert(l * o * cs == o * (l * cs)) by (nonlinear_arith);
    assert(l * cs <= 0x1_0000 * o) by (nonlinear_arith)
        requires
            0 <= l <= 0x1_0000,
            0 <= cs <= o,
    ;
    lemma_mul_inequality(l * cs, 0x1_0000 * o, o);
    lemma_mul_is_commutative(l * cs, o);
    lemma_mul_is_commutative(0x1_0000 * o, o);
    assert(o * (0x100_0000_0000 * o) == 0x100_0000 * (o * (0x1_0000 * o))) by (nonlinear_arith);
    assert(o * (0x1_0000 * o) >= 0) by (nonlinear_arith)
        requires
            o > 0,
    ;
}

/// Dividing the bound of a product by one.
proof fn lemma_share_rounded(p: int, n: int, cs: int, l: int, o: int)
    requires
        o > 0,
        0x100_0000 * (o * p) <= 0x100_0001 * n + 0x80_0000 * o,
        128 * n <= o * (l * cs),
    ensures
        0x8000_0000 * p <= 0x100_0001 * (l * cs) + 0x4000_0000,
{
    let x = 0x8000_0000 * p;
    let y = 0x100_0001 * (l * cs) + 0x4000_0000;
    assert(o * x == 0x8000_0000 * (o * p)) by (nonlinear_arith)
        requires
            x == 0x8000_0000 * p,
    ;
    assert(o * y == 0x100_0001 * (o * (l * cs)) + 0x4000_0000 * o) by (nonlinear_arith)
        requires
            y == 0x100_0001 * (l * cs) + 0x4000_0000,
    ;
    assert(o * x <= o * y);
    assert(x <= y) by (nonlinear_arith)
        requires
            o * x <= o * y,
            o > 0,
    ;
}

proof fn lemma_mix_sum(p: int, q: int, cs: int, ws: int, l: int, o: int)
    requires
        0 <= p,
        0 <= q,
        0 <= cs <= o,
        0 <= ws <= o,
        0 <= l <= 0x1_0000,
        o > 0x1000_0000_0000_000,
        0x100_0000 * cs <= 0x100_0001 * (o - ws) + 0x80_0000,
        0x8000_0000 * p <= 0x100_0001 * (l * cs) + 0x4000_0000,
        0x8000_0000 * q <= 0x100_0001 * (l * ws) + 0x4000_0000,
    ensures
        p + q <= 0x100_0000_0000 * o,
        0x8000_0000 * (p + q) <= 0x100_0004 * (l * o) + o,
{
    let t = l * (cs + ws);
    assert(l * cs + l * ws == t) by (nonlinear_arith)
        requires
            t == l * (cs + ws),
    ;
    // 2^24 (cs + ws) <= (2^24 + 1) o + 2^23
    assert(0x100_0000 * (cs + ws) <= 0x100_0001 * o + 0x80_0000);
    let b = 0x100_0001 * o + 0x80_0000;
    assert(0x100_0000 * t <= l * b) by (nonlinear_arith)
        requires
            t == l * (cs + ws),
            0x100_0000 * (cs + ws) <= b,
            l >= 0,
    ;
    assert(l * b == 0x100_0001 * (l * o) + 0x80_0000 * l) by (nonlinear_arith)
        requires
            b == 0x100_0001 * o + 0x80_0000,
    ;
    assert(l * o >= 0 && l * o <= 0x1_0000 * o) by (nonlinear_arith)
        requires
            0 <= l <= 0x1_0000,
            o > 0,
    ;
}

proof fn lemma_mix_total(p: int, q: int, s: int, l: int, o: int)
    requires
        0 <= l <= 0x1_0000,
        o > 0x1000_0000_0000_000,
        0x8000_0000 * (p + q) <= 0x100_0004 * (l * o) + o,
        0x100_0000 * s <= 0x100_0001 * (p + q) + 0x80_0000,
    ensures
        128 * s <= (l + 1) * o,
{
    assert(l * o >= 0 && l * o <= 0x1_0000 * o) by (nonlinear_arith)
        requires
            0 <= l <= 0x1_0000,
            o > 0,
    ;
    assert((l + 1) * o == l * o + o) by (nonlinear_arith);
}

/// Whole numbers of up to 33 bits stay far from overflow.
pub proof fn lemma_from_u64_within(x: u64)
    requires
        x <= 0x2_0000_0000,
    ensures
        within(Float32::spec_from_u64(x), 0x4_0000_0000 * one()),
{
    reveal(Float32::spec_from_u64);
    let n = x as nat * one();
    lemma_pow2_pos(149);
    lemma_mul_inequality(x as int, 0x2_0000_0000, one() as int);
    lemma_mul_basics((0x100_0000_0000 * one()) as int);
    lemma_not_infinite(n, 1);
    rounding_upper_bound(n, 1);
    lemma_mul_basics(steps(round_magnitude(n, 1)) as int);
}

/// Two as a number.
pub open spec fn two() -> Float32 {
    Float32 { bits: 0x4000_0000 }
}

pub proof fn lemma_two()
    ensures
        two().is_finite(),
        !two().is_negative(),
        two().abs_steps() == 2 * one(),
{
    // 0x40000000 == 128 * 2^23
    lemma_pow2_adds(23, 127);
    lemma_pow2_adds(1, 149);
    lemma2_to64();
}

/// Halving keeps a number within bounds.
pub proof fn lemma_half_within(a: Float32)
    requires
        within(a, 0x4_0000_0000 * one()),
    ensures
        within(a.spec_div(two()), 0x100_0000_0000 * one()),
{
    reveal(Float32::spec_div);
    lemma_two();
    lemma_pow2_pos(149);
    let o = one() as int;
    let n = a.abs_steps() * one();
    let d = (2 * one()) as nat;
    assert(n <= d * (0x2_0000_0000 * one())) by (nonlinear_arith)
        requires
            n == a.abs_steps() * one(),
            a.abs_steps() <= 0x4_0000_0000 * one(),
            d == 2 * one(),
    ;
    assert(d * (0x2_0000_0000 * one()) <= d * (0x100_0000_0000 * one())) by (nonlinear_arith)
        requires
            d >= 0,
            one() >= 0,
    ;
    lemma_not_infinite(n, d);
    rounding_upper_bound(n, d);
    let r = steps(round_magnitude(n, d)) as int;
    let c = 0x100_0001 * (0x2_0000_0000 * o) + 0x80_0000;
    assert(d * (0x100_0000 * r) <= d * c) by (nonlinear_arith)
        requires
            0x100_0000 * (d * r) <= 0x100_0001 * n + 0x80_0000 * d,
            n <= d * (0x2_0000_0000 * o),
            c == 0x100_0001 * (0x2_0000_0000 * o) + 0x80_0000,
    ;
    assert(0x100_0000 * r <= c) by (nonlinear_arith)
        requires
            d * (0x100_0000 * r) <= d * c,
            d > 0,
    ;
}

} // verus!
