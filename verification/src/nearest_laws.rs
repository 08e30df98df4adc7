//! Every operation gives the number nearest to the exact result.
use crate::float32::{one, round_magnitude, steps, Float32};
use crate::float_laws::{distance, order_is_that_of_values, rounding_is_nearest};
use vstd::arithmetic::div_mod::*;
use vstd::arithmetic::mul::*;
use vstd::arithmetic::power2::*;
use vstd::prelude::*;

verus! {

/// With equal signs, what is nearest in size is nearest.
proof fn lemma_signed_nearest(d: int, r: int, x: int, n: int, negative: bool)
    requires
        d > 0,
        r >= 0,
        n >= 0,
        distance(d * r, n) <= distance(
            d * (if x < 0 {
                -x
            } else {
                x
            }),
            n,
        ),
    ensures
        ({
            let s = if negative {
                -n
            } else {
                n
            };
            let t = if negative {
                -r
            } else {
                r
            };
            distance(d * t, s) <= distance(d * x, s)
        }),
{
    assert(d * (-r) == -(d * r) && d * (-x) == -(d * x)) by (nonlinear_arith);
    assert(x >= 0 ==> d * x >= 0) by (nonlinear_arith)
        requires
            d > 0,
    ;
    assert(x < 0 ==> d * x <= 0) by (nonlinear_arith)
        requires
            d > 0,
    ;
}

/// No number is nearer to the exact sum than the computed one.
pub proof fn sums_are_nearest(a: Float32, b: Float32, x: Float32)
    requires
        a.is_finite(),
        b.is_finite(),
        x.is_finite(),
    ensures
        ({
            let exact = a.signed_steps() + b.signed_steps();
            distance(a.spec_add(b).signed_steps(), exact) <= distance(x.signed_steps(), exact)
        }),
{
    reveal(Float32::spec_add);
    let s = a.signed_steps() + b.signed_steps();
    let n = if s < 0 {
        -s
    } else {
        s
    };
    rounding_is_nearest(n as nat, 1, x.magnitude());
    let r = steps(round_magnitude(n as nat, 1)) as int;
    lemma_mul_basics(r);
    lemma_mul_basics(x.abs_steps() as int);
    lemma_mul_basics(x.signed_steps());
    lemma_mul_basics(-r);
    lemma_signed_nearest(1, r, x.signed_steps(), n, s < 0);
}

/// No number is nearer to the exact product than the computed one. In steps, a product has one
/// more factor of one.
pub proof fn products_are_nearest(a: Float32, b: Float32, x: Float32)
    requires
        a.is_finite(),
        b.is_finite(),
        x.is_finite(),
    ensures
        ({
            let exact = a.signed_steps() * b.signed_steps();
            distance(one() * a.spec_mul(b).signed_steps(), exact) <= distance(
                one() * x.signed_steps(),
                exact,
            )
        }),
{
    reveal(Float32::spec_mul);
    lemma_pow2_pos(149);
    let (p, q) = (a.abs_steps() as int, b.abs_steps() as int);
    let n = a.abs_steps() * b.abs_steps();
    let negative = a.is_negative() != b.is_negative();
    rounding_is_nearest(n, one(), x.magnitude());
    let r = steps(round_magnitude(n, one())) as int;
    lemma_signed_nearest(one() as int, r, x.signed_steps(), n as int, negative);
    assert((-p) * q == -(p * q) && p * (-q) == -(p * q) && (-p) * (-q) == p * q)
        by (nonlinear_arith);
}

/// No number is nearer to the exact quotient than the computed one: times the divisor, none is
/// nearer to the dividend.
pub proof fn quotients_are_nearest(a: Float32, b: Float32, x: Float32)
    requires
        a.is_finite(),
        b.is_finite(),
        x.is_finite(),
        b.abs_steps() > 0,
    ensures
        ({
            let exact = a.signed_steps() * one();
            distance(b.signed_steps() * a.spec_div(b).signed_steps(), exact) <= distance(
                b.signed_steps() * x.signed_steps(),
                exact,
            )
        }),
{
    reveal(Float32::spec_div);
    if b.is_zero() {
        assert(b.abs_steps() == 0);
    }
    let o = one() as int;
    let (p, q) = (a.abs_steps() as int, b.abs_steps() as int);
    let n = a.abs_steps() * one();
    rounding_is_nearest(n, b.abs_steps(), x.magnitude());
    let r = steps(round_magnitude(n, b.abs_steps())) as int;
    let t = a.spec_div(b).signed_steps();
    let y = x.signed_steps();
    assert((-p) * o == -(p * o)) by (nonlinear_arith);
    if b.is_negative() {
        lemma_signed_nearest(q, r, -y, n as int, a.is_negative());
        assert((-q) * t == q * (-t) && (-q) * y == q * (-y)) by (nonlinear_arith);
        assert(x.abs_steps() == if -y < 0 {
            -(-y)
        } else {
            -y
        });
    } else {
        lemma_signed_nearest(q, r, y, n as int, a.is_negative());
    }
}

/// No number is nearer to an integer than the one that stands for it.
pub proof fn integers_are_nearest(k: u64, x: Float32)
    requires
        x.is_finite(),
    ensures
        distance(Float32::spec_from_u64(k).signed_steps(), (k * one()) as int) <= distance(
            x.signed_steps(),
            (k * one()) as int,
        ),
{
    reveal(Float32::spec_from_u64);
    let n = (k * one()) as nat;
    assert(k * one() >= 0) by (nonlinear_arith)
        requires
            k >= 0,
    ;
    rounding_is_nearest(n, 1, x.magnitude());
    let r = steps(round_magnitude(n, 1)) as int;
    lemma_mul_basics(r);
    lemma_mul_basics(x.abs_steps() as int);
    lemma_mul_basics(x.signed_steps());
    lemma_signed_nearest(1, r, x.signed_steps(), n as int, false);
}

/// Rounding to a whole number gives the nearest one, and the larger of two equally near ones;
/// what is below zero gives 0.
pub proof fn whole_numbers_are_nearest(a: Float32)
    requires
        a.is_finite(),
        a.signed_steps() < 0xffff_ffff * one(),
    ensures
        a.signed_steps() < 0 ==> a.spec_round_to_u32() == 0,
        a.signed_steps() >= 0 ==> 2 * (a.spec_round_to_u32() * one()) <= 2 * a.signed_steps()
            + one() < 2 * (a.spec_round_to_u32() * one()) + 2 * one(),
{
    reveal(Float32::spec_round_to_u32);
    lemma_pow2_pos(149);
    let o = one() as int;
    let s = a.signed_steps();
    if s >= 0 {
        let q = (2 * s + o) / (2 * o);
        lemma_fundamental_div_mod(2 * s + o, 2 * o);
        lemma_mod_bound(2 * s + o, 2 * o);
        lemma_div_pos_is_pos(2 * s + o, 2 * o);
        assert((2 * o) * q == 2 * (q * o)) by (nonlinear_arith);
        assert(q <= 0xffff_ffff) by (nonlinear_arith)
            requires
                (2 * o) * q <= 2 * s + o,
                s < 0xffff_ffff * o,
                o > 0,
        ;
        if a.is_negative() {
            assert(a.abs_steps() == 0);
            assert(q == 0) by {
                assert(2 * s + o == o);
                lemma_basic_div(o, 2 * o);
            }
        }
    }
}

/// Cutting off gives the largest whole number that is not larger; what is below zero gives 0.
pub proof fn whole_parts_are_below(a: Float32)
    requires
        a.is_finite(),
        a.signed_steps() < 0xffff_ffff * one(),
    ensures
        a.signed_steps() < 0 ==> a.spec_trunc_to_u32() == 0,
        a.signed_steps() >= 0 ==> a.spec_trunc_to_u32() * one() <= a.signed_steps() < (
        a.spec_trunc_to_u32() + 1) * one(),
{
    reveal(Float32::spec_trunc_to_u32);
    lemma_pow2_pos(149);
    let o = one() as int;
    let s = a.signed_steps();
    if s >= 0 {
        let q = s / o;
        lemma_fundamental_div_mod(s, o);
        lemma_mod_bound(s, o);
        lemma_div_pos_is_pos(s, o);
        assert(o * q == q * o && (q + 1) * o == q * o + o) by (nonlinear_arith);
        assert(q <= 0xffff_ffff) by (nonlinear_arith)
            requires
                o * q <= s,
                s < 0xffff_ffff * o,
                o > 0,
        ;
        if a.is_negative() {
            assert(a.abs_steps() == 0);
            lemma_basic_div(0, o);
        }
    }
}

/// The larger and the smaller of two numbers are among them and on the right sides; a clamped
/// number lies between the bounds, and is the number itself where that does.
pub proof fn bounds_hold(a: Float32, b: Float32, x: Float32)
    requires
        a.is_finite(),
        b.is_finite(),
        x.is_finite(),
    ensures
        ({
            let (p, q) = (a.signed_steps(), b.signed_steps());
            let (high, low) = (a.spec_max(b).signed_steps(), a.spec_min(b).signed_steps());
            &&& high == p || high == q
            &&& p <= high && q <= high
            &&& low == p || low == q
            &&& low <= p && low <= q
        }),
        a.signed_steps() <= b.signed_steps() ==> {
            let c = x.spec_clamp(a, b).signed_steps();
            &&& a.signed_steps() <= c <= b.signed_steps()
            &&& a.signed_steps() <= x.signed_steps() <= b.signed_steps() ==> c == x.signed_steps()
            &&& x.signed_steps() <= a.signed_steps() ==> c == a.signed_steps()
            &&& b.signed_steps() <= x.signed_steps() ==> c == b.signed_steps()
        },
{
    order_is_that_of_values(a, b);
    order_is_that_of_values(b, a);
    order_is_that_of_values(x, a);
    order_is_that_of_values(b, x);
    order_is_that_of_values(a, x);
    order_is_that_of_values(x, b);
}

} // verus!
