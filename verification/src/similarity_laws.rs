//! What the similarity of embeddings means.
use crate::float32::{one, round_magnitude, steps, Float32};
use crate::float_laws::{
    distance, lemma_not_infinite, rounding_keeps_values, rounding_lower_bound, rounding_upper_bound,
};
use crate::inference::{norm, sum_of_squares, unit_vector};
use crate::square_root::{doubled_root, is_root, lemma_root_exists, whole_root};
use crate::verify::{cosine, dot};
use vstd::arithmetic::mul::*;
use vstd::arithmetic::power2::*;
use vstd::prelude::*;

verus! {

proof fn lemma_products_commute(a: Float32, b: Float32)
    ensures
        a.spec_mul(b) == b.spec_mul(a),
{
    reveal(Float32::spec_mul);
    lemma_mul_is_commutative(a.abs_steps() as int, b.abs_steps() as int);
}

proof fn lemma_dot_is_symmetric(a: Seq<Float32>, b: Seq<Float32>, n: int)
    ensures
        dot(a, b, n) == dot(b, a, n),
    decreases n,
{
    if n > 0 {
        lemma_dot_is_symmetric(a, b, n - 1);
        lemma_products_commute(a[n - 1], b[n - 1]);
    }
}

/// It does not matter which of two embeddings is compared with the other.
pub proof fn similarity_is_symmetric(a: Seq<Float32>, b: Seq<Float32>)
    ensures
        cosine(a, b) == cosine(b, a),
{
    let n = if a.len() < b.len() {
        a.len() as int
    } else {
        b.len() as int
    };
    lemma_dot_is_symmetric(a, b, n);
    lemma_products_commute(norm(a), norm(b));
}

proof fn lemma_dot_of_one(a: Seq<Float32>, n: int)
    ensures
        dot(a, a, n) == sum_of_squares(a, n),
    decreases n,
{
    if n > 0 {
        lemma_dot_of_one(a, n - 1);
    }
}

/// The computed root of a number whose exact root has the whole part `w`.
proof fn lemma_root_is_close(w: nat, d: nat)
    requires
        w >= 0x100_0000_0000,
        w <= 0x1_0000 * one(),
        d == 2 * w || d == 2 * w + 1,
    ensures
        ({
            let r = steps(round_magnitude(d, 2)) as int;
            &&& round_magnitude(d, 2) < crate::float32::INFINITE
            &&& 0x40_0000 * r <= 0x40_0001 * w
            &&& 0x3f_ffff * w <= 0x40_0000 * r
        }),
{
    lemma_pow2_pos(149);
    lemma_not_infinite(d, 2);
    rounding_upper_bound(d, 2);
    rounding_lower_bound(d, 2);
}

proof fn lemma_square_bounds(w: int, r: int, x: int)
    requires
        w >= 0x100_0000_0000,
        w * w <= x < (w + 1) * (w + 1),
        0x40_0000 * r <= 0x40_0001 * w,
        0x3f_ffff * w <= 0x40_0000 * r,
    ensures
        0x10_0000 * (r * r) <= 0x10_0001 * x,
        0xf_ffff * x <= 0x10_0000 * (r * r),
{
    let s = w * w;
    let q = r * r;
    assert(0x1000_0000_0000 * q <= 0x1000_0080_0001 * s) by (nonlinear_arith)
        requires
            q == r * r,
            s == w * w,
            0 <= 0x40_0000 * r <= 0x40_0001 * w,
            w > 0,
            r >= 0,
    ;
    assert(0xfff_ff80_0001 * s <= 0x1000_0000_0000 * q) by (nonlinear_arith)
        requires
            q == r * r,
            s == w * w,
            0 <= 0x3f_ffff * w <= 0x40_0000 * r,
            w > 0,
    ;
    assert((w + 1) * (w + 1) == s + 2 * w + 1) by (nonlinear_arith)
        requires
            s == w * w,
    ;
    assert(0x100_0000_0000 * w <= s) by (nonlinear_arith)
        requires
            s == w * w,
            w >= 0x100_0000_0000,
    ;
}

/// Dividing both sides by a positive number keeps an order.
proof fn lemma_cancel(o: int, a: int, b: int)
    requires
        o > 0,
        o * a <= o * b,
    ensures
        a <= b,
{
    assert(a <= b) by (nonlinear_arith)
        requires
            o > 0,
            o * a <= o * b,
    ;
}

proof fn lemma_product_back(o: int, s: int, q: int, p: int)
    requires
        o > 0,
        s >= 0x1000_0000,
        q >= 0,
        0x10_0000 * q <= 0x10_0001 * (s * o),
        0xf_ffff * (s * o) <= 0x10_0000 * q,
        0x100_0000 * (o * p) <= 0x100_0001 * q + 0x80_0000 * o,
        0x100_0000 * q <= 0x100_0000 * (o * p) + q + 0x80_0000 * o,
    ensures
        0x8_0000 * p <= 0x8_0001 * s,
        0x7_ffff * s <= 0x8_0000 * p,
{
    let so = s * o;
    assert(so >= 0x1000_0000 * o) by (nonlinear_arith)
        requires
            so == s * o,
            s >= 0x1000_0000,
            o > 0,
    ;
    let op = o * p;
    assert(0x8_0000 * op <= 0x8_0001 * so);
    assert(0x7_ffff * so <= 0x8_0000 * op);
    assert(o * (0x8_0000 * p) == 0x8_0000 * op && o * (0x8_0001 * s) == 0x8_0001 * so && o * (
    0x7_ffff * s) == 0x7_ffff * so) by (nonlinear_arith)
        requires
            op == o * p,
            so == s * o,
    ;
    lemma_cancel(o, 0x8_0000 * p, 0x8_0001 * s);
    lemma_cancel(o, 0x7_ffff * s, 0x8_0000 * p);
}

proof fn lemma_ratio_back(o: int, s: int, p: int, r: int)
    requires
        o >= 0x1000_0000,
        p > 0,
        r >= 0,
        0x8_0000 * p <= 0x8_0001 * s,
        0x7_ffff * s <= 0x8_0000 * p,
        0x100_0000 * (p * r) <= 0x100_0001 * (s * o) + 0x80_0000 * p,
        0x100_0000 * (s * o) <= 0x100_0000 * (p * r) + s * o + 0x80_0000 * p,
    ensures
        0x4_0000 * r <= 0x4_0001 * o,
        0x3_ffff * o <= 0x4_0000 * r,
{
    let so = s * o;
    let po = p * o;
    let pr = p * r;
    assert(0x8_0000 * po <= 0x8_0001 * so && 0x7_ffff * so <= 0x8_0000 * po && po >= 0x1000_0000
        * p) by (nonlinear_arith)
        requires
            so == s * o,
            po == p * o,
            0x8_0000 * p <= 0x8_0001 * s,
            0x7_ffff * s <= 0x8_0000 * p,
            o >= 0x1000_0000,
            p > 0,
    ;
    assert(0x4_0000 * pr <= 0x4_0001 * po);
    assert(0x3_ffff * po <= 0x4_0000 * pr);
    assert(p * (0x4_0000 * r) == 0x4_0000 * pr && p * (0x4_0001 * o) == 0x4_0001 * po && p * (
    0x3_ffff * o) == 0x3_ffff * po) by (nonlinear_arith)
        requires
            pr == p * r,
            po == p * o,
    ;
    lemma_cancel(p, 0x4_0000 * r, 0x4_0001 * o);
    lemma_cancel(p, 0x3_ffff * o, 0x4_0000 * r);
}

/// The computed root of a number, squared, is that number up to a millionth.
pub proof fn roots_square_back(x: Float32)
    requires
        x.is_finite(),
        !x.is_negative(),
        pow2(60) <= x.abs_steps() <= 0x100_0000 * one(),
    ensures
        ({
            let r = x.spec_sqrt();
            let q = r.abs_steps() * r.abs_steps();
            &&& r.is_finite()
            &&& !r.is_negative()
            &&& r.abs_steps() > 0
            &&& 0x10_0000 * q <= 0x10_0001 * (x.abs_steps() * one())
            &&& 0xf_ffff * (x.abs_steps() * one()) <= 0x10_0000 * q
        }),
{
    let o = one();
    lemma_pow2_pos(149);
    lemma_pow2_pos(60);
    lemma_pow2_adds(60, 149);
    lemma_pow2_adds(80, 80);
    lemma_pow2_adds(40, 40);
    lemma2_to64_rest();
    let s = x.abs_steps();
    let n = s * o;
    assert(n >= pow2(60) * o && n <= (0x1_0000 * o) * (0x1_0000 * o)) by (nonlinear_arith)
        requires
            n == s * o,
            pow2(60) <= s <= 0x100_0000 * o,
            o > 0,
    ;
    let w = whole_root(n);
    let any = lemma_root_exists(n);
    assert(is_root(n, w));
    lemma_pow2_strictly_increases(160, 209);
    assert(w >= 0x100_0000_0000) by (nonlinear_arith)
        requires
            n < (w + 1) * (w + 1),
            n >= pow2(160),
            pow2(160) == pow2(80) * pow2(80),
            pow2(80) == pow2(40) * pow2(40),
            pow2(40) == 0x100_0000_0000,
    ;
    assert(w <= 0x1_0000 * o) by (nonlinear_arith)
        requires
            w * w <= n,
            n <= (0x1_0000 * o) * (0x1_0000 * o),
    ;
    let d = doubled_root(n);
    lemma_root_is_close(w, d);
    let r = x.spec_sqrt();
    assert(r == Float32::pack(false, round_magnitude(d, 2))) by {
        reveal(Float32::spec_sqrt);
    }
    lemma_square_bounds(w as int, r.abs_steps() as int, n as int);
}

/// An embedding is as similar to itself as can be: the similarity is one, up to what rounding
/// moves. Stated of embeddings whose length is neither tiny nor huge.
pub proof fn an_embedding_matches_itself(a: Seq<Float32>)
    requires
        ({
            let s = sum_of_squares(a, a.len() as int);
            s.is_finite() && !s.is_negative() && pow2(60) <= s.abs_steps() <= 0x100_0000 * one()
        }),
    ensures
        cosine(a, a).is_finite(),
        !cosine(a, a).is_negative(),
        0x4_0000 * cosine(a, a).abs_steps() <= 0x4_0001 * one(),
        0x3_ffff * one() <= 0x4_0000 * cosine(a, a).abs_steps(),
{
    let o = one();
    let n = a.len() as int;
    let sum = sum_of_squares(a, n);
    let s = sum.abs_steps();
    lemma_dot_of_one(a, n);
    lemma_pow2_pos(149);
    lemma_pow2_adds(30, 30);
    lemma_pow2_adds(60, 89);
    lemma_pow2_pos(89);
    lemma2_to64();
    lemma2_to64_rest();
    roots_square_back(sum);
    let r = norm(a);
    let q = r.abs_steps() * r.abs_steps();
    let so = s * o;
    assert(q <= o * (0x100_0000_0000 * o)) by (nonlinear_arith)
        requires
            0x10_0000 * q <= 0x10_0001 * so,
            so == s * o,
            s <= 0x100_0000 * o,
            o > 0,
    ;
    lemma_not_infinite(q, o);
    let p = r.spec_mul(r);
    assert(p == Float32::pack(false, round_magnitude(q, o))) by {
        reveal(Float32::spec_mul);
    }
    rounding_upper_bound(q, o);
    rounding_lower_bound(q, o);
    assert(o >= 0x1000_0000) by (nonlinear_arith)
        requires
            o == pow2(60) * pow2(89),
            pow2(60) == 0x4000_0000 * 0x4000_0000,
            pow2(89) > 0,
    ;
    lemma_product_back(o as int, s as int, q as int, p.abs_steps() as int);
    let d = p.abs_steps();
    assert(d > 0);
    let e = so;
    assert(e <= d * (0x100_0000_0000 * o)) by (nonlinear_arith)
        requires
            e == s * o,
            0x7_ffff * s <= 0x8_0000 * d,
            o > 0,
    ;
    lemma_not_infinite(e, d);
    let c = sum.spec_div(p);
    assert(c == Float32::pack(false, round_magnitude(e, d))) by {
        reveal(Float32::spec_div);
        assert(!p.is_zero());
    }
    rounding_upper_bound(e, d);
    rounding_lower_bound(e, d);
    lemma_ratio_back(o as int, s as int, d as int, c.abs_steps() as int);
}

/// A product with zero is zero.
proof fn lemma_zero_product(a: Float32, b: Float32)
    requires
        a.is_finite(),
        b.is_zero(),
    ensures
        a.spec_mul(b).is_finite(),
        a.spec_mul(b).signed_steps() == 0,
{
    reveal(Float32::spec_mul);
    lemma_pow2_pos(149);
    lemma_mul_basics(a.abs_steps() as int);
    lemma_mul_basics(one() as int);
    rounding_keeps_values(one(), 0);
}

/// What is zero adds nothing.
proof fn lemma_add_nothing(x: Float32, y: Float32)
    requires
        x.is_finite(),
        y.is_finite(),
        x.signed_steps() == 0 || y.signed_steps() == 0,
    ensures
        x.spec_add(y).is_finite(),
        x.spec_add(y).signed_steps() == x.signed_steps() + y.signed_steps(),
{
    reveal(Float32::spec_add);
    rounding_keeps_values(1, x.magnitude());
    rounding_keeps_values(1, y.magnitude());
    lemma_mul_basics(x.abs_steps() as int);
    lemma_mul_basics(y.abs_steps() as int);
}

/// The product of two vectors is made of the products at equal places: if one vector is zero
/// but for place `k`, only that place's product is left.
pub proof fn only_equal_places_are_multiplied(a: Seq<Float32>, b: Seq<Float32>, n: int, k: int)
    requires
        0 <= k < n <= a.len(),
        n <= b.len(),
        forall|i: int| 0 <= i < n ==> #[trigger] a[i].is_finite(),
        forall|i: int| 0 <= i < n && i != k ==> #[trigger] b[i].is_zero(),
        b[k].is_finite(),
        a[k].spec_mul(b[k]).is_finite(),
    ensures
        dot(a, b, n).is_finite(),
        dot(a, b, n).signed_steps() == a[k].spec_mul(b[k]).signed_steps(),
{
    lemma_single_product(a, b, n, k);
}

proof fn lemma_single_product(a: Seq<Float32>, b: Seq<Float32>, n: int, k: int)
    requires
        0 <= n <= a.len(),
        n <= b.len(),
        0 <= k,
        forall|i: int| 0 <= i < n ==> #[trigger] a[i].is_finite(),
        forall|i: int| 0 <= i < n && i != k ==> #[trigger] b[i].is_zero(),
        k < n ==> b[k].is_finite() && a[k].spec_mul(b[k]).is_finite(),
    ensures
        dot(a, b, n).is_finite(),
        dot(a, b, n).signed_steps() == if k < n {
            a[k].spec_mul(b[k]).signed_steps()
        } else {
            0
        },
    decreases n,
{
    if n > 0 {
        lemma_single_product(a, b, n - 1, k);
        if n - 1 != k {
            assert(a[n - 1].is_finite() && b[n - 1].is_zero());
            lemma_zero_product(a[n - 1], b[n - 1]);
        }
        lemma_add_nothing(dot(a, b, n - 1), a[n - 1].spec_mul(b[n - 1]));
    } else {
        assert((Float32 { bits: 0 }).signed_steps() == 0);
    }
}

/// Whether two numbers are opposite: equally far from zero, on opposite sides of it.
pub open spec fn opposite(x: Float32, y: Float32) -> bool {
    ||| x.is_nan() && y.is_nan()
    ||| !x.is_nan() && !y.is_nan() && x.rank() == -y.rank()
}

proof fn lemma_opposite_sum(x: Float32, y: Float32, p: Float32, q: Float32)
    requires
        opposite(x, y),
        opposite(p, q),
    ensures
        opposite(x.spec_add(p), y.spec_add(q)),
{
    reveal(Float32::spec_add);
    if x.is_finite() && p.is_finite() {
        assert(y.is_finite() && q.is_finite());
        assert(x.magnitude() == y.magnitude() && p.magnitude() == q.magnitude());
        assert(x.signed_steps() == -y.signed_steps());
        assert(p.signed_steps() == -q.signed_steps());
        lemma_pattern_bound(x.signed_steps() + p.signed_steps());
    }
}

/// Rounding gives a pattern that a sign fits beside.
proof fn lemma_pattern_bound(sum: int)
    ensures
        round_magnitude(
            (if sum < 0 {
                -sum
            } else {
                sum
            }) as nat,
            1,
        ) <= crate::float32::INFINITE,
{
}

proof fn lemma_opposite_product(a: Float32, b: Float32, c: Float32)
    requires
        c == b.spec_neg(),
    ensures
        opposite(a.spec_mul(b), a.spec_mul(c)),
{
    reveal(Float32::spec_mul);
}

proof fn lemma_opposite_dot(a: Seq<Float32>, b: Seq<Float32>, c: Seq<Float32>, n: int)
    requires
        0 <= n <= b.len(),
        b.len() == c.len(),
        forall|i: int| 0 <= i < b.len() ==> #[trigger] c[i] == b[i].spec_neg(),
    ensures
        opposite(dot(a, b, n), dot(a, c, n)),
    decreases n,
{
    if n > 0 {
        lemma_opposite_dot(a, b, c, n - 1);
        assert(c[n - 1] == b[n - 1].spec_neg());
        lemma_opposite_product(a[n - 1], b[n - 1], c[n - 1]);
        lemma_opposite_sum(
            dot(a, b, n - 1),
            dot(a, c, n - 1),
            a[n - 1].spec_mul(b[n - 1]),
            a[n - 1].spec_mul(c[n - 1]),
        );
    }
}

proof fn lemma_same_squares(b: Seq<Float32>, c: Seq<Float32>, n: int)
    requires
        0 <= n <= b.len(),
        b.len() == c.len(),
        forall|i: int| 0 <= i < b.len() ==> #[trigger] c[i] == b[i].spec_neg(),
    ensures
        sum_of_squares(b, n) == sum_of_squares(c, n),
    decreases n,
{
    if n > 0 {
        lemma_same_squares(b, c, n - 1);
        assert(c[n - 1] == b[n - 1].spec_neg());
        assert(b[n - 1].spec_mul(b[n - 1]) == c[n - 1].spec_mul(c[n - 1])) by {
            reveal(Float32::spec_mul);
        }
    }
}

/// Turning one embedding around turns the sign of the similarity around: two opposite embeddings
/// are as unlike as equal ones are alike.
pub proof fn opposite_embeddings_are_unlike(a: Seq<Float32>, b: Seq<Float32>, c: Seq<Float32>)
    requires
        b.len() == c.len(),
        forall|i: int| 0 <= i < b.len() ==> #[trigger] c[i] == b[i].spec_neg(),
    ensures
        opposite(cosine(a, b), cosine(a, c)),
{
    let n = if a.len() < b.len() {
        a.len() as int
    } else {
        b.len() as int
    };
    lemma_opposite_dot(a, b, c, n);
    lemma_same_squares(b, c, b.len() as int);
    assert(norm(c) == norm(b));
    lemma_opposite_quotient(dot(a, b, n), dot(a, c, n), norm(a).spec_mul(norm(b)));
}

#[verifier::spinoff_prover]
#[verifier::rlimit(40)]
proof fn lemma_opposite_quotient(x: Float32, y: Float32, d: Float32)
    requires
        opposite(x, y),
    ensures
        opposite(x.spec_div(d), y.spec_div(d)),
{
    reveal(Float32::spec_div);
    if x.is_nan() || d.is_nan() {
    } else if x.is_infinite() {
    } else if d.is_infinite() || d.is_zero() {
        assert(x.magnitude() == y.magnitude());
    } else {
        assert(x.magnitude() == y.magnitude());
        let n = x.abs_steps() * one();
        let m = round_magnitude(n, d.abs_steps());
        assert(m <= crate::float32::INFINITE);
        if x.magnitude() == 0 {
            crate::float32::lemma_steps_increase(0, d.magnitude());
            lemma_mul_basics(one() as int);
            lemma_mul_basics(d.abs_steps() as int);
            rounding_keeps_values(d.abs_steps(), 0);
            assert(m == 0);
        } else {
            assert(x.is_negative() != y.is_negative());
        }
    }
}

/// An embedding is the network's output, scaled: each of its numbers, times the output's length,
/// is the output's number, up to rounding.
pub proof fn embeddings_are_scaled_outputs(output: Seq<Float32>, i: int)
    requires
        0 <= i < output.len(),
        output[i].is_finite(),
        norm(output).is_finite(),
        !norm(output).is_negative(),
        norm(output).abs_steps() > 0,
        output[i].abs_steps() * one() <= norm(output).abs_steps() * (0x100_0000_0000 * one()),
    ensures
        unit_vector(output).len() == output.len(),
        unit_vector(output)[i].is_finite(),
        unit_vector(output)[i].is_negative() == output[i].is_negative(),
        0x100_0000 * distance(
            norm(output).signed_steps() * unit_vector(output)[i].signed_steps(),
            output[i].signed_steps() * one(),
        ) <= output[i].abs_steps() * one() + 0x80_0000 * norm(output).signed_steps(),
{
    if norm(output).is_zero() {
        assert(norm(output).abs_steps() == 0);
    }
    crate::pixel_laws::lemma_signed_quotient(output[i], norm(output));
}

/// The exact product of the first `n` pairs, in steps squared.
pub open spec fn exact_dot(a: Seq<Float32>, b: Seq<Float32>, n: int) -> int
    decreases n,
{
    if n <= 0 {
        0
    } else {
        exact_dot(a, b, n - 1) + a[n - 1].signed_steps() * b[n - 1].signed_steps()
    }
}

/// The sizes of the first `n` products, added up.
pub open spec fn weight(a: Seq<Float32>, b: Seq<Float32>, n: int) -> int
    decreases n,
{
    if n <= 0 {
        0
    } else {
        weight(a, b, n - 1) + a[n - 1].abs_steps() * b[n - 1].abs_steps()
    }
}

/// No number of a vector is larger than 256.
pub open spec fn bounded(a: Seq<Float32>) -> bool {
    forall|i: int|
        0 <= i < a.len() ==> (#[trigger] a[i]).is_finite() && a[i].abs_steps() <= 256 * one()
}

/// The product of two vectors is the sum of all products at equal places, up to rounding: with
/// each addition, what is computed is off by at most a four-millionth of what was added up.
#[verifier::spinoff_prover]
#[verifier::rlimit(40)]
pub proof fn products_add_up(a: Seq<Float32>, b: Seq<Float32>, n: int)
    requires
        0 <= n <= 0x10_0000,
        n <= a.len(),
        n <= b.len(),
        bounded(a),
        bounded(b),
    ensures
        dot(a, b, n).is_finite(),
        0x100_0000 * distance(one() * dot(a, b, n).signed_steps(), exact_dot(a, b, n)) <= 4 * n
            * weight(a, b, n) + 0x200_0000 * (n * one()),
        -weight(a, b, n) <= exact_dot(a, b, n) <= weight(a, b, n),
        0 <= weight(a, b, n) <= n * (0x1_0000 * (one() * one())),
    decreases n,
{
    let o = one() as int;
    let oo = o * o;
    lemma_pow2_pos(149);
    if n == 0 {
        assert((Float32 { bits: 0 }).signed_steps() == 0);
        lemma_mul_basics(o);
        lemma_mul_basics(0x1_0000 * oo);
    } else {
        products_add_up(a, b, n - 1);
        let (x, y) = (a[n - 1], b[n - 1]);
        assert(x.is_finite() && y.is_finite());
        let (ax, ay) = (x.abs_steps() as int, y.abs_steps() as int);
        let p = ax * ay;
        assert(0 <= p <= 0x1_0000 * oo && p <= o * (0x100_0000_0000 * o)) by (nonlinear_arith)
            requires
                0 <= ax <= 256 * o,
                0 <= ay <= 256 * o,
                p == ax * ay,
                oo == o * o,
        ;
        crate::decode_laws::lemma_signed_product(x, y);
        let e = x.signed_steps() * y.signed_steps();
        assert(e == p || e == -p) by (nonlinear_arith)
            requires
                e == x.signed_steps() * y.signed_steps(),
                p == ax * ay,
                x.signed_steps() == ax || x.signed_steps() == -ax,
                y.signed_steps() == ay || y.signed_steps() == -ay,
        ;
        let before = dot(a, b, n - 1);
        let q = x.spec_mul(y);
        let (d, qs) = (before.signed_steps(), q.signed_steps());
        let w = weight(a, b, n - 1);
        let ex = exact_dot(a, b, n - 1);
        assert(n * (0x1_0000 * oo) == (n - 1) * (0x1_0000 * oo) + 0x1_0000 * oo)
            by (nonlinear_arith);
        lemma_sum_is_small(d, qs, ex, e, w, p, n, o, oo);
        crate::float_laws::sums_are_close(before, q);
        lemma_error_grows(d, qs, dot(a, b, n).signed_steps(), ex, e, w, p, n, o);
    }
}

proof fn lemma_sum_is_small(
    d: int,
    q: int,
    ex: int,
    e: int,
    w: int,
    p: int,
    n: int,
    o: int,
    oo: int,
)
    requires
        o > 0,
        oo == o * o,
        1 <= n <= 0x10_0000,
        0 <= w <= (n - 1) * (0x1_0000 * oo),
        0 <= p <= 0x1_0000 * oo,
        -w <= ex <= w,
        e == p || e == -p,
        0x100_0000 * distance(o * d, ex) <= 4 * (n - 1) * w + 0x200_0000 * ((n - 1) * o),
        0x100_0000 * distance(o * q, e) <= p + 0x80_0000 * o,
    ensures
        -0x100_0000_0000 * o <= d + q <= 0x100_0000_0000 * o,
{
    assert(w <= 0x10_0000_0000 * oo) by (nonlinear_arith)
        requires
            w <= (n - 1) * (0x1_0000 * oo),
            n <= 0x10_0000,
            oo >= 0,
    ;
    assert(4 * (n - 1) * w <= 0x40_0000 * w) by (nonlinear_arith)
        requires
            n - 1 <= 0x10_0000,
            w >= 0,
    ;
    assert((n - 1) * o <= 0x10_0000 * o) by (nonlinear_arith)
        requires
            n - 1 <= 0x10_0000,
            o > 0,
    ;
    assert(o <= oo) by (nonlinear_arith)
        requires
            oo == o * o,
            o >= 1,
    ;
    let s = d + q;
    assert(o * s == o * d + o * q) by (nonlinear_arith)
        requires
            s == d + q,
    ;
    assert(distance(o * s, 0) <= 0x40_0000_0000 * oo);
    assert(-0x100_0000_0000 * o <= s <= 0x100_0000_0000 * o) by (nonlinear_arith)
        requires
            distance(o * s, 0) <= 0x40_0000_0000 * oo,
            oo == o * o,
            o > 0,
    ;
}

#[verifier::spinoff_prover]
#[verifier::rlimit(40)]
proof fn lemma_error_grows(
    d: int,
    q: int,
    r: int,
    ex: int,
    e: int,
    w: int,
    p: int,
    n: int,
    o: int,
)
    requires
        o > 0,
        1 <= n <= 0x10_0000,
        0 <= w,
        0 <= p,
        -w <= ex <= w,
        e == p || e == -p,
        0x100_0000 * distance(o * d, ex) <= 4 * (n - 1) * w + 0x200_0000 * ((n - 1) * o),
        0x100_0000 * distance(o * q, e) <= p + 0x80_0000 * o,
        0x100_0000 * distance(r, d + q) <= distance(d + q, 0) + 0x80_0000,
    ensures
        0x100_0000 * distance(o * r, ex + e) <= 4 * n * (w + p) + 0x200_0000 * (n * o),
{
    let (od, oq, or) = (o * d, o * q, o * r);
    assert(0x100_0000 * distance(or, od + oq) <= distance(od + oq, 0) + 0x80_0000 * o)
        by (nonlinear_arith)
        requires
            0x100_0000 * distance(r, d + q) <= distance(d + q, 0) + 0x80_0000,
            od == o * d,
            oq == o * q,
            or == o * r,
            o > 0,
    ;
    let no = n * o;
    assert((n - 1) * o == no - o && no <= 0x10_0000 * o && no >= o) by (nonlinear_arith)
        requires
            no == n * o,
            1 <= n <= 0x10_0000,
            o > 0,
    ;
    let nw = n * w;
    assert(4 * (n - 1) * w == 4 * nw - 4 * w && nw <= 0x10_0000 * w) by (nonlinear_arith)
        requires
            nw == n * w,
            n <= 0x10_0000,
            w >= 0,
    ;
    let np = n * p;
    assert(4 * n * (w + p) == 4 * nw + 4 * np && np >= p) by (nonlinear_arith)
        requires
            nw == n * w,
            np == n * p,
            n >= 1,
            p >= 0,
    ;
}

/// The squares of a vector add up like its product with itself.
pub proof fn squares_are_products(a: Seq<Float32>, n: int)
    ensures
        sum_of_squares(a, n) == dot(a, a, n),
    decreases n,
{
    if n > 0 {
        squares_are_products(a, n - 1);
    }
}

/// The similarity times both lengths is the product of the two embeddings, up to rounding.
pub proof fn similarity_is_the_product_over_the_lengths(a: Seq<Float32>, b: Seq<Float32>)
    requires
        a.len() == b.len(),
        ({
            let lengths = norm(a).spec_mul(norm(b));
            let product = dot(a, b, a.len() as int);
            &&& lengths.is_finite()
            &&& !lengths.is_negative()
            &&& lengths.abs_steps() > 0
            &&& product.is_finite()
            &&& product.abs_steps() * one() <= lengths.abs_steps() * (0x100_0000_0000 * one())
        }),
    ensures
        ({
            let lengths = norm(a).spec_mul(norm(b)).signed_steps();
            let product = dot(a, b, a.len() as int);
            &&& cosine(a, b).is_finite()
            &&& 0x100_0000 * distance(
                lengths * cosine(a, b).signed_steps(),
                product.signed_steps() * one(),
            ) <= product.abs_steps() * one() + 0x80_0000 * lengths
        }),
{
    let lengths = norm(a).spec_mul(norm(b));
    if lengths.is_zero() {
        assert(lengths.abs_steps() == 0);
    }
    crate::pixel_laws::lemma_signed_quotient(dot(a, b, a.len() as int), lengths);
}

} // verus!
