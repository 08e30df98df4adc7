//! What the brightness statistics say of the samples of a frame.
use crate::decode_laws::lemma_signed_product;
use crate::float32::{one, round_magnitude, steps, Float32};
use crate::float_laws::{
    differences_are_close, distance, lemma_not_infinite, lemma_one_is_large,
    order_is_that_of_values, rounding_keeps_sides, rounding_lower_bound, rounding_upper_bound,
    small_integers_are_exact, within,
};
use crate::rounding::{excess_bits, lemma_excess_bits_bounds, rounded};
use crate::statistics::{
    mean_of, sample_sum, shows_content, square_sum, variance_of, CONTENT_VARIANCE_THRESHOLD_BITS,
};
use vstd::arithmetic::div_mod::*;
use vstd::arithmetic::mul::*;
use vstd::arithmetic::power2::*;
use vstd::prelude::*;

verus! {

/// How far a quotient rounded to 53 bits is off.
proof fn lemma_rounded_is_close(n: nat, d: nat)
    requires
        d > 0,
    ensures
        ({
            let (k, e) = rounded(53, n, d);
            0x20_0000_0000_0000 * distance(((k * pow2(e)) * d) as int, n as int) <= n
                + 0x10_0000_0000_0000 * d
        }),
{
    let q = n / d;
    let e = excess_bits(53, q);
    let (k, e2) = rounded(53, n, d);
    lemma_excess_bits_bounds(53, q);
    lemma_pow2_pos(e);
    let u = d * pow2(e);
    assert(u > 0) by (nonlinear_arith)
        requires
            u == d * pow2(e),
            d > 0,
            pow2(e) > 0,
    ;
    lemma_fundamental_div_mod(n as int, u as int);
    lemma_mod_bound(n as int, u as int);
    let f = n / u;
    assert((f + 1) * u == u * f + u && f * u == u * f) by (nonlinear_arith);
    assert(2 * distance((k * u) as int, n as int) <= u);
    assert((k * pow2(e)) * d == k * u) by (nonlinear_arith)
        requires
            u == d * pow2(e),
    ;
    if e > 0 {
        lemma_pow2_adds(52, e);
        lemma2_to64();
        lemma2_to64_rest();
        assert(pow2(52) == 0x10_0000_0000_0000);
        lemma_fundamental_div_mod(n as int, d as int);
        lemma_mod_bound(n as int, d as int);
        assert(0x10_0000_0000_0000 * u <= n) by (nonlinear_arith)
            requires
                u == d * pow2(e),
                0x10_0000_0000_0000 * pow2(e) <= q,
                n >= d * q,
        ;
    } else {
        lemma2_to64();
        lemma_mul_basics(d as int);
    }
}

proof fn lemma_sum_bound(data: Seq<u16>, n: int)
    requires
        0 <= n,
    ensures
        sample_sum(data, n) <= 65535 * n,
    decreases n,
{
    if n > 0 {
        lemma_sum_bound(data, n - 1);
    }
}

/// The computed mean is the mean: multiplied by the number of samples it gives their sum, up to
/// a 128th for each sample.
pub proof fn means_are_close(data: Seq<u16>)
    requires
        data.len() > 0,
    ensures
        within(mean_of(data), 0x1_0000 * one()),
        128 * distance(
            data.len() * mean_of(data).signed_steps(),
            (sample_sum(data, data.len() as int) * one()) as int,
        ) <= data.len() * one(),
{
    let o = one() as int;
    let len = data.len() as int;
    let sum = sample_sum(data, len) as int;
    lemma_one_is_large();
    lemma_sum_bound(data, len);
    let (k, e) = rounded(53, (sum * o) as nat, len as nat);
    lemma_rounded_is_close((sum * o) as nat, len as nat);
    let v = (k * pow2(e)) as int;
    let t = sum * o;
    let lo = len * o;
    let lv = v * len;
    assert(0 <= t <= 65535 * lo && lo >= 0x1_0000_0000_0000 * len) by (nonlinear_arith)
        requires
            t == sum * o,
            lo == len * o,
            0 <= sum <= 65535 * len,
            o >= 0x1_0000_0000_0000,
    ;
    assert(v >= 0) by {
        lemma_pow2_pos(e);
        lemma_mul_nonnegative(k as int, pow2(e) as int);
    }
    assert(1000 * lv <= 65535_001 * lo);
    assert(1000 * v <= 65535_001 * o) by (nonlinear_arith)
        requires
            1000 * lv <= 65535_001 * lo,
            lv == v * len,
            lo == len * o,
            len > 0,
    ;
    lemma_mul_basics(v);
    lemma_mul_basics(0x100_0000_0000 * o);
    lemma_not_infinite(v as nat, 1);
    rounding_upper_bound(v as nat, 1);
    rounding_lower_bound(v as nat, 1);
    let m = mean_of(data).signed_steps();
    assert(mean_of(data) == Float32::pack(false, round_magnitude(v as nat, 1)));
    lemma_mul_basics(m);
    assert(0x100_0000 * distance(m, v) <= v + 0x80_0000);
    let lm = len * m;
    assert(0x100_0000 * distance(lm, lv) <= lv + 0x80_0000 * len) by (nonlinear_arith)
        requires
            0x100_0000 * distance(m, v) <= v + 0x80_0000,
            lm == len * m,
            lv == v * len,
            len > 0,
    ;
}

/// The sum of the squares of the first `n` samples.
pub open spec fn sample_squares(data: Seq<u16>, n: int) -> int
    decreases n,
{
    if n <= 0 {
        0
    } else {
        sample_squares(data, n - 1) + data[n - 1] * data[n - 1]
    }
}

/// The variance of the first `n` samples, times `n` squared.
pub open spec fn spread(data: Seq<u16>, n: int) -> int {
    n * sample_squares(data, n) - sample_sum(data, n) * sample_sum(data, n)
}

/// The squared distance of sample `i` from the mean as it is computed, in steps.
spec fn term(data: Seq<u16>, mean: Float32, i: int) -> Float32 {
    let d = Float32::spec_from_u64(data[i] as u64).spec_sub(mean);
    d.spec_mul(d)
}

/// The computed terms, added up exactly.
spec fn term_sum(data: Seq<u16>, mean: Float32, n: int) -> int
    decreases n,
{
    if n <= 0 {
        0
    } else {
        term_sum(data, mean, n - 1) + term(data, mean, n - 1).signed_steps()
    }
}

/// The exact squared distances from the computed mean, added up.
spec fn exact_sum(data: Seq<u16>, m: int, n: int) -> int
    decreases n,
{
    if n <= 0 {
        0
    } else {
        exact_sum(data, m, n - 1) + (data[n - 1] * one() - m) * (data[n - 1] * one() - m)
    }
}

/// A computed term is close to the exact one.
#[verifier::spinoff_prover]
#[verifier::rlimit(40)]
proof fn lemma_term(data: Seq<u16>, mean: Float32, i: int)
    requires
        within(mean, 0x1_0000 * one()),
    ensures
        within(term(data, mean, i), 0x8_0000_0000 * one()),
        ({
            let e = data[i] * one() - mean.signed_steps();
            0x10_0000 * distance(one() * term(data, mean, i).signed_steps(), e * e) <= e * e
                + one() * one()
        }),
{
    let o = one() as int;
    lemma_one_is_large();
    let f = Float32::spec_from_u64(data[i] as u64);
    small_integers_are_exact(data[i] as u64);
    let m = mean.signed_steps();
    let e = data[i] * o - m;
    assert(0 <= data[i] * o <= 0x1_0000 * o) by (nonlinear_arith)
        requires
            0 <= data[i] <= 0x1_0000,
            o > 0,
    ;
    differences_are_close(f, mean);
    let d = f.spec_sub(mean);
    let s = d.signed_steps();
    let a = d.abs_steps() as int;
    assert(a <= 0x1_0001 * o);
    assert(a * a <= o * (0x100_0000_0000 * o) && a * a <= 0x1_0003_0000 * (o * o))
        by (nonlinear_arith)
        requires
            0 <= a <= 0x1_0001 * o,
    ;
    lemma_signed_product(d, d);
    let p = d.spec_mul(d);
    assert(!p.is_negative()) by {
        reveal(Float32::spec_mul);
    }
    let ps = p.signed_steps();
    let ss = s * s;
    assert(ss == a * a) by (nonlinear_arith)
        requires
            ss == s * s,
            s == a || s == -a,
    ;
    let ee = e * e;
    let oo = o * o;
    assert(oo >= 0x1_0000_0000_0000 * o) by (nonlinear_arith)
        requires
            oo == o * o,
            o >= 0x1_0000_0000_0000,
    ;
    lemma_square_error(s, e, o);
    assert(0x100_0000 * distance(o * ps, ss) <= ss + 0x80_0000 * o);
    assert(o * ps <= 0x2_0000_0000 * oo);
    assert(ps <= 0x8_0000_0000 * o) by (nonlinear_arith)
        requires
            o * ps <= 0x2_0000_0000 * oo,
            oo == o * o,
            o > 0,
    ;
}

proof fn lemma_square_error(s: int, e: int, o: int)
    requires
        o >= 0x1_0000_0000_0000,
        -0x1_0000 * o <= e <= 0x1_0000 * o,
        0x100_0000 * distance(s, e) <= distance(e, 0) + 0x80_0000,
    ensures
        0x40_0000 * distance(s * s, e * e) <= e * e + o * o,
{
    let x = s - e;
    let ee = e * e;
    let oo = o * o;
    let ax = distance(x, 0);
    let ae = distance(e, 0);
    assert(distance(s * s, ee) <= 2 * (ae * ax) + ax * ax) by (nonlinear_arith)
        requires
            x == s - e,
            ee == e * e,
            ax == distance(x, 0),
            ae == distance(e, 0),
    ;
    assert(ae * ae == ee) by (nonlinear_arith)
        requires
            ee == e * e,
            ae == distance(e, 0),
    ;
    assert(0x100_0000 * (ae * ax) <= ee + 0x80_0000 * ae) by (nonlinear_arith)
        requires
            0x100_0000 * ax <= ae + 0x80_0000,
            ae >= 0,
            ee == ae * ae,
    ;
    assert(0x100_0000 * (ax * ax) <= ae * ax + 0x80_0000 * ax) by (nonlinear_arith)
        requires
            0x100_0000 * ax <= ae + 0x80_0000,
            ax >= 0,
    ;
    assert(oo >= 0x1_0000_0000_0000 * o) by (nonlinear_arith)
        requires
            oo == o * o,
            o >= 0x1_0000_0000_0000,
    ;
}

proof fn lemma_square_of_difference(v: int, o: int, m: int)
    ensures
        (v * o - m) * (v * o - m) == (o * o) * (v * v) - 2 * (m * o) * v + m * m,
{
    let x = v * o;
    assert((x - m) * (x - m) == x * x - 2 * (m * x) + m * m) by (nonlinear_arith);
    assert(x * x == (o * o) * (v * v)) by (nonlinear_arith)
        requires
            x == v * o,
    ;
    assert(2 * (m * x) == 2 * (m * o) * v) by (nonlinear_arith)
        requires
            x == v * o,
    ;
}

/// The exact terms, expanded.
proof fn lemma_exact_sum(data: Seq<u16>, m: int, n: int)
    requires
        0 <= n,
    ensures
        exact_sum(data, m, n) == (one() * one()) * sample_squares(data, n) - 2 * (m * one())
            * sample_sum(data, n) + n * (m * m),
        exact_sum(data, m, n) >= 0,
    decreases n,
{
    let o = one() as int;
    if n <= 0 {
        assert((o * o) * 0 == 0 && 2 * (m * o) * 0 == 0 && 0 * (m * m) == 0) by (nonlinear_arith);
    } else {
        lemma_exact_sum(data, m, n - 1);
        let v = data[n - 1] as int;
        let q = sample_squares(data, n - 1);
        let s = sample_sum(data, n - 1) as int;
        assert((v * o - m) * (v * o - m) >= 0) by (nonlinear_arith);
        let (oo, mo, mm) = (o * o, m * o, m * m);
        lemma_square_of_difference(v, o, m);
        assert(oo * (q + v * v) == oo * q + oo * (v * v)) by (nonlinear_arith);
        assert(2 * mo * (s + v) == 2 * mo * s + 2 * mo * v) by (nonlinear_arith);
        assert(n * mm == (n - 1) * mm + mm) by (nonlinear_arith);
    }
}

/// Terms and exact terms, added up.
proof fn lemma_term_sum(data: Seq<u16>, mean: Float32, n: int)
    requires
        0 <= n,
        within(mean, 0x1_0000 * one()),
    ensures
        0 <= term_sum(data, mean, n) <= n * (0x8_0000_0000 * one()),
        0x10_0000 * distance(
            one() * term_sum(data, mean, n),
            exact_sum(data, mean.signed_steps(), n),
        ) <= exact_sum(data, mean.signed_steps(), n) + n * (one() * one()),
    decreases n,
{
    let o = one() as int;
    let m = mean.signed_steps();
    if n <= 0 {
        lemma_mul_basics(o);
        lemma_mul_basics(o * o);
        lemma_mul_basics(0x8_0000_0000 * o);
    } else {
        lemma_term_sum(data, mean, n - 1);
        lemma_term(data, mean, n - 1);
        let t = term_sum(data, mean, n - 1);
        let s = term(data, mean, n - 1).signed_steps();
        assert(o * (t + s) == o * t + o * s) by (nonlinear_arith);
        assert(n * (o * o) == (n - 1) * (o * o) + o * o) by (nonlinear_arith);
        assert(n * (0x8_0000_0000 * o) == (n - 1) * (0x8_0000_0000 * o) + 0x8_0000_0000 * o)
            by (nonlinear_arith);
    }
}

/// The computed sum of the terms against the exact one: every addition loses or gains at most
/// its 2^24-th part.
proof fn lemma_square_sum(data: Seq<u16>, mean: Float32, n: int)
    requires
        0 <= n <= 0x80_0000,
        within(mean, 0x1_0000 * one()),
    ensures
        ({
            let t = square_sum(data, mean, n);
            let a = term_sum(data, mean, n);
            &&& !t.is_negative()
            &&& t.is_finite()
            &&& t.signed_steps() * (0x100_0000 - n) <= (a + n) * 0x100_0000
            &&& a * (0x100_0000 - n) <= (t.signed_steps() + n) * 0x100_0000
        }),
    decreases n,
{
    let o = one() as int;
    lemma_one_is_large();
    if n <= 0 {
        assert(square_sum(data, mean, n).signed_steps() == 0);
        lemma_mul_basics(0x100_0000);
    } else {
        lemma_square_sum(data, mean, n - 1);
        lemma_term(data, mean, n - 1);
        lemma_term_sum(data, mean, n - 1);
        let t = square_sum(data, mean, n - 1);
        let x = term(data, mean, n - 1);
        let a = term_sum(data, mean, n - 1);
        let ts = t.signed_steps();
        let xs = x.signed_steps();
        assert(ts <= 0x2_0000_0000_0000_0000 * o && n * (0x8_0000_0000 * o) <= 0x8000_0000_0000_0000
            * o) by (nonlinear_arith)
            requires
                ts * (0x100_0000 - (n - 1)) <= (a + n - 1) * 0x100_0000,
                0 <= a <= (n - 1) * (0x8_0000_0000 * o),
                1 <= n <= 0x80_0000,
                o >= 0x1_0000_0000_0000,
                ts >= 0,
        ;
        lemma_wide_sum(t, x);
        lemma_sum_step(ts, xs, a, square_sum(data, mean, n).signed_steps(), n);
    }
}

proof fn lemma_sum_step(t: int, x: int, a: int, r: int, n: int)
    requires
        1 <= n <= 0x80_0000,
        t >= 0,
        x >= 0,
        a >= 0,
        r >= 0,
        t * (0x100_0000 - (n - 1)) <= (a + n - 1) * 0x100_0000,
        a * (0x100_0000 - (n - 1)) <= (t + n - 1) * 0x100_0000,
        0x100_0000 * distance(r, t + x) <= t + x + 0x80_0000,
    ensures
        r * (0x100_0000 - n) <= (a + x + n) * 0x100_0000,
        (a + x) * (0x100_0000 - n) <= (r + n) * 0x100_0000,
{
    let k = 0x100_0000int;
    let w = k - n;
    let s = t + x;
    // (k + 1) (k - n) <= k (k - n + 1)
    assert((k + 1) * w <= k * (w + 1)) by (nonlinear_arith)
        requires
            w == k - n,
            n >= 1,
    ;
    assert(k * (r * w) <= s * (k * (w + 1)) + 0x80_0000 * w) by (nonlinear_arith)
        requires
            k * r <= (k + 1) * s + 0x80_0000,
            (k + 1) * w <= k * (w + 1),
            w >= 0,
            s >= 0,
    ;
    assert(s * (w + 1) == t * (k - (n - 1)) + x * (w + 1)) by (nonlinear_arith)
        requires
            s == t + x,
            w == k - n,
    ;
    assert(x * (w + 1) <= x * k) by (nonlinear_arith)
        requires
            w + 1 <= k,
            x >= 0,
    ;
    assert(s * (k * (w + 1)) == k * (s * (w + 1))) by (nonlinear_arith);
    assert(r * w <= (a + x + n) * k) by (nonlinear_arith)
        requires
            k * (r * w) <= k * (s * (w + 1)) + 0x80_0000 * w,
            s * (w + 1) <= (a + n - 1) * k + x * k,
            0 <= w <= k,
            k == 0x100_0000,
    ;
    // k (k - n) <= (k - n + 1) (k - 1)
    let b = a + x;
    assert(k * w <= (w + 1) * (k - 1)) by (nonlinear_arith)
        requires
            w == k - n,
            n >= 1,
    ;
    assert(b * (w + 1) <= (s + n - 1) * k) by (nonlinear_arith)
        requires
            a * (k - (n - 1)) <= (t + n - 1) * k,
            x * (w + 1) <= x * k,
            w == k - n,
            b == a + x,
            s == t + x,
    ;
    assert(b * (k * w) <= ((s + n - 1) * k) * (k - 1)) by (nonlinear_arith)
        requires
            b >= 0,
            k * w <= (w + 1) * (k - 1),
            b * (w + 1) <= (s + n - 1) * k,
            k == 0x100_0000,
    ;
    assert(b * (k * w) == k * (b * w)) by (nonlinear_arith);
    assert(((s + n - 1) * k) * (k - 1) == k * ((s + n - 1) * (k - 1))) by (nonlinear_arith);
    assert(b * w <= (s + n - 1) * (k - 1)) by (nonlinear_arith)
        requires
            k * (b * w) <= k * ((s + n - 1) * (k - 1)),
            k == 0x100_0000,
    ;
    assert(s * (k - 1) <= k * r + 0x80_0000);
    assert((s + n - 1) * (k - 1) <= s * (k - 1) + (n - 1) * k) by (nonlinear_arith)
        requires
            n >= 1,
            k == 0x100_0000,
    ;
}

/// A sum of two numbers that are not negative is off by at most its 2^24-th part.
proof fn lemma_wide_sum(a: Float32, b: Float32)
    requires
        !a.is_negative(),
        !b.is_negative(),
        a.is_finite(),
        b.is_finite(),
        a.abs_steps() <= 0x2_0000_0000_0000_0000 * one(),
        b.abs_steps() <= 0x2_0000_0000_0000_0000 * one(),
    ensures
        !a.spec_add(b).is_negative(),
        a.spec_add(b).is_finite(),
        0x100_0000 * distance(
            a.spec_add(b).signed_steps(),
            a.signed_steps() + b.signed_steps(),
        ) <= a.signed_steps() + b.signed_steps() + 0x80_0000,
{
    let n = a.abs_steps() + b.abs_steps();
    lemma_mul_basics(n as int);
    rounding_upper_bound(n, 1);
    lemma_pow2_adds(20, 180);
    lemma_pow2_adds(50, 150);
    lemma_pow2_adds(31, 149);
    lemma_pow2_adds(32, 149);
    lemma_pow2_adds(51, 149);
    lemma2_to64();
    lemma2_to64_rest();
    lemma_pow2_pos(149);
    rounding_keeps_sides(n, 1, 0x1_0000, 200);
    assert((0x1_0000 * pow2(200)) * 1 == 0x1_0000 * (0x8_0000_0000_0000 * one()));
    rounding_lower_bound(n, 1);
    let r = a.spec_add(b);
    assert(r == Float32::pack(false, round_magnitude(n, 1))) by {
        reveal(Float32::spec_add);
        crate::float_laws::rounding_keeps_values(1, 0);
    }
    lemma_mul_basics(steps(round_magnitude(n, 1)) as int);
}

/// The threshold, in steps.
proof fn lemma_threshold()
    ensures
        (Float32 { bits: CONTENT_VARIANCE_THRESHOLD_BITS }).is_finite(),
        (Float32 { bits: CONTENT_VARIANCE_THRESHOLD_BITS }).signed_steps() == 100000 * one(),
{
    let f = Float32 { bits: CONTENT_VARIANCE_THRESHOLD_BITS };
    lemma_pow2_adds(7, 142);
    lemma2_to64();
    assert(f.magnitude() == 0x47c3_5000);
    assert(steps(0x47c3_5000) == 0xc3_5000 * pow2(142));
    assert(0xc3_5000 * pow2(142) == 100000 * (0x80 * pow2(142))) by (nonlinear_arith);
}

/// What the computed sum says of the frame.
#[verifier::spinoff_prover]
#[verifier::rlimit(40)]
proof fn lemma_verdict(data: Seq<u16>)
    requires
        0 < data.len() <= 0x80_0000,
    ensures
        ({
            let t = square_sum(data, mean_of(data), data.len() as int).signed_steps();
            &&& t <= (100000 * one()) * data.len() ==> !shows_content(data)
            &&& t >= (100001 * one()) * data.len() ==> shows_content(data)
        }),
{
    let o = one();
    let n = data.len();
    let mean = mean_of(data);
    lemma_one_is_large();
    means_are_close(data);
    lemma_square_sum(data, mean, n as int);
    lemma_term_sum(data, mean, n as int);
    lemma_threshold();
    let f = square_sum(data, mean, n as int);
    let t = f.abs_steps();
    let a = term_sum(data, mean, n as int);
    assert(t <= 0x8000_0000_0000_0000 * o) by (nonlinear_arith)
        requires
            t * (0x100_0000 - n) <= (a + n) * 0x100_0000,
            0 <= a <= n * (0x8_0000_0000 * o),
            0 < n <= 0x80_0000,
            o >= 0x1_0000_0000_0000,
    ;
    small_integers_are_exact(n as u64);
    let len = Float32::spec_from_u64(n as u64);
    let d = n * o;
    assert(d > 0 && len.abs_steps() == d) by (nonlinear_arith)
        requires
            d == n * o,
            n > 0,
            o > 0,
            len.abs_steps() == n * o,
    ;
    if len.is_zero() {
        assert(len.abs_steps() == 0);
    }
    let x = t * o;
    let w = f.spec_div(len);
    assert(w == Float32::pack(false, round_magnitude(x, d))) by {
        reveal(Float32::spec_div);
    }
    lemma_pow2_adds(51, 149);
    lemma2_to64_rest();
    assert(x <= (0x1_0000 * pow2(200)) * d) by (nonlinear_arith)
        requires
            x == t * o,
            d == n * o,
            n >= 1,
            t <= 0x8000_0000_0000_0000 * o,
            pow2(200) == 0x8_0000_0000_0000 * o,
    ;
    rounding_keeps_sides(x, d, 0x1_0000, 200);
    let threshold = Float32 { bits: CONTENT_VARIANCE_THRESHOLD_BITS };
    order_is_that_of_values(threshold, w);
    if t <= (100000 * o) * n {
        assert(x <= (100000 * pow2(149)) * d) by (nonlinear_arith)
            requires
                x == t * o,
                d == n * o,
                t <= (100000 * o) * n,
                o == pow2(149),
        ;
        rounding_keeps_sides(x, d, 100000, 149);
    }
    if t >= (100001 * o) * n {
        assert((100001 * pow2(149)) * d <= x) by (nonlinear_arith)
            requires
                x == t * o,
                d == n * o,
                t >= (100001 * o) * n,
                o == pow2(149),
        ;
        rounding_keeps_sides(x, d, 100001, 149);
    }
}

/// The terms and the exact spread of the samples.
#[verifier::spinoff_prover]
#[verifier::rlimit(40)]
proof fn lemma_terms_and_spread(data: Seq<u16>)
    requires
        data.len() > 0,
    ensures
        ({
            let n = data.len();
            let a = term_sum(data, mean_of(data), n as int);
            let x = spread(data, n as int);
            &&& a >= 0
            &&& x >= 0
            &&& 0x10_0000 * (n * a) <= one() * (0x10_0001 * x + 0x80 * (n * n))
            &&& one() * (0xf_ffff * x) <= 0x10_0000 * (n * a) + one() * (n * n)
        }),
{
    let o = one() as int;
    let n = data.len() as int;
    let mean = mean_of(data);
    let m = mean.signed_steps();
    lemma_one_is_large();
    means_are_close(data);
    lemma_term_sum(data, mean, n);
    lemma_exact_sum(data, m, n);
    let a = term_sum(data, mean, n);
    let b = exact_sum(data, m, n);
    let s = sample_sum(data, n) as int;
    let q = sample_squares(data, n);
    let x = spread(data, n);
    let delta = n * m - s * o;
    let oo = o * o;
    let nn = n * n;
    // n b == one^2 x + delta^2
    let (nm, so) = (n * m, s * o);
    assert(n * b == n * (oo * q) - n * (2 * (m * o) * s) + n * (n * (m * m))) by (nonlinear_arith)
        requires
            b == oo * q - 2 * (m * o) * s + n * (m * m),
    ;
    assert(n * (oo * q) == oo * (n * q)) by (nonlinear_arith);
    assert(n * (2 * (m * o) * s) == 2 * (nm * so)) by (nonlinear_arith)
        requires
            nm == n * m,
            so == s * o,
    ;
    assert(n * (n * (m * m)) == nm * nm) by (nonlinear_arith)
        requires
            nm == n * m,
    ;
    assert(oo * (s * s) == so * so) by (nonlinear_arith)
        requires
            oo == o * o,
            so == s * o,
    ;
    assert(oo * x == oo * (n * q) - oo * (s * s)) by (nonlinear_arith)
        requires
            x == n * q - s * s,
    ;
    assert(delta * delta == nm * nm - 2 * (nm * so) + so * so) by (nonlinear_arith)
        requires
            delta == nm - so,
    ;
    assert(n * b == oo * x + delta * delta);
    assert(0 <= 0x4000 * (delta * delta) <= oo * nn) by (nonlinear_arith)
        requires
            128 * distance(delta, 0) <= n * o,
            oo == o * o,
            nn == n * n,
    ;
    let oa = o * a;
    assert(0x10_0000 * distance(n * oa, n * b) <= n * b + oo * nn) by (nonlinear_arith)
        requires
            0x10_0000 * distance(oa, b) <= b + n * oo,
            n > 0,
            nn == n * n,
    ;
    lemma_spread_is_not_negative(data, n);
    let na = n * a;
    assert(n * oa == o * na) by (nonlinear_arith)
        requires
            oa == o * a,
            na == n * a,
    ;
    assert(0x10_0000 * (o * na) <= 0x10_0001 * (oo * x) + 0x80 * (oo * nn));
    assert(0xf_ffff * (oo * x) <= 0x10_0000 * (o * na) + oo * nn);
    assert(0x10_0000 * na <= o * (0x10_0001 * x + 0x80 * nn)) by (nonlinear_arith)
        requires
            0x10_0000 * (o * na) <= 0x10_0001 * (oo * x) + 0x80 * (oo * nn),
            oo == o * o,
            o > 0,
    ;
    assert(o * (0xf_ffff * x) <= 0x10_0000 * na + o * nn) by (nonlinear_arith)
        requires
            0xf_ffff * (oo * x) <= 0x10_0000 * (o * na) + oo * nn,
            oo == o * o,
            o > 0,
    ;
}

/// One more sample adds its squared distances from the ones before.
proof fn lemma_spread_grows(data: Seq<u16>, n: int)
    requires
        n >= 0,
    ensures
        ({
            let v = data[n] as int;
            spread(data, n + 1) == spread(data, n) + sample_squares(data, n) - 2 * (v * sample_sum(
                data,
                n,
            )) + n * (v * v)
        }),
{
    let v = data[n] as int;
    let q = sample_squares(data, n);
    let s = sample_sum(data, n) as int;
    assert((n + 1) * (q + v * v) - (s + v) * (s + v) == n * q - s * s + q - 2 * (v * s) + n * (v
        * v)) by (nonlinear_arith);
}

/// The squared distances of the first `n` samples from a value add up to what is not negative,
/// and each sample beyond `gap` counts with at least `gap` squared.
proof fn lemma_distances(data: Seq<u16>, n: int, v: int, gap: int, far: Set<int>)
    requires
        n >= 0,
        gap >= 0,
        far == Set::new(|i: int| 0 <= i < n && (data[i] - v >= gap || v - data[i] >= gap)),
    ensures
        far.finite(),
        sample_squares(data, n) - 2 * (v * sample_sum(data, n)) + n * (v * v) >= far.len() * (gap
            * gap),
    decreases n,
{
    if n == 0 {
        assert(far =~= Set::empty());
        assert(v * 0 == 0 && 0 * (v * v) == 0 && 0 * (gap * gap) == 0) by (nonlinear_arith);
    } else {
        let before = Set::new(
            |i: int| 0 <= i < n - 1 && (data[i] - v >= gap || v - data[i] >= gap),
        );
        lemma_distances(data, n - 1, v, gap, before);
        let u = data[n - 1] as int;
        let q = sample_squares(data, n - 1);
        let s = sample_sum(data, n - 1) as int;
        let g = gap * gap;
        assert((q + u * u) - 2 * (v * (s + u)) + n * (v * v) == q - 2 * (v * s) + (n - 1) * (v * v)
            + (u - v) * (u - v)) by (nonlinear_arith);
        assert((u - v) * (u - v) >= 0) by (nonlinear_arith);
        if u - v >= gap || v - u >= gap {
            assert(far =~= before.insert(n - 1));
            assert((u - v) * (u - v) >= g) by (nonlinear_arith)
                requires
                    u - v >= gap || v - u >= gap,
                    gap >= 0,
                    g == gap * gap,
            ;
            assert((before.len() + 1) * g == before.len() * g + g) by (nonlinear_arith);
        } else {
            assert(far =~= before);
        }
    }
}

proof fn lemma_spread_is_not_negative(data: Seq<u16>, n: int)
    requires
        n >= 0,
    ensures
        spread(data, n) >= 0,
    decreases n,
{
    if n == 0 {
        lemma_mul_basics(0);
    } else {
        lemma_spread_is_not_negative(data, n - 1);
        lemma_spread_grows(data, n - 1);
        let v = data[n - 1] as int;
        let far = Set::new(|i: int| 0 <= i < n - 1 && (data[i] - v >= 0 || v - data[i] >= 0));
        lemma_distances(data, n - 1, v, 0, far);
        lemma_mul_basics(far.len() as int);
    }
}

/// The verdict follows the variance: a frame whose variance is below 100000 by more than rounding
/// can account for shows nothing, and one whose variance is above 100000 by more than that shows
/// something. Rounding costs a thousandth and, for the additions, one part in 2^24 per sample.
pub proof fn content_is_variance(data: Seq<u16>)
    requires
        0 < data.len() <= 0x80_0000,
    ensures
        ({
            let n = data.len();
            let x = spread(data, n as int);
            &&& x * 0x100_0000 <= 99900 * ((n * n) * (0x100_0000 - n)) ==> !shows_content(data)
            &&& x * (0x100_0000 - n) >= 100100 * ((n * n) * 0x100_0000) ==> shows_content(data)
        }),
{
    let o = one() as int;
    let n = data.len() as int;
    let k = 0x100_0000int;
    let nn = n * n;
    let w = k - n;
    lemma_one_is_large();
    lemma_verdict(data);
    lemma_terms_and_spread(data);
    means_are_close(data);
    lemma_square_sum(data, mean_of(data), n);
    let t = square_sum(data, mean_of(data), n).signed_steps();
    let a = term_sum(data, mean_of(data), n);
    let x = spread(data, n);
    let nw = nn * w;
    let na = n * a;
    assert(nn >= 1 && nn >= n) by (nonlinear_arith)
        requires
            nn == n * n,
            n >= 1,
    ;
    if x * k <= 99900 * nw {
        lemma_small_spread(o, n, nn, w, nw, x, a, na, t);
    }
    if x * w >= 100100 * (nn * k) {
        lemma_large_spread(o, n, nn, w, x, a, na, t);
    }
}

proof fn lemma_small_spread(
    o: int,
    n: int,
    nn: int,
    w: int,
    nw: int,
    x: int,
    a: int,
    na: int,
    t: int,
)
    requires
        o >= 0x1_0000_0000_0000,
        0 < n <= 0x80_0000,
        nn == n * n,
        w == 0x100_0000 - n,
        nw == nn * w,
        na == n * a,
        t >= 0,
        a >= 0,
        x >= 0,
        x * 0x100_0000 <= 99900 * nw,
        0x10_0000 * na <= o * (0x10_0001 * x + 0x80 * nn),
        t * w <= (a + n) * 0x100_0000,
    ensures
        t <= (100000 * o) * n,
{
    let tw = t * w;
    // n t w <= (n a + n n) 2^24
    assert(n * tw <= na * 0x100_0000 + nn * 0x100_0000) by (nonlinear_arith)
        requires
            tw <= (a + n) * 0x100_0000,
            na == n * a,
            nn == n * n,
            n > 0,
    ;
    assert(0x80_0000 * nn <= nw) by (nonlinear_arith)
        requires
            nw == nn * w,
            w >= 0x80_0000,
            nn >= 0,
    ;
    let (ox, on, ow) = (o * x, o * nn, o * nw);
    assert(o * (0x10_0001 * x + 0x80 * nn) == 0x10_0001 * ox + 0x80 * on) by (nonlinear_arith)
        requires
            ox == o * x,
            on == o * nn,
    ;
    assert(ox * 0x100_0000 <= 99900 * ow && 0x80_0000 * on <= ow && on >= 0x1_0000_0000_0000 * nn)
        by (nonlinear_arith)
        requires
            x * 0x100_0000 <= 99900 * nw,
            0x80_0000 * nn <= nw,
            ox == o * x,
            on == o * nn,
            ow == o * nw,
            o >= 0x1_0000_0000_0000,
            nn >= 0,
    ;
    assert(0x10_0000 * (n * tw) <= 0x10_0001 * (99900 * ow) + 0x200 * ow);
    assert(n * tw <= 100000 * ow);
    assert(n * tw == (n * w) * t && 100000 * ow == (n * w) * ((100000 * o) * n))
        by (nonlinear_arith)
        requires
            tw == t * w,
            ow == o * nw,
            nw == nn * w,
            nn == n * n,
    ;
    assert(n * w > 0) by (nonlinear_arith)
        requires
            n > 0,
            w > 0,
    ;
    let (c, g) = (n * w, (100000 * o) * n);
    assert(t <= g) by (nonlinear_arith)
        requires
            c * t <= c * g,
            c > 0,
    ;
}

proof fn lemma_large_spread(o: int, n: int, nn: int, w: int, x: int, a: int, na: int, t: int)
    requires
        o >= 0x1_0000_0000_0000,
        0 < n <= 0x80_0000,
        nn == n * n,
        w == 0x100_0000 - n,
        na == n * a,
        t >= 0,
        a >= 0,
        x >= 0,
        x * w >= 100100 * (nn * 0x100_0000),
        o * (0xf_ffff * x) <= 0x10_0000 * na + o * nn,
        a * w <= (t + n) * 0x100_0000,
    ensures
        t >= (100001 * o) * n,
{
    let k = 0x100_0000int;
    let (on, nt) = (o * nn, n * t);
    // n a w <= (n t + n n) 2^24
    assert(na * w <= (nt + nn) * k) by (nonlinear_arith)
        requires
            a * w <= (t + n) * k,
            na == n * a,
            nn == n * n,
            nt == n * t,
            n > 0,
    ;
    let xw = x * w;
    assert(0xf_ffff * (o * xw) <= 0x10_0000 * (na * w) + on * w) by (nonlinear_arith)
        requires
            o * (0xf_ffff * x) <= 0x10_0000 * na + on,
            xw == x * w,
            w > 0,
    ;
    assert(o * xw >= 100100 * (on * k)) by (nonlinear_arith)
        requires
            xw >= 100100 * (nn * k),
            on == o * nn,
            o > 0,
    ;
    assert(on * w <= on * k && on >= 0x1_0000_0000_0000 * nn) by (nonlinear_arith)
        requires
            on == o * nn,
            w <= k,
            nn >= 0,
            o >= 0x1_0000_0000_0000,
    ;
    assert(0xf_ffff * (100100 * (on * k)) <= 0x10_0000 * ((nt + nn) * k) + on * k);
    assert(0xf_ffff * (100100 * on) <= 0x10_0000 * (nt + nn) + on);
    assert(100001 * on <= nt);
    assert(t >= (100001 * o) * n) by (nonlinear_arith)
        requires
            100001 * on <= nt,
            on == o * nn,
            nn == n * n,
            nt == n * t,
            n > 0,
    ;
}

/// Samples from `low` to `low + range`: their squares.
proof fn lemma_squares_in_range(data: Seq<u16>, n: int, low: int, range: int)
    requires
        0 <= n <= data.len(),
        forall|i: int| 0 <= i < data.len() ==> low <= #[trigger] data[i] <= low + range,
    ensures
        sample_squares(data, n) <= (2 * low + range) * sample_sum(data, n) - n * (low * (low
            + range)),
    decreases n,
{
    if n == 0 {
        assert((2 * low + range) * 0 == 0 && 0 * (low * (low + range)) == 0) by (nonlinear_arith);
    } else {
        lemma_squares_in_range(data, n - 1, low, range);
        let v = data[n - 1] as int;
        let s = sample_sum(data, n - 1) as int;
        let (c, e) = (2 * low + range, low * (low + range));
        assert(v * v <= c * v - e) by (nonlinear_arith)
            requires
                low <= v <= low + range,
                c == 2 * low + range,
                e == low * (low + range),
        ;
        assert(c * (s + v) == c * s + c * v && n * e == (n - 1) * e + e) by (nonlinear_arith);
    }
}

/// The variance of samples that differ by at most `range` is at most a quarter of its square.
pub proof fn range_bounds_the_variance(data: Seq<u16>, low: int, range: int)
    requires
        forall|i: int| 0 <= i < data.len() ==> low <= #[trigger] data[i] <= low + range,
    ensures
        4 * spread(data, data.len() as int) <= (data.len() * data.len()) * (range * range),
{
    let n = data.len() as int;
    lemma_squares_in_range(data, n, low, range);
    let q = sample_squares(data, n);
    let s = sample_sum(data, n) as int;
    let (c, e) = (2 * low + range, low * (low + range));
    assert(n * q <= n * (c * s) - n * (n * e)) by (nonlinear_arith)
        requires
            q <= c * s - n * e,
            n >= 0,
    ;
    let nc = n * c;
    assert(n * (c * s) == nc * s) by (nonlinear_arith)
        requires
            nc == n * c,
    ;
    assert(4 * e == c * c - range * range) by (nonlinear_arith)
        requires
            c == 2 * low + range,
            e == low * (low + range),
    ;
    let rr = range * range;
    assert(4 * (n * (n * e)) == nc * nc - (n * n) * rr) by (nonlinear_arith)
        requires
            4 * e == c * c - rr,
            nc == n * c,
    ;
    assert((nc - 2 * s) * (nc - 2 * s) == nc * nc - 4 * (nc * s) + 4 * (s * s))
        by (nonlinear_arith);
    assert((nc - 2 * s) * (nc - 2 * s) >= 0) by (nonlinear_arith);
}

/// A frame whose samples all lie within 600 of each other shows nothing.
pub proof fn even_frames_show_nothing(data: Seq<u16>)
    requires
        data.len() <= 0x18_0000,
        forall|i: int, j: int|
            0 <= i < data.len() && 0 <= j < data.len() ==> #[trigger] data[i] - #[trigger] data[j]
                <= 600,
    ensures
        !shows_content(data),
{
    if data.len() > 0 {
        let n = data.len() as int;
        let low = lemma_darkest(data, n);
        range_bounds_the_variance(data, data[low] as int, 600);
        let nn = n * n;
        let x = spread(data, n);
        content_is_variance(data);
        assert(nn >= 0) by (nonlinear_arith)
            requires
                nn == n * n,
        ;
        assert(x * 0x100_0000 <= 99900 * (nn * (0x100_0000 - n))) by (nonlinear_arith)
            requires
                4 * x <= nn * (600 * 600),
                n <= 0x18_0000,
                nn >= 0,
        ;
    }
}

/// The place of the darkest of the first `n` samples.
proof fn lemma_darkest(data: Seq<u16>, n: int) -> (at: int)
    requires
        0 < n <= data.len(),
    ensures
        0 <= at < n,
        forall|i: int| 0 <= i < n ==> data[at] <= #[trigger] data[i],
    decreases n,
{
    if n == 1 {
        0
    } else {
        let before = lemma_darkest(data, n - 1);
        if data[n - 1] < data[before] {
            n - 1
        } else {
            before
        }
    }
}

/// Larger frames may vary less before they show something: for up to 2^23 samples, a range of
/// `range` is too little if its square is below what the number of samples leaves of 399600.
pub proof fn narrow_ranges_show_nothing(data: Seq<u16>, low: int, range: int)
    requires
        data.len() <= 0x80_0000,
        forall|i: int| 0 <= i < data.len() ==> low <= #[trigger] data[i] <= low + range,
        (range * range) * 0x100_0000 <= 399600 * (0x100_0000 - data.len()),
    ensures
        !shows_content(data),
{
    if data.len() > 0 {
        let n = data.len() as int;
        range_bounds_the_variance(data, low, range);
        let nn = n * n;
        let x = spread(data, n);
        let rr = range * range;
        let w = 0x100_0000 - n;
        content_is_variance(data);
        assert(4 * (x * 0x100_0000) <= 399600 * (nn * w)) by (nonlinear_arith)
            requires
                4 * x <= nn * rr,
                rr * 0x100_0000 <= 399600 * w,
                nn == n * n,
        ;
    }
}

/// The places of the samples up to `limit`.
pub open spec fn dark_places(data: Seq<u16>, limit: int, n: int) -> Set<int> {
    Set::new(|i: int| 0 <= i < n && data[i] <= limit)
}

/// The places of the samples from `limit` on.
pub open spec fn bright_places(data: Seq<u16>, limit: int, n: int) -> Set<int> {
    Set::new(|i: int| 0 <= i < n && data[i] >= limit)
}

/// Every pair of a dark and a bright sample adds the square of their distance to the variance.
proof fn lemma_pairs(data: Seq<u16>, low: int, high: int, n: int)
    requires
        0 <= n,
        low < high,
    ensures
        dark_places(data, low, n).finite(),
        bright_places(data, high, n).finite(),
        spread(data, n) >= (dark_places(data, low, n).len() * bright_places(data, high, n).len())
            * ((high - low) * (high - low)),
    decreases n,
{
    let dark = dark_places(data, low, n);
    let bright = bright_places(data, high, n);
    let gap = high - low;
    let g = gap * gap;
    if n == 0 {
        assert(dark =~= Set::empty());
        assert(bright =~= Set::empty());
        assert((0 * 0) * g == 0 && 0 * 0 - 0 * 0 == 0) by (nonlinear_arith);
        lemma_spread_is_not_negative(data, 0);
    } else {
        lemma_pairs(data, low, high, n - 1);
        let d = dark_places(data, low, n - 1);
        let b = bright_places(data, high, n - 1);
        let v = data[n - 1] as int;
        lemma_spread_grows(data, n - 1);
        let far = Set::new(|i: int| 0 <= i < n - 1 && (data[i] - v >= gap || v - data[i] >= gap));
        lemma_distances(data, n - 1, v, gap, far);
        let (dl, bl, fl) = (d.len() as int, b.len() as int, far.len() as int);
        assert(g >= 0) by (nonlinear_arith)
            requires
                g == gap * gap,
        ;
        assert(fl * g >= 0) by (nonlinear_arith)
            requires
                fl >= 0,
                g >= 0,
        ;
        if v <= low {
            assert(dark =~= d.insert(n - 1));
            assert(bright =~= b);
            assert(b.subset_of(far));
            vstd::set_lib::lemma_len_subset(b, far);
            assert(((dl + 1) * bl) * g <= (dl * bl) * g + fl * g) by (nonlinear_arith)
                requires
                    bl <= fl,
                    g >= 0,
            ;
        } else if v >= high {
            assert(dark =~= d);
            assert(bright =~= b.insert(n - 1));
            assert(d.subset_of(far));
            vstd::set_lib::lemma_len_subset(d, far);
            assert((dl * (bl + 1)) * g <= (dl * bl) * g + fl * g) by (nonlinear_arith)
                requires
                    dl <= fl,
                    g >= 0,
            ;
        } else {
            assert(dark =~= d);
            assert(bright =~= b);
        }
    }
}

/// Enough contrast shows: where the dark samples, the bright ones and the distance between them
/// make up enough variance, however the samples are placed, the frame shows something.
pub proof fn contrast_shows_content(data: Seq<u16>, low: int, high: int)
    requires
        0 < data.len() <= 0x80_0000,
        low < high,
        ({
            let n = data.len();
            let pairs = dark_places(data, low, n as int).len() * bright_places(
                data,
                high,
                n as int,
            ).len();
            (pairs * ((high - low) * (high - low))) * (0x100_0000 - n) >= 100100 * ((n * n)
                * 0x100_0000)
        }),
    ensures
        shows_content(data),
{
    let n = data.len() as int;
    lemma_pairs(data, low, high, n);
    content_is_variance(data);
    let x = spread(data, n);
    let y = (dark_places(data, low, n).len() * bright_places(data, high, n).len()) * ((high - low)
        * (high - low));
    assert(x * (0x100_0000 - n) >= y * (0x100_0000 - n)) by (nonlinear_arith)
        requires
            x >= y,
            n <= 0x100_0000,
    ;
}

/// A frame with at least a quarter of its samples dark, a quarter bright, and 1800 between them
/// shows something, in particular one that is half black and half white.
pub proof fn split_frames_show_content(data: Seq<u16>, low: int, high: int)
    requires
        0 < data.len() <= 0x80_0000,
        high - low >= 1800,
        4 * dark_places(data, low, data.len() as int).len() >= data.len(),
        4 * bright_places(data, high, data.len() as int).len() >= data.len(),
    ensures
        shows_content(data),
{
    let n = data.len() as int;
    let d = dark_places(data, low, n).len() as int;
    let b = bright_places(data, high, n).len() as int;
    let gap = high - low;
    let nn = n * n;
    assert(16 * (d * b) >= nn) by (nonlinear_arith)
        requires
            4 * d >= n,
            4 * b >= n,
            n > 0,
            nn == n * n,
    ;
    assert(gap * gap >= 1800 * 1800) by (nonlinear_arith)
        requires
            gap >= 1800,
    ;
    let (db, g) = (d * b, gap * gap);
    assert(16 * (db * g) >= nn * (1800 * 1800)) by (nonlinear_arith)
        requires
            16 * db >= nn,
            g >= 1800 * 1800,
            nn >= 0,
    ;
    let p = db * g;
    assert(p * (0x100_0000 - n) >= 100100 * (nn * 0x100_0000)) by (nonlinear_arith)
        requires
            16 * p >= nn * (1800 * 1800),
            n <= 0x80_0000,
            nn >= 0,
    ;
    contrast_shows_content(data, low, high);
}

/// A frame that is half black and half white, in whatever arrangement, shows something.
pub proof fn black_and_white_shows_content(data: Seq<u16>)
    requires
        0 < data.len() <= 0x80_0000,
        forall|i: int| 0 <= i < data.len() ==> #[trigger] data[i] == 0 || data[i] == 65535,
        2 * Set::new(|i: int| 0 <= i < data.len() && data[i] == 0).len() == data.len(),
    ensures
        shows_content(data),
{
    let n = data.len() as int;
    let dark = dark_places(data, 0, n);
    let bright = bright_places(data, 65535, n);
    let black = Set::new(|i: int| 0 <= i < data.len() && data[i] == 0);
    lemma_pairs(data, 0, 65535, n);
    assert(dark =~= black);
    let all = Set::new(|i: int| 0 <= i < n);
    vstd::set_lib::lemma_int_range(0, n);
    assert(all =~= vstd::set_lib::set_int_range(0, n));
    assert(dark.union(bright) =~= all);
    assert(dark.disjoint(bright));
    vstd::set_lib::lemma_set_disjoint_lens(dark, bright);
    split_frames_show_content(data, 0, 65535);
}

/// The computed variance is the computed sum over the number of samples.
proof fn lemma_variance_of_sum(data: Seq<u16>)
    requires
        0 < data.len() <= 0x80_0000,
    ensures
        ({
            let t = square_sum(data, mean_of(data), data.len() as int).signed_steps();
            let v = variance_of(data);
            &&& v.is_finite()
            &&& v.signed_steps() >= 0
            &&& 0x100_0000 * distance(data.len() * v.signed_steps(), t) <= t + 0x80_0000
                * data.len()
        }),
{
    let o = one();
    let n = data.len();
    let mean = mean_of(data);
    lemma_one_is_large();
    means_are_close(data);
    lemma_square_sum(data, mean, n as int);
    lemma_term_sum(data, mean, n as int);
    let f = square_sum(data, mean, n as int);
    let t = f.abs_steps();
    let a = term_sum(data, mean, n as int);
    assert(t <= 0x8000_0000_0000_0000 * o) by (nonlinear_arith)
        requires
            t * (0x100_0000 - n) <= (a + n) * 0x100_0000,
            0 <= a <= n * (0x8_0000_0000 * o),
            0 < n <= 0x80_0000,
            o >= 0x1_0000_0000_0000,
    ;
    small_integers_are_exact(n as u64);
    let len = Float32::spec_from_u64(n as u64);
    let d = n * o;
    assert(d > 0) by (nonlinear_arith)
        requires
            d == n * o,
            n > 0,
            o > 0,
    ;
    if len.is_zero() {
        assert(len.abs_steps() == 0);
    }
    let x = t * o;
    let v = variance_of(data);
    assert(v == Float32::pack(false, round_magnitude(x, d))) by {
        reveal(Float32::spec_div);
    }
    lemma_pow2_adds(51, 149);
    lemma2_to64_rest();
    assert(x <= (0x1_0000 * pow2(200)) * d) by (nonlinear_arith)
        requires
            x == t * o,
            d == n * o,
            n >= 1,
            t <= 0x8000_0000_0000_0000 * o,
            pow2(200) == 0x8_0000_0000_0000 * o,
    ;
    rounding_keeps_sides(x, d, 0x1_0000, 200);
    rounding_upper_bound(x, d);
    rounding_lower_bound(x, d);
    let vs = v.signed_steps();
    let nv = n * vs;
    assert(d * vs == o * nv && x == o * t && d == o * n) by (nonlinear_arith)
        requires
            d == n * o,
            x == t * o,
            nv == n * vs,
    ;
    let e = distance(nv, t as int);
    assert(distance(o * nv, (o * t) as int) == o * e) by (nonlinear_arith)
        requires
            e == distance(nv, t as int),
            o > 0,
    ;
    assert(0x100_0000 * e <= t + 0x80_0000 * n) by (nonlinear_arith)
        requires
            0x100_0000 * (o * e) <= o * t + 0x80_0000 * (o * n),
            o > 0,
    ;
}

/// The computed variance is the variance of the samples: times the square of their number it is
/// their spread, up to a thousandth, a thousandth of a unit, and, for the additions, one part in
/// 2^24 per sample.
pub proof fn variances_are_close(data: Seq<u16>)
    requires
        0 < data.len() <= 0x80_0000,
    ensures
        ({
            let n = data.len();
            let x = spread(data, n as int);
            let v = (n * n) * variance_of(data).signed_steps();
            &&& 0x400 * (v * (0x100_0000 - n)) <= (one() * (0x401 * x + n * n)) * 0x100_0000
            &&& (one() * (0x3ff * x)) * (0x100_0000 - n) <= 0x400 * (v * 0x100_0000) + (one() * (n
                * n)) * 0x100_0000
        }),
{
    let o = one() as int;
    let n = data.len() as int;
    let nn = n * n;
    let w = 0x100_0000 - n;
    lemma_one_is_large();
    lemma_terms_and_spread(data);
    means_are_close(data);
    lemma_square_sum(data, mean_of(data), n);
    lemma_variance_of_sum(data);
    let t = square_sum(data, mean_of(data), n).signed_steps();
    let a = term_sum(data, mean_of(data), n);
    let x = spread(data, n);
    let vs = variance_of(data).signed_steps();
    let nv = n * vs;
    lemma_variance_bounds(o, n, nn, w, x, a, n * a, t, nv, n * nv);
    assert(n * nv == nn * vs) by (nonlinear_arith)
        requires
            nv == n * vs,
            nn == n * n,
    ;
}

#[verifier::spinoff_prover]
#[verifier::rlimit(40)]
proof fn lemma_variance_bounds(
    o: int,
    n: int,
    nn: int,
    w: int,
    x: int,
    a: int,
    na: int,
    t: int,
    nv: int,
    v: int,
)
    requires
        o >= 0x1_0000_0000_0000,
        0 < n <= 0x80_0000,
        nn == n * n,
        w == 0x100_0000 - n,
        na == n * a,
        v == n * nv,
        t >= 0,
        a >= 0,
        x >= 0,
        0x10_0000 * na <= o * (0x10_0001 * x + 0x80 * nn),
        o * (0xf_ffff * x) <= 0x10_0000 * na + o * nn,
        t * w <= (a + n) * 0x100_0000,
        a * w <= (t + n) * 0x100_0000,
        0x100_0000 * distance(nv, t) <= t + 0x80_0000 * n,
    ensures
        0x400 * (v * w) <= (o * (0x401 * x + nn)) * 0x100_0000,
        (o * (0x3ff * x)) * w <= 0x400 * (v * 0x100_0000) + (o * nn) * 0x100_0000,
{
    let k = 0x100_0000int;
    let (nt, on, ox) = (n * t, o * nn, o * x);
    assert(k * distance(v, nt) <= nt + 0x80_0000 * nn) by (nonlinear_arith)
        requires
            k * distance(nv, t) <= t + 0x80_0000 * n,
            v == n * nv,
            nt == n * t,
            nn == n * n,
            n > 0,
    ;
    assert(on >= 0x1_0000_0000_0000 * nn && nn >= 1 && ox >= 0) by (nonlinear_arith)
        requires
            on == o * nn,
            ox == o * x,
            x >= 0,
            nn == n * n,
            n >= 1,
            o >= 0x1_0000_0000_0000,
    ;
    assert(o * (0x10_0001 * x + 0x80 * nn) == 0x10_0001 * ox + 0x80 * on && o * (0xf_ffff * x)
        == 0xf_ffff * ox && o * (0x401 * x + nn) == 0x401 * ox + on && o * (0x3ff * x) == 0x3ff
        * ox) by (nonlinear_arith)
        requires
            ox == o * x,
            on == o * nn,
    ;
    assert(nt * w <= (na + nn) * k) by (nonlinear_arith)
        requires
            t * w <= (a + n) * k,
            nt == n * t,
            na == n * a,
            nn == n * n,
            n > 0,
    ;
    assert(na * w <= (nt + nn) * k) by (nonlinear_arith)
        requires
            a * w <= (t + n) * k,
            nt == n * t,
            na == n * a,
            nn == n * n,
            n > 0,
    ;
    let (vw, tw, nnw) = (v * w, nt * w, nn * w);
    assert(k * vw <= (k + 1) * tw + 0x80_0000 * nnw) by (nonlinear_arith)
        requires
            k * v <= (k + 1) * nt + 0x80_0000 * nn,
            vw == v * w,
            tw == nt * w,
            nnw == nn * w,
            w > 0,
    ;
    assert(nnw <= nn * k) by (nonlinear_arith)
        requires
            nnw == nn * w,
            w <= k,
            nn >= 0,
    ;
    assert(0x400 * vw <= (0x401 * ox + on) * k);
    let (naw, oxw, onw) = (na * w, ox * w, on * w);
    assert(0xf_ffff * oxw <= 0x10_0000 * naw + onw) by (nonlinear_arith)
        requires
            0xf_ffff * ox <= 0x10_0000 * na + on,
            naw == na * w,
            oxw == ox * w,
            onw == on * w,
            w > 0,
    ;
    assert(onw <= on * k && (0x3ff * ox) * w == 0x3ff * oxw) by (nonlinear_arith)
        requires
            onw == on * w,
            oxw == ox * w,
            w <= k,
            on >= 0,
    ;
    assert((k - 1) * nt <= k * v + 0x80_0000 * nn);
}

} // verus!
