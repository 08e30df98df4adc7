//! Brightness statistics of raw frames.
use crate::capture::IrFrame;
use crate::float32::{one, round_magnitude, round_pack, Float32};
use crate::rounding::{brackets, nearest, rounded};
use vstd::arithmetic::div_mod::*;
use vstd::arithmetic::mul::*;
use vstd::arithmetic::power2::*;
use vstd::prelude::*;

verus! {

/// 100000.0: frames with no more variance than this show nothing.
pub const CONTENT_VARIANCE_THRESHOLD_BITS: u32 = 0x47c3_5000;

/// The sum of the first `n` samples.
pub open spec fn sample_sum(data: Seq<u16>, n: int) -> nat
    decreases n,
{
    if n <= 0 {
        0
    } else {
        sample_sum(data, n - 1) + data[n - 1] as nat
    }
}

/// The mean of the samples, computed in double precision and then rounded to single
/// precision; 0 for no samples.
pub open spec fn mean_of(data: Seq<u16>) -> Float32 {
    if data.len() == 0 {
        Float32 { bits: 0 }
    } else {
        let (k, e) = rounded(53, sample_sum(data, data.len() as int) * one(), data.len());
        Float32::pack(false, round_magnitude(k * pow2(e), 1))
    }
}

proof fn lemma_sum_bound(data: Seq<u16>, n: int)
    requires
        0 <= n,
    ensures
        sample_sum(data, n) <= 65535 * n,
    decreases n,
{
    if n > 0 {
        lemma_sum_bound(data, n - 1);
    }
}

/// The quotient of `sum * 2^90` brackets the mean in steps.
proof fn lemma_mean_bracket(sum: nat, len: nat, q: nat, rest: nat)
    requires
        len > 0,
        sum * pow2(90) == q * len + rest,
        rest < len,
    ensures
        brackets(sum * one(), len, q, 59, rest != 0),
{
    let u = pow2(59);
    lemma_pow2_adds(90, 59);
    lemma_pow2_pos(59);
    lemma2_to64();
    lemma_mul_is_associative(sum as int, pow2(90) as int, u as int);
    let x = sum * one();
    lemma_mul_basics(x as int);
    assert(x == (sum * pow2(90)) * u);
    lemma_scaled_quotient(q, len, rest, u, x);
}

proof fn lemma_scaled_quotient(q: nat, len: nat, rest: nat, u: nat, x: nat)
    requires
        u > 0,
        x == (q * len + rest) * u,
        rest < len,
    ensures
        rest == 0 ==> x == q * (len * u),
        rest != 0 ==> q * (len * u) < x < (q + 1) * (len * u),
{
    assert((q * len + rest) * u == q * (len * u) + rest * u) by (nonlinear_arith);
    assert((q + 1) * (len * u) == q * (len * u) + len * u) by (nonlinear_arith);
    assert(rest * u < len * u) by (nonlinear_arith)
        requires
            rest < len,
            u > 0,
    ;
    if rest != 0 {
        assert(rest * u > 0) by (nonlinear_arith)
            requires
                rest > 0,
                u > 0,
        ;
    } else {
        lemma_mul_basics(u as int);
    }
}

/// The mean sample of a frame. The number of samples is bounded so that their sum is exact in
/// double precision.
pub fn frame_mean(frame: &IrFrame) -> (r: Float32)
    requires
        frame.data@.len() <= 0x20_0000_0000,
    ensures
        r == mean_of(frame.data@),
{
    if frame.data.len() == 0 {
        return Float32::from_bits(0);
    }
    let len: u64 = frame.data.len() as u64;
    let mut sum: u64 = 0;
    let mut i: usize = 0;
    while i < frame.data.len()
        invariant
            i <= frame.data@.len(),
            frame.data@.len() <= 0x20_0000_0000,
            sum == sample_sum(frame.data@, i as int),
            sum <= 65535 * i,
        decreases frame.data@.len() - i,
    {
        sum = sum + frame.data[i] as u64;
        i = i + 1;
    }
    let ghost total = sample_sum(frame.data@, frame.data@.len() as int);
    proof {
        lemma2_to64();
        lemma2_to64_rest();
        lemma_mul_basics(one() as int);
    }
    if sum == 0 {
        proof {
            lemma_zero_mean(len as nat);
        }
        return Float32::from_bits(0);
    }
    // long division of sum * 2^90 in two parts
    let wide: u128 = sum as u128 * 0x1000_0000_0000_0000;
    let q1: u128 = wide / len as u128;
    let rest1: u128 = wide % len as u128;
    let q2: u128 = (rest1 * 0x4000_0000) / len as u128;
    let rest: u128 = (rest1 * 0x4000_0000) % len as u128;
    proof {
        lemma_fundamental_div_mod(wide as int, len as int);
        lemma_fundamental_div_mod(rest1 * 0x4000_0000, len as int);
        lemma_long_division(
            sum as int,
            len as int,
            q1 as int,
            rest1 as int,
            q2 as int,
            rest as int,
        );
    }
    let q: u128 = q1 * 0x4000_0000 + q2;
    proof {
        lemma_pow2_adds(60, 30);
        lemma_mul_is_associative(sum as int, pow2(60) as int, pow2(30) as int);
        lemma_mean_bracket(sum as nat, len as nat, q as nat, rest as nat);
        lemma_pow2_adds(63, 63);
    }
    mean_from_quotient(q, rest != 0, Ghost(total), Ghost(len as nat))
}

proof fn lemma_long_division(sum: int, len: int, q1: int, rest1: int, q2: int, rest: int)
    requires
        0 < sum <= 65535 * len,
        0 < len <= 0x20_0000_0000,
        sum * 0x1000_0000_0000_0000 == len * q1 + rest1,
        rest1 * 0x4000_0000 == len * q2 + rest,
        0 <= rest1 < len,
        0 <= rest < len,
    ensures
        (sum * 0x1000_0000_0000_0000) * 0x4000_0000 == (q1 * 0x4000_0000 + q2) * len + rest,
        0x20_0000_0000_0000 <= q1 * 0x4000_0000 + q2 < 0x1_0000_0000_0000_0000_0000_0000_0000,
        0 <= q1 < 0x1_0000_0000_0000_0000_0000,
        0 <= q2 < 0x4000_0000,
{
    let q = q1 * 0x4000_0000 + q2;
    assert(q * len == (len * q1) * 0x4000_0000 + len * q2) by (nonlinear_arith)
        requires
            q == q1 * 0x4000_0000 + q2,
    ;
    assert(0 <= q1 < 0x1_0000_0000_0000_0000_0000) by (nonlinear_arith)
        requires
            sum * 0x1000_0000_0000_0000 == len * q1 + rest1,
            0 <= rest1 < len,
            0 < sum <= 65535 * len,
            len > 0,
    ;
    assert(0 <= q2 < 0x4000_0000) by (nonlinear_arith)
        requires
            rest1 * 0x4000_0000 == len * q2 + rest,
            0 <= rest < len,
            0 <= rest1 < len,
    ;
    assert(q >= 0x20_0000_0000_0000) by (nonlinear_arith)
        requires
            (sum * 0x1000_0000_0000_0000) * 0x4000_0000 == q * len + rest,
            sum >= 1,
            0 <= rest < len,
            0 < len <= 0x20_0000_0000,
    ;
}

/// Without light the mean is zero.
proof fn lemma_zero_mean(len: nat)
    requires
        len > 0,
    ensures
        rounded(53, 0, len) == (0nat, 0nat),
        Float32::pack(false, round_magnitude(0 * pow2(0), 1)) == (Float32 { bits: 0 }),
{
    lemma2_to64();
    lemma2_to64_rest();
    assert(0nat / len == 0) by {
        lemma_div_basics(len as int);
    }
    crate::rounding::lemma_excess_bits(53, 0, 0);
    lemma_mul_basics(len as int);
    crate::float_laws::rounding_keeps_values(1, 0);
}

fn mean_from_quotient(q: u128, sticky: bool, Ghost(sum): Ghost<nat>, Ghost(len): Ghost<nat>) -> (r:
    Float32)
    requires
        len > 0,
        0 < q,
        q < pow2(126),
        sticky ==> q >= pow2(53),
        brackets(sum * one(), len, q as nat, 59, sticky),
    ensures
        ({
            let (k, e) = rounded(53, sum * one(), len);
            r == Float32::pack(false, round_magnitude(k * pow2(e), 1))
        }),
{
    let (k, e) = nearest(53, q, 59, sticky, Ghost(sum * one()), Ghost(len));
    let ghost n = k as nat * pow2(e as nat);
    if k == 0 {
        proof {
            lemma_mul_basics(pow2(e as nat) as int);
            crate::float_laws::rounding_keeps_values(1, 0);
        }
        return Float32::from_bits(0);
    }
    proof {
        lemma2_to64();
        lemma2_to64_rest();
        lemma_pow2_strictly_increases(53, 126);
        lemma_mul_basics(n as int);
        lemma_mul_basics(pow2(e as nat) as int);
    }
    round_pack(false, k as u128, e as i32, false, Ghost(n), Ghost(1))
}

/// The sum of the squared distances of the first `n` samples from `mean`, added up in order.
pub open spec fn square_sum(data: Seq<u16>, mean: Float32, n: int) -> Float32
    decreases n,
{
    if n <= 0 {
        Float32 { bits: 0 }
    } else {
        let d = Float32::spec_from_u64(data[n - 1] as u64).spec_sub(mean);
        square_sum(data, mean, n - 1).spec_add(d.spec_mul(d))
    }
}

/// The variance of the samples; 0 for no samples.
pub open spec fn variance_of(data: Seq<u16>) -> Float32 {
    if data.len() == 0 {
        Float32 { bits: 0 }
    } else {
        square_sum(data, mean_of(data), data.len() as int).spec_div(
            Float32::spec_from_u64(data.len() as u64),
        )
    }
}

/// The variance of a frame's samples.
pub fn frame_variance(frame: &IrFrame) -> (r: Float32)
    requires
        frame.data@.len() <= 0x20_0000_0000,
    ensures
        r == variance_of(frame.data@),
{
    if frame.data.len() == 0 {
        return Float32::from_bits(0);
    }
    let len = Float32::from_u64(frame.data.len() as u64);
    let mean = frame_mean(frame);
    let mut sum = Float32::from_bits(0);
    let mut i: usize = 0;
    while i < frame.data.len()
        invariant
            i <= frame.data@.len(),
            sum == square_sum(frame.data@, mean, i as int),
        decreases frame.data@.len() - i,
    {
        let d = Float32::from_u64(frame.data[i] as u64).sub(mean);
        sum = sum.add(d.mul(d));
        i = i + 1;
    }
    sum.div(len)
}

/// Whether the samples vary enough for a frame that shows something.
pub open spec fn shows_content(data: Seq<u16>) -> bool {
    data.len() > 0 && (Float32 { bits: CONTENT_VARIANCE_THRESHOLD_BITS }).spec_lt(
        variance_of(data),
    )
}

/// Whether a raw frame shows anything: blank and dark frames hardly vary.
pub fn raw_frame_has_content(frame: &IrFrame) -> (r: bool)
    requires
        frame.data@.len() <= 0x20_0000_0000,
    ensures
        r == shows_content(frame.data@),
{
    frame.data.len() > 0 && Float32::from_bits(CONTENT_VARIANCE_THRESHOLD_BITS).lt(
        frame_variance(frame),
    )
}

} // verus!
