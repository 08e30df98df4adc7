//! What the brightness statistics say of blank frames.
use crate::float32::{lemma_steps_increase, one, Float32};
use crate::float_laws::{rounding_keeps_values, small_integers_are_exact};
use crate::rounding::{excess_bits, lemma_excess_bits_bounds, rounded};
use crate::statistics::{mean_of, sample_sum, shows_content, square_sum, variance_of};
use vstd::arithmetic::div_mod::*;
use vstd::arithmetic::mul::*;
use vstd::arithmetic::power2::*;
use vstd::prelude::*;

verus! {

proof fn lemma_uniform_sum(data: Seq<u16>, c: u16, n: int)
    requires
        0 <= n <= data.len(),
        forall|i: int| 0 <= i < data.len() ==> #[trigger] data[i] == c,
    ensures
        sample_sum(data, n) == c * n,
    decreases n,
{
    lemma_mul_basics(c as int);
    if n > 0 {
        lemma_uniform_sum(data, c, n - 1);
        assert(c * n == c * (n - 1) + c) by (nonlinear_arith);
    }
}

/// A value that fits into the bits is kept by rounding.
proof fn lemma_exact_quotient(v: nat, len: nat, e: nat, k: nat)
    requires
        len > 0,
        e == excess_bits(53, v),
        v == k * pow2(e),
    ensures
        rounded(53, len * v, len) == (k, e),
{
    lemma_pow2_pos(e);
    lemma_div_by_multiple(v as int, len as int);
    lemma_mul_is_commutative(v as int, len as int);
    assert((len * v) / len == v);
    let unit = len * pow2(e);
    assert(len * v == k * unit) by (nonlinear_arith)
        requires
            v == k * pow2(e),
            unit == len * pow2(e),
    ;
    assert(unit > 0) by (nonlinear_arith)
        requires
            unit == len * pow2(e),
            len > 0,
            pow2(e) > 0,
    ;
    lemma_div_by_multiple(k as int, unit as int);
    lemma_mod_multiples_basic(k as int, unit as int);
}

/// The mean of equal samples is that sample.
proof fn lemma_uniform_mean(data: Seq<u16>, c: u16)
    requires
        data.len() > 0,
        forall|i: int| 0 <= i < data.len() ==> #[trigger] data[i] == c,
    ensures
        mean_of(data) == Float32::spec_from_u64(c as u64),
{
    reveal(Float32::spec_from_u64);
    let n = data.len();
    let v = c as nat * one();
    lemma_uniform_sum(data, c, n as int);
    assert(sample_sum(data, n as int) * one() == n * v) by (nonlinear_arith)
        requires
            sample_sum(data, n as int) == c * n,
            v == c as nat * one(),
    ;
    let e = excess_bits(53, v);
    lemma_excess_bits_bounds(53, v);
    lemma_pow2_pos(149);
    lemma_pow2_adds(16, 149);
    lemma2_to64();
    assert(v < pow2(165)) by (nonlinear_arith)
        requires
            v == c as nat * pow2(149),
            c < 0x1_0000,
            pow2(165) == 0x1_0000 * pow2(149),
            pow2(149) > 0,
    ;
    if e > 149 {
        lemma_pow2_strictly_increases(165, (52 + e) as nat);
    }
    let k = c as nat * pow2((149 - e) as nat);
    lemma_pow2_adds((149 - e) as nat, e);
    lemma_mul_is_associative(c as int, pow2((149 - e) as nat) as int, pow2(e) as int);
    assert(v == k * pow2(e));
    lemma_exact_quotient(v, n, e, k);
}

proof fn lemma_no_spread(data: Seq<u16>, c: u16, n: int)
    requires
        0 <= n <= data.len(),
        forall|i: int| 0 <= i < data.len() ==> #[trigger] data[i] == c,
    ensures
        square_sum(data, Float32::spec_from_u64(c as u64), n) == (Float32 { bits: 0 }),
    decreases n,
{
    if n > 0 {
        lemma_no_spread(data, c, n - 1);
        let x = Float32::spec_from_u64(c as u64);
        let z = Float32 { bits: 0 };
        small_integers_are_exact(c as u64);
        assert(data[n - 1] == c);
        assert(x.spec_sub(x) == z) by {
            reveal(Float32::spec_add);
        }
        assert(z.spec_mul(z) == z) by {
            reveal(Float32::spec_mul);
            lemma_pow2_pos(149);
            lemma_mul_basics(0);
            lemma_mul_basics(one() as int);
            rounding_keeps_values(one(), 0);
        }
        assert(z.spec_add(z) == z) by {
            reveal(Float32::spec_add);
        }
    }
}

/// A frame of equal samples, such as a blank or a black one, shows nothing.
pub proof fn blank_frames_show_nothing(data: Seq<u16>, c: u16)
    requires
        forall|i: int| 0 <= i < data.len() ==> #[trigger] data[i] == c,
        data.len() <= u64::MAX,
    ensures
        variance_of(data) == (Float32 { bits: 0 }),
        !shows_content(data),
{
    if data.len() > 0 {
        lemma_uniform_mean(data, c);
        lemma_no_spread(data, c, data.len() as int);
        crate::preprocess_laws::lemma_count_rounds(data.len());
        let len = Float32::spec_from_u64(data.len() as u64);
        reveal(Float32::spec_div);
        lemma_steps_increase(0, len.magnitude());
        lemma_mul_basics(one() as int);
        rounding_keeps_values(len.abs_steps(), 0);
        lemma_mul_basics(len.abs_steps() as int);
    }
}

} // verus!
