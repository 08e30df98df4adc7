//! Square roots of single-precision numbers.
use crate::float32::{
    one, parts, round_magnitude, round_pack, shifted, steps, Float32, INFINITE, SIGN,
};
use crate::rounding::brackets;
use vstd::arithmetic::div_mod::*;
use vstd::arithmetic::mul::*;
use vstd::arithmetic::power2::*;
use vstd::prelude::*;

verus! {

/// `r` is the whole part of the square root of `n`.
pub open spec fn is_root(n: nat, r: nat) -> bool {
    r * r <= n < (r + 1) * (r + 1)
}

/// The whole part of the square root of `n`.
pub open spec fn whole_root(n: nat) -> nat {
    choose|r: nat| is_root(n, r)
}

/// Twice the square root of `n`: exact where the root is whole, else one more than twice its
/// whole part, which stands for a value between two whole ones.
pub open spec fn doubled_root(n: nat) -> nat {
    let r = whole_root(n);
    if r * r == n {
        2 * r
    } else {
        2 * r + 1
    }
}

impl Float32 {
    /// The square root, rounded to the nearest number. A value of `n` steps has a root of
    /// `sqrt(n * 2^149)` steps, which is far enough from zero that only the whole part and
    /// whether there is more decide the rounding.
    #[verifier::opaque]
    pub open spec fn spec_sqrt(self) -> Float32 {
        if self.is_zero() {
            self
        } else if self.is_nan() || self.is_negative() {
            Float32::nan()
        } else if self.is_infinite() {
            self
        } else {
            Float32::pack(
                false,
                round_magnitude(doubled_root(self.abs_steps() * one()), 2),
            )
        }
    }
}

/// There is only one whole root.
proof fn lemma_one_root(n: nat, a: nat, b: nat)
    requires
        is_root(n, a),
        is_root(n, b),
    ensures
        a == b,
{
    if a < b {
        assert((a + 1) * (a + 1) <= b * b) by (nonlinear_arith)
            requires
                a + 1 <= b,
        ;
    }
    if b < a {
        assert((b + 1) * (b + 1) <= a * a) by (nonlinear_arith)
            requires
                b + 1 <= a,
        ;
    }
}

/// Every number has a whole root.
pub proof fn lemma_root_exists(n: nat) -> (r: nat)
    ensures
        is_root(n, r),
    decreases n,
{
    if n == 0 {
        assert(is_root(0, 0)) by (nonlinear_arith);
        0
    } else {
        let r = lemma_root_exists((n - 1) as nat);
        if (r + 1) * (r + 1) <= n {
            assert((r + 1) * (r + 1) < (r + 2) * (r + 2)) by (nonlinear_arith);
            assert((r + 1) * (r + 1) == n);
            assert(is_root(n, r + 1));
            r + 1
        } else {
            assert(is_root(n, r));
            r
        }
    }
}

/// The whole root of a 128-bit number, digit by digit.
fn integer_root(n: u128) -> (r: u64)
    requires
        n < 0x1_0000_0000_0000_0000_0000_0000_0000,
    ensures
        is_root(n as nat, r as nat),
{
    let mut low: u64 = 0;
    let mut high: u64 = 0x100_0000_0000_0000;
    proof {
        assert(0x100_0000_0000_0000 * 0x100_0000_0000_0000
            == 0x1_0000_0000_0000_0000_0000_0000_0000) by (nonlinear_arith);
    }
    while high - low > 1
        invariant
            low < high <= 0x100_0000_0000_0000,
            low * low <= n < high * high,
        decreases high - low,
    {
        let mid: u64 = low + (high - low) / 2;
        proof {
            assert(mid * mid <= 0x100_0000_0000_0000 * 0x100_0000_0000_0000) by (nonlinear_arith)
                requires
                    0 <= mid <= 0x100_0000_0000_0000,
            ;
        }
        let square: u128 = mid as u128 * mid as u128;
        if square <= n {
            low = mid;
        } else {
            high = mid;
        }
    }
    low
}

/// The root of `m * 2^60`, scaled back, brackets the root of `m * 2^(2 h)`.
proof fn lemma_root_bracket(m: nat, h: nat, r: nat)
    requires
        h >= 30,
        is_root(m * pow2(60), r),
    ensures
        brackets(
            doubled_root(m * pow2(2 * h)),
            2,
            r,
            h - 30,
            r * r != m * pow2(60),
        ),
{
    let s = (h - 30) as nat;
    let u = pow2(s);
    let n = m * pow2(2 * h);
    let w = m * pow2(60);
    lemma_pow2_pos(s);
    lemma_pow2_adds(s, s);
    lemma_pow2_adds(60, 2 * s);
    lemma2_to64();
    assert(n == w * (u * u)) by {
        lemma_mul_is_associative(m as int, pow2(60) as int, (u * u) as int);
    }
    let big = lemma_root_exists(n);
    lemma_one_root(n, big, whole_root(n));
    assert(is_root(n, whole_root(n)));
    lemma_scaled_root(w, u, n, r, big);
    lemma_bracket_form(r, u, big, doubled_root(n), r * r != w);
}

proof fn lemma_scaled_root(w: nat, u: nat, n: nat, r: nat, big: nat)
    requires
        u > 0,
        n == w * (u * u),
        is_root(w, r),
        is_root(n, big),
    ensures
        r * u <= big < (r + 1) * u,
        r * r == w ==> big == r * u && big * big == n,
        r * r != w ==> big > r * u || big * big != n,
{
    assert((r * u) * (r * u) == (r * r) * (u * u)) by (nonlinear_arith);
    assert(((r + 1) * u) * ((r + 1) * u) == ((r + 1) * (r + 1)) * (u * u)) by (nonlinear_arith);
    assert((r * r) * (u * u) <= w * (u * u)) by (nonlinear_arith)
        requires
            r * r <= w,
    ;
    assert(w * (u * u) < ((r + 1) * (r + 1)) * (u * u)) by (nonlinear_arith)
        requires
            w < (r + 1) * (r + 1),
            u > 0,
    ;
    if big < r * u {
        assert((big + 1) * (big + 1) <= (r * u) * (r * u)) by (nonlinear_arith)
            requires
                big + 1 <= r * u,
        ;
    }
    if big >= (r + 1) * u {
        assert(((r + 1) * u) * ((r + 1) * u) <= big * big) by (nonlinear_arith)
            requires
                (r + 1) * u <= big,
        ;
    }
    if r * r == w {
        assert((r * u) * (r * u) < (r * u + 1) * (r * u + 1)) by (nonlinear_arith);
        lemma_one_root(n, big, r * u);
    } else {
        assert((r * r) * (u * u) < w * (u * u)) by (nonlinear_arith)
            requires
                r * r < w,
                u > 0,
        ;
    }
}

proof fn lemma_bracket_form(r: nat, u: nat, big: nat, d: nat, sticky: bool)
    requires
        r * u <= big < (r + 1) * u,
        !sticky ==> big == r * u && d == 2 * big,
        sticky ==> (big > r * u && 2 * big <= d <= 2 * big + 1) || d == 2 * big + 1,
    ensures
        sticky ==> r * (2 * u) < d < (r + 1) * (2 * u),
        !sticky ==> d == r * (2 * u),
{
    assert(r * (2 * u) == 2 * (r * u)) by (nonlinear_arith);
    assert((r + 1) * (2 * u) == 2 * ((r + 1) * u)) by (nonlinear_arith);
}

impl Float32 {
    /// The square root; not a number for a negative one.
    pub fn sqrt(self) -> (r: Float32)
        ensures
            r == self.spec_sqrt(),
    {
        proof {
            reveal(Float32::spec_sqrt);
        }
        let a = self.mag();
        if a == 0 {
            return self;
        }
        if a > INFINITE || self.bits >= SIGN {
            return Float32 { bits: 0x7fc0_0000 };
        }
        if a == INFINITE {
            return self;
        }
        let (ma, ea) = parts(a);
        // an even power of two in front: steps * 2^149 == m * 2^(2 h)
        let (m, h, shift): (u32, u32, u32) = if ea % 2 == 0 {
            (2 * ma, (ea + 148) / 2, 61)
        } else {
            (ma, (ea + 149) / 2, 60)
        };
        let ghost n = self.abs_steps() * one();
        proof {
            lemma_even_power(ma as nat, ea as nat, m as nat, h as nat);
        }
        let wide: u128 = shifted(ma, shift);
        proof {
            lemma2_to64();
            lemma2_to64_rest();
            assert(wide == m * pow2(60));
            assert(m * pow2(60) < 0x1_0000_0000_0000_0000_0000_0000_0000) by (nonlinear_arith)
                requires
                    m < 0x200_0000,
                    pow2(60) == 0x1000_0000_0000_0000,
            ;
        }
        let root: u64 = integer_root(wide);
        let square: u128 = root as u128 * root as u128;
        proof {
            lemma_root_bracket(m as nat, h as nat, root as nat);
            assert(root >= pow2(24)) by (nonlinear_arith)
                requires
                    (root + 1) * (root + 1) > m * pow2(60),
                    m >= 1,
                    pow2(60) == 0x1000_0000_0000_0000,
                    pow2(24) == 0x100_0000,
            ;
            lemma_pow2_strictly_increases(63, 126);
            lemma_pow2_strictly_increases(64, 126);
        }
        round_pack(
            false,
            root as u128,
            h as i32 - 30,
            square != wide,
            Ghost(doubled_root(n)),
            Ghost(2),
        )
    }
}

proof fn lemma_even_power(ma: nat, ea: nat, m: nat, h: nat)
    requires
        ea % 2 == 0 ==> m == 2 * ma && 2 * h == ea + 148,
        ea % 2 == 1 ==> m == ma && 2 * h == ea + 149,
    ensures
        (ma * pow2(ea)) * pow2(149) == m * pow2(2 * h),
{
    lemma_pow2_adds(ea, 149);
    lemma_mul_is_associative(ma as int, pow2(ea) as int, pow2(149) as int);
    if ea % 2 == 0 {
        lemma_pow2_adds(1, ea + 148);
        lemma2_to64();
        lemma_mul_is_associative(2, ma as int, pow2(ea + 148) as int);
        lemma_mul_is_associative(ma as int, 2, pow2(ea + 148) as int);
        lemma_mul_is_commutative(2, ma as int);
    }
}

} // verus!
