//! IEEE 754 single-precision arithmetic on bit patterns.
//!
//! Pixel statistics, tone curves and detector boxes are single-precision numbers. Here each
//! is held as its 32-bit pattern, and the operations are defined by what they mean: the exact
//! result, rounded to the nearest representable number with ties to even. A finite number is
//! a whole multiple of `2^-149`, so exact values are integers counted in that step.
use crate::rounding::{brackets, lemma_one_shl, nearest, rounded};
use vstd::arithmetic::div_mod::*;
use vstd::arithmetic::mul::*;
use vstd::arithmetic::power2::*;
use vstd::prelude::*;

verus! {

/// The magnitude bits of infinity; larger magnitudes are not-a-number patterns.
pub const INFINITE: u32 = 0x7f80_0000;

/// The lowest bit pattern with the sign bit set.
pub const SIGN: u32 = 0x8000_0000;

/// One more than the largest significand field.
pub const HIDDEN: u32 = 0x80_0000;

/// A single-precision number.
#[derive(Clone, Copy, Debug, PartialEq, Eq, Structural)]
pub struct Float32 {
    pub bits: u32,
}

/// How many steps of `2^-149` the magnitude pattern `mag` stands for. The pattern of infinity
/// counts as `2^128`, the number that would follow the largest finite one.
pub open spec fn steps(mag: nat) -> nat {
    if mag < HIDDEN {
        mag
    } else {
        (HIDDEN + mag % (HIDDEN as nat)) as nat * pow2((mag / (HIDDEN as nat) - 1) as nat)
    }
}

/// The magnitude pattern nearest to `n / d` steps, ties to the even pattern.
pub open spec fn round_magnitude(n: nat, d: nat) -> nat {
    let (k, e) = rounded(24, n, d);
    let mag = e * HIDDEN as nat + k;
    if mag < INFINITE {
        mag
    } else {
        INFINITE as nat
    }
}

/// The number of steps in one.
pub open spec fn one() -> nat {
    pow2(149)
}

impl Float32 {
    pub open spec fn magnitude(self) -> nat {
        self.bits as nat % SIGN as nat
    }

    pub open spec fn is_negative(self) -> bool {
        self.bits >= SIGN
    }

    pub open spec fn is_nan(self) -> bool {
        self.magnitude() > INFINITE
    }

    pub open spec fn is_infinite(self) -> bool {
        self.magnitude() == INFINITE
    }

    pub open spec fn is_finite(self) -> bool {
        self.magnitude() < INFINITE
    }

    pub open spec fn is_zero(self) -> bool {
        self.magnitude() == 0
    }

    /// The absolute value of a finite number, in steps.
    pub open spec fn abs_steps(self) -> nat {
        steps(self.magnitude())
    }

    /// The value of a finite number, in steps.
    pub open spec fn signed_steps(self) -> int {
        if self.is_negative() {
            -self.abs_steps()
        } else {
            self.abs_steps() as int
        }
    }

    /// Where the number stands in the order of the numbers; both zeros are 0.
    pub open spec fn rank(self) -> int {
        if self.is_negative() {
            -self.magnitude()
        } else {
            self.magnitude() as int
        }
    }

    pub open spec fn pack(negative: bool, mag: nat) -> Float32 {
        Float32 {
            bits: (if negative {
                SIGN + mag
            } else {
                mag as int
            }) as u32,
        }
    }

    /// What an operation without a meaningful result gives.
    pub open spec fn nan() -> Float32 {
        Float32 { bits: 0x7fc0_0000 }
    }

    pub open spec fn spec_neg(self) -> Float32 {
        Float32::pack(!self.is_negative(), self.magnitude())
    }

    #[verifier::opaque]
    pub open spec fn spec_add(self, other: Float32) -> Float32 {
        if self.is_nan() || other.is_nan() {
            Float32::nan()
        } else if self.is_infinite() {
            if other.is_infinite() && self.is_negative() != other.is_negative() {
                Float32::nan()
            } else {
                self
            }
        } else if other.is_infinite() {
            other
        } else {
            let sum = self.signed_steps() + other.signed_steps();
            if sum == 0 {
                Float32::pack(self.is_negative() && other.is_negative(), 0)
            } else if sum < 0 {
                Float32::pack(true, round_magnitude((-sum) as nat, 1))
            } else {
                Float32::pack(false, round_magnitude(sum as nat, 1))
            }
        }
    }

    pub open spec fn spec_sub(self, other: Float32) -> Float32 {
        self.spec_add(other.spec_neg())
    }

    #[verifier::opaque]
    pub open spec fn spec_mul(self, other: Float32) -> Float32 {
        let negative = self.is_negative() != other.is_negative();
        if self.is_nan() || other.is_nan() {
            Float32::nan()
        } else if self.is_infinite() || other.is_infinite() {
            if self.is_zero() || other.is_zero() {
                Float32::nan()
            } else {
                Float32::pack(negative, INFINITE as nat)
            }
        } else {
            Float32::pack(
                negative,
                round_magnitude(self.abs_steps() * other.abs_steps(), one()),
            )
        }
    }

    #[verifier::opaque]
    pub open spec fn spec_div(self, other: Float32) -> Float32 {
        let negative = self.is_negative() != other.is_negative();
        if self.is_nan() || other.is_nan() {
            Float32::nan()
        } else if self.is_infinite() {
            if other.is_infinite() {
                Float32::nan()
            } else {
                Float32::pack(negative, INFINITE as nat)
            }
        } else if other.is_infinite() {
            Float32::pack(negative, 0)
        } else if other.is_zero() {
            if self.is_zero() {
                Float32::nan()
            } else {
                Float32::pack(negative, INFINITE as nat)
            }
        } else {
            Float32::pack(
                negative,
                round_magnitude(self.abs_steps() * one(), other.abs_steps()),
            )
        }
    }

    /// Strictly less; false when either side is not a number.
    pub open spec fn spec_lt(self, other: Float32) -> bool {
        !self.is_nan() && !other.is_nan() && self.rank() < other.rank()
    }

    /// Less or equal; false when either side is not a number.
    pub open spec fn spec_le(self, other: Float32) -> bool {
        !self.is_nan() && !other.is_nan() && self.rank() <= other.rank()
    }

    /// The larger of two numbers; the other one when one is not a number.
    pub open spec fn spec_max(self, other: Float32) -> Float32 {
        if self.is_nan() || self.spec_lt(other) {
            other
        } else {
            self
        }
    }

    /// The smaller of two numbers; the other one when one is not a number.
    pub open spec fn spec_min(self, other: Float32) -> Float32 {
        if self.is_nan() || other.spec_lt(self) {
            other
        } else {
            self
        }
    }

    /// The nearest number in `low..=high`; what is not a number stays as it is.
    pub open spec fn spec_clamp(self, low: Float32, high: Float32) -> Float32 {
        if self.spec_lt(low) {
            low
        } else if high.spec_lt(self) {
            high
        } else {
            self
        }
    }

    #[verifier::opaque]
    pub open spec fn spec_from_u64(x: u64) -> Float32 {
        Float32::pack(false, round_magnitude(x as nat * one(), 1))
    }

    /// The nearest whole number, halves away from zero, cut to the range of `u32`; 0 for what
    /// is not a number.
    #[verifier::opaque]
    pub open spec fn spec_round_to_u32(self) -> u32 {
        if self.is_nan() || self.is_negative() {
            0
        } else if self.is_infinite() {
            u32::MAX
        } else {
            let whole = (2 * self.abs_steps() + one()) / (2 * one());
            if whole < u32::MAX {
                whole as u32
            } else {
                u32::MAX
            }
        }
    }

    /// The whole part, cut to the range of `u32`; 0 for what is not a number.
    #[verifier::opaque]
    pub open spec fn spec_trunc_to_u32(self) -> u32 {
        if self.is_nan() || self.is_negative() {
            0
        } else if self.is_infinite() {
            u32::MAX
        } else {
            let whole = self.abs_steps() / one();
            if whole < u32::MAX {
                whole as u32
            } else {
                u32::MAX
            }
        }
    }
}

/// The significand and exponent of a finite magnitude: `steps(mag) == m * 2^e`.
pub(crate) fn parts(mag: u32) -> (r: (u32, u32))
    requires
        mag < INFINITE,
    ensures
        steps(mag as nat) == r.0 as nat * pow2(r.1 as nat),
        r.0 < 0x100_0000,
        r.1 <= 253,
        r.1 > 0 ==> r.0 >= HIDDEN,
        r.0 > 0 <==> mag > 0,
        r.1 == (if mag < HIDDEN { 0 } else { mag / HIDDEN - 1 }),
{
    proof {
        lemma2_to64();
        lemma_mul_basics(mag as int);
    }
    if mag < HIDDEN {
        (mag, 0)
    } else {
        (HIDDEN + mag % HIDDEN, mag / HIDDEN - 1)
    }
}

/// Larger magnitudes stand for larger numbers.
pub proof fn lemma_steps_increase(a: nat, b: nat)
    requires
        a < b,
    ensures
        steps(a) < steps(b),
{
    let h = HIDDEN as nat;
    if b >= h {
        let eb = (b / h - 1) as nat;
        let mb = (h + b % h) as nat;
        lemma_pow2_pos(eb);
        if a < h {
            assert(mb * pow2(eb) >= mb) by (nonlinear_arith)
                requires
                    pow2(eb) >= 1,
            ;
        } else {
            let ea = (a / h - 1) as nat;
            let ma = (h + a % h) as nat;
            lemma_pow2_pos(ea);
            if ea == eb {
                assert(ma * pow2(ea) < mb * pow2(ea)) by (nonlinear_arith)
                    requires
                        ma < mb,
                        pow2(ea) >= 1,
                ;
            } else {
                assert(ea < eb);
                lemma_pow2_adds(ea, (eb - ea) as nat);
                lemma_pow2_unfold((eb - ea) as nat);
                lemma_pow2_pos((eb - ea - 1) as nat);
                lemma_binade_order(
                    ma as int,
                    mb as int,
                    h as int,
                    pow2(ea) as int,
                    pow2((eb - ea) as nat) as int,
                );
            }
        }
    }
}

proof fn lemma_binade_order(ma: int, mb: int, h: int, p: int, f: int)
    by (nonlinear_arith)
    requires
        0 <= ma < 2 * h,
        h <= mb,
        f >= 2,
        p >= 1,
    ensures
        ma * p < mb * (p * f),
{
    assert(p * f >= 2 * p);
    assert(mb * (p * f) >= h * (2 * p));
    assert(ma * p < (2 * h) * p);
}

/// Packs a bracketed value, rounded.
pub(crate) fn round_pack(
    negative: bool,
    m: u128,
    s: i32,
    sticky: bool,
    Ghost(n): Ghost<nat>,
    Ghost(d): Ghost<nat>,
) -> (r: Float32)
    requires
        -4000 <= s <= 4000,
        0 < m,
        m < pow2(126),
        d > 0,
        sticky ==> m >= pow2(24),
        brackets(n, d, m as nat, s as int, sticky),
    ensures
        r == Float32::pack(negative, round_magnitude(n, d)),
{
    let (k, e) = nearest(24, m, s, sticky, Ghost(n), Ghost(d));
    proof {
        lemma2_to64();
    }
    let full: u64 = e as u64 * HIDDEN as u64 + k;
    let mag: u32 = if full < INFINITE as u64 {
        full as u32
    } else {
        INFINITE
    };
    if negative {
        Float32 { bits: SIGN + mag }
    } else {
        Float32 { bits: mag }
    }
}

proof fn lemma_round_zero(d: nat)
    requires
        d > 0,
    ensures
        round_magnitude(0, d) == 0,
{
    lemma_pow2_pos(24);
    lemma2_to64();
    lemma_div_of0(d as int);
    assert(d * pow2(0) == d);
    lemma_small_mod(0, d);
}

/// The bracket of a product of two finite numbers.
proof fn lemma_product_bracket(ma: nat, ea: nat, mb: nat, eb: nat)
    ensures
        brackets(
            (ma * pow2(ea)) * (mb * pow2(eb)),
            one(),
            ma * mb,
            ea + eb - 149,
            false,
        ),
{
    let s = ea + eb - 149;
    lemma2_to64();
    lemma_pow2_adds(ea, eb);
    let up = if s < 0 { (-s) as nat } else { 0nat };
    let down = if s < 0 { 0nat } else { s as nat };
    lemma_pow2_adds((ea + eb) as nat, up);
    lemma_pow2_adds(149, down);
    assert(ea + eb + up == 149 + down);
    lemma_product_rearranged(
        ma as int,
        pow2(ea) as int,
        mb as int,
        pow2(eb) as int,
        pow2(up) as int,
    );
}

proof fn lemma_product_rearranged(ma: int, pa: int, mb: int, pb: int, u: int)
    by (nonlinear_arith)
    ensures
        ((ma * pa) * (mb * pb)) * u == (ma * mb) * ((pa * pb) * u),
{
}

/// The bracket of a quotient of two finite numbers, from a division of significands.
proof fn lemma_quotient_bracket(ma: nat, ea: nat, mb: nat, eb: nat, q: nat, r: nat)
    requires
        mb > 0,
        ma * pow2(60) == q * mb + r,
        r < mb,
    ensures
        brackets(
            (ma * pow2(ea)) * one(),
            mb * pow2(eb),
            q,
            ea - eb + 89,
            r != 0,
        ),
{
    let s = ea - eb + 89;
    let up = if s < 0 { (-s) as nat } else { 0nat };
    let down = if s < 0 { 0nat } else { s as nat };
    lemma_pow2_adds(ea, 149);
    lemma_pow2_adds((ea + 149) as nat, up);
    lemma_pow2_adds(eb, down);
    lemma_pow2_adds(60, (eb + down) as nat);
    assert(ea + 149 + up == 60 + (eb + down));
    lemma_pow2_pos((eb + down) as nat);
    let w = pow2((eb + down) as nat) as int;
    assert(((ma * pow2(ea)) * one()) * pow2(up) == (ma * pow2(60)) * w) by {
        lemma_quotient_rearranged(
            ma as int,
            pow2(ea) as int,
            one() as int,
            pow2(up) as int,
        );
        lemma_mul_is_associative(ma as int, pow2(60) as int, w);
    }
    lemma_mul_is_associative(mb as int, pow2(eb) as int, pow2(down) as int);
    let y = mb * w;
    assert((ma * pow2(60)) * w == q * y + r * w) by (nonlinear_arith)
        requires
            ma * pow2(60) == q * mb + r,
            y == mb * w,
    ;
    assert((q + 1) * y == q * y + y) by (nonlinear_arith);
    assert(r * w < y) by (nonlinear_arith)
        requires
            r < mb,
            y == mb * w,
            w > 0,
    ;
    assert(r * w > 0 <==> r > 0) by (nonlinear_arith)
        requires
            w > 0,
            r >= 0,
    ;
}

proof fn lemma_quotient_rearranged(ma: int, pa: int, o: int, u: int)
    by (nonlinear_arith)
    ensures
        ((ma * pa) * o) * u == ma * ((pa * o) * u),
{
}

/// The bracket of a whole number of steps.
proof fn lemma_whole_bracket(n: nat, m: nat, s: int, sticky: bool)
    requires
        s >= 0,
        sticky ==> m * pow2(s as nat) < n < (m + 1) * pow2(s as nat),
        !sticky ==> n == m * pow2(s as nat),
    ensures
        brackets(n, 1, m, s, sticky),
{
    lemma2_to64();
    lemma_mul_basics(n as int);
    lemma_mul_basics(pow2(s as nat) as int);
}

/// Scaling down to the smaller exponent keeps the value.
proof fn lemma_aligned(ma: nat, ea: nat, eb: nat)
    requires
        eb <= ea,
    ensures
        ma * pow2(ea) == (ma * pow2((ea - eb) as nat)) * pow2(eb),
{
    lemma_pow2_adds((ea - eb) as nat, eb);
    lemma_mul_is_associative(ma as int, pow2((ea - eb) as nat) as int, pow2(eb) as int);
}

/// A much smaller number is less than one unit of the larger one's guard bits.
proof fn lemma_far_below(mb: nat, eb: nat, ea: nat)
    requires
        mb < 0x100_0000,
        ea - eb > 100,
    ensures
        mb * pow2(eb) < pow2((ea - 60) as nat),
        mb > 0 ==> mb * pow2(eb) > 0,
{
    lemma2_to64();
    lemma_pow2_pos(eb);
    lemma_pow2_adds(24, eb);
    lemma_pow2_strictly_increases((24 + eb) as nat, (ea - 60) as nat);
    assert(mb * pow2(eb) < pow2(24) * pow2(eb)) by (nonlinear_arith)
        requires
            mb < pow2(24),
            pow2(eb) > 0,
    ;
    assert(mb > 0 ==> mb * pow2(eb) > 0) by (nonlinear_arith)
        requires
            pow2(eb) > 0,
    ;
}

/// `m << t` for a significand.
pub(crate) fn shifted(m: u32, t: u32) -> (r: u128)
    requires
        m < 0x100_0000,
        t <= 100,
    ensures
        r == m as nat * pow2(t as nat),
        r < pow2(124),
{
    proof {
        lemma2_to64();
        lemma_pow2_adds(24, t as nat);
        lemma_pow2_pos(t as nat);
        assert(m * pow2(t as nat) < pow2(24) * pow2(t as nat)) by (nonlinear_arith)
            requires
                m < pow2(24),
                pow2(t as nat) > 0,
        ;
        if t < 100 {
            lemma_pow2_strictly_increases((24 + t) as nat, 124);
        }
        lemma_pow2_adds(62, 62);
        lemma2_to64_rest();
        assert(pow2(124) < u128::MAX);
        lemma_one_shl(t as u128);
    }
    (m as u128) * (1u128 << (t as u128))
}

/// The sum of two finite magnitudes, the first not smaller, with the given sign.
fn add_magnitudes(negative: bool, a: u32, b: u32) -> (r: Float32)
    requires
        b <= a < INFINITE,
        0 < a,
    ensures
        r == Float32::pack(negative, round_magnitude(steps(a as nat) + steps(b as nat), 1)),
{
    let (ma, ea) = parts(a);
    let (mb, eb) = parts(b);
    let ghost n = steps(a as nat) + steps(b as nat);
    let diff: u32 = ea - eb;
    proof {
        lemma2_to64();
        lemma2_to64_rest();
        lemma_pow2_adds(62, 62);
        lemma_pow2_adds(62, 64);
    }
    if diff <= 100 {
        let m: u128 = shifted(ma, diff) + mb as u128;
        proof {
            lemma_aligned(ma as nat, ea as nat, eb as nat);
            lemma_mul_is_distributive_add_other_way(
                pow2(eb as nat) as int,
                ma * pow2(diff as nat),
                mb as int,
            );
            lemma_pow2_pos(diff as nat);
            assert(ma * pow2(diff as nat) >= ma) by (nonlinear_arith)
                requires
                    pow2(diff as nat) >= 1,
            ;
            assert(m * pow2(eb as nat) == n);
            lemma_whole_bracket(n, m as nat, eb as int, false);
        }
        round_pack(negative, m, eb as i32, false, Ghost(n), Ghost(1))
    } else {
        let m: u128 = shifted(ma, 60);
        proof {
            lemma_aligned(ma as nat, ea as nat, (ea - 60) as nat);
            lemma_far_below(mb as nat, eb as nat, ea as nat);
            let y = pow2((ea - 60) as nat) as int;
            assert((m + 1) * y == m * y + y) by (nonlinear_arith);
            lemma_wide_enough(ma);
            lemma_whole_bracket(n, m as nat, ea - 60, mb != 0);
        }
        round_pack(negative, m, ea as i32 - 60, mb != 0, Ghost(n), Ghost(1))
    }
}

proof fn lemma_wide_enough(ma: u32)
    requires
        HIDDEN <= ma,
    ensures
        ma * pow2(60) >= pow2(83) >= pow2(24) + 1,
{
    lemma2_to64();
    lemma_pow2_adds(23, 60);
    lemma_pow2_strictly_increases(24, 83);
    assert(ma * pow2(60) >= pow2(23) * pow2(60)) by (nonlinear_arith)
        requires
            ma >= pow2(23),
    ;
}

/// The difference of two finite magnitudes, the first larger, with the given sign.
fn sub_magnitudes(negative: bool, a: u32, b: u32) -> (r: Float32)
    requires
        b < a < INFINITE,
    ensures
        steps(a as nat) > steps(b as nat),
        r == Float32::pack(
            negative,
            round_magnitude((steps(a as nat) - steps(b as nat)) as nat, 1),
        ),
{
    let (ma, ea) = parts(a);
    let (mb, eb) = parts(b);
    let ghost n = (steps(a as nat) - steps(b as nat)) as nat;
    let diff: u32 = ea - eb;
    proof {
        lemma_steps_increase(b as nat, a as nat);
        lemma2_to64();
        lemma2_to64_rest();
        lemma_pow2_adds(62, 62);
        lemma_pow2_adds(62, 64);
    }
    if diff <= 100 {
        let wide: u128 = shifted(ma, diff);
        proof {
            lemma_aligned(ma as nat, ea as nat, eb as nat);
            lemma_mul_is_distributive_sub_other_way(
                pow2(eb as nat) as int,
                ma * pow2(diff as nat),
                mb as int,
            );
            lemma_pow2_pos(eb as nat);
            assert(wide > mb) by (nonlinear_arith)
                requires
                    wide * pow2(eb as nat) > mb * pow2(eb as nat),
                    pow2(eb as nat) > 0,
            ;
        }
        let m: u128 = wide - mb as u128;
        proof {
            lemma_whole_bracket(n, m as nat, eb as int, false);
        }
        round_pack(negative, m, eb as i32, false, Ghost(n), Ghost(1))
    } else {
        let wide: u128 = shifted(ma, 60);
        proof {
            lemma_aligned(ma as nat, ea as nat, (ea - 60) as nat);
            lemma_far_below(mb as nat, eb as nat, ea as nat);
            lemma_wide_enough(ma);
            let y = pow2((ea - 60) as nat) as int;
            assert((wide - 1) * y == wide * y - y) by (nonlinear_arith);
        }
        if mb == 0 {
            proof {
                lemma_whole_bracket(n, wide as nat, ea - 60, false);
            }
            round_pack(negative, wide, ea as i32 - 60, false, Ghost(n), Ghost(1))
        } else {
            proof {
                lemma_whole_bracket(n, (wide - 1) as nat, ea - 60, true);
            }
            round_pack(negative, wide - 1, ea as i32 - 60, true, Ghost(n), Ghost(1))
        }
    }
}

impl Float32 {
    /// The number with the given bit pattern.
    pub fn from_bits(bits: u32) -> (r: Float32)
        ensures
            r.bits == bits,
    {
        Float32 { bits }
    }

    /// The bit pattern.
    pub fn to_bits(self) -> (r: u32)
        ensures
            r == self.bits,
    {
        self.bits
    }

    pub(crate) fn mag(self) -> (r: u32)
        ensures
            r == self.magnitude(),
    {
        self.bits % SIGN
    }

    pub fn neg(self) -> (r: Float32)
        ensures
            r == self.spec_neg(),
    {
        if self.bits >= SIGN {
            Float32 { bits: self.bits - SIGN }
        } else {
            Float32 { bits: self.bits + SIGN }
        }
    }

    pub fn add(self, other: Float32) -> (r: Float32)
        ensures
            r == self.spec_add(other),
    {
        proof {
            reveal(Float32::spec_add);
        }
        let a = self.mag();
        let b = other.mag();
        let na = self.bits >= SIGN;
        let nb = other.bits >= SIGN;
        if a > INFINITE || b > INFINITE {
            return Float32 { bits: 0x7fc0_0000 };
        }
        if a == INFINITE {
            if b == INFINITE && na != nb {
                return Float32 { bits: 0x7fc0_0000 };
            }
            return self;
        }
        if b == INFINITE {
            return other;
        }
        if a == 0 && b == 0 {
            proof {
                lemma2_to64();
            }
            return if na && nb {
                Float32 { bits: SIGN }
            } else {
                Float32 { bits: 0 }
            };
        }
        proof {
            if a > 0 {
                lemma_steps_increase(0, a as nat);
            }
            if b > 0 {
                lemma_steps_increase(0, b as nat);
            }
        }
        if na == nb {
            if a >= b {
                add_magnitudes(na, a, b)
            } else {
                add_magnitudes(na, b, a)
            }
        } else if a == b {
            Float32 { bits: 0 }
        } else if a > b {
            sub_magnitudes(na, a, b)
        } else {
            sub_magnitudes(nb, b, a)
        }
    }

    pub fn sub(self, other: Float32) -> (r: Float32)
        ensures
            r == self.spec_sub(other),
    {
        self.add(other.neg())
    }

    pub fn mul(self, other: Float32) -> (r: Float32)
        ensures
            r == self.spec_mul(other),
    {
        proof {
            reveal(Float32::spec_mul);
        }
        let a = self.mag();
        let b = other.mag();
        let negative = (self.bits >= SIGN) != (other.bits >= SIGN);
        if a > INFINITE || b > INFINITE {
            return Float32 { bits: 0x7fc0_0000 };
        }
        if a == INFINITE || b == INFINITE {
            if a == 0 || b == 0 {
                return Float32 { bits: 0x7fc0_0000 };
            }
            return if negative {
                Float32 { bits: SIGN + INFINITE }
            } else {
                Float32 { bits: INFINITE }
            };
        }
        let ghost n = self.abs_steps() * other.abs_steps();
        let ghost d = one();
        proof {
            lemma_pow2_pos(149);
        }
        if a == 0 || b == 0 {
            proof {
                lemma_round_zero(d);
                assert(n == 0) by (nonlinear_arith)
                    requires
                        n == self.abs_steps() * other.abs_steps(),
                        self.abs_steps() == 0 || other.abs_steps() == 0,
                ;
            }
            return if negative {
                Float32 { bits: SIGN }
            } else {
                Float32 { bits: 0 }
            };
        }
        let (ma, ea) = parts(a);
        let (mb, eb) = parts(b);
        proof {
            lemma_product_bracket(ma as nat, ea as nat, mb as nat, eb as nat);
            assert(0 < ma * mb < 0x1_0000_0000_0000) by (nonlinear_arith)
                requires
                    0 < ma < 0x100_0000,
                    0 < mb < 0x100_0000,
            ;
            lemma2_to64();
            lemma2_to64_rest();
            lemma_pow2_strictly_increases(48, 126);
        }
        let m: u128 = ma as u128 * mb as u128;
        round_pack(negative, m, ea as i32 + eb as i32 - 149, false, Ghost(n), Ghost(d))
    }

    pub fn div(self, other: Float32) -> (r: Float32)
        ensures
            r == self.spec_div(other),
    {
        proof {
            reveal(Float32::spec_div);
        }
        let a = self.mag();
        let b = other.mag();
        let negative = (self.bits >= SIGN) != (other.bits >= SIGN);
        let infinity = if negative {
            Float32 { bits: SIGN + INFINITE }
        } else {
            Float32 { bits: INFINITE }
        };
        let zero = if negative {
            Float32 { bits: SIGN }
        } else {
            Float32 { bits: 0 }
        };
        if a > INFINITE || b > INFINITE {
            return Float32 { bits: 0x7fc0_0000 };
        }
        if a == INFINITE {
            return if b == INFINITE {
                Float32 { bits: 0x7fc0_0000 }
            } else {
                infinity
            };
        }
        if b == INFINITE {
            return zero;
        }
        if b == 0 {
            return if a == 0 {
                Float32 { bits: 0x7fc0_0000 }
            } else {
                infinity
            };
        }
        let ghost n = self.abs_steps() * one();
        let ghost d = other.abs_steps();
        proof {
            lemma_steps_increase(0, b as nat);
        }
        if a == 0 {
            proof {
                lemma_round_zero(d);
                lemma_mul_basics(one() as int);
            }
            return zero;
        }
        let (ma, ea) = parts(a);
        let (mb, eb) = parts(b);
        let wide: u128 = shifted(ma, 60);
        let q: u128 = wide / mb as u128;
        let rest: u128 = wide % mb as u128;
        proof {
            lemma_fundamental_div_mod(wide as int, mb as int);
            lemma_mul_is_commutative(mb as int, q as int);
            lemma_quotient_bracket(
                ma as nat,
                ea as nat,
                mb as nat,
                eb as nat,
                q as nat,
                rest as nat,
            );
            lemma2_to64();
            lemma2_to64_rest();
            lemma_pow2_strictly_increases(124, 126);
            assert(ma * pow2(60) >= pow2(60)) by (nonlinear_arith)
                requires
                    ma >= 1,
            ;
            assert(q >= pow2(24) && q <= wide) by (nonlinear_arith)
                requires
                    wide == q * mb + rest,
                    wide >= 0x1000_0000_0000_000,
                    pow2(24) == 0x100_0000,
                    0 < mb < 0x100_0000,
                    0 <= rest < mb,
            ;
        }
        round_pack(
            negative,
            q,
            ea as i32 - eb as i32 + 89,
            rest != 0,
            Ghost(n),
            Ghost(d),
        )
    }

    /// Strictly less; false when either side is not a number.
    pub fn lt(self, other: Float32) -> (r: bool)
        ensures
            r == self.spec_lt(other),
    {
        let a = self.mag();
        let b = other.mag();
        if a > INFINITE || b > INFINITE {
            return false;
        }
        let ra: i64 = if self.bits >= SIGN {
            -(a as i64)
        } else {
            a as i64
        };
        let rb: i64 = if other.bits >= SIGN {
            -(b as i64)
        } else {
            b as i64
        };
        ra < rb
    }

    /// Less or equal; false when either side is not a number.
    pub fn le(self, other: Float32) -> (r: bool)
        ensures
            r == self.spec_le(other),
    {
        let a = self.mag();
        let b = other.mag();
        a <= INFINITE && b <= INFINITE && !other.lt(self)
    }

    pub fn max(self, other: Float32) -> (r: Float32)
        ensures
            r == self.spec_max(other),
    {
        if self.mag() > INFINITE || self.lt(other) {
            other
        } else {
            self
        }
    }

    pub fn min(self, other: Float32) -> (r: Float32)
        ensures
            r == self.spec_min(other),
    {
        if self.mag() > INFINITE || other.lt(self) {
            other
        } else {
            self
        }
    }

    pub fn clamp(self, low: Float32, high: Float32) -> (r: Float32)
        ensures
            r == self.spec_clamp(low, high),
    {
        if self.lt(low) {
            low
        } else if high.lt(self) {
            high
        } else {
            self
        }
    }

    /// The number nearest to `x`.
    pub fn from_u64(x: u64) -> (r: Float32)
        ensures
            r == Float32::spec_from_u64(x),
    {
        proof {
            reveal(Float32::spec_from_u64);
        }
        let ghost n = x as nat * one();
        if x == 0 {
            proof {
                lemma_round_zero(1);
                lemma_mul_basics(one() as int);
            }
            return Float32 { bits: 0 };
        }
        proof {
            lemma2_to64();
            lemma_whole_bracket(n, x as nat, 149, false);
            lemma_pow2_strictly_increases(64, 126);
        }
        round_pack(false, x as u128, 149, false, Ghost(n), Ghost(1))
    }
}

impl Float32 {
    /// The nearest whole number, halves away from zero, cut to the range of `u32`; 0 for what
    /// is not a number.
    pub fn round_to_u32(self) -> (r: u32)
        ensures
            r == self.spec_round_to_u32(),
    {
        proof {
            reveal(Float32::spec_round_to_u32);
        }
        let a = self.mag();
        if a > INFINITE || self.bits >= SIGN {
            return 0;
        }
        if a == INFINITE {
            return u32::MAX;
        }
        let (m, e) = parts(a);
        let ghost v = self.abs_steps();
        if e >= 149 {
            proof {
                lemma_whole(m as nat, e as nat);
                lemma_div_of_half(v);
            }
            return whole_steps(m, e);
        }
        let t: u32 = 149 - e;
        proof {
            lemma_aligned_one(e as nat);
            lemma_pow2_pos(e as nat);
            lemma_pow2_pos(t as nat);
            lemma2_to64();
            let p = pow2(e as nat) as int;
            let h = pow2(t as nat) as int;
            // (2 v + one) / (2 one) == (2 m + h) / (2 h)
            assert(2 * v + one() == p * (2 * m + h)) by (nonlinear_arith)
                requires
                    v == m * p,
                    one() == h * p,
            ;
            assert(2 * one() == p * (2 * h)) by (nonlinear_arith)
                requires
                    one() == h * p,
            ;
            assert(2 * h > 0);
            lemma_div_common(2 * m + h, 2 * h, p);
        }
        if t > 25 {
            proof {
                lemma_pow2_strictly_increases(25, t as nat);
                lemma_basic_div(2 * m + pow2(t as nat), 2 * pow2(t as nat) as int);
            }
            return 0;
        }
        proof {
            lemma_one_shl_u64(t as u64);
            if t < 25 {
                lemma_pow2_strictly_increases(t as nat, 25);
            }
        }
        let h: u64 = 1u64 << (t as u64);
        let r: u64 = (2 * m as u64 + h) / (2 * h);
        proof {
            lemma_div_nonincreasing(2 * m + h, 2 * h as int);
        }
        r as u32
    }

    /// The whole part, cut to the range of `u32`; 0 for what is not a number.
    pub fn trunc_to_u32(self) -> (r: u32)
        ensures
            r == self.spec_trunc_to_u32(),
    {
        proof {
            reveal(Float32::spec_trunc_to_u32);
        }
        let a = self.mag();
        if a > INFINITE || self.bits >= SIGN {
            return 0;
        }
        if a == INFINITE {
            return u32::MAX;
        }
        let (m, e) = parts(a);
        let ghost v = self.abs_steps();
        if e >= 149 {
            proof {
                lemma_whole(m as nat, e as nat);
            }
            return whole_steps(m, e);
        }
        let t: u32 = 149 - e;
        proof {
            lemma_aligned_one(e as nat);
            lemma_pow2_pos(e as nat);
            lemma_pow2_pos(t as nat);
            lemma2_to64();
            lemma_div_common(m as int, pow2(t as nat) as int, pow2(e as nat) as int);
        }
        if t > 25 {
            proof {
                lemma_pow2_strictly_increases(25, t as nat);
                lemma_basic_div(m as int, pow2(t as nat) as int);
            }
            return 0;
        }
        proof {
            lemma_one_shl_u64(t as u64);
            if t < 25 {
                lemma_pow2_strictly_increases(t as nat, 25);
            }
        }
        let h: u64 = 1u64 << (t as u64);
        let r: u64 = m as u64 / h;
        proof {
            lemma_div_nonincreasing(m as int, h as int);
        }
        r as u32
    }
}

proof fn lemma_one_shl_u64(t: u64)
    requires
        t < 64,
    ensures
        1u64 << t == pow2(t as nat),
{
    vstd::bits::lemma_u64_pow2_no_overflow(t as nat);
    vstd::bits::lemma_u64_shl_is_mul(1, t);
    lemma_mul_basics(pow2(t as nat) as int);
}

/// One, split at exponent `e`.
proof fn lemma_aligned_one(e: nat)
    requires
        e <= 149,
    ensures
        one() == pow2((149 - e) as nat) * pow2(e),
{
    lemma_pow2_adds((149 - e) as nat, e);
}

/// A common factor of dividend and divisor cancels.
proof fn lemma_div_common(a: int, b: int, p: int)
    requires
        b > 0,
        p > 0,
    ensures
        p * b > 0,
        (p * a) / (p * b) == a / b,
        (a * p) / (b * p) == a / b,
{
    lemma_mul_strictly_positive(p, b);
    lemma_fundamental_div_mod(a, b);
    let q = a / b;
    let r = a % b;
    assert(p * a == q * (p * b) + p * r && 0 <= p * r < p * b) by (nonlinear_arith)
        requires
            a == b * q + r,
            0 <= r < b,
            p > 0,
    ;
    lemma_fundamental_div_mod_converse(p * a, p * b, q, p * r);
    lemma_mul_is_commutative(a, p);
    lemma_mul_is_commutative(b, p);
}

/// From exponent 149 on a number is whole.
proof fn lemma_whole(m: nat, e: nat)
    requires
        e >= 149,
    ensures
        m * pow2(e) == (m * pow2((e - 149) as nat)) * one(),
        (m * pow2(e)) / one() == m * pow2((e - 149) as nat),
        (m * pow2(e)) % one() == 0,
{
    lemma_pow2_pos(149);
    lemma_aligned(m, e, 149);
    lemma_fundamental_div_mod_converse(
        (m * pow2(e)) as int,
        one() as int,
        (m * pow2((e - 149) as nat)) as int,
        0,
    );
}

/// Rounding a whole number of ones changes nothing.
proof fn lemma_div_of_half(v: nat)
    requires
        v % one() == 0,
    ensures
        (2 * v + one()) / (2 * one()) == v / one(),
{
    lemma_pow2_pos(149);
    let o = one() as int;
    lemma_fundamental_div_mod(v as int, o);
    let q = v as int / o;
    assert(2 * v + o == q * (2 * o) + o) by (nonlinear_arith)
        requires
            v == o * q,
    ;
    lemma_fundamental_div_mod_converse(2 * v + o, 2 * o, q, o);
}

/// A whole number given by significand and exponent, cut to the range of `u32`.
fn whole_steps(m: u32, e: u32) -> (r: u32)
    requires
        149 <= e <= 253,
        HIDDEN <= m < 0x100_0000,
    ensures
        r == (if m * pow2((e - 149) as nat) < u32::MAX {
            m * pow2((e - 149) as nat)
        } else {
            u32::MAX as int
        }),
{
    let t: u32 = e - 149;
    proof {
        lemma2_to64();
    }
    if t > 8 {
        proof {
            lemma_pow2_strictly_increases(8, t as nat);
            lemma_pow2_unfold(t as nat);
            lemma_pow2_unfold(9);
            if t > 9 {
                lemma_pow2_strictly_increases(9, t as nat);
            }
            assert(m * pow2(t as nat) >= 0x80_0000 * 512) by (nonlinear_arith)
                requires
                    m >= 0x80_0000,
                    pow2(t as nat) >= 512,
            ;
        }
        return u32::MAX;
    }
    proof {
        lemma_one_shl_u64(t as u64);
        if t < 8 {
            lemma_pow2_strictly_increases(t as nat, 8);
        }
        assert(m * pow2(t as nat) < 0x100_0000 * 257) by (nonlinear_arith)
            requires
                m < 0x100_0000,
                pow2(t as nat) <= 256,
        ;
    }
    let w: u64 = (m as u64) * (1u64 << (t as u64));
    if w < u32::MAX as u64 {
        w as u32
    } else {
        u32::MAX
    }
}

} // verus!
