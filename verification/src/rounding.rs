//! Rounding a ratio of naturals to a limited number of significant bits,
//! to the nearest with ties to even: the rule behind every floating-point
//! operation of this crate.
use vstd::arithmetic::div_mod::*;
use vstd::arithmetic::mul::*;
use vstd::arithmetic::power2::*;
use vstd::prelude::*;

verus! {

/// How many low bits of `q` have to go so that the rest fits in `p` bits.
pub open spec fn excess_bits(p: nat, q: nat) -> nat
    decreases q,
{
    if q < pow2(p) {
        0
    } else {
        proof {
            lemma_pow2_pos(p);
        }
        1 + excess_bits(p, q / 2)
    }
}

/// The natural nearest to `n / d`; of two equally near ones, the even one.
pub open spec fn round_half_even(n: nat, d: nat) -> nat {
    let k = n / d;
    let r = n % d;
    if 2 * r > d || (2 * r == d && k % 2 == 1) {
        k + 1
    } else {
        k
    }
}

/// `n / d` rounded to `p` significant bits, but never finer than whole units.
/// The pair `(k, e)` stands for `k * 2^e`.
pub open spec fn rounded(p: nat, n: nat, d: nat) -> (nat, nat) {
    let e = excess_bits(p, n / d);
    (round_half_even(n, d * pow2(e)), e)
}

/// `m * 2^s` is at most `n / d`, and `n / d` lies less than one unit `2^s` above it.
/// Without `sticky` the two are equal; with it they differ.
pub open spec fn brackets(n: nat, d: nat, m: nat, s: int, sticky: bool) -> bool {
    let x = n * pow2(if s < 0 { (-s) as nat } else { 0 });
    let y = d * pow2(if s < 0 { 0 } else { s as nat });
    if sticky {
        m * y < x < (m + 1) * y
    } else {
        x == m * y
    }
}

pub proof fn lemma_excess_bits(p: nat, q: nat, e: nat)
    requires
        q < pow2(p + e),
        e > 0 ==> pow2((p + e - 1) as nat) <= q,
    ensures
        excess_bits(p, q) == e,
    decreases e,
{
    lemma_pow2_pos(p);
    if e > 0 {
        if e > 1 {
            lemma_pow2_strictly_increases(p, (p + e - 1) as nat);
        }
        lemma_pow2_unfold((p + e) as nat);
        if e > 1 {
            lemma_pow2_unfold((p + e - 1) as nat);
        }
        assert(q / 2 < pow2((p + (e - 1)) as nat));
        lemma_excess_bits(p, q / 2, (e - 1) as nat);
    }
}

/// Bounds that `excess_bits` itself satisfies.
pub proof fn lemma_excess_bits_bounds(p: nat, q: nat)
    ensures
        q < pow2(p + excess_bits(p, q)),
        excess_bits(p, q) > 0 ==> pow2((p + excess_bits(p, q) - 1) as nat) <= q,
    decreases q,
{
    lemma_pow2_pos(p);
    if q >= pow2(p) {
        lemma_excess_bits_bounds(p, q / 2);
        let e = excess_bits(p, q / 2);
        lemma_pow2_unfold((p + e + 1) as nat);
        if e > 0 {
            lemma_pow2_unfold((p + e) as nat);
        }
    }
}

proof fn lemma_swap(a: int, b: int, c: int)
    by (nonlinear_arith)
    ensures
        a * b * c == (a * c) * b,
{
}

proof fn lemma_swap_inner(a: int, b: int, c: int, f: int)
    by (nonlinear_arith)
    ensures
        a * (b * c) * f == (a * c * f) * b,
{
}

/// The exponent that rounding picks, read off the bracket.
proof fn lemma_bracket_exponent(p: nat, n: nat, d: nat, m: nat, s: int, sticky: bool, len: nat)
    requires
        d > 0,
        len > 0,
        pow2((len - 1) as nat) <= m < pow2(len),
        brackets(n, d, m, s, sticky),
    ensures
        excess_bits(p, n / d) == (if len + s > p { (len + s - p) as nat } else { 0 }),
{
    let up = if s < 0 { (-s) as nat } else { 0nat };
    let down = if s < 0 { 0nat } else { s as nat };
    let x = n * pow2(up);
    let y = d * pow2(down);
    lemma_pow2_pos(up);
    lemma_pow2_pos(down);
    assert(y > 0) by (nonlinear_arith)
        requires
            y == d * pow2(down),
            d > 0,
            pow2(down) > 0,
    ;
    let e: nat = if len + s > p { (len + s - p) as nat } else { 0 };
    let q = n / d;
    // Upper bound: n / d < 2^(len + s) and so below 2^(p + e).
    assert(x < pow2(len) * y) by (nonlinear_arith)
        requires
            x < (m + 1) * y || x == m * y,
            m + 1 <= pow2(len),
            y > 0,
    ;
    let hi = (p + e) as nat;
    assert(len + s <= hi);
    let gap = (hi - (len + s)) as nat;
    // 2^hi * 2^up == 2^len * 2^down * 2^gap
    lemma_pow2_adds(hi, up);
    lemma_pow2_adds(len, down);
    lemma_pow2_adds((len + down) as nat, gap);
    assert(hi + up == len + down + gap);
    lemma_pow2_pos(gap);
    assert(n < pow2(hi) * d) by (nonlinear_arith)
        requires
            n * pow2(up) == x,
            x < pow2(len) * y,
            y == d * pow2(down),
            pow2(hi) * pow2(up) == pow2(len) * pow2(down) * pow2(gap),
            pow2(gap) >= 1,
            pow2(up) > 0,
            pow2(len) >= 0,
            pow2(down) > 0,
            d > 0,
    {
        lemma_swap(pow2(hi) as int, d as int, pow2(up) as int);
        lemma_swap_inner(pow2(len) as int, d as int, pow2(down) as int, pow2(gap) as int);
        assert(pow2(len) * y * pow2(gap) >= pow2(len) * y) by (nonlinear_arith)
            requires
                pow2(gap) >= 1,
                pow2(len) * y >= 0,
        ;
        assert(n * pow2(up) < pow2(hi) * d * pow2(up));
    }
    assert(q < pow2(hi)) by {
        lemma_fundamental_div_mod(n as int, d as int);
        assert(q < pow2(hi)) by (nonlinear_arith)
            requires
                n < pow2(hi) * d,
                n == d * q + n % d,
                n % d >= 0,
                d > 0,
        ;
    }
    if e > 0 {
        let lo = (p + e - 1) as nat;
        assert(lo + up == len - 1 + down);
        lemma_pow2_adds(lo, up);
        lemma_pow2_adds((len - 1) as nat, down);
        assert(pow2(lo) * d <= n) by (nonlinear_arith)
            requires
                n * pow2(up) == x,
                m * y <= x,
                pow2((len - 1) as nat) <= m,
                y == d * pow2(down),
                pow2(lo) * pow2(up) == pow2((len - 1) as nat) * pow2(down),
                pow2(up) > 0,
                d > 0,
                y > 0,
        {
            lemma_swap(pow2(lo) as int, d as int, pow2(up) as int);
            lemma_swap_inner(pow2((len - 1) as nat) as int, d as int, pow2(down) as int, 1);
            assert(pow2((len - 1) as nat) * y <= m * y) by (nonlinear_arith)
                requires
                    pow2((len - 1) as nat) <= m,
                    y > 0,
            ;
            assert(pow2(lo) * d * pow2(up) <= n * pow2(up));
        }
        assert(pow2(lo) <= q) by {
            lemma_fundamental_div_mod(n as int, d as int);
            assert(pow2(lo) <= q) by (nonlinear_arith)
                requires
                    pow2(lo) * d <= n,
                    n == d * q + n % d,
                    n % d < d,
                    d > 0,
            ;
        }
    }
    lemma_excess_bits(p, q, e);
}

/// Dropping `t >= 1` bits of a bracketed value: the quotient, and on which side of the
/// half-way point the remainder falls, can be read off `m` and `sticky` alone.
proof fn lemma_bracket_drop(n: nat, d: nat, m: nat, s: int, sticky: bool, e: nat)
    requires
        d > 0,
        e > s,
        brackets(n, d, m, s, sticky),
    ensures
        ({
            let unit = d * pow2(e);
            let h = pow2((e - s) as nat);
            let low = m % h;
            let r = n % unit;
            &&& unit > 0
            &&& h > 0
            &&& n / unit == m / h
            &&& (2 * r > unit <==> 2 * low > h || (2 * low == h && sticky))
            &&& (2 * r == unit <==> 2 * low == h && !sticky)
        }),
{
    let up = if s < 0 { (-s) as nat } else { 0nat };
    let down = if s < 0 { 0nat } else { s as nat };
    let t = (e - s) as nat;
    let g = pow2(up) as int;
    let x = n * pow2(up);
    let y = (d * pow2(down)) as int;
    let h = pow2(t) as int;
    let unit = (d * pow2(e)) as int;
    lemma_pow2_pos(up);
    lemma_pow2_pos(down);
    lemma_pow2_pos(t);
    lemma_pow2_pos(e);
    lemma_mul_strictly_positive(d as int, pow2(down) as int);
    lemma_mul_strictly_positive(d as int, pow2(e) as int);
    lemma_pow2_unfold(t);
    // unit * 2^up == y * 2^t
    lemma_pow2_adds(e, up);
    lemma_pow2_adds(t, down);
    assert(e + up == t + down);
    lemma_mul_is_associative(d as int, pow2(e) as int, g);
    lemma_mul_is_associative(d as int, pow2(down) as int, h);
    lemma_mul_is_commutative(h, pow2(down) as int);
    assert(unit * g == y * h);
    let k = (m as int) / h;
    let low = (m as int) % h;
    lemma_fundamental_div_mod(m as int, h);
    assert(m == h * k + low);
    assert(0 <= low < h);
    let r = n - k * unit;
    let delta = x - m * y;
    assert(0 <= delta < y) by (nonlinear_arith)
        requires
            delta == x - m * y,
            x == m * y || m * y < x < (m + 1) * y,
            y > 0,
    ;
    assert(delta > 0 <==> sticky) by {
        assert((m + 1) * y == m * y + y) by (nonlinear_arith);
    }
    assert(r * g == delta + low * y) by (nonlinear_arith)
        requires
            r == n - k * unit,
            n * g == x,
            unit * g == y * h,
            m == h * k + low,
            delta == x - m * y,
    ;
    assert(low * y >= 0 && low * y <= (h - 1) * y) by (nonlinear_arith)
        requires
            0 <= low <= h - 1,
            y > 0,
    ;
    assert((h - 1) * y == h * y - y) by (nonlinear_arith);
    assert(y * h == h * y) by (nonlinear_arith);
    assert(0 <= r * g < unit * g);
    assert(0 <= r < unit) by (nonlinear_arith)
        requires
            0 <= r * g < unit * g,
            g > 0,
    ;
    lemma_fundamental_div_mod_converse(n as int, unit, k, r);
    assert(2 * r * g == 2 * delta + 2 * low * y) by (nonlinear_arith)
        requires
            r * g == delta + low * y,
    ;
    if 2 * low > h {
        assert(2 * low * y >= h * y + y) by (nonlinear_arith)
            requires
                2 * low >= h + 1,
                y > 0,
        ;
        assert(2 * r > unit) by (nonlinear_arith)
            requires
                2 * r * g > unit * g,
                g > 0,
        ;
    } else if 2 * low == h {
        assert(2 * low * y == h * y);
        if sticky {
            assert(2 * r > unit) by (nonlinear_arith)
                requires
                    2 * r * g > unit * g,
                    g > 0,
            ;
        } else {
            assert(2 * r == unit) by (nonlinear_arith)
                requires
                    2 * r * g == unit * g,
                    g > 0,
            ;
        }
    } else {
        assert(2 * low * y <= h * y - 2 * y) by (nonlinear_arith)
            requires
                2 * low <= h - 2,
                y > 0,
        ;
        assert(2 * r < unit) by (nonlinear_arith)
            requires
                2 * r * g < unit * g,
                g > 0,
        ;
    }
}

/// A bracket without `sticky` whose unit is at least `2^e` is a whole number of units `2^e`.
proof fn lemma_bracket_exact(n: nat, d: nat, m: nat, s: int, e: nat)
    requires
        d > 0,
        e <= s,
        brackets(n, d, m, s, false),
    ensures
        round_half_even(n, d * pow2(e)) == m * pow2((s - e) as nat),
{
    let unit = (d * pow2(e)) as int;
    let f = pow2((s - e) as nat) as int;
    lemma_pow2_pos(e);
    lemma_mul_strictly_positive(d as int, pow2(e) as int);
    lemma_pow2_adds(e, (s - e) as nat);
    assert(pow2(0) == 1) by {
        lemma2_to64();
    }
    assert(n == (m * f) * unit) by (nonlinear_arith)
        requires
            n * 1 == m * (d * (pow2(e) * f)),
            unit == d * pow2(e),
    ;
    lemma_fundamental_div_mod_converse(n as int, unit, m * f, 0);
}

/// The number of bits of a positive number.
fn bit_length(m: u128) -> (len: u32)
    requires
        m > 0,
    ensures
        1 <= len <= 128,
        pow2((len - 1) as nat) <= m < pow2(len as nat),
{
    let mut x: u128 = m;
    let mut len: u32 = 0;
    let mut step: u32 = 64;
    proof {
        lemma2_to64();
        lemma_pow2_adds(64, 64);
        assert(0x1_0000_0000_0000_0000u128 * 0x1_0000_0000_0000_0000 > u128::MAX)
            by (nonlinear_arith);
    }
    while step > 0
        invariant
            step == 64 || step == 32 || step == 16 || step == 8 || step == 4 || step == 2 || step
                == 1 || step == 0,
            len + 2 * step <= 128 || (step == 0 && len <= 127),
            0 < x,
            x < (if step == 0 { 2 } else { pow2((2 * step) as nat) }),
            pow2(len as nat) * x <= m < pow2(len as nat) * (x + 1),
        decreases step,
    {
        let ghost x0 = x;
        let ghost len0 = len;
        proof {
            vstd::bits::lemma_u128_shr_is_div(x, step as u128);
            lemma_pow2_pos(step as nat);
            lemma_pow2_pos(len as nat);
            lemma_pow2_adds(step as nat, step as nat);
            lemma_pow2_adds(len as nat, step as nat);
            lemma_fundamental_div_mod(x as int, pow2(step as nat) as int);
            assert(step + step == 2 * step);
        }
        let shifted: u128 = x >> (step as u128);
        if shifted > 0 {
            x = shifted;
            len = len + step;
            proof {
                let w = pow2(step as nat) as int;
                let r = (x0 as int) % w;
                let b = pow2(len0 as nat) as int;
                assert(x < w) by (nonlinear_arith)
                    requires
                        x0 == w * x + r,
                        0 <= r < w,
                        x0 < w * w,
                        w > 0,
                ;
                assert((b * w) * x <= b * x0 && b * (x0 + 1) <= (b * w) * (x + 1))
                    by (nonlinear_arith)
                    requires
                        x0 == w * x + r,
                        0 <= r < w,
                        b > 0,
                ;
            }
        } else {
            proof {
                assert(x < pow2(step as nat)) by (nonlinear_arith)
                    requires
                        x == pow2(step as nat) * shifted + (x as int) % (pow2(step as nat) as int),
                        shifted == 0,
                        (x as int) % (pow2(step as nat) as int) < pow2(step as nat),
                ;
            }
        }
        step = step / 2;
        proof {
            lemma2_to64();
        }
    }
    proof {
        lemma_pow2_unfold((len + 1) as nat);
        assert(pow2(len as nat) * x == pow2(len as nat)) by (nonlinear_arith)
            requires
                x == 1,
        ;
        assert(pow2(len as nat) * (x + 1) == 2 * pow2(len as nat)) by (nonlinear_arith)
            requires
                x == 1,
        ;
    }
    len + 1
}

/// Rounds a bracketed value to `p` significant bits: `rounded(p, n, d)`.
pub fn nearest(p: u32, m: u128, s: i32, sticky: bool, Ghost(n): Ghost<nat>, Ghost(d): Ghost<nat>) -> (r: (
    u64,
    u32,
))
    requires
        1 <= p <= 60,
        -4000 <= s <= 4000,
        0 < m,
        m < pow2(126),
        d > 0,
        sticky ==> m >= pow2(p as nat),
        brackets(n, d, m as nat, s as int, sticky),
    ensures
        (r.0 as nat, r.1 as nat) == rounded(p as nat, n, d),
        r.0 <= pow2(p as nat),
        r.1 <= 4126,
        r.1 > 0 ==> r.1 <= 126 + s,
        r.1 > 0 ==> r.0 >= pow2((p - 1) as nat),
{
    let len = bit_length(m);
    let top: i32 = len as i32 + s;
    let e: u32 = if top > p as i32 {
        (top - p as i32) as u32
    } else {
        0
    };
    proof {
        lemma_bracket_exponent(p as nat, n, d, m as nat, s as int, sticky, len as nat);
        lemma2_to64();
        lemma2_to64_rest();
        if len > 126 {
            lemma_pow2_strictly_increases(126, len as nat);
            if len > 127 {
                lemma_pow2_strictly_increases(126, (len - 1) as nat);
            }
        }
    }
    let t: i32 = e as i32 - s;
    if t <= 0 {
        proof {
            if sticky {
                // m has more than p bits, so e > s
                if len <= p {
                    if len < p {
                        lemma_pow2_strictly_increases(len as nat, p as nat);
                    }
                }
                assert(false);
            }
            lemma_bracket_exact(n, d, m as nat, s as int, e as nat);
        }
        let shift: u32 = (-t) as u32;
        proof {
            // m * 2^shift < 2^p
            assert(len + shift <= p);
            lemma_pow2_adds(len as nat, shift as nat);
            lemma_pow2_pos(shift as nat);
            lemma_pow2_pos(len as nat);
            assert(m * pow2(shift as nat) < pow2((len + shift) as nat)) by (nonlinear_arith)
                requires
                    m < pow2(len as nat),
                    pow2(shift as nat) > 0,
                    pow2(len as nat) * pow2(shift as nat) == pow2((len + shift) as nat),
            ;
            if len + shift < p {
                lemma_pow2_strictly_increases((len + shift) as nat, p as nat);
            }
            if p < 60 {
                lemma_pow2_strictly_increases(p as nat, 60);
            }
            if shift < 60 {
                lemma_pow2_strictly_increases(shift as nat, 60);
            }
            assert(m <= m * pow2(shift as nat)) by (nonlinear_arith)
                requires
                    pow2(shift as nat) >= 1,
            ;
            vstd::bits::lemma_u64_pow2_no_overflow(shift as nat);
            vstd::bits::lemma_u64_shl_is_mul(m as u64, shift as u64);
            if e > 0 {
                lemma_pow2_adds((len - 1) as nat, shift as nat);
                assert(pow2((len - 1) as nat) * pow2(shift as nat) <= m * pow2(shift as nat))
                    by (nonlinear_arith)
                    requires
                        pow2((len - 1) as nat) <= m,
                ;
            }
        }
        ((m as u64) << (shift as u64), e)
    } else {
        proof {
            lemma_bracket_drop(n, d, m as nat, s as int, sticky, e as nat);
            lemma_pow2_pos(t as nat);
            lemma_fundamental_div_mod(m as int, pow2(t as nat) as int);
        }
        if t > len as i32 {
            // m is less than half of 2^t
            proof {
                lemma_pow2_unfold(t as nat);
                if len < t - 1 {
                    lemma_pow2_strictly_increases(len as nat, (t - 1) as nat);
                }
                lemma_small_mod(m as nat, pow2(t as nat));
                lemma_basic_div(m as int, pow2(t as nat) as int);
                lemma_pow2_pos(p as nat);
                assert(e == 0);
            }
            return (0, e);
        }
        let half: u128 = 1u128 << ((t - 1) as u128);
        proof {
            lemma_pow2_unfold(t as nat);
            vstd::bits::lemma_u128_shr_is_div(m, t as u128);
            assert(half == pow2((t - 1) as nat)) by {
                lemma_one_shl((t - 1) as u128);
            }
            if t < 126 {
                lemma_pow2_strictly_increases(t as nat, 126);
            }
            assert(pow2(126) < u128::MAX) by {
                lemma_pow2_adds(63, 63);
            }
        }
        let k: u128 = m >> (t as u128);
        proof {
            // k < 2^p
            let h = pow2(t as nat) as int;
            lemma_pow2_adds((len - t) as nat, t as nat);
            assert(k < pow2((len - t) as nat)) by (nonlinear_arith)
                requires
                    m == h * k + (m as int) % h,
                    (m as int) % h >= 0,
                    m < pow2(len as nat),
                    pow2((len - t) as nat) * h == pow2(len as nat),
                    h > 0,
            ;
            assert(len - t <= p);
            if len - t < p {
                lemma_pow2_strictly_increases((len - t) as nat, p as nat);
            }
            if p < 60 {
                lemma_pow2_strictly_increases(p as nat, 60);
            }
            if e > 0 {
                assert(len - t == p);
                lemma_pow2_adds((p - 1) as nat, t as nat);
                assert(pow2((p - 1) as nat) <= k) by (nonlinear_arith)
                    requires
                        m == h * k + (m as int) % h,
                        (m as int) % h < h,
                        m >= pow2((len - 1) as nat),
                        pow2((p - 1) as nat) * h == pow2((len - 1) as nat),
                        h > 0,
                ;
            }
        }
        proof {
            assert(k * pow2(t as nat) <= m) by (nonlinear_arith)
                requires
                    m == pow2(t as nat) * k + (m as int) % (pow2(t as nat) as int),
                    (m as int) % (pow2(t as nat) as int) >= 0,
            ;
            lemma_mul_is_commutative(k as int, pow2(t as nat) as int);
        }
        let low: u128 = m - k * (2 * half);
        let up: bool = low > half || (low == half && (sticky || k % 2 == 1));
        if up {
            (k as u64 + 1, e)
        } else {
            (k as u64, e)
        }
    }
}

/// A shifted one is a power of two.
pub proof fn lemma_one_shl(t: u128)
    requires
        t < 128,
    ensures
        1u128 << t == pow2(t as nat),
    decreases t,
{
    if t == 0 {
        assert(1u128 << 0 == 1) by (bit_vector);
        lemma2_to64();
    } else {
        lemma_one_shl((t - 1) as u128);
        lemma_pow2_unfold(t as nat);
        assert(1u128 << t == 2 * (1u128 << ((t - 1) as u128))) by (bit_vector)
            requires
                0 < t < 128,
        ;
    }
}

} // verus!
