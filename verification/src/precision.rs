//! Rounding as in the IEEE 754 binary format of 64 bits, on whole numbers: what a
//! sum, a square or a quotient becomes when only 53 significant bits of it are kept.
use vstd::arithmetic::power2::{
    lemma2_to64, lemma_pow2_adds, lemma_pow2_pos, lemma_pow2_unfold, pow2,
};
use vstd::prelude::*;
use crate::doubles::{
    half_even, half_even_is_nearest, lemma_fewer_zeros, lemma_half_even_cancels,
    lemma_half_even_exact, lemma_pow2_grows,
    lemma_quotient_scales, quotient, quotient_bits, quotient_is_a_number,
};
use crate::float_bits::Float64;

verus! {

/// From `e` on, the fewest bits to leave out at the end of `p / q` so that no more
/// than 53 are left.
pub open spec fn excess_from(p: nat, q: nat, e: nat) -> nat
    decreases p - pow2(e),
{
    if q == 0 || p < pow2(e) * 0x20_0000_0000_0000 * q {
        e
    } else {
        proof {
            lemma_excess_room(p, q, e);
        }
        excess_from(p, q, e + 1)
    }
}

/// How many bits `p / q` has before the point beyond 53.
pub open spec fn excess(p: nat, q: nat) -> nat {
    excess_from(p, q, 0)
}

/// The whole number nearest to `p / q` among those with 53 significant bits; of two
/// that are equally near, the one whose last bit is zero.
pub open spec fn rounded(p: nat, q: nat) -> nat {
    half_even(p, pow2(excess(p, q)) * q) * pow2(excess(p, q))
}

/// A number with more than 53 bits beyond the `e`-th is at least twice that bit.
pub proof fn lemma_excess_room(p: nat, q: nat, e: nat)
    requires
        q > 0,
        p >= pow2(e) * 0x20_0000_0000_0000 * q,
    ensures
        p >= pow2(e + 1),
        pow2(e + 1) > pow2(e) > 0,
{
    lemma_pow2_pos(e);
    lemma_pow2_unfold(e + 1);
    let u = pow2(e);
    assert(u * 0x20_0000_0000_0000 * q >= u * 2) by (nonlinear_arith)
        requires
            q >= 1,
            u >= 1,
    ;
}

/// Exactly this many bits are left out: one fewer would leave too many.
pub open spec fn leaves_53(p: nat, q: nat, e: nat) -> bool {
    &&& p < pow2(e) * 0x20_0000_0000_0000 * q
    &&& e > 0 ==> p >= pow2((e - 1) as nat) * 0x20_0000_0000_0000 * q
}

proof fn lemma_excess_from(p: nat, q: nat, e: nat)
    requires
        q > 0,
    ensures
        excess_from(p, q, e) >= e,
        p < pow2(excess_from(p, q, e)) * 0x20_0000_0000_0000 * q,
        excess_from(p, q, e) > e ==> p >= pow2((excess_from(p, q, e) - 1) as nat)
            * 0x20_0000_0000_0000 * q,
    decreases p - pow2(e),
{
    if p >= pow2(e) * 0x20_0000_0000_0000 * q {
        lemma_excess_room(p, q, e);
        lemma_excess_from(p, q, e + 1);
    }
}

/// The bits beyond 53 are that many.
pub proof fn lemma_excess(p: nat, q: nat)
    requires
        q > 0,
    ensures
        leaves_53(p, q, excess(p, q)),
{
    lemma_excess_from(p, q, 0);
}

proof fn lemma_unit_grows(a: nat, b: nat, q: nat)
    requires
        a <= b,
    ensures
        pow2(a) * 0x20_0000_0000_0000 * q <= pow2(b) * 0x20_0000_0000_0000 * q,
{
    lemma_pow2_grows(a, b);
    let (x, y) = (pow2(a), pow2(b));
    assert(x * 0x20_0000_0000_0000 * q <= y * 0x20_0000_0000_0000 * q) by (nonlinear_arith)
        requires
            x <= y,
            q >= 0,
    ;
}

/// Only one number of bits does.
pub proof fn lemma_excess_is(p: nat, q: nat, e: nat)
    requires
        q > 0,
        leaves_53(p, q, e),
    ensures
        excess(p, q) == e,
{
    let x = excess(p, q);
    lemma_excess(p, q);
    if x < e {
        lemma_unit_grows(x, (e - 1) as nat, q);
    }
    if e < x {
        lemma_unit_grows(e, (x - 1) as nat, q);
    }
}

/// A number of at most 53 bits, and that number with zeros behind it, is kept.
pub proof fn lemma_short_is_kept(m: nat, q: nat, j: nat)
    requires
        q > 0,
        m < 0x20_0000_0000_0000,
    ensures
        rounded(m * pow2(j) * q, q) == m * pow2(j),
{
    let p = m * pow2(j) * q;
    let e = excess(p, q);
    let t = pow2(j);
    lemma_excess(p, q);
    lemma_pow2_pos(j);
    lemma_pow2_pos(e);
    if e > j {
        lemma_unit_grows(j, (e - 1) as nat, q);
        assert(m * t * q < t * 0x20_0000_0000_0000 * q) by (nonlinear_arith)
            requires
                m < 0x20_0000_0000_0000,
                t > 0,
                q > 0,
        ;
    }
    lemma_pow2_grows(e, j);
    let (u, w) = (pow2(e), pow2((j - e) as nat));
    assert(p == (m * w) * (u * q)) by (nonlinear_arith)
        requires
            p == m * t * q,
            t == u * w,
    ;
    assert(u * q > 0) by (nonlinear_arith)
        requires
            u > 0,
            q > 0,
    ;
    lemma_half_even_exact(m * w, u * q);
    assert((m * w) * u == m * t) by (nonlinear_arith)
        requires
            t == u * w,
    ;
}

/// Rounding a number with zeros behind it is rounding the number.
pub proof fn lemma_rounded_scales(x: nat, j: nat)
    ensures
        rounded(x * pow2(j), 1) == rounded(x, 1) * pow2(j),
{
    let e = excess(x, 1);
    lemma_excess(x, 1);
    lemma_pow2_pos(j);
    lemma_pow2_pos(e);
    let (t, u) = (pow2(j), pow2(e));
    if e == 0 {
        vstd::arithmetic::power2::lemma2_to64();
        assert(x < 0x20_0000_0000_0000);
        lemma_short_is_kept(x, 1, j);
        lemma_short_is_kept(x, 1, 0);
        assert(x * pow2(j) * 1 == x * pow2(j) && x * 1 * 1 == x && x * 1 == x) by (nonlinear_arith);
    } else {
        let half = pow2((e - 1) as nat);
        lemma_pow2_adds(e, j);
        lemma_pow2_adds((e - 1) as nat, j);
        assert(x * t < (u * t) * 0x20_0000_0000_0000 * 1) by (nonlinear_arith)
            requires
                x < u * 0x20_0000_0000_0000 * 1,
                t > 0,
        ;
        assert(x * t >= (half * t) * 0x20_0000_0000_0000 * 1) by (nonlinear_arith)
            requires
                x >= half * 0x20_0000_0000_0000 * 1,
                t > 0,
        ;
        assert((e + j - 1) as nat == (e - 1) as nat + j);
        lemma_excess_is(x * t, 1, e + j);
        lemma_half_even_cancels(x, u * 1, t);
        assert((u * 1) * t == (u * t) * 1) by (nonlinear_arith);
        let m = half_even(x, u * 1);
        assert(m * (u * t) == (m * u) * t) by (nonlinear_arith);
    }
}

/// Rounding moves a number by less than one part in 2^52, and a number of 53 bits
/// not at all.
proof fn lemma_rounded_near(x: nat)
    ensures
        rounded(x, 1) * 0x20_0000_0000_0000 <= x * 0x20_0000_0000_0001,
        x < 0x20_0000_0000_0000 ==> rounded(x, 1) == x,
        x >= 0x20_0000_0000_0000 ==> rounded(x, 1) >= 0x20_0000_0000_0000,
{
    let e = excess(x, 1);
    lemma_excess(x, 1);
    vstd::arithmetic::power2::lemma2_to64();
    if e == 0 {
        lemma_short_is_kept(x, 1, 0);
        assert(x * 1 * 1 == x && x * 1 == x) by (nonlinear_arith);
    } else {
        lemma_pow2_unfold(e);
        lemma_pow2_pos((e - 1) as nat);
        let half = pow2((e - 1) as nat);
        let u = pow2(e);
        let d = u * 1;
        let (m, r) = (x / d, x % d);
        vstd::arithmetic::div_mod::lemma_fundamental_div_mod(x as int, d as int);
        assert(m >= 0x10_0000_0000_0000) by (nonlinear_arith)
            requires
                x >= half * 0x20_0000_0000_0000 * 1,
                x == d * m + r,
                0 <= r < d,
                d == 2 * half,
                half > 0,
        ;
        let k = half_even(x, d);
        assert(m <= k);
        assert(k * d <= x + half) by (nonlinear_arith)
            requires
                x == d * m + r,
                k == m || (k == m + 1 && 2 * r >= d),
                0 <= r,
                d == 2 * half,
        ;
        assert(k * u >= 0x20_0000_0000_0000) by (nonlinear_arith)
            requires
                k >= 0x10_0000_0000_0000,
                u >= 2,
        ;
    }
}

/// Rounding does not take a number beyond a power of two.
pub proof fn lemma_rounded_below(x: nat, b: nat)
    requires
        x <= pow2(b),
    ensures
        rounded(x, 1) <= pow2(b),
{
    let e = excess(x, 1);
    lemma_excess(x, 1);
    lemma_rounded_near(x);
    vstd::arithmetic::power2::lemma2_to64();
    vstd::arithmetic::power2::lemma2_to64_rest();
    if e > 0 {
        lemma_pow2_adds((e - 1) as nat, 53);
        if b < e + 52 {
            lemma_pow2_grows(b + 1, e + 52);
            lemma_pow2_unfold(b + 1);
            lemma_pow2_pos(b);
        }
        let u = pow2(e);
        lemma_pow2_pos(e);
        let (m, r) = (x / (u * 1), x % (u * 1));
        vstd::arithmetic::div_mod::lemma_fundamental_div_mod(x as int, (u * 1) as int);
        if b > e + 52 {
            lemma_pow2_grows(e + 53, b);
            lemma_pow2_adds(e, 53);
            assert(m < 0x20_0000_0000_0000) by (nonlinear_arith)
                requires
                    x < u * 0x20_0000_0000_0000 * 1,
                    x == (u * 1) * m + r,
                    r >= 0,
                    u > 0,
            ;
            let k = half_even(x, u * 1);
            assert(k * u <= u * 0x20_0000_0000_0000) by (nonlinear_arith)
                requires
                    k <= 0x20_0000_0000_0000,
                    u > 0,
            ;
        } else {
            lemma_pow2_adds(e, 52);
            assert(x == pow2(b));
            assert(x == 0x10_0000_0000_0000 * (u * 1)) by (nonlinear_arith)
                requires
                    x == u * 0x10_0000_0000_0000,
            ;
            lemma_half_even_exact(0x10_0000_0000_0000, u * 1);
        }
    }
}

/// Rounding makes at most twice the whole part of a quotient of it, and one.
pub proof fn lemma_rounded_at_most_twice(p: nat, q: nat)
    requires
        q > 0,
    ensures
        rounded(p, q) <= 2 * (p / q) + 1,
{
    let e = excess(p, q);
    let u = pow2(e);
    let d = u * q;
    let (m, w) = (p / d, p / q);
    lemma_excess(p, q);
    lemma_pow2_pos(e);
    assert(d > 0) by (nonlinear_arith)
        requires
            u > 0,
            q > 0,
            d == u * q,
    ;
    vstd::arithmetic::div_mod::lemma_fundamental_div_mod(p as int, d as int);
    vstd::arithmetic::div_mod::lemma_fundamental_div_mod(p as int, q as int);
    assert(m * u <= w) by (nonlinear_arith)
        requires
            p == d * m + p % d,
            p % d >= 0,
            d == u * q,
            p == q * w + p % q,
            p % q < q,
            q > 0,
    ;
    if e > 0 {
        lemma_pow2_unfold(e);
        let half = pow2((e - 1) as nat);
        assert(half * q > 0) by (nonlinear_arith)
            requires
                d == (2 * half) * q,
                d > 0,
        ;
        assert(m >= 1) by (nonlinear_arith)
            requires
                p >= half * 0x20_0000_0000_0000 * q,
                p == d * m + p % d,
                p % d < d,
                d == (2 * half) * q,
                d > 0,
                half * q > 0,
        ;
    } else {
        vstd::arithmetic::power2::lemma2_to64();
    }
    let k = half_even(p, d);
    assert(k * u <= 2 * w + 1) by (nonlinear_arith)
        requires
            k <= m + 1,
            m * u <= w,
            m >= 1 || u == 1,
            u > 0,
            m >= 0,
    ;
}

/// A sum of `i` rounded steps, of at most `2 * step` each, takes one more: what
/// rounding adds is made up for by the room that each step leaves.
pub proof fn lemma_sum_has_room(x: nat, step: nat, i: nat)
    requires
        i < 0x1_0000_0000_0000,
        x <= i * (2 * step) + step,
    ensures
        rounded(x, 1) <= (i + 1) * (2 * step),
{
    lemma_rounded_near(x);
    let r = rounded(x, 1);
    assert(x <= 0x20_0000_0000_0000 * step) by (nonlinear_arith)
        requires
            x <= i * (2 * step) + step,
            i < 0x1_0000_0000_0000,
            step >= 0,
    ;
    assert(r <= x + step) by (nonlinear_arith)
        requires
            r * 0x20_0000_0000_0000 <= x * 0x20_0000_0000_0001,
            x <= 0x20_0000_0000_0000 * step,
    ;
    assert((i + 1) * (2 * step) == i * (2 * step) + 2 * step) by (nonlinear_arith);
}

// ---------------------------------------------------------------------------
// Arithmetic
// ---------------------------------------------------------------------------

/// A whole number with at most 53 significant bits: those bits, and how many zeros
/// stand behind them.
#[derive(Clone, Copy, PartialEq, Eq, Structural, Debug)]
pub struct Significant {
    pub bits: u64,
    pub zeros: u32,
}

impl Significant {
    /// The number.
    pub open spec fn value(self) -> nat {
        self.bits as nat * pow2(self.zeros as nat)
    }

    /// There are at most 53 bits, and exactly 53 where zeros stand behind them.
    pub open spec fn wf(self) -> bool {
        &&& self.bits < 0x20_0000_0000_0000
        &&& self.zeros > 0 ==> self.bits >= 0x10_0000_0000_0000
    }
}

/// A number below a power of two has few zeros behind its bits.
pub proof fn lemma_few_zeros(x: Significant, b: nat)
    requires
        x.wf(),
        x.value() <= pow2(b),
        b >= 52,
    ensures
        x.zeros + 52 <= b,
{
    if x.zeros + 52 > b {
        vstd::arithmetic::power2::lemma2_to64_rest();
        lemma_pow2_adds(52, x.zeros as nat);
        let t = pow2(x.zeros as nat);
        lemma_pow2_pos(x.zeros as nat);
        if x.zeros > 0 {
            assert(x.bits * t >= 0x10_0000_0000_0000 * t) by (nonlinear_arith)
                requires
                    x.bits >= 0x10_0000_0000_0000,
                    t > 0,
            ;
            vstd::arithmetic::power2::lemma_pow2_strictly_increases(b, 52 + x.zeros as nat);
        }
    }
}

/// The number nearest to a quotient whose whole part is `whole` and which leaves
/// `left` over, among those with 53 significant bits.
pub fn keep(whole: u128, left: u128, q: u128) -> (r: Significant)
    requires
        0 < q <= 0x1_0000_0000_0000,
        left < q,
        whole <= 0x100_0000_0000_0000_0000_0000_0000_0000,
    ensures
        r.wf(),
        r.value() == rounded((whole * q + left) as nat, q as nat),
        r.zeros <= 69,
        whole >= 0x20_0000_0000_0000 ==> r.zeros > 0,
        whole < 0x20_0000_0000_0000 && q == 1 ==> r.bits == whole && r.zeros == 0,
{
    let top: u128 = whole / 0x20_0000_0000_0000;
    let far: u128 = top / 0x8000;
    let mut unit: u128 = 1;
    let mut e: u32 = 0;
    proof {
        vstd::arithmetic::power2::lemma2_to64();
    }
    while far >= unit
        invariant
            top == whole / 0x20_0000_0000_0000,
            far == top / 0x8000,
            top <= 0x8_0000_0000_0000_0000,
            unit == pow2(e as nat),
            e > 0 ==> top >= pow2((e - 1) as nat),
            e <= 68,
            unit >= 1,
        decreases 68 - e,
    {
        proof {
            vstd::arithmetic::power2::lemma2_to64();
            lemma_pow2_adds(e as nat, 16);
            lemma_pow2_adds(e as nat, 15);
            lemma_pow2_of_68();
            lemma_fewer_zeros(e as nat, 53);
        }
        unit = unit * 0x1_0000;
        e = e + 16;
    }
    while top >= unit
        invariant
            top == whole / 0x20_0000_0000_0000,
            top <= 0x8_0000_0000_0000_0000,
            unit == pow2(e as nat),
            e > 0 ==> top >= pow2((e - 1) as nat),
            e <= 68,
            unit >= 1,
        decreases 68 - e,
    {
        proof {
            lemma_pow2_unfold((e + 1) as nat);
            lemma_pow2_of_68();
            lemma_fewer_zeros(e as nat, 68);
        }
        unit = 2 * unit;
        e = e + 1;
    }
    let ghost p: nat = (whole * q + left) as nat;
    proof {
        assert(p < unit * 0x20_0000_0000_0000 * q) by (nonlinear_arith)
            requires
                p == whole * q + left,
                left < q,
                whole + 1 <= unit * 0x20_0000_0000_0000,
        ;
        if e > 0 {
            let half = pow2((e - 1) as nat);
            assert(p >= half * 0x20_0000_0000_0000 * q) by (nonlinear_arith)
                requires
                    p == whole * q + left,
                    left >= 0,
                    whole >= half * 0x20_0000_0000_0000,
                    q > 0,
            ;
        }
        lemma_excess_is(p, q as nat, e as nat);
        lemma_pow2_of_68();
        lemma_pow2_grows(e as nat, 68);
        assert(unit * q <= 0x10_0000_0000_0000_0000 * 0x1_0000_0000_0000) by (nonlinear_arith)
            requires
                0 < unit <= 0x10_0000_0000_0000_0000,
                0 < q <= 0x1_0000_0000_0000,
        ;
    }
    let d: u128 = unit * q;
    let m: u128 = whole / unit;
    let part: u128 = whole % unit;
    proof {
        vstd::arithmetic::div_mod::lemma_fundamental_div_mod(whole as int, unit as int);
        assert(part * q + left < d) by (nonlinear_arith)
            requires
                part + 1 <= unit,
                left < q,
                d == unit * q,
        ;
        assert(0 <= part * q) by (nonlinear_arith)
            requires
                part >= 0,
                q > 0,
        ;
        assert(p == m * d + (part * q + left)) by (nonlinear_arith)
            requires
                p == whole * q + left,
                whole == unit * m + part,
                d == unit * q,
        ;
        vstd::arithmetic::div_mod::lemma_fundamental_div_mod_converse(
            p as int,
            d as int,
            m as int,
            part * q + left,
        );
        assert(m < 0x20_0000_0000_0000) by (nonlinear_arith)
            requires
                whole == unit * m + part,
                part >= 0,
                whole < unit * 0x20_0000_0000_0000,
                unit > 0,
        ;
        if e > 0 {
            let half = pow2((e - 1) as nat);
            lemma_pow2_unfold(e as nat);
            assert(m >= 0x10_0000_0000_0000) by (nonlinear_arith)
                requires
                    whole == unit * m + part,
                    part < unit,
                    whole >= half * 0x20_0000_0000_0000,
                    unit == 2 * half,
                    half > 0,
            ;
        }
    }
    let rest: u128 = part * q + left;
    let up: bool = 2 * rest > d || (2 * rest == d && m % 2 == 1);
    let bits: u64 = if up {
        m as u64 + 1
    } else {
        m as u64
    };
    assert(bits == half_even(p, d as nat));
    if bits == 0x20_0000_0000_0000 {
        proof {
            lemma_pow2_unfold((e + 1) as nat);
            let u = pow2(e as nat);
            assert(0x20_0000_0000_0000 * u == 0x10_0000_0000_0000 * (2 * u)) by (nonlinear_arith);
        }
        Significant { bits: 0x10_0000_0000_0000, zeros: e + 1 }
    } else {
        Significant { bits, zeros: e }
    }
}

proof fn lemma_pow2_of_68()
    ensures
        pow2(53) == 0x20_0000_0000_0000,
        pow2(68) == 0x10_0000_0000_0000_0000,
{
    vstd::arithmetic::power2::lemma2_to64();
    vstd::arithmetic::power2::lemma2_to64_rest();
    lemma_pow2_adds(64, 4);
}

/// The sum of two numbers, rounded to 53 significant bits.
pub fn plus(a: Significant, b: Significant) -> (r: Significant)
    requires
        a.wf(),
        b.wf(),
        a.zeros <= 1000,
        b.zeros <= 1000,
    ensures
        r.wf(),
        r.value() == rounded(a.value() + b.value(), 1),
{
    let (high, low) = if a.zeros >= b.zeros { (a, b) } else { (b, a) };
    let apart: u32 = high.zeros - low.zeros;
    let ghost t: nat = pow2(low.zeros as nat);
    let ghost w: nat = pow2(apart as nat);
    proof {
        lemma_pow2_pos(low.zeros as nat);
        lemma_pow2_grows(low.zeros as nat, high.zeros as nat);
        let (h, l) = (high.bits as nat, low.bits as nat);
        assert(h * (t * w) + l * t == (h * w + l) * t) by (nonlinear_arith);
        lemma_rounded_scales(h * w + l, low.zeros as nat);
    }
    if apart > 63 {
        proof {
            lemma_high_part_is_kept(high.bits as nat, low.bits as nat, apart as nat);
            let h = high.bits as nat;
            assert((h * w) * t == h * (t * w)) by (nonlinear_arith);
        }
        return high;
    }
    proof {
        vstd::arithmetic::power2::lemma2_to64();
        vstd::arithmetic::power2::lemma2_to64_rest();
        lemma_pow2_grows(apart as nat, 63);
        vstd::bits::lemma_u64_shl_is_mul(1, apart as u64);
        let (h, l) = (high.bits as nat, low.bits as nat);
        assert(1 * w == w) by (nonlinear_arith);
        assert(h * w <= 0x20_0000_0000_0000 * 0x8000_0000_0000_0000) by (nonlinear_arith)
            requires
                h <= 0x20_0000_0000_0000,
                w <= 0x8000_0000_0000_0000,
        ;
        assert(h * w >= h) by (nonlinear_arith)
            requires
                w >= 1,
                h >= 0,
        ;
    }
    let shift: u64 = 1u64 << apart as u64;
    let sum: u128 = high.bits as u128 * shift as u128 + low.bits as u128;
    assert(sum * 1 + 0 == sum);
    let r: Significant = keep(sum, 0, 1);
    proof {
        lemma_pow2_adds(r.zeros as nat, low.zeros as nat);
        let (m, z) = (r.bits as nat, pow2(r.zeros as nat));
        assert((m * z) * t == m * (z * t)) by (nonlinear_arith);
    }
    Significant { bits: r.bits, zeros: r.zeros + low.zeros }
}

/// A number with 53 bits and at least 64 zeros behind them does not change where less
/// than 53 bits are added at its end.
proof fn lemma_high_part_is_kept(h: nat, l: nat, s: nat)
    requires
        0x10_0000_0000_0000 <= h < 0x20_0000_0000_0000,
        l < 0x20_0000_0000_0000,
        s > 63,
    ensures
        rounded(h * pow2(s) + l, 1) == h * pow2(s),
{
    let w = pow2(s);
    let half = pow2((s - 1) as nat);
    lemma_pow2_unfold(s);
    lemma_pow2_grows(63, (s - 1) as nat);
    vstd::arithmetic::power2::lemma2_to64_rest();
    let x = h * w + l;
    assert(x < w * 0x20_0000_0000_0000 * 1) by (nonlinear_arith)
        requires
            x == h * w + l,
            h + 1 <= 0x20_0000_0000_0000,
            l < w,
    ;
    assert(x >= half * 0x20_0000_0000_0000 * 1) by (nonlinear_arith)
        requires
            x == h * w + l,
            h >= 0x10_0000_0000_0000,
            l >= 0,
            w == 2 * half,
            half > 0,
    ;
    lemma_excess_is(x, 1, s);
    vstd::arithmetic::div_mod::lemma_fundamental_div_mod_converse(
        x as int,
        (w * 1) as int,
        h as int,
        l as int,
    );
}

/// The square of a number, rounded to 53 significant bits.
pub fn squared(a: Significant) -> (r: Significant)
    requires
        a.wf(),
        a.zeros <= 1000,
    ensures
        r.wf(),
        r.value() == rounded(a.value() * a.value(), 1),
{
    let wide: u128 = a.bits as u128;
    proof {
        assert(wide * wide <= 0x20_0000_0000_0000 * 0x20_0000_0000_0000) by (nonlinear_arith)
            requires
                0 <= wide <= 0x20_0000_0000_0000,
        ;
        if a.zeros > 0 {
            assert(wide * wide >= 0x10_0000_0000_0000 * 0x10_0000_0000_0000) by (nonlinear_arith)
                requires
                    wide >= 0x10_0000_0000_0000,
            ;
        }
        assert((wide * wide) * 1 + 0 == wide * wide);
    }
    let r: Significant = keep(wide * wide, 0, 1);
    proof {
        let (m, t) = (a.bits as nat, pow2(a.zeros as nat));
        let (k, z) = (r.bits as nat, pow2(r.zeros as nat));
        lemma_pow2_adds(a.zeros as nat, a.zeros as nat);
        lemma_pow2_adds(r.zeros as nat, 2 * a.zeros as nat);
        assert((m * t) * (m * t) == (m * m) * (t * t)) by (nonlinear_arith);
        lemma_rounded_scales(m * m, 2 * a.zeros as nat);
        assert((k * z) * (t * t) == k * (z * (t * t))) by (nonlinear_arith);
    }
    Significant { bits: r.bits, zeros: r.zeros + 2 * a.zeros }
}

/// The number of 64 bits nearest to a number over `n`, taken 2^`scale` times.
pub fn divided(a: Significant, n: u64, scale: u32) -> (r: Float64)
    requires
        a.wf(),
        a.zeros <= 1000,
        0 < n <= 0x1_0000_0000_0000,
        scale <= 900,
        a.value() < n * pow2(scale as nat) * 0x20_0000_0000_0000,
    ensures
        r.bits == quotient_bits(a.value(), n as nat * pow2(scale as nat)),
{
    if a.bits == 0 {
        assert(0 * pow2(a.zeros as nat) == 0) by (nonlinear_arith);
        return Float64 { bits: 0 };
    }
    let base: Float64 = quotient(a.bits as u128, n as u128);
    proof {
        vstd::arithmetic::power2::lemma2_to64_rest();
        quotient_is_a_number(a.bits as nat, n as nat, 48);
        lemma_quotient_scales(a.bits as nat, n as nat, a.zeros as nat, scale as nat);
    }
    if a.zeros >= scale {
        Float64 { bits: base.bits + (a.zeros - scale) as u64 * 0x10_0000_0000_0000 }
    } else {
        Float64 { bits: base.bits - (scale - a.zeros) as u64 * 0x10_0000_0000_0000 }
    }
}

/// The number as an integer of 128 bits.
pub fn number(a: Significant) -> (r: u128)
    requires
        a.wf(),
        a.zeros <= 70,
    ensures
        r == a.value(),
        r <= 0x800_0000_0000_0000_0000_0000_0000_0000,
{
    let near: u32 = if a.zeros < 35 { a.zeros } else { 35 };
    let far: u32 = a.zeros - near;
    proof {
        vstd::arithmetic::power2::lemma2_to64();
        vstd::arithmetic::power2::lemma2_to64_rest();
        lemma_pow2_grows(near as nat, 35);
        lemma_pow2_grows(far as nat, 35);
        lemma_pow2_adds(near as nat, far as nat);
        vstd::bits::lemma_u64_shl_is_mul(1, near as u64);
        vstd::bits::lemma_u64_shl_is_mul(1, far as u64);
        let (m, x, y) = (a.bits as nat, pow2(near as nat), pow2(far as nat));
        assert(1 * x == x && 1 * y == y && m * (x * y) == (m * x) * y) by (nonlinear_arith);
        assert(m * x <= 0x20_0000_0000_0000 * 0x8_0000_0000) by (nonlinear_arith)
            requires
                m <= 0x20_0000_0000_0000,
                x <= 0x8_0000_0000,
        ;
        assert((m * x) * y <= (0x20_0000_0000_0000 * 0x8_0000_0000) * 0x8_0000_0000)
            by (nonlinear_arith)
            requires
                m * x <= 0x20_0000_0000_0000 * 0x8_0000_0000,
                y <= 0x8_0000_0000,
        ;
    }
    a.bits as u128 * (1u64 << near as u64) as u128 * (1u64 << far as u64) as u128
}

/// Rounding to 53 significant bits goes no further than half of the last bit that is
/// kept, and drops no bit of a number that has no more.
pub proof fn kept_bits_are_nearest(p: nat, q: nat)
    requires
        q > 0,
    ensures
        ({
            let unit = pow2(excess(p, q));
            &&& rounded(p, q) % unit == 0
            &&& 2 * (rounded(p, q) * q) <= 2 * p + unit * q
            &&& 2 * p <= 2 * (rounded(p, q) * q) + unit * q
            &&& p < unit * 0x20_0000_0000_0000 * q
            &&& p < 0x20_0000_0000_0000 * q ==> unit == 1
        }),
{
    let e = excess(p, q);
    let unit = pow2(e);
    lemma_pow2_pos(e);
    lemma_excess(p, q);
    assert(unit * q > 0) by (nonlinear_arith)
        requires
            unit > 0,
            q > 0,
    ;
    half_even_is_nearest(p, unit * q);
    let h = half_even(p, unit * q);
    assert(h * (unit * q) == (h * unit) * q) by (nonlinear_arith);
    vstd::arithmetic::div_mod::lemma_mod_multiples_basic(h as int, unit as int);
    lemma2_to64();
    if p < 0x20_0000_0000_0000 * q {
        assert(pow2(0) * 0x20_0000_0000_0000 * q == 0x20_0000_0000_0000 * q) by (nonlinear_arith)
            requires
                pow2(0) == 1,
        ;
        assert(excess(p, q) == 0);
    }
}

} // verus!
