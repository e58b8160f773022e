//! Sizes: numbers of the IEEE 754 binary format of 32 bits without their sign, and
//! what differences, squares, sums, roots and quotients of them are rounded to.
//!
//! Every finite number of the format is a whole number of units of 2^-149. To round is
//! to keep 24 significant bits of a number of units, or to keep whole units where that
//! is less.
use vstd::arithmetic::power2::{
    lemma2_to64, lemma2_to64_rest, lemma_pow2_adds, lemma_pow2_pos, lemma_pow2_unfold, pow2,
};
use vstd::math::abs;
use vstd::prelude::*;
use crate::doubles::{
    half_even, half_even_is_nearest, lemma_fewer_zeros, lemma_half_even_cancels, lemma_pow2_grows,
};
use crate::float_bits::Float32;

verus! {

/// Bit pattern of infinity.
pub const INFINITE: u32 = 0x7f80_0000;

/// Bit pattern of what is no number.
pub const NO_NUMBER: u32 = 0x7fc0_0000;

/// From `e` on, the fewest bits to leave out at the end of `p / q` so that no more than
/// 24 are left.
pub open spec fn surplus_from(p: nat, q: nat, e: nat) -> nat
    decreases p - pow2(e),
{
    if q == 0 || p < pow2(e) * 0x100_0000 * q {
        e
    } else {
        proof {
            lemma_surplus_room(p, q, e);
        }
        surplus_from(p, q, e + 1)
    }
}

/// How many bits `p / q` has before the point beyond 24.
pub open spec fn surplus(p: nat, q: nat) -> nat {
    surplus_from(p, q, 0)
}

/// Bit pattern of the size nearest to `p / q` units; of two that are equally near, the
/// one whose last bit is zero; infinity where that is beyond all numbers.
pub open spec fn size_bits(p: nat, q: nat) -> nat {
    let e = surplus(p, q);
    finite_or_not(e * 0x80_0000 + half_even(p, pow2(e) * q))
}

/// A bit pattern, or that of infinity where it is beyond that.
pub open spec fn finite_or_not(bits: nat) -> nat {
    if bits < INFINITE {
        bits
    } else {
        INFINITE as nat
    }
}

/// The size nearest to `p / q` units.
pub open spec fn size(p: nat, q: nat) -> Float32 {
    Float32 { bits: size_bits(p, q) as u32 }
}

/// A number with more than 24 bits beyond the `e`-th is at least twice that bit.
pub proof fn lemma_surplus_room(p: nat, q: nat, e: nat)
    requires
        q > 0,
        p >= pow2(e) * 0x100_0000 * q,
    ensures
        p >= pow2(e + 1),
        pow2(e + 1) > pow2(e) > 0,
{
    lemma_pow2_pos(e);
    lemma_pow2_unfold(e + 1);
    let u = pow2(e);
    assert(u * 0x100_0000 * q >= u * 2) by (nonlinear_arith)
        requires
            q >= 1,
            u >= 1,
    ;
}

/// Exactly this many bits are left out: one fewer would leave too many.
pub open spec fn leaves_24(p: nat, q: nat, e: nat) -> bool {
    &&& p < pow2(e) * 0x100_0000 * q
    &&& e > 0 ==> p >= pow2((e - 1) as nat) * 0x100_0000 * q
}

proof fn lemma_surplus_from(p: nat, q: nat, e: nat)
    requires
        q > 0,
    ensures
        surplus_from(p, q, e) >= e,
        p < pow2(surplus_from(p, q, e)) * 0x100_0000 * q,
        surplus_from(p, q, e) > e ==> p >= pow2((surplus_from(p, q, e) - 1) as nat) * 0x100_0000
            * q,
    decreases p - pow2(e),
{
    if p >= pow2(e) * 0x100_0000 * q {
        lemma_surplus_room(p, q, e);
        lemma_surplus_from(p, q, e + 1);
    }
}

proof fn lemma_unit_grows(a: nat, b: nat, q: nat)
    requires
        a <= b,
    ensures
        pow2(a) * 0x100_0000 * q <= pow2(b) * 0x100_0000 * q,
{
    lemma_pow2_grows(a, b);
    let (x, y) = (pow2(a), pow2(b));
    assert(x * 0x100_0000 * q <= y * 0x100_0000 * q) by (nonlinear_arith)
        requires
            x <= y,
            q >= 0,
    ;
}

/// Only one number of bits does.
proof fn lemma_surplus_is(p: nat, q: nat, e: nat)
    requires
        q > 0,
        leaves_24(p, q, e),
    ensures
        surplus(p, q) == e,
{
    let x = surplus(p, q);
    lemma_surplus_from(p, q, 0);
    if x < e {
        lemma_unit_grows(x, (e - 1) as nat, q);
    }
    if e < x {
        lemma_unit_grows(e, (x - 1) as nat, q);
    }
}

/// Where both parts of a quotient are multiplied by the same, its size stays.
proof fn lemma_size_cancels(p: nat, q: nat, c: nat)
    requires
        q > 0,
        c > 0,
    ensures
        size_bits(p * c, q * c) == size_bits(p, q),
{
    let e = surplus(p, q);
    let u = pow2(e);
    lemma_surplus_from(p, q, 0);
    lemma_pow2_pos(e);
    assert(p * c < u * 0x100_0000 * (q * c)) by (nonlinear_arith)
        requires
            p < u * 0x100_0000 * q,
            c > 0,
    ;
    if e > 0 {
        let half = pow2((e - 1) as nat);
        assert(p * c >= half * 0x100_0000 * (q * c)) by (nonlinear_arith)
            requires
                p >= half * 0x100_0000 * q,
                c > 0,
        ;
    }
    assert(q * c > 0 && u * q > 0) by (nonlinear_arith)
        requires
            q > 0,
            c > 0,
            u > 0,
    ;
    lemma_surplus_is(p * c, q * c, e);
    lemma_half_even_cancels(p, u * q, c);
    assert((u * q) * c == u * (q * c)) by (nonlinear_arith);
}

/// Bit pattern of the size nearest to `p / q` units, taken 2^`z` times.
pub open spec fn scaled_bits(p: nat, q: nat, z: int) -> nat {
    if z >= 0 {
        size_bits(p * pow2(z as nat), q)
    } else {
        size_bits(p, q * pow2((-z) as nat))
    }
}

/// Powers of two on the two sides of a quotient make up one.
proof fn lemma_scaled(p: nat, q: nat, up: nat, down: nat)
    requires
        q > 0,
    ensures
        size_bits(p * pow2(up), q * pow2(down)) == scaled_bits(p, q, up - down),
{
    lemma_pow2_pos(up);
    lemma_pow2_pos(down);
    if up >= down {
        let j = (up - down) as nat;
        lemma_pow2_adds(j, down);
        let (t, u) = (pow2(j), pow2(down));
        assert(p * (t * u) == (p * t) * u) by (nonlinear_arith);
        lemma_size_cancels(p * t, q, u);
    } else {
        let j = (down - up) as nat;
        lemma_pow2_adds(j, up);
        lemma_pow2_pos(j);
        let (t, u) = (pow2(j), pow2(up));
        assert(q * (t * u) == (q * t) * u && q * t > 0) by (nonlinear_arith)
            requires
                q > 0,
                t > 0,
        ;
        lemma_size_cancels(p, q * t, u);
    }
}

/// How the size of a quotient taken 2^`z` times comes about, where `e` bits of the
/// quotient are beyond 24.
proof fn lemma_scaled_is(p: nat, q: nat, e: nat, z: int)
    requires
        q > 0,
        leaves_24(p, q, e),
        e > 0 || z <= 0 || p >= 0x80_0000 * q,
    ensures
        ({
            let up: int = if e + z >= 0 {
                e + z
            } else {
                0
            };
            scaled_bits(p, q, z) == finite_or_not(
                (up * 0x80_0000 + half_even(p, pow2((up - z) as nat) * q)) as nat,
            )
        }),
{
    let u = pow2(e);
    lemma_pow2_pos(e);
    assert(u * q > 0) by (nonlinear_arith)
        requires
            u > 0,
            q > 0,
    ;
    if e > 0 {
        lemma_pow2_unfold(e);
    }
    if z >= 0 {
        let t = pow2(z as nat);
        lemma_pow2_pos(z as nat);
        lemma_pow2_adds(e, z as nat);
        assert(p * t < (u * t) * 0x100_0000 * q) by (nonlinear_arith)
            requires
                p < u * 0x100_0000 * q,
                t > 0,
        ;
        if e > 0 {
            let half = pow2((e - 1) as nat);
            lemma_pow2_adds((e - 1) as nat, z as nat);
            assert((e + z - 1) as nat == (e - 1) as nat + z as nat);
            assert(p * t >= (half * t) * 0x100_0000 * q) by (nonlinear_arith)
                requires
                    p >= half * 0x100_0000 * q,
                    t > 0,
            ;
        } else if z > 0 {
            lemma_pow2_unfold(z as nat);
            lemma2_to64();
            let half = pow2((z - 1) as nat);
            assert(p * t >= half * 0x100_0000 * q) by (nonlinear_arith)
                requires
                    p >= 0x80_0000 * q,
                    t == 2 * half,
                    half > 0,
            ;
        }
        lemma_surplus_is(p * t, q, e + z as nat);
        lemma_half_even_cancels(p, u * q, t);
        assert((u * q) * t == (u * t) * q) by (nonlinear_arith);
    } else {
        let y = (-z) as nat;
        let t = pow2(y);
        lemma_pow2_pos(y);
        assert(q * t > 0) by (nonlinear_arith)
            requires
                q > 0,
                t > 0,
        ;
        if e >= y {
            let w = pow2((e - y) as nat);
            lemma_pow2_grows((e - y) as nat, e);
            assert(w * 0x100_0000 * (q * t) == u * 0x100_0000 * q) by (nonlinear_arith)
                requires
                    u == w * t,
            ;
            if e > y {
                let half = pow2((e - 1) as nat);
                let v = pow2((e - y - 1) as nat);
                lemma_pow2_grows((e - y - 1) as nat, (e - 1) as nat);
                assert(v * 0x100_0000 * (q * t) == half * 0x100_0000 * q) by (nonlinear_arith)
                    requires
                        half == v * t,
                ;
            }
            lemma_surplus_is(p, q * t, (e - y) as nat);
            assert(w * (q * t) == u * q) by (nonlinear_arith)
                requires
                    u == w * t,
            ;
        } else {
            lemma_pow2_grows(e, y);
            lemma2_to64();
            assert(p < 1 * 0x100_0000 * (q * t)) by (nonlinear_arith)
                requires
                    p < u * 0x100_0000 * q,
                    u <= t,
                    q > 0,
            ;
            lemma_surplus_is(p, q * t, 0);
            assert(1 * (q * t) == t * q) by (nonlinear_arith);
        }
    }
}

proof fn lemma_powers()
    ensures
        pow2(24) == 0x100_0000,
        pow2(66) == 0x4_0000_0000_0000_0000,
        pow2(67) == 0x8_0000_0000_0000_0000,
        pow2(90) == 0x400_0000_0000_0000_0000_0000,
{
    lemma2_to64();
    lemma2_to64_rest();
    lemma_pow2_adds(64, 2);
    lemma_pow2_adds(64, 3);
    lemma_pow2_adds(64, 26);
}

/// A power of two.
fn power(k: u32) -> (r: u128)
    requires
        k <= 90,
    ensures
        r == pow2(k as nat),
        0 < r <= 0x400_0000_0000_0000_0000_0000,
{
    let near: u32 = if k < 45 { k } else { 45 };
    let far: u32 = k - near;
    proof {
        lemma_powers();
        lemma_pow2_grows(k as nat, 90);
        lemma2_to64();
        lemma2_to64_rest();
        lemma_pow2_grows(near as nat, 45);
        lemma_pow2_grows(far as nat, 45);
        lemma_pow2_adds(near as nat, far as nat);
        vstd::bits::lemma_u64_shl_is_mul(1, near as u64);
        vstd::bits::lemma_u64_shl_is_mul(1, far as u64);
        let (x, y) = (pow2(near as nat), pow2(far as nat));
        assert(1 * x == x && 1 * y == y) by (nonlinear_arith);
    }
    (1u64 << near as u64) as u128 * (1u64 << far as u64) as u128
}

/// The size nearest to a quotient whose whole part is `whole` and which leaves `left`
/// over, taken 2^`z` times.
fn encode(whole: u128, left: u128, q: u128, z: i32) -> (r: Float32)
    requires
        0 < q <= 0x100_0000,
        left < q,
        whole < 0x400_0000_0000_0000_0000_0000,
        whole >= 0x80_0000 || z <= 0,
        -1000 <= z <= 1000,
    ensures
        r.bits == scaled_bits((whole * q + left) as nat, q as nat, z as int),
{
    let top: u128 = whole / 0x100_0000;
    let mut unit: u128 = 1;
    let mut e: i32 = 0;
    proof {
        lemma2_to64();
    }
    while top >= unit
        invariant
            top == whole / 0x100_0000,
            whole < 0x400_0000_0000_0000_0000_0000,
            0 <= e <= 66,
            unit == pow2(e as nat),
            unit >= 1,
            e > 0 ==> top >= pow2((e - 1) as nat),
        decreases 66 - e,
    {
        proof {
            lemma_powers();
            lemma_fewer_zeros(e as nat, 66);
            lemma_pow2_unfold((e + 1) as nat);
        }
        unit = 2 * unit;
        e = e + 1;
    }
    let ghost p: nat = (whole * q + left) as nat;
    proof {
        assert(p < unit * 0x100_0000 * q) by (nonlinear_arith)
            requires
                p == whole * q + left,
                left < q,
                whole + 1 <= unit * 0x100_0000,
        ;
        if e > 0 {
            let half = pow2((e - 1) as nat);
            assert(p >= half * 0x100_0000 * q) by (nonlinear_arith)
                requires
                    p == whole * q + left,
                    left >= 0,
                    whole >= half * 0x100_0000,
                    q > 0,
            ;
        }
        if z > 0 {
            assert(p >= 0x80_0000 * q) by (nonlinear_arith)
                requires
                    p == whole * q + left,
                    left >= 0,
                    whole >= 0x80_0000,
                    q > 0,
            ;
        }
        lemma_scaled_is(p, q as nat, e as nat, z as int);
    }
    let up: i32 = if e + z >= 0 { e + z } else { 0 };
    let drop: i32 = up - z;
    if drop > 90 {
        proof {
            lemma_powers();
            lemma_pow2_grows(91, drop as nat);
            lemma_pow2_unfold(91);
            let d = pow2(drop as nat);
            assert(2 * p < d * q) by (nonlinear_arith)
                requires
                    p == whole * q + left,
                    left < q,
                    2 * (whole + 1) <= d,
                    q > 0,
            ;
            vstd::arithmetic::div_mod::lemma_fundamental_div_mod_converse(
                p as int,
                (d * q) as int,
                0,
                p as int,
            );
        }
        return Float32 { bits: 0 };
    }
    let shift: u128 = power(drop as u32);
    let part: u128 = whole % shift;
    let m: u128 = whole / shift;
    proof {
        vstd::arithmetic::div_mod::lemma_fundamental_div_mod(whole as int, shift as int);
        assert(0 < shift * q <= 0x400_0000_0000_0000_0000_0000 * 0x100_0000) by (nonlinear_arith)
            requires
                0 < shift <= 0x400_0000_0000_0000_0000_0000,
                0 < q <= 0x100_0000,
        ;
        assert(part * q + left < shift * q) by (nonlinear_arith)
            requires
                part + 1 <= shift,
                left < q,
        ;
        assert(0 <= part * q) by (nonlinear_arith)
            requires
                part >= 0,
                q > 0,
        ;
        assert(p == m * (shift * q) + (part * q + left)) by (nonlinear_arith)
            requires
                p == whole * q + left,
                whole == shift * m + part,
        ;
        vstd::arithmetic::div_mod::lemma_fundamental_div_mod_converse(
            p as int,
            shift * q,
            m as int,
            part * q + left,
        );
        if drop >= e {
            lemma_pow2_grows(e as nat, drop as nat);
            assert(m < 0x100_0000) by (nonlinear_arith)
                requires
                    whole == shift * m + part,
                    part >= 0,
                    whole < unit * 0x100_0000,
                    unit <= shift,
                    shift > 0,
            ;
        }
    }
    let d: u128 = shift * q;
    let rest: u128 = part * q + left;
    let round_up: bool = 2 * rest > d || (2 * rest == d && m % 2 == 1);
    let kept: u64 = if round_up { m as u64 + 1 } else { m as u64 };
    let bits: u64 = up as u64 * 0x80_0000 + kept;
    if bits < INFINITE as u64 {
        Float32 { bits: bits as u32 }
    } else {
        Float32 { bits: INFINITE }
    }
}

// ---------------------------------------------------------------------------
// Arithmetic
// ---------------------------------------------------------------------------

/// How many zeros stand behind the significant bits of a finite number of units.
pub open spec fn zeros_of(v: Float32) -> nat {
    (v.exponent() + 149) as nat
}

/// A finite number without its sign, in units.
pub open spec fn units(v: Float32) -> nat {
    v.significand() * pow2(zeros_of(v))
}

/// A finite number in units.
pub open spec fn signed_units(v: Float32) -> int {
    if v.is_negative() {
        -(units(v) as int)
    } else {
        units(v) as int
    }
}

/// How far two numbers are apart: the size of their difference.
pub open spec fn apart(a: Float32, b: Float32) -> Float32 {
    if a.is_nan() || b.is_nan() {
        Float32 { bits: NO_NUMBER }
    } else if a.is_infinite() && b.is_infinite() {
        if a.is_negative() == b.is_negative() {
            Float32 { bits: NO_NUMBER }
        } else {
            Float32 { bits: INFINITE }
        }
    } else if a.is_infinite() || b.is_infinite() {
        Float32 { bits: INFINITE }
    } else {
        size(abs(signed_units(a) - signed_units(b)), 1)
    }
}

/// The square of a size.
pub open spec fn square(v: Float32) -> Float32 {
    if v.is_nan() {
        Float32 { bits: NO_NUMBER }
    } else if v.is_infinite() {
        Float32 { bits: INFINITE }
    } else {
        size(units(v) * units(v), pow2(149))
    }
}

/// The sum of two sizes.
pub open spec fn sum(a: Float32, b: Float32) -> Float32 {
    if a.is_nan() || b.is_nan() {
        Float32 { bits: NO_NUMBER }
    } else if a.is_infinite() || b.is_infinite() {
        Float32 { bits: INFINITE }
    } else {
        size(units(a) + units(b), 1)
    }
}

/// The quotient of two sizes.
pub open spec fn ratio(a: Float32, b: Float32) -> Float32 {
    if a.is_nan() || b.is_nan() || (a.is_infinite() && b.is_infinite()) || (a.magnitude() == 0
        && b.magnitude() == 0) {
        Float32 { bits: NO_NUMBER }
    } else if a.is_infinite() || b.magnitude() == 0 {
        Float32 { bits: INFINITE }
    } else if b.is_infinite() {
        Float32 { bits: 0 }
    } else {
        size(units(a) * pow2(149), units(b))
    }
}

/// The parts of a finite number: its significant bits, and the zeros behind them.
fn parts(v: Float32) -> (r: (u64, u32))
    requires
        v.magnitude() < INFINITE,
    ensures
        r.0 == v.significand(),
        r.1 == zeros_of(v),
        r.0 < 0x100_0000,
        r.1 <= 253,
        r.1 > 0 ==> r.0 >= 0x80_0000,
        r.0 == 0 <==> v.magnitude() == 0,
{
    let size: u32 = v.unsigned();
    if size < 0x80_0000 {
        (size as u64, 0)
    } else {
        (0x80_0000 + (size % 0x80_0000) as u64, size / 0x80_0000 - 1)
    }
}

/// A number whose first 24 bits have more than 60 zeros behind them keeps its size where
/// fewer than 24 bits are added at its end or taken away.
proof fn lemma_far_part_is_lost(h: nat, l: nat, s: nat, z: nat, minus: bool)
    requires
        0x80_0000 <= h < 0x100_0000,
        l < 0x100_0000,
        s > 60,
    ensures
        ({
            let x: int = if minus {
                h * pow2(s) - l
            } else {
                (h * pow2(s) + l) as int
            };
            x >= 0 && scaled_bits(x as nat, 1, z as int) == finite_or_not(
                ((s + z) * 0x80_0000 + h) as nat,
            )
        }),
{
    let w = pow2(s);
    lemma_pow2_grows(60, s);
    lemma2_to64_rest();
    assert(h * w >= 0x80_0000 * w) by (nonlinear_arith)
        requires
            h >= 0x80_0000,
            w > 0,
    ;
    let half = pow2((s - 1) as nat);
    lemma_pow2_unfold(s);
    if minus && l > 0 && h == 0x80_0000 {
        let x = (h * w - l) as nat;
        let quarter = pow2((s - 2) as nat);
        lemma_pow2_unfold((s - 1) as nat);
        lemma_pow2_pos((s - 2) as nat);
        assert(x < half * 0x100_0000 * 1 && x >= quarter * 0x100_0000 * 1);
        lemma_scaled_is(x, 1, (s - 1) as nat, z as int);
        assert(x == 0xff_ffff * half + (half - l)) by (nonlinear_arith)
            requires
                x == 0x80_0000 * w - l,
                w == 2 * half,
        ;
        vstd::arithmetic::div_mod::lemma_fundamental_div_mod_converse(
            x as int,
            (half * 1) as int,
            0xff_ffff,
            half - l,
        );
    } else {
        let x: int = if minus {
            h * w - l
        } else {
            (h * w + l) as int
        };
        let k: int = if minus && l > 0 {
            h - 1
        } else {
            h as int
        };
        let r: int = if minus && l > 0 {
            w - l
        } else {
            l as int
        };
        assert(x == k * w + r) by (nonlinear_arith)
            requires
                x == (if minus {
                    h * w - l
                } else {
                    (h * w + l) as int
                }),
                k == (if minus && l > 0 {
                    h - 1
                } else {
                    h as int
                }),
                r == (if minus && l > 0 {
                    w - l
                } else {
                    l as int
                }),
                l >= 0,
        ;
        assert(x < w * 0x100_0000 * 1) by (nonlinear_arith)
            requires
                x == k * w + r,
                k + 1 <= 0x100_0000,
                r < w,
        ;
        assert(x >= half * 0x100_0000 * 1) by (nonlinear_arith)
            requires
                x == k * w + r,
                k >= 0x80_0000,
                r >= 0,
                w == 2 * half,
                half > 0,
        ;
        lemma_scaled_is(x as nat, 1, s, z as int);
        vstd::arithmetic::div_mod::lemma_fundamental_div_mod_converse(x, (w * 1) as int, k, r);
    }
}

/// The size of the sum of two numbers of units, or of their difference.
fn combined(a: (u64, u32), b: (u64, u32), minus: bool) -> (r: Float32)
    requires
        a.0 < 0x100_0000,
        b.0 < 0x100_0000,
        a.1 <= 253,
        b.1 <= 253,
        a.1 > 0 ==> a.0 >= 0x80_0000,
        b.1 > 0 ==> b.0 >= 0x80_0000,
    ensures
        r.bits == size_bits(
            if minus {
                abs(a.0 * pow2(a.1 as nat) - b.0 * pow2(b.1 as nat))
            } else {
                (a.0 * pow2(a.1 as nat) + b.0 * pow2(b.1 as nat)) as nat
            },
            1,
        ),
{
    let (high, low) = if a.1 >= b.1 { (a, b) } else { (b, a) };
    let s: u32 = high.1 - low.1;
    let ghost t: nat = pow2(low.1 as nat);
    let ghost w: nat = pow2(s as nat);
    let ghost x: int = if minus {
        high.0 * w - low.0
    } else {
        high.0 * w + low.0
    };
    proof {
        lemma_pow2_pos(low.1 as nat);
        lemma_pow2_grows(low.1 as nat, high.1 as nat);
        let (h, l) = (high.0 as int, low.0 as int);
        assert(h * (t * w) + l * t == (h * w + l) * t) by (nonlinear_arith);
        assert(h * (t * w) - l * t == (h * w - l) * t) by (nonlinear_arith);
        assert(abs(x * t) == abs(x) * t) by (nonlinear_arith)
            requires
                t > 0,
        ;
        assert(minus ==> abs(a.0 * pow2(a.1 as nat) - b.0 * pow2(b.1 as nat)) == abs(x * t));
    }
    if s > 60 {
        proof {
            lemma_far_part_is_lost(high.0 as nat, low.0 as nat, s as nat, low.1 as nat, minus);
        }
        let bits: u64 = high.1 as u64 * 0x80_0000 + high.0;
        return if bits < INFINITE as u64 {
            Float32 { bits: bits as u32 }
        } else {
            Float32 { bits: INFINITE }
        };
    }
    proof {
        lemma2_to64_rest();
        lemma_pow2_grows(s as nat, 60);
        let h = high.0 as int;
        assert(0 <= h * w <= 0x100_0000 * 0x1000_0000_0000_0000) by (nonlinear_arith)
            requires
                0 <= h <= 0x100_0000,
                0 <= w <= 0x1000_0000_0000_0000,
        ;
    }
    let wide: u128 = high.0 as u128 * power(s);
    let small: u128 = low.0 as u128;
    let mut d: u128 = if !minus {
        wide + small
    } else if wide >= small {
        wide - small
    } else {
        small - wide
    };
    let mut z: u32 = low.1;
    let ghost whole: nat = (d * pow2(z as nat)) as nat;
    assert(d == abs(x));
    while d < 0x80_0000 && z > 0
        invariant
            d <= 0x200_0000_0000_0000_0000_0000,
            z <= 253,
            whole == d * pow2(z as nat),
        decreases z,
    {
        proof {
            lemma_pow2_unfold(z as nat);
            let u = pow2((z - 1) as nat);
            assert(d * (2 * u) == (2 * d) * u) by (nonlinear_arith);
        }
        d = 2 * d;
        z = z - 1;
    }
    assert(d * 1 + 0 == d);
    encode(d, 0, 1, z as i32)
}

/// How far two numbers are apart.
pub fn difference(a: Float32, b: Float32) -> (r: Float32)
    ensures
        r == apart(a, b),
{
    if a.nan() || b.nan() {
        return Float32 { bits: NO_NUMBER };
    }
    let (ends_a, ends_b) = (a.unsigned() == INFINITE, b.unsigned() == INFINITE);
    let opposed: bool = (a.bits >= 0x8000_0000) != (b.bits >= 0x8000_0000);
    if ends_a && ends_b && !opposed {
        Float32 { bits: NO_NUMBER }
    } else if ends_a || ends_b {
        Float32 { bits: INFINITE }
    } else {
        combined(parts(a), parts(b), !opposed)
    }
}

/// The square of a size.
pub fn squared_size(v: Float32) -> (r: Float32)
    ensures
        r == square(v),
{
    if v.nan() {
        return Float32 { bits: NO_NUMBER };
    }
    if v.unsigned() == INFINITE {
        return Float32 { bits: INFINITE };
    }
    let (m, z) = parts(v);
    proof {
        let t = pow2(z as nat);
        assert(0 <= m * m <= 0x100_0000 * 0x100_0000) by (nonlinear_arith)
            requires
                0 <= m <= 0x100_0000,
        ;
        if z > 0 {
            assert(m * m >= 0x80_0000 * 0x80_0000) by (nonlinear_arith)
                requires
                    m >= 0x80_0000,
            ;
        }
        assert((m * t) * (m * t) == (m * m) * (t * t)) by (nonlinear_arith);
        lemma_pow2_adds(z as nat, z as nat);
        lemma_scaled((m * m) as nat, 1, 2 * z as nat, 149);
        assert(1 * pow2(149) == pow2(149)) by (nonlinear_arith);
        assert((m * m) * 1 + 0 == m * m);
    }
    encode(m as u128 * m as u128, 0, 1, 2 * z as i32 - 149)
}

/// The sum of two sizes.
pub fn summed(a: Float32, b: Float32) -> (r: Float32)
    ensures
        r == sum(a, b),
{
    if a.nan() || b.nan() {
        Float32 { bits: NO_NUMBER }
    } else if a.unsigned() == INFINITE || b.unsigned() == INFINITE {
        Float32 { bits: INFINITE }
    } else {
        combined(parts(a), parts(b), false)
    }
}

/// The quotient of two sizes.
pub fn quotient_of_sizes(a: Float32, b: Float32) -> (r: Float32)
    ensures
        r == ratio(a, b),
{
    let (over, under) = (a.unsigned(), b.unsigned());
    if a.nan() || b.nan() || (over == INFINITE && under == INFINITE) || (over == 0 && under == 0) {
        return Float32 { bits: NO_NUMBER };
    }
    if over == INFINITE || under == 0 {
        return Float32 { bits: INFINITE };
    }
    if under == INFINITE {
        return Float32 { bits: 0 };
    }
    let (m, up) = parts(a);
    let (q, down) = parts(b);
    let wide: u128 = m as u128 * 0x1_0000_0000_0000_0000;
    let whole: u128 = wide / q as u128;
    let left: u128 = wide % q as u128;
    proof {
        lemma2_to64_rest();
        lemma2_to64();
        lemma_pow2_adds(up as nat, 149);
        lemma_pow2_adds(down as nat, 64);
        lemma_pow2_pos(down as nat);
        vstd::arithmetic::div_mod::lemma_fundamental_div_mod(wide as int, q as int);
        assert(q * whole == whole * q) by (nonlinear_arith);
        let (x, t, d, k) = (m as nat, pow2(up as nat), pow2(down as nat), pow2(149));
        let c: nat = 0x1_0000_0000_0000_0000;
        assert((x * t) * k == x * (t * k)) by (nonlinear_arith);
        assert((x * (t * k)) * c == (x * c) * (t * k)) by (nonlinear_arith);
        assert((q * d) * c == q * (d * c)) by (nonlinear_arith);
        assert(q * d > 0) by (nonlinear_arith)
            requires
                q > 0,
                d > 0,
        ;
        lemma_size_cancels((x * t) * k, (q * d) as nat, c);
        lemma_scaled((x * c) as nat, q as nat, up as nat + 149, down as nat + 64);
        assert(whole < 0x400_0000_0000_0000_0000_0000) by (nonlinear_arith)
            requires
                wide == whole * q + left,
                left >= 0,
                q >= 1,
                wide < 0x400_0000_0000_0000_0000_0000,
        ;
        if m > 0 {
            assert(whole >= 0x80_0000) by (nonlinear_arith)
                requires
                    wide == whole * q + left,
                    left < q,
                    q < 0x100_0000,
                    wide >= 0x1_0000_0000_0000_0000,
            ;
        }
    }
    if m == 0 {
        proof {
            let (t, k) = (pow2(up as nat), pow2(149));
            assert((0 * t) * k == 0) by (nonlinear_arith);
            lemma_zero_size(units(b));
        }
        return Float32 { bits: 0 };
    }
    encode(whole, left, q as u128, up as i32 + 149 - down as i32 - 64)
}

/// Nothing has the size zero.
proof fn lemma_zero_size(q: nat)
    requires
        q > 0,
    ensures
        size_bits(0, q) == 0,
{
    lemma2_to64();
    assert(0 < 1 * 0x100_0000 * q) by (nonlinear_arith)
        requires
            q > 0,
    ;
    lemma_surplus_is(0, q, 0);
    assert(1 * q == q) by (nonlinear_arith);
    vstd::arithmetic::div_mod::lemma_fundamental_div_mod_converse(0, q as int, 0, 0);
}

// ---------------------------------------------------------------------------
// Roots
// ---------------------------------------------------------------------------

/// The greatest number up to `k` whose square is at most `n`.
pub open spec fn root_below(n: nat, k: nat) -> nat
    decreases k,
{
    if k == 0 || k * k <= n {
        k
    } else {
        root_below(n, (k - 1) as nat)
    }
}

/// The whole part of the square root.
pub open spec fn root_of(n: nat) -> nat {
    root_below(n, n)
}

/// From `e` on, the fewest bits to leave out at the end of the root of `x` so that no
/// more than 24 are left.
pub open spec fn root_surplus_from(x: nat, e: nat) -> nat
    decreases x - pow2(2 * e),
{
    if x < pow2(2 * e) * 0x1_0000_0000_0000 {
        e
    } else {
        proof {
            lemma_root_room(x, e);
        }
        root_surplus_from(x, e + 1)
    }
}

/// A number whose root has more than 24 bits beyond the `e`-th is at least four times
/// the square of that bit.
pub proof fn lemma_root_room(x: nat, e: nat)
    requires
        x >= pow2(2 * e) * 0x1_0000_0000_0000,
    ensures
        x >= pow2(2 * (e + 1)) > pow2(2 * e) > 0,
{
    lemma_pow2_pos(2 * e);
    lemma_pow2_unfold(2 * e + 1);
    lemma_pow2_unfold(2 * e + 2);
    assert(2 * (e + 1) == 2 * e + 2);
}

/// Bit pattern of the size nearest to the root of `x` square units, of which the root
/// has 24 bits or more: twice the root, without its fraction, is brought to the nearest
/// half.
pub open spec fn root_bits(x: nat) -> nat {
    let e = root_surplus_from(x, 0);
    e * 0x80_0000 + (root_of(4 * x / pow2(2 * e)) + 1) / 2
}

/// The root of a size.
pub open spec fn root(v: Float32) -> Float32 {
    if v.is_nan() {
        Float32 { bits: NO_NUMBER }
    } else if v.is_infinite() {
        Float32 { bits: INFINITE }
    } else if v.magnitude() == 0 {
        Float32 { bits: 0 }
    } else {
        Float32 { bits: root_bits(units(v) * pow2(149)) as u32 }
    }
}

proof fn lemma_root_below(n: nat, k: nat, r: nat)
    requires
        r * r <= n < (r + 1) * (r + 1),
        r <= k,
    ensures
        root_below(n, k) == r,
    decreases k,
{
    if k > r {
        assert(k * k >= (r + 1) * (r + 1)) by (nonlinear_arith)
            requires
                k >= r + 1,
        ;
        lemma_root_below(n, (k - 1) as nat, r);
    }
}

/// The whole part of a root is the one number whose square is at most `n`, and not that
/// of the next.
pub proof fn root_is_the_whole_part(n: nat, r: nat)
    requires
        r * r <= n < (r + 1) * (r + 1),
    ensures
        root_of(n) == r,
{
    assert(r <= n) by (nonlinear_arith)
        requires
            r * r <= n,
            r >= 0,
    ;
    lemma_root_below(n, n, r);
}

/// The whole part of the root of a number of 50 bits.
fn whole_root(n: u64) -> (r: u64)
    requires
        n < 0x4_0000_0000_0000,
    ensures
        r == root_of(n as nat),
        r <= 0x200_0000,
{
    let mut r: u64 = 0;
    let mut step: u64 = 0x100_0000;
    proof {
        lemma_powers();
        assert(is_power(pow2(24)));
    }
    while step > 0
        invariant
            n < 0x4_0000_0000_0000,
            step <= 0x100_0000,
            r <= 0x200_0000,
            step == 0 || is_power(step as nat),
            r + 2 * step <= 0x200_0000 || step == 0,
            r * r <= n,
            step > 0 ==> n < (r + 2 * step) * (r + 2 * step),
            step == 0 ==> n < (r + 1) * (r + 1),
        decreases step,
    {
        let next: u64 = r + step;
        assert(next * next <= 0x200_0000 * 0x200_0000) by (nonlinear_arith)
            requires
                0 <= next <= 0x200_0000,
        ;
        proof {
            lemma_halves(step as nat);
        }
        if next * next <= n {
            assert(r + 2 * step == next + step);
            r = next;
        }
        step = step / 2;
    }
    proof {
        root_is_the_whole_part(n as nat, r as nat);
    }
    r
}

/// Whether a number is a power of two.
spec fn is_power(x: nat) -> bool {
    exists|k: nat| x == #[trigger] pow2(k)
}

proof fn lemma_halves(x: nat)
    requires
        is_power(x),
    ensures
        x > 0,
        x == 1 || (x == 2 * (x / 2) && is_power(x / 2) && x / 2 > 0 && (x / 2 == 1 || (x / 2) % 2
            == 0)),
{
    let k = choose|k: nat| x == #[trigger] pow2(k);
    lemma_pow2_pos(k);
    lemma2_to64();
    if k > 0 {
        lemma_pow2_unfold(k);
        lemma_pow2_pos((k - 1) as nat);
        assert(x / 2 == pow2((k - 1) as nat));
        if k > 1 {
            lemma_pow2_unfold((k - 1) as nat);
        }
    }
}

proof fn lemma_root_surplus_is(x: nat, e: nat, from: nat)
    requires
        from <= e,
        x < pow2(2 * e) * 0x1_0000_0000_0000,
        e > 0 ==> x >= pow2((2 * (e - 1)) as nat) * 0x1_0000_0000_0000,
    ensures
        root_surplus_from(x, from) == e,
    decreases e - from,
{
    if from < e {
        lemma_pow2_grows(2 * from, (2 * (e - 1)) as nat);
        let (a, b) = (pow2(2 * from), pow2((2 * (e - 1)) as nat));
        assert(a * 0x1_0000_0000_0000 <= b * 0x1_0000_0000_0000) by (nonlinear_arith)
            requires
                a <= b,
        ;
        lemma_root_room(x, from);
        lemma_root_surplus_is(x, e, from + 1);
    }
}

/// The root of a size.
pub fn square_root(v: Float32) -> (r: Float32)
    ensures
        r == root(v),
{
    if v.nan() {
        return Float32 { bits: NO_NUMBER };
    }
    if v.unsigned() == INFINITE {
        return Float32 { bits: INFINITE };
    }
    let (m, z) = parts(v);
    if m == 0 {
        return Float32 { bits: 0 };
    }
    // The size is made up to a number of 49 or 50 bits with an even number of zeros
    // behind it, two of them for the half.
    let zeros: u32 = z + 151;
    let mut wide: u64 = m;
    let mut j: u32 = 0;
    proof {
        lemma2_to64();
        assert(m * 1 == m && m * 2 == 2 * m) by (nonlinear_arith);
    }
    if zeros % 2 == 1 {
        wide = 2 * m;
        j = 1;
    }
    while wide < 0x1_0000_0000_0000
        invariant
            0 < m < 0x100_0000,
            0 < wide < 0x4_0000_0000_0000,
            wide == m * pow2(j as nat),
            j % 2 == zeros % 2,
            j <= 60,
            zeros >= 151,
        decreases 0x4_0000_0000_0000 - wide,
    {
        proof {
            lemma_pow2_unfold((j + 1) as nat);
            lemma_pow2_unfold((j + 2) as nat);
            let t = pow2(j as nat);
            assert(m * (2 * (2 * t)) == 4 * (m * t)) by (nonlinear_arith);
            assert(t < 0x1_0000_0000_0000) by (nonlinear_arith)
                requires
                    m * t < 0x1_0000_0000_0000,
                    m >= 1,
                    t >= 0,
            ;
            lemma2_to64_rest();
            lemma_fewer_zeros(j as nat, 48);
        }
        wide = 4 * wide;
        j = j + 2;
    }
    let e: u32 = (zeros - j) / 2;
    let ghost x: nat = units(v) * pow2(149);
    proof {
        lemma_pow2_adds(z as nat, 149);
        lemma_pow2_adds(z as nat + 149, 2);
        lemma_pow2_adds(j as nat, 2 * e as nat);
        let (k, t, d) = (m as nat, pow2(j as nat), pow2(2 * e as nat));
        let (a, b) = (pow2(z as nat), pow2(149));
        assert((k * a) * b == k * (a * b)) by (nonlinear_arith);
        assert(4 * (k * (a * b)) == k * ((a * b) * 4)) by (nonlinear_arith);
        assert(k * (t * d) == (k * t) * d) by (nonlinear_arith);
        assert(4 * x == wide * d);
        lemma_pow2_pos(2 * e as nat);
        vstd::arithmetic::div_mod::lemma_fundamental_div_mod_converse(
            (4 * x) as int,
            d as int,
            wide as int,
            0,
        );
        assert(x < d * 0x1_0000_0000_0000) by (nonlinear_arith)
            requires
                4 * x == wide * d,
                wide < 0x4_0000_0000_0000,
                d > 0,
        ;
        lemma_pow2_unfold(2 * e as nat);
        lemma_pow2_unfold((2 * e - 1) as nat);
        let quarter = pow2((2 * (e - 1)) as nat);
        assert(x >= quarter * 0x1_0000_0000_0000) by (nonlinear_arith)
            requires
                4 * x == wide * d,
                wide >= 0x1_0000_0000_0000,
                d == 4 * quarter,
                quarter >= 0,
        ;
        lemma_root_surplus_is(x, e as nat, 0);
    }
    let twice: u64 = whole_root(wide);
    Float32 { bits: e * 0x80_0000 + ((twice + 1) / 2) as u32 }
}

// ---------------------------------------------------------------------------
// Laws of sizes
// ---------------------------------------------------------------------------

/// No units are the size zero.
pub proof fn lemma_no_size(q: nat)
    requires
        q > 0,
    ensures
        size(0, q) == (Float32 { bits: 0 }),
{
    lemma2_to64();
    assert(pow2(0) * 0x100_0000 * q > 0) by (nonlinear_arith)
        requires
            pow2(0) == 1,
            q > 0,
    ;
    assert(surplus(0, q) == 0);
    assert(pow2(0) * q == q) by (nonlinear_arith)
        requires
            pow2(0) == 1,
    ;
    assert(0nat % q == 0 && 0nat / q == 0) by (nonlinear_arith)
        requires
            q > 0,
    ;
}

/// Zero holds no units.
pub proof fn lemma_zero_units()
    ensures
        units(Float32 { bits: 0 }) == 0,
{
    let zero = Float32 { bits: 0 };
    assert(zero.significand() * pow2(zeros_of(zero)) == 0) by (nonlinear_arith)
        requires
            zero.significand() == 0,
    ;
}

/// The square and the root of zero are zero.
pub proof fn lemma_zero_square()
    ensures
        square(Float32 { bits: 0 }) == (Float32 { bits: 0 }),
        root(Float32 { bits: 0 }) == (Float32 { bits: 0 }),
{
    lemma_zero_units();
    lemma_pow2_pos(149);
    lemma_no_size(pow2(149));
}

/// Zero over a size is zero.
pub proof fn lemma_zero_ratio(b: Float32)
    requires
        0 < b.bits <= 0x7f80_0000,
    ensures
        ratio(Float32 { bits: 0 }, b) == (Float32 { bits: 0 }),
{
    lemma_zero_units();
    assert(0 * pow2(149) == 0) by (nonlinear_arith);
    if b.bits < 0x7f80_0000 {
        lemma_pow2_pos(zeros_of(b));
        assert(units(b) > 0) by (nonlinear_arith)
            requires
                units(b) == b.significand() * pow2(zeros_of(b)),
                b.significand() > 0,
                pow2(zeros_of(b)) > 0,
        ;
        lemma_no_size(units(b));
    }
}

/// Twice a size is more than nothing, and a number or infinite.
pub proof fn doubles_are_positive(v: Float32)
    requires
        0 < v.bits < 0x7f80_0000,
    ensures
        0 < sum(v, v).bits <= 0x7f80_0000,
{
    lemma_pow2_pos(zeros_of(v));
    assert(units(v) > 0) by (nonlinear_arith)
        requires
            units(v) == v.significand() * pow2(zeros_of(v)),
            v.significand() > 0,
            pow2(zeros_of(v)) > 0,
    ;
    let p = 2 * units(v);
    let e = surplus(p, 1);
    lemma_surplus_from(p, 1, 0);
    lemma_pow2_pos(e);
    let d = pow2(e) * 1;
    if e > 0 {
        assert(e * 0x80_0000 > 0);
    } else {
        lemma2_to64();
        assert(half_even(p, d) == p) by {
            assert(d == 1);
        }
    }
}

/// A finite size stands for itself: the size nearest to its units is that size.
pub proof fn sizes_stand_for_themselves(v: Float32)
    requires
        v.bits < 0x7f80_0000,
    ensures
        size(units(v), 1) == v,
{
    let z = zeros_of(v);
    let (m, t) = (v.significand(), pow2(z));
    let p = m * t;
    lemma_pow2_pos(z);
    assert(m < 0x100_0000);
    assert(p < t * 0x100_0000 * 1) by (nonlinear_arith)
        requires
            p == m * t,
            m < 0x100_0000,
            t > 0,
    ;
    if z > 0 {
        lemma_pow2_unfold(z);
        let s = pow2((z - 1) as nat);
        assert(m >= 0x80_0000);
        assert(p >= s * 0x100_0000 * 1) by (nonlinear_arith)
            requires
                p == m * t,
                m >= 0x80_0000,
                t == 2 * s,
        ;
    }
    lemma_surplus_is(p, 1, z);
    assert(p % (t * 1) == 0 && p / (t * 1) == m) by {
        vstd::arithmetic::div_mod::lemma_mod_multiples_basic(m as int, t as int);
        vstd::arithmetic::div_mod::lemma_div_multiples_vanish(m as int, t as int);
        assert(t * m == m * t) by (nonlinear_arith);
        assert(t * 1 == t);
    }
    assert(size_bits(p, 1) == v.bits);
}

/// A size that is no infinite one lies within half of its last bit of what it stands
/// for.
pub proof fn sizes_are_nearest(p: nat, q: nat) -> (e: nat)
    requires
        q > 0,
        size_bits(p, q) < INFINITE,
    ensures
        ({
            let m = size_bits(p, q) - e * 0x80_0000;
            &&& 0 <= m <= 0x100_0000
            &&& e > 0 ==> m >= 0x80_0000
            &&& 2 * (m * (pow2(e) * q)) <= 2 * p + pow2(e) * q
            &&& 2 * p <= 2 * (m * (pow2(e) * q)) + pow2(e) * q
        }),
{
    let e = surplus(p, q);
    lemma_surplus_from(p, q, 0);
    lemma_pow2_pos(e);
    let d = pow2(e) * q;
    assert(d > 0) by (nonlinear_arith)
        requires
            d == pow2(e) * q,
            pow2(e) > 0,
            q > 0,
    ;
    half_even_is_nearest(p, d);
    let m = half_even(p, d);
    assert(pow2(e) * 0x100_0000 * q == 0x100_0000 * d) by (nonlinear_arith)
        requires
            d == pow2(e) * q,
    ;
    assert(m <= 0x100_0000) by (nonlinear_arith)
        requires
            2 * (m * d) <= 2 * p + d,
            p < 0x100_0000 * d,
            d > 0,
    ;
    if e > 0 {
        lemma_pow2_unfold(e);
        let s = pow2((e - 1) as nat);
        assert(s * 0x100_0000 * q == 0x80_0000 * d) by (nonlinear_arith)
            requires
                d == pow2(e) * q,
                pow2(e) == 2 * s,
        ;
        assert(m >= 0x80_0000) by (nonlinear_arith)
            requires
                2 * p <= 2 * (m * d) + d,
                p >= 0x80_0000 * d,
                d > 0,
        ;
    }
    e
}

/// Nothing added leaves a size as it is, and a number is as far from zero as its size;
/// numbers lie no distance from themselves.
pub proof fn zero_adds_nothing(v: Float32, w: Float32)
    requires
        v.bits < 0x7f80_0000,
        w.bits == v.bits + 0x8000_0000,
    ensures
        sum(v, Float32 { bits: 0 }) == v,
        sum(Float32 { bits: 0 }, v) == v,
        apart(v, Float32 { bits: 0 }) == v,
        apart(w, Float32 { bits: 0 }) == v,
        apart(v, v).bits == 0,
        apart(v, w) == sum(v, v),
{
    sizes_stand_for_themselves(v);
    lemma_zero_units();
    lemma_no_size(1);
    assert(w.magnitude() == v.magnitude());
    assert(units(w) == units(v));
    let zero = Float32 { bits: 0 };
    assert(signed_units(zero) == 0);
    assert(signed_units(v) == units(v));
    assert(signed_units(w) == -units(v));
}

/// A size over itself is one.
pub proof fn a_size_over_itself_is_one(v: Float32)
    requires
        0 < v.bits < 0x7f80_0000,
    ensures
        ratio(v, v).bits == 0x3f80_0000,
{
    let u = units(v);
    lemma_pow2_pos(zeros_of(v));
    assert(u > 0) by (nonlinear_arith)
        requires
            u == v.significand() * pow2(zeros_of(v)),
            v.significand() > 0,
            pow2(zeros_of(v)) > 0,
    ;
    lemma2_to64();
    lemma_pow2_adds(125, 24);
    lemma_pow2_adds(126, 23);
    lemma_pow2_unfold(126);
    let (a, s) = (pow2(125), pow2(126));
    lemma_pow2_pos(125);
    let p = u * pow2(149);
    assert(pow2(24) == 0x100_0000 && pow2(23) == 0x80_0000);
    assert(p < s * 0x100_0000 * u && p >= a * 0x100_0000 * u) by (nonlinear_arith)
        requires
            p == u * pow2(149),
            pow2(149) == a * 0x100_0000,
            s == 2 * a,
            a > 0,
            u > 0,
    ;
    lemma_surplus_is(p, u, 126);
    let d = s * u;
    assert(p == 0x80_0000 * d && d > 0) by (nonlinear_arith)
        requires
            p == u * pow2(149),
            pow2(149) == s * 0x80_0000,
            d == s * u,
            s > 0,
            u > 0,
    ;
    vstd::arithmetic::div_mod::lemma_mod_multiples_basic(0x80_0000, d as int);
    vstd::arithmetic::div_mod::lemma_div_multiples_vanish(0x80_0000, d as int);
    assert(half_even(p, d) == 0x80_0000);
}

/// The whole part of a root: its square is at most the number, and that of the next is
/// more.
pub proof fn roots_are_whole_parts(n: nat)
    ensures
        root_of(n) * root_of(n) <= n < (root_of(n) + 1) * (root_of(n) + 1),
{
    assert((n + 1) * (n + 1) > n) by (nonlinear_arith)
        requires
            n >= 0,
    ;
    lemma_root_below_is_root(n, n);
}

proof fn lemma_root_below_is_root(n: nat, k: nat)
    requires
        n < (k + 1) * (k + 1),
    ensures
        root_below(n, k) * root_below(n, k) <= n < (root_below(n, k) + 1) * (root_below(n, k) + 1),
    decreases k,
{
    if k > 0 && k * k > n {
        lemma_root_below_is_root(n, (k - 1) as nat);
    } else if k == 0 {
        assert(0nat * 0nat == 0) by (nonlinear_arith);
    }
}

/// The root of `x` square units is rounded to the nearest: with the bits that are left
/// out counted, half a unit less squared is at most the number, and half a unit more
/// squared is over it.
pub proof fn roots_are_nearest(x: nat) -> (e: nat)
    requires
        root_bits(x) - root_surplus_from(x, 0) * 0x80_0000 >= 1,
    ensures
        ({
            let m = root_bits(x) - e * 0x80_0000;
            let unit = pow2(2 * e);
            &&& m >= 1
            &&& (2 * m - 1) * (2 * m - 1) * unit <= 4 * x
            &&& 4 * x < (2 * m + 1) * (2 * m + 1) * unit
        }),
{
    let e = root_surplus_from(x, 0);
    let unit = pow2(2 * e);
    lemma_pow2_pos(2 * e);
    let n = 4 * x / unit;
    let s = root_of(n);
    roots_are_whole_parts(n);
    let m = root_bits(x) - e * 0x80_0000;
    assert(m == (s + 1) / 2);
    vstd::arithmetic::div_mod::lemma_fundamental_div_mod((4 * x) as int, unit as int);
    let (a, b) = (2 * m - 1, 2 * m + 1);
    assert(a * a <= s * s) by (nonlinear_arith)
        requires
            0 <= a <= s,
    ;
    assert((s + 1) * (s + 1) <= b * b) by (nonlinear_arith)
        requires
            0 <= s + 1 <= b,
    ;
    assert(a * a * unit <= unit * n) by (nonlinear_arith)
        requires
            a * a <= n,
            unit > 0,
    ;
    assert(b * b * unit >= unit * n + unit) by (nonlinear_arith)
        requires
            b * b >= n + 1,
            unit > 0,
    ;
    e
}

} // verus!
