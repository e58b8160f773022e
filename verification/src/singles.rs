//! Products of a number of the IEEE 754 binary format of 32 bits and a length in
//! pixels, brought to whole pixels.
use vstd::arithmetic::power2::{
    lemma2_to64, lemma_pow2_adds, lemma_pow2_pos, lemma_pow2_unfold, pow2,
};
use vstd::prelude::*;
use crate::float_bits::Float32;
use crate::rounding::{
    lemma_nearest_below, nearest, nearest_of, short_numbers_stay, short_products_stay,
};

verus! {

impl Float32 {
    /// Whether the number has its sign bit set.
    pub open spec fn is_negative(self) -> bool {
        self.bits >= 0x8000_0000
    }

    /// Whether the number is infinite.
    pub open spec fn is_infinite(self) -> bool {
        self.magnitude() == 0x7f80_0000
    }

    /// The significant bits: a finite number is these times a power of two.
    pub open spec fn significand(self) -> nat {
        if self.magnitude() < 0x80_0000 {
            self.magnitude() as nat
        } else {
            (0x80_0000 + self.magnitude() % 0x80_0000) as nat
        }
    }

    /// The power of two that the significant bits are taken times.
    pub open spec fn exponent(self) -> int {
        if self.magnitude() < 0x80_0000 {
            -149
        } else {
            self.magnitude() / 0x80_0000 - 150
        }
    }
}

/// The product of a finite number, without its sign, and `n`, to 24 significant
/// bits, in units of the number's power of two.
pub open spec fn product_of(v: Float32, n: nat) -> nat {
    nearest_of(v.significand() * nearest_of(n, 1), 1)
}

/// That product without its fraction.
pub open spec fn floor_of(v: Float32, n: nat) -> nat {
    if v.exponent() >= 0 {
        product_of(v, n) * pow2(v.exponent() as nat)
    } else {
        product_of(v, n) / pow2((-v.exponent()) as nat)
    }
}

/// That product rounded to a whole number, halves up.
pub open spec fn round_of(v: Float32, n: nat) -> nat {
    if v.exponent() >= 0 {
        product_of(v, n) * pow2(v.exponent() as nat)
    } else {
        let unit = pow2((-v.exponent()) as nat);
        (2 * product_of(v, n) + unit) / (2 * unit)
    }
}

/// A whole number, or `most` where it is more.
pub open spec fn at_most(x: nat, most: nat) -> nat {
    if x <= most {
        x
    } else {
        most
    }
}

/// The whole pixels in `v * n`, cut off below at zero and above at 32 bits; zero
/// where the product is no number.
pub open spec fn pixels_in(v: Float32, n: u32) -> nat {
    if v.is_nan() || v.is_negative() {
        0
    } else if v.is_infinite() {
        if n == 0 {
            0
        } else {
            0xffff_ffff
        }
    } else {
        at_most(floor_of(v, n as nat), 0xffff_ffff)
    }
}

/// `v * n` to the nearest pixel, without its sign and cut off at `most`; zero where
/// the product is no number.
pub open spec fn nearest_pixels(v: Float32, n: u32, most: nat) -> nat {
    if v.is_nan() {
        0
    } else if v.is_infinite() {
        if n == 0 {
            0
        } else {
            most
        }
    } else {
        at_most(round_of(v, n as nat), most)
    }
}

/// `v * n` to the nearest pixel, cut off below at zero and above at 32 bits.
pub open spec fn rounded_pixels(v: Float32, n: u32) -> nat {
    if v.is_negative() {
        0
    } else {
        nearest_pixels(v, n, 0xffff_ffff)
    }
}

/// `v * n` to the nearest pixel, cut off at 31 bits and a sign.
pub open spec fn placed_at(v: Float32, n: u32) -> int {
    if v.is_negative() {
        -nearest_pixels(v, n, 0x8000_0000)
    } else {
        nearest_pixels(v, n, 0x7fff_ffff) as int
    }
}

/// A power of two.
fn power(k: u32) -> (r: u128)
    requires
        k <= 120,
    ensures
        r == pow2(k as nat),
        0 < r <= 0x100_0000_0000_0000_0000_0000_0000_0000,
{
    let mut r: u128 = 1;
    let mut i: u32 = 0;
    proof {
        vstd::arithmetic::power2::lemma2_to64();
    }
    while i < k
        invariant
            k <= 120,
            i <= k,
            r == pow2(i as nat),
            0 < r,
        decreases k - i,
    {
        proof {
            lemma_small_power(i as nat);
            lemma_pow2_unfold((i + 1) as nat);
        }
        r = 2 * r;
        i = i + 1;
    }
    proof {
        lemma_small_power(k as nat);
    }
    r
}

/// A power of two up to the 120th has at most 121 bits.
proof fn lemma_small_power(k: nat)
    requires
        k <= 120,
    ensures
        pow2(k) <= 0x100_0000_0000_0000_0000_0000_0000_0000,
{
    lemma_power_grows(k, 120);
    vstd::arithmetic::power2::lemma2_to64();
    vstd::arithmetic::power2::lemma2_to64_rest();
    vstd::arithmetic::power2::lemma_pow2_adds(60, 60);
}

proof fn lemma_power_grows(a: nat, b: nat)
    requires
        a <= b,
    ensures
        0 < pow2(a) <= pow2(b),
    decreases b - a,
{
    lemma_pow2_pos(a);
    if a < b {
        lemma_power_grows(a, (b - 1) as nat);
        lemma_pow2_unfold(b);
    }
}

fn significant(v: Float32) -> (r: u128)
    ensures
        r == v.significand(),
        r < 0x100_0000,
{
    let m: u32 = v.unsigned();
    if m < 0x80_0000 {
        m as u128
    } else {
        (0x80_0000 + m % 0x80_0000) as u128
    }
}

fn scale(v: Float32) -> (r: i32)
    ensures
        r == v.exponent(),
        -149 <= r <= 105,
{
    let m: u32 = v.unsigned();
    if m < 0x80_0000 {
        -149
    } else {
        (m / 0x80_0000) as i32 - 150
    }
}

fn product(v: Float32, n: u32) -> (r: u128)
    ensures
        r == product_of(v, n as nat),
        r <= 0x100_0000_0000_0000,
{
    let m: u128 = significant(v);
    proof {
        lemma_nearest_below(n as nat, 0x1_0000_0000);
    }
    let length: u128 = nearest(n as u128, 1);
    assert(m * length <= 0x100_0000 * 0x1_0000_0000) by (nonlinear_arith)
        requires
            0 <= m <= 0x100_0000,
            0 <= length <= 0x1_0000_0000,
    ;
    assert(0 <= m * length) by (nonlinear_arith)
        requires
            0 <= m,
            0 <= length,
    ;
    proof {
        lemma_nearest_below((m * length) as nat, 0x100_0000_0000_0000);
    }
    nearest(m * length, 1)
}

/// The product without its fraction, cut off at 32 bits.
fn floor_product(v: Float32, n: u32) -> (r: u32)
    ensures
        r == at_most(floor_of(v, n as nat), 0xffff_ffff),
{
    let p: u128 = product(v, n);
    let e: i32 = scale(v);
    if e >= 0 {
        return large_product(p, e as u32, 0xffff_ffff);
    }
    if e < -100 {
        proof {
            lemma_far_below(p as nat, (-e) as nat);
        }
        return 0;
    }
    let unit: u128 = power((-e) as u32);
    let whole: u128 = p / unit;
    if whole > 0xffff_ffff {
        0xffff_ffff
    } else {
        whole as u32
    }
}

/// The product rounded to a whole number, cut off at `most`.
fn round_product(v: Float32, n: u32, most: u32) -> (r: u32)
    ensures
        r == at_most(round_of(v, n as nat), most as nat),
{
    let p: u128 = product(v, n);
    let e: i32 = scale(v);
    if e >= 0 {
        return large_product(p, e as u32, most);
    }
    if e < -100 {
        proof {
            lemma_far_below(p as nat, (-e) as nat);
        }
        return 0;
    }
    let unit: u128 = power((-e) as u32);
    let whole: u128 = (2 * p + unit) / (2 * unit);
    if whole > most as u128 {
        most
    } else {
        whole as u32
    }
}

/// `p` times a power of two, cut off at `most`.
fn large_product(p: u128, e: u32, most: u32) -> (r: u32)
    requires
        e <= 105,
        p <= 0x100_0000_0000_0000,
    ensures
        r == at_most(p as nat * pow2(e as nat), most as nat),
{
    if p == 0 {
        assert(0 * pow2(e as nat) == 0) by (nonlinear_arith);
        return 0;
    }
    if e > 40 {
        proof {
            lemma_power_grows(40, e as nat);
            vstd::arithmetic::power2::lemma2_to64();
            vstd::arithmetic::power2::lemma2_to64_rest();
            assert(p * pow2(e as nat) >= pow2(e as nat)) by (nonlinear_arith)
                requires
                    p >= 1,
                    pow2(e as nat) >= 0,
            ;
        }
        return most;
    }
    let unit: u128 = power(e);
    proof {
        lemma_power_grows(e as nat, 40);
        vstd::arithmetic::power2::lemma2_to64();
        vstd::arithmetic::power2::lemma2_to64_rest();
        assert(p * unit <= 0x100_0000_0000_0000 * 0x100_0000_0000) by (nonlinear_arith)
            requires
                0 <= p <= 0x100_0000_0000_0000,
                0 <= unit <= 0x100_0000_0000,
        ;
    }
    let whole: u128 = p * unit;
    if whole > most as u128 {
        most
    } else {
        whole as u32
    }
}

/// A product of 57 bits is nothing in units of more than 100 bits.
proof fn lemma_far_below(p: nat, k: nat)
    requires
        p <= 0x100_0000_0000_0000,
        k > 100,
    ensures
        p / pow2(k) == 0,
        (2 * p + pow2(k)) / (2 * pow2(k)) == 0,
{
    lemma_power_grows(60, k);
    vstd::arithmetic::power2::lemma2_to64();
    vstd::arithmetic::power2::lemma2_to64_rest();
    let unit = pow2(k);
    vstd::arithmetic::div_mod::lemma_basic_div(p as int, unit as int);
    vstd::arithmetic::div_mod::lemma_basic_div((2 * p + unit) as int, (2 * unit) as int);
}

/// The whole pixels in `v * n`.
pub fn whole_pixels(v: Float32, n: u32) -> (r: u32)
    ensures
        r == pixels_in(v, n),
{
    if v.nan() || v.bits >= 0x8000_0000 {
        0
    } else if v.unsigned() == 0x7f80_0000 {
        if n == 0 {
            0
        } else {
            0xffff_ffff
        }
    } else {
        floor_product(v, n)
    }
}

fn nearest_product(v: Float32, n: u32, most: u32) -> (r: u32)
    ensures
        r == nearest_pixels(v, n, most as nat),
{
    if v.nan() {
        0
    } else if v.unsigned() == 0x7f80_0000 {
        if n == 0 {
            0
        } else {
            most
        }
    } else {
        round_product(v, n, most)
    }
}

/// `v * n` to the nearest pixel, cut off below at zero.
pub fn round_pixels(v: Float32, n: u32) -> (r: u32)
    ensures
        r == rounded_pixels(v, n),
{
    if v.bits >= 0x8000_0000 {
        0
    } else {
        nearest_product(v, n, 0xffff_ffff)
    }
}

/// `v * n` to the nearest pixel, with its sign.
pub fn place_pixels(v: Float32, n: u32) -> (r: i32)
    ensures
        r == placed_at(v, n),
{
    if v.bits >= 0x8000_0000 {
        (-(nearest_product(v, n, 0x8000_0000) as i64)) as i32
    } else {
        nearest_product(v, n, 0x7fff_ffff) as i32
    }
}

// ---------------------------------------------------------------------------
// What the pixels say of the product
// ---------------------------------------------------------------------------

/// The significant bits and the power of two tell a finite number: its pattern without
/// the sign is made of them alone, and there are at most 24 bits.
pub proof fn bits_and_power_tell_the_number(v: Float32)
    requires
        v.bits % 0x8000_0000 < 0x7f80_0000,
    ensures
        v.significand() < 0x100_0000,
        v.significand() < 0x80_0000 ==> v.exponent() == -149 && v.bits % 0x8000_0000
            == v.significand(),
        v.significand() >= 0x80_0000 ==> v.bits % 0x8000_0000 == (v.exponent() + 149) * 0x80_0000
            + v.significand(),
{
}

/// The whole pixels in a product are the most that do not exceed it: as many units of
/// the number's power of two fit in them, and one more pixel would be too many.
pub proof fn whole_pixels_do_not_exceed_the_product(v: Float32, n: u32)
    requires
        v.bits < 0x7f80_0000,
        v.exponent() < 0,
        pixels_in(v, n) < 0xffff_ffff,
    ensures
        ({
            let unit = pow2((-v.exponent()) as nat);
            let product = nearest_of(v.significand() * nearest_of(n as nat, 1), 1);
            pixels_in(v, n) * unit <= product < (pixels_in(v, n) + 1) * unit
        }),
{
    let unit = pow2((-v.exponent()) as nat);
    let product = nearest_of(v.significand() * nearest_of(n as nat, 1), 1);
    let k = pixels_in(v, n);
    lemma_pow2_pos((-v.exponent()) as nat);
    vstd::arithmetic::div_mod::lemma_fundamental_div_mod(product as int, unit as int);
    assert(unit * k == k * unit && (k + 1) * unit == k * unit + unit) by (nonlinear_arith);
}

/// The nearest pixel to a product lies at most half a pixel off, and a half goes up.
pub proof fn nearest_pixels_lie_within_a_half(v: Float32, n: u32)
    requires
        v.bits < 0x7f80_0000,
        v.exponent() < 0,
        rounded_pixels(v, n) < 0xffff_ffff,
    ensures
        ({
            let unit = pow2((-v.exponent()) as nat);
            let product = nearest_of(v.significand() * nearest_of(n as nat, 1), 1);
            (2 * rounded_pixels(v, n) - 1) * unit <= 2 * product < (2 * rounded_pixels(v, n) + 1)
                * unit
        }),
{
    let unit = pow2((-v.exponent()) as nat);
    let product = nearest_of(v.significand() * nearest_of(n as nat, 1), 1);
    let k = rounded_pixels(v, n);
    lemma_pow2_pos((-v.exponent()) as nat);
    vstd::arithmetic::div_mod::lemma_fundamental_div_mod(
        (2 * product + unit) as int,
        (2 * unit) as int,
    );
    assert((2 * unit) * k == 2 * (k * unit) && (2 * k - 1) * unit == 2 * (k * unit) - unit && (2 * k
        + 1) * unit == 2 * (k * unit) + unit) by (nonlinear_arith);
}

/// Half, a quarter, an eighth of a length and so on: the whole pixels in it are those of
/// the division without its rest, and the nearest pixel is that of the division rounded,
/// halves up. A whole length is itself.
pub proof fn binary_fractions_are_exact(v: Float32, n: u32, k: nat)
    requires
        k <= 23,
        v.bits == (127 - k) * 0x80_0000,
        n < 0x100_0000,
    ensures
        pixels_in(v, n) == n as nat / pow2(k),
        rounded_pixels(v, n) == (2 * n as nat + pow2(k)) / (2 * pow2(k)),
        placed_at(v, n) == (2 * n as nat + pow2(k)) / (2 * pow2(k)),
{
    assert(v.significand() == 0x80_0000 && v.exponent() == -23 - k);
    lemma2_to64();
    short_numbers_stay(n as nat, 1);
    short_products_stay(n as nat, 23);
    let p = product_of(v, n as nat);
    assert(pow2(23) == 0x80_0000);
    assert(p == n as nat * pow2(23));
    lemma_pow2_adds(23, k);
    let (a, b) = (pow2(23), pow2(k));
    lemma_pow2_pos(k);
    assert(a * b == pow2(23 + k));
    assert(n as nat * a == a * n as nat) by (nonlinear_arith);
    vstd::arithmetic::div_mod::lemma_truncate_middle(n as int, b as int, a as int);
    vstd::arithmetic::div_mod::lemma_div_denominator((a * n) as int, a as int, b as int);
    vstd::arithmetic::div_mod::lemma_div_multiples_vanish(n as int, a as int);
    assert(2 * p + a * b == a * (2 * n as nat + b) && 2 * (a * b) == a * (2 * b))
        by (nonlinear_arith)
        requires
            p == n as nat * a,
    ;
    let whole = (2 * n as nat + b) as int;
    vstd::arithmetic::div_mod::lemma_div_denominator(a * whole, a as int, (2 * b) as int);
    vstd::arithmetic::div_mod::lemma_div_multiples_vanish(whole, a as int);
    assert(n as nat / b <= n as nat) by (nonlinear_arith)
        requires
            b >= 1,
    ;
    assert(whole / (2 * b) as int <= whole) by (nonlinear_arith)
        requires
            b >= 1,
            whole >= 0,
    ;
    lemma_power_grows(k, 23);
}

/// A place to the other side lies as far off: the sign turns with that of the number.
pub proof fn places_turn_with_the_sign(v: Float32, w: Float32, n: u32)
    requires
        v.bits < 0x8000_0000,
        w.bits == v.bits + 0x8000_0000,
        placed_at(v, n) < 0x7fff_ffff,
    ensures
        placed_at(w, n) == -placed_at(v, n),
        pixels_in(w, n) == 0,
        rounded_pixels(w, n) == 0,
{
    assert(w.magnitude() == v.magnitude());
}

/// What is no number holds no pixel and is placed at zero.
pub proof fn no_number_holds_no_pixel(v: Float32, n: u32)
    requires
        v.bits % 0x8000_0000 > 0x7f80_0000,
    ensures
        pixels_in(v, n) == 0,
        rounded_pixels(v, n) == 0,
        placed_at(v, n) == 0,
{
}

} // verus!
