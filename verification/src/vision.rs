//! Sharpness of an image: the variance of its Laplacian, on the whole frame or
//! on a part of it.
use image::imageops::FilterType;
use image::{DynamicImage, GrayImage, RgbImage};
use vstd::arithmetic::power2::{
    lemma2_to64, lemma_pow2_adds, lemma_pow2_pos, lemma_pow2_unfold, pow2,
};
use vstd::math::abs;
use vstd::prelude::*;
use crate::dedup::{decoded, perceptual_hash, phash_of};
use crate::doubles::{
    lemma_pow2_grows, lemma_quotient_cancels, quotient_bits, quotient_is_a_number,
    quotients_keep_their_order,
};
use crate::float_bits::Float64;
use crate::formats::{
    is_portable, is_raw_path, last_name, names_raw, shows_extension, tail_name,
};
use crate::precision::{
    divided, keep, lemma_few_zeros, lemma_rounded_at_most_twice, lemma_rounded_below,
    lemma_short_is_kept, lemma_sum_has_room, number, plus, rounded, squared, Significant,
};
use crate::raster::{channels_tell_the_image, cut, is_cut_of, least, Image};
use crate::text::{append_decimal, decimal};

verus! {

/// Bit pattern of the score, 100.0, below which an image counts as blurry.
pub const DEFAULT_BLUR_THRESHOLD: u64 = 0x4059_0000_0000_0000;

/// Long edge in pixels to which an image is brought down before scores are
/// compared across photos.
pub const BLUR_NORM_LONG_EDGE: u32 = 400;

/// Most pixels whose sums fit in 128 bits.
pub const MAX_PIXELS: u64 = 0x1_0000_0000_0000;

// ---------------------------------------------------------------------------
// Frames from the raw decoder
// ---------------------------------------------------------------------------

/// Text of the error for a raw frame of the wrong size.
pub open spec fn raw_size_message(found: nat, width: nat, height: nat) -> Seq<char> {
    "RAW decode produced "@ + decimal(found) + " bytes, expected "@ + decimal(width * height * 3)
        + " for "@ + decimal(width) + "x"@ + decimal(height) + " RGB"@
}

/// Takes the packed RGB bytes of a decoded raw file as an image, if there are as
/// many as the size asks for.
pub fn decode_raw(width: usize, height: usize, data: Vec<u8>) -> (r: Result<Image, String>)
    requires
        width <= u32::MAX,
        height <= u32::MAX,
        width * height * 3 <= usize::MAX,
    ensures
        r is Ok <==> data@.len() == width * height * 3,
        r matches Ok(img) ==> img.wf() && img.width == width && img.height == height && img.data@
            == data@,
        r matches Err(e) ==> e@ == raw_size_message(data@.len(), width as nat, height as nat),
{
    assert(0 <= width * height) by (nonlinear_arith)
        requires
            0 <= width,
            0 <= height,
    ;
    let expected: usize = width * height * 3;
    if data.len() != expected {
        let mut message: String = "RAW decode produced ".to_owned();
        append_decimal(&mut message, data.len() as u64);
        message.append(" bytes, expected ");
        append_decimal(&mut message, expected as u64);
        message.append(" for ");
        append_decimal(&mut message, width as u64);
        message.append("x");
        append_decimal(&mut message, height as u64);
        message.append(" RGB");
        return Err(message);
    }
    Ok(Image { width: width as u32, height: height as u32, data })
}

// ---------------------------------------------------------------------------
// The Laplacian
// ---------------------------------------------------------------------------

/// The brightness of a pixel of this colour.
pub uninterp spec fn luma_pixel(red: u8, green: u8, blue: u8) -> u8;

/// The brightness of each pixel of an RGB image, row by row.
pub open spec fn luma_of(img: &Image) -> Seq<u8> {
    Seq::new(
        (img.width * img.height) as nat,
        |k: int| luma_pixel(img.data@[3 * k], img.data@[3 * k + 1], img.data@[3 * k + 2]),
    )
}

/// `image`'s `DynamicImage::to_luma8` on an RGB image: one byte to a pixel, a
/// function of the pixel's three bytes.
#[verifier::external_body]
fn to_luma8(img: &Image) -> (r: Vec<u8>)
    requires
        img.wf(),
    ensures
        r@.len() == img.width * img.height,
        forall|k: int|
            0 <= k < r@.len() ==> #[trigger] r@[k] == luma_pixel(
                img.data@[3 * k],
                img.data@[3 * k + 1],
                img.data@[3 * k + 2],
            ),
{
    let rgb = RgbImage::from_raw(img.width, img.height, img.data.clone()).unwrap();
    DynamicImage::ImageRgb8(rgb).to_luma8().into_raw()
}

/// `v` moved into the range from zero to `n - 1`.
pub open spec fn clamped(v: int, n: int) -> int {
    if v < 0 {
        0
    } else if v >= n {
        n - 1
    } else {
        v
    }
}

/// Brightness in column `x` and row `y`; beyond an edge, that of the nearest
/// pixel.
pub open spec fn luma_at(luma: Seq<u8>, w: int, h: int, x: int, y: int) -> int {
    luma[clamped(y, h) * w + clamped(x, w)] as int
}

/// The Laplacian in column `x` and row `y`: the four neighbours less four times
/// the pixel.
pub open spec fn laplacian_at(luma: Seq<u8>, w: int, h: int, x: int, y: int) -> int {
    luma_at(luma, w, h, x, y - 1) + luma_at(luma, w, h, x - 1, y) + luma_at(luma, w, h, x + 1, y)
        + luma_at(luma, w, h, x, y + 1) - 4 * luma_at(luma, w, h, x, y)
}

/// The Laplacian of every pixel, row by row.
pub open spec fn laplacian_of(luma: Seq<u8>, w: int, h: int) -> Seq<int> {
    Seq::new((w * h) as nat, |k: int| laplacian_at(luma, w, h, k % w, k / w))
}

/// `imageproc`'s `filter::laplacian_filter`: the 3 by 3 Laplacian of a grey
/// image, which goes on beyond its edges with their pixels.
#[verifier::external_body]
fn laplacian_filter(luma: &Vec<u8>, width: u32, height: u32) -> (r: Vec<i16>)
    requires
        luma@.len() == width * height,
        luma@.len() <= MAX_PIXELS,
    ensures
        r@.map_values(|v: i16| v as int) == laplacian_of(luma@, width as int, height as int),
{
    let gray = GrayImage::from_raw(width, height, luma.clone()).unwrap();
    imageproc::filter::laplacian_filter(&gray).into_raw()
}

// ---------------------------------------------------------------------------
// Variance
// ---------------------------------------------------------------------------

/// The sum of numbers.
pub open spec fn sum(s: Seq<int>) -> int
    decreases s.len(),
{
    if s.len() == 0 {
        0
    } else {
        sum(s.drop_last()) + s.last()
    }
}

/// A number of either sign with its first 53 significant bits kept.
pub open spec fn kept(x: int) -> int {
    if x < 0 {
        -(rounded((-x) as nat, 1) as int)
    } else {
        rounded(x as nat, 1) as int
    }
}

/// The sum of numbers, kept to 53 significant bits after each addition.
pub open spec fn rounded_sum(s: Seq<int>) -> int
    decreases s.len(),
{
    if s.len() == 0 {
        0
    } else {
        kept(rounded_sum(s.drop_last()) + s.last())
    }
}

/// The mean of numbers to 53 significant bits, taken 2^100 times.
pub open spec fn mean_of(s: Seq<int>) -> int {
    let total = rounded_sum(s);
    if total < 0 {
        -(rounded((-total) as nat * pow2(100), s.len()) as int)
    } else {
        rounded(total as nat * pow2(100), s.len()) as int
    }
}

/// How far a number lies from a mean that is taken 2^100 times: to 53 significant
/// bits, and taken as many times.
pub open spec fn distance_from(x: int, mean: int) -> nat {
    rounded(abs(x * pow2(100) - mean), 1)
}

/// The square of that distance to 53 significant bits, taken 2^200 times.
pub open spec fn squared_distance(x: int, mean: int) -> nat {
    rounded(distance_from(x, mean) * distance_from(x, mean), 1)
}

/// The sum of the squared distances of numbers from a mean, kept to 53 significant
/// bits after each addition and taken 2^200 times.
pub open spec fn summed_distances(s: Seq<int>, mean: int) -> nat
    decreases s.len(),
{
    if s.len() == 0 {
        0
    } else {
        rounded(summed_distances(s.drop_last(), mean) + squared_distance(s.last(), mean), 1)
    }
}

/// The variance of numbers as arithmetic of 64 bits gives it: the mean of their
/// squared distances from their mean, each step to the nearest number; zero for no
/// numbers.
pub open spec fn variance_of(s: Seq<int>) -> Float64 {
    if s.len() == 0 {
        Float64 { bits: 0 }
    } else {
        Float64 {
            bits: quotient_bits(
                summed_distances(s, mean_of(s)),
                s.len() * pow2(200),
            ) as u64,
        }
    }
}

/// The sum of the squared distances of numbers from `c`.
pub open spec fn squared_distances(s: Seq<int>, c: int) -> nat
    decreases s.len(),
{
    if s.len() == 0 {
        0
    } else {
        squared_distances(s.drop_last(), c) + abs(s.last() - c) * abs(s.last() - c)
    }
}

/// Numbers of 16 bits.
pub open spec fn are_small(s: Seq<int>) -> bool {
    forall|i: int| 0 <= i < s.len() ==> -32768 <= #[trigger] s[i] <= 32767
}

/// Sums of up to 2^38 numbers of 16 bits need no rounding.
proof fn lemma_sum_is_exact(s: Seq<int>)
    requires
        are_small(s),
        s.len() <= 0x40_0000_0000,
    ensures
        rounded_sum(s) == sum(s),
        -32768 * s.len() <= sum(s) <= 32768 * s.len(),
    decreases s.len(),
{
    if s.len() > 0 {
        let f = s.drop_last();
        assert forall|i: int| 0 <= i < f.len() implies -32768 <= #[trigger] f[i] <= 32767 by {
            assert(s[i] == f[i]);
        }
        lemma_sum_is_exact(f);
        assert(-32768 <= s[s.len() - 1] <= 32767);
        lemma_whole_is_kept(abs(sum(s)));
    }
}

/// Numbers up to 2^53 need no rounding.
proof fn lemma_whole_is_kept(x: nat)
    requires
        x <= 0x20_0000_0000_0000,
    ensures
        rounded(x, 1) == x,
{
    lemma2_to64();
    assert(x * 1 * 1 == x && x * 1 == x) by (nonlinear_arith);
    if x < 0x20_0000_0000_0000 {
        lemma_short_is_kept(x, 1, 0);
    } else {
        lemma_short_is_kept(0x10_0000_0000_0000, 1, 1);
    }
}

/// Where the mean is a whole number `c`, and the squared distances from it sum up to
/// less than 2^53, nothing is rounded before the last division: the score is the number
/// nearest to the variance.
pub proof fn variance_around_a_whole_mean(s: Seq<int>, c: int)
    requires
        are_small(s),
        0 < s.len() <= 0x40_0000_0000,
        sum(s) == c * s.len(),
        squared_distances(s, c) < 0x20_0000_0000_0000,
    ensures
        variance_of(s).bits == quotient_bits(squared_distances(s, c), s.len()) as u64,
{
    let n = s.len();
    lemma_sum_is_exact(s);
    assert(-32768 <= c <= 32768) by (nonlinear_arith)
        requires
            -32768 * n <= c * n <= 32768 * n,
            n > 0,
    ;
    let size = abs(c);
    let t = pow2(100);
    assert(abs(sum(s)) == size * n) by (nonlinear_arith)
        requires
            sum(s) == c * n,
            size == abs(c),
            n > 0,
    ;
    assert((size * n) * t == size * t * n) by (nonlinear_arith);
    lemma_short_is_kept(size, n, 100);
    assert(mean_of(s) == c * t) by (nonlinear_arith)
        requires
            mean_of(s) == (if c * n < 0 {
                -((size * t) as int)
            } else {
                (size * t) as int
            }),
            size == (if c < 0 {
                -c
            } else {
                c
            }),
            n > 0,
    ;
    lemma_distances_are_exact(s, c);
    lemma_pow2_pos(200);
    lemma_quotient_cancels(squared_distances(s, c), n, pow2(200));
}

/// Squared distances from a whole number need no rounding while their sum is below
/// 2^53.
proof fn lemma_distances_are_exact(s: Seq<int>, c: int)
    requires
        are_small(s),
        -32768 <= c <= 32768,
        squared_distances(s, c) < 0x20_0000_0000_0000,
    ensures
        summed_distances(s, c * pow2(100)) == squared_distances(s, c) * pow2(200),
    decreases s.len(),
{
    let t = pow2(100);
    if s.len() == 0 {
        assert(0 * pow2(200) == 0) by (nonlinear_arith);
    } else {
        let f = s.drop_last();
        assert forall|i: int| 0 <= i < f.len() implies -32768 <= #[trigger] f[i] <= 32767 by {
            assert(s[i] == f[i]);
        }
        assert(-32768 <= s[s.len() - 1] <= 32767);
        let d = abs(s.last() - c);
        lemma_distances_are_exact(f, c);
        lemma_pow2_pos(100);
        assert(abs(s.last() * t - c * t) == d * t) by (nonlinear_arith)
            requires
                d == abs(s.last() - c),
                t > 0,
        ;
        assert(d * t * 1 == d * t) by (nonlinear_arith);
        lemma_short_is_kept(d, 1, 100);
        lemma_pow2_adds(100, 100);
        let w = pow2(200);
        assert((d * t) * (d * t) == (d * d) * (t * t)) by (nonlinear_arith);
        assert((d * d) * w * 1 == (d * d) * w) by (nonlinear_arith);
        lemma_short_is_kept(d * d, 1, 200);
        let before = squared_distances(f, c);
        assert(before * w + (d * d) * w == (before + d * d) * w) by (nonlinear_arith);
        assert((before + d * d) * w * 1 == (before + d * d) * w) by (nonlinear_arith);
        lemma_short_is_kept(before + d * d, 1, 200);
    }
}

/// Numbers that are all the same have no variance.
pub proof fn variance_of_flat_is_zero(s: Seq<int>, x: int)
    requires
        -32768 <= x <= 32767,
        s.len() <= 0x40_0000_0000 || x == 0,
        forall|i: int| 0 <= i < s.len() ==> #[trigger] s[i] == x,
    ensures
        variance_of(s).bits == 0,
{
    if s.len() > 0 {
        lemma_flat_sums(s, x);
        if x == 0 {
            lemma_zeros_sum_to_zero(s);
            assert(0 * pow2(100) == 0) by (nonlinear_arith);
            lemma_short_is_kept(0, s.len(), 0);
            assert(0 * pow2(0) == 0 && 0 * s.len() == 0) by (nonlinear_arith);
            lemma_distances_are_exact(s, 0);
            assert(0 * pow2(200) == 0) by (nonlinear_arith);
        } else {
            assert(x * s.len() == s.len() * x) by (nonlinear_arith);
            variance_around_a_whole_mean(s, x);
        }
    }
}

proof fn lemma_flat_sums(s: Seq<int>, x: int)
    requires
        forall|i: int| 0 <= i < s.len() ==> #[trigger] s[i] == x,
    ensures
        sum(s) == s.len() * x,
        squared_distances(s, x) == 0,
    decreases s.len(),
{
    if s.len() == 0 {
        assert(0 * x == 0) by (nonlinear_arith);
    } else {
        let f = s.drop_last();
        assert forall|i: int| 0 <= i < f.len() implies #[trigger] f[i] == x by {
            assert(s[i] == x);
        }
        lemma_flat_sums(f, x);
        assert(s.last() == x);
        let n = f.len() as int;
        assert((n + 1) * x == n * x + x) by (nonlinear_arith);
        assert(abs(x - x) == 0 && 0nat * 0nat == 0);
    }
}

proof fn lemma_zeros_sum_to_zero(s: Seq<int>)
    requires
        forall|i: int| 0 <= i < s.len() ==> #[trigger] s[i] == 0,
    ensures
        rounded_sum(s) == 0,
    decreases s.len(),
{
    if s.len() > 0 {
        let f = s.drop_last();
        assert forall|i: int| 0 <= i < f.len() implies #[trigger] f[i] == 0 by {
            assert(s[i] == 0);
        }
        lemma_zeros_sum_to_zero(f);
        assert(s.last() == 0);
        lemma_whole_is_kept(0);
    }
}

/// The mean of numbers of 16 bits has few bits.
proof fn lemma_mean_bounded(s: Seq<int>)
    requires
        are_small(s),
        0 < s.len() <= MAX_PIXELS,
    ensures
        abs(mean_of(s)) < pow2(119),
{
    lemma_total_bounded(s);
    lemma_powers();
    let (n, t) = (s.len(), pow2(100));
    let p = abs(rounded_sum(s)) * t;
    lemma_rounded_at_most_twice(p, n);
    vstd::arithmetic::div_mod::lemma_fundamental_div_mod(p as int, n as int);
    let w = p / n;
    assert(w <= 0x1_0000 * t) by (nonlinear_arith)
        requires
            p == n * w + p % n,
            p % n >= 0,
            p <= (n * 0x1_0000) * t,
            n > 0,
    ;
}

/// Sums of numbers of 16 bits, rounded, have few bits.
proof fn lemma_total_bounded(s: Seq<int>)
    requires
        are_small(s),
        s.len() <= MAX_PIXELS,
    ensures
        abs(rounded_sum(s)) <= s.len() * 0x1_0000,
    decreases s.len(),
{
    if s.len() > 0 {
        let f = s.drop_last();
        assert forall|i: int| 0 <= i < f.len() implies -32768 <= #[trigger] f[i] <= 32767 by {
            assert(s[i] == f[i]);
        }
        lemma_total_bounded(f);
        assert(-32768 <= s[s.len() - 1] <= 32767);
        lemma_sum_has_room(abs(rounded_sum(f) + s.last()), 0x8000, f.len());
    }
}

/// Squared distances of numbers of 16 bits from such a mean have few bits.
proof fn lemma_square_bounded(x: int, mean: int)
    requires
        -32768 <= x <= 32767,
        abs(mean) < pow2(119),
    ensures
        distance_from(x, mean) <= pow2(120),
        squared_distance(x, mean) <= pow2(240),
{
    lemma_powers();
    let d = distance_from(x, mean);
    lemma_rounded_below(abs(x * pow2(100) - mean), 120);
    assert(d * d <= pow2(120) * pow2(120)) by (nonlinear_arith)
        requires
            0 <= d <= pow2(120),
    ;
    lemma_rounded_below(d * d, 240);
}

/// Sums of squared distances of numbers of 16 bits have few bits.
proof fn lemma_distances_bounded(s: Seq<int>, mean: int)
    requires
        are_small(s),
        s.len() <= MAX_PIXELS,
        abs(mean) < pow2(119),
    ensures
        summed_distances(s, mean) <= s.len() * (2 * pow2(240)),
    decreases s.len(),
{
    if s.len() > 0 {
        let f = s.drop_last();
        assert forall|i: int| 0 <= i < f.len() implies -32768 <= #[trigger] f[i] <= 32767 by {
            assert(s[i] == f[i]);
        }
        lemma_distances_bounded(f, mean);
        assert(-32768 <= s[s.len() - 1] <= 32767);
        lemma_square_bounded(s.last(), mean);
        lemma_sum_has_room(
            summed_distances(f, mean) + squared_distance(s.last(), mean),
            pow2(240),
            f.len(),
        );
    } else {
        assert(0 * (2 * pow2(240)) == 0) by (nonlinear_arith);
    }
}

/// The variance of numbers of 16 bits is far below 2^53.
proof fn lemma_variance_fits(n: nat, p: nat)
    requires
        n > 0,
        p <= n * (2 * pow2(240)),
    ensures
        p < n * pow2(200) * 0x20_0000_0000_0000,
{
    lemma_pow2_adds(200, 40);
    lemma_pow2_pos(200);
    lemma2_to64();
    vstd::arithmetic::power2::lemma2_to64_rest();
    let w = pow2(200);
    assert(n * (2 * (w * 0x100_0000_0000)) < n * w * 0x20_0000_0000_0000) by (nonlinear_arith)
        requires
            n > 0,
            w > 0,
    ;
}

/// Of as many numbers, those whose squared distances sum up to more score no lower.
pub proof fn scores_keep_the_order_of_distances(a: Seq<int>, b: Seq<int>)
    requires
        are_small(a),
        are_small(b),
        a.len() == b.len(),
        0 < a.len() <= MAX_PIXELS,
        summed_distances(a, mean_of(a)) <= summed_distances(b, mean_of(b)),
    ensures
        !variance_of(b).is_below(variance_of(a)),
{
    let (p1, p2) = (summed_distances(a, mean_of(a)), summed_distances(b, mean_of(b)));
    let q = a.len() * pow2(200);
    lemma_mean_bounded(b);
    lemma_distances_bounded(b, mean_of(b));
    lemma_variance_fits(b.len(), p2);
    lemma_pow2_pos(200);
    lemma_pow2_adds(48, 200);
    vstd::arithmetic::power2::lemma2_to64_rest();
    lemma_pow2_grows(248, 1000);
    let (n, w) = (a.len(), pow2(200));
    assert(0 < n * w <= 0x1_0000_0000_0000 * w) by (nonlinear_arith)
        requires
            0 < n <= 0x1_0000_0000_0000,
            w > 0,
    ;
    assert(p1 * q <= p2 * q) by (nonlinear_arith)
        requires
            p1 <= p2,
            q >= 0,
    ;
    quotients_keep_their_order(p1, q, p2, q);
    quotient_is_a_number(p1, q, 1000);
    quotient_is_a_number(p2, q, 1000);
}

/// The sum of the numbers in `data`, rounded after each addition.
fn total(data: &[i16]) -> (r: i128)
    requires
        data@.len() <= MAX_PIXELS,
    ensures
        r == rounded_sum(data@.map_values(|v: i16| v as int)),
        abs(r as int) <= data@.len() * 0x1_0000,
{
    let ghost values: Seq<int> = data@.map_values(|v: i16| v as int);
    let mut total: i128 = 0;
    let mut i: usize = 0;
    assert(values.take(0) =~= seq![]);
    while i < data.len()
        invariant
            data@.len() <= MAX_PIXELS,
            values == data@.map_values(|v: i16| v as int),
            i <= data@.len(),
            total == rounded_sum(values.take(i as int)),
            abs(total as int) <= i * 0x1_0000,
        decreases data@.len() - i,
    {
        let next: i128 = total + data[i] as i128;
        let size: u128 = if next < 0 { (-next) as u128 } else { next as u128 };
        proof {
            assert(values.take(i + 1).drop_last() =~= values.take(i as int));
            lemma_sum_has_room(size as nat, 0x8000, i as nat);
            assert(size * 1 + 0 == size);
        }
        let whole: u128 = number(keep(size, 0, 1));
        total = if next < 0 { -(whole as i128) } else { whole as i128 };
        i = i + 1;
    }
    assert(values.take(data@.len() as int) =~= values);
    total
}

/// The mean of the numbers in `data`, taken 2^100 times.
fn mean(data: &[i16]) -> (r: i128)
    requires
        0 < data@.len() <= MAX_PIXELS,
    ensures
        r == mean_of(data@.map_values(|v: i16| v as int)),
{
    let n: u128 = data.len() as u128;
    let total: i128 = total(data);
    let size: u128 = if total < 0 { (-total) as u128 } else { total as u128 };
    let mut whole: u128 = size / n;
    let mut left: u128 = size % n;
    let mut k: u32 = 0;
    proof {
        lemma2_to64();
        vstd::arithmetic::div_mod::lemma_fundamental_div_mod(size as int, n as int);
        assert(n * whole == whole * n && size * 1 == size) by (nonlinear_arith);
        assert(whole <= 0x1_0000) by (nonlinear_arith)
            requires
                whole * n + left == size,
                left >= 0,
                size <= n * 0x1_0000,
                n > 0,
        ;
    }
    while k < 100
        invariant
            0 < n <= MAX_PIXELS,
            left < n,
            size * pow2(k as nat) == whole * n + left,
            whole < 0x2_0000 * pow2(k as nat),
            k <= 100,
        decreases 100 - k,
    {
        proof {
            lemma_pow2_unfold((k + 1) as nat);
            let t = pow2(k as nat);
            assert(size * (2 * t) == 2 * (size * t)) by (nonlinear_arith);
            assert((2 * whole) * n == 2 * (whole * n)) by (nonlinear_arith);
            assert((2 * whole + 1) * n == 2 * (whole * n) + n) by (nonlinear_arith);
            lemma_powers();
            lemma_pow2_grows(k as nat, 100);
        }
        if 2 * left >= n {
            whole = 2 * whole + 1;
            left = 2 * left - n;
        } else {
            whole = 2 * whole;
            left = 2 * left;
        }
        k = k + 1;
    }
    proof {
        lemma_powers();
    }
    let r: u128 = number(keep(whole, left, n));
    if total < 0 {
        -(r as i128)
    } else {
        r as i128
    }
}

proof fn lemma_powers()
    ensures
        pow2(100) == 0x10_0000_0000_0000_0000_0000_0000,
        pow2(119) == 0x80_0000_0000_0000_0000_0000_0000_0000,
        pow2(120) == 0x100_0000_0000_0000_0000_0000_0000_0000,
        pow2(240) == pow2(120) * pow2(120),
{
    lemma2_to64();
    vstd::arithmetic::power2::lemma2_to64_rest();
    lemma_pow2_adds(64, 36);
    lemma_pow2_adds(64, 55);
    lemma_pow2_adds(64, 56);
    lemma_pow2_adds(120, 120);
}

/// The variance of the numbers in `data`.
pub fn variance(data: &[i16]) -> (r: Float64)
    requires
        data@.len() <= MAX_PIXELS,
    ensures
        r == variance_of(data@.map_values(|v: i16| v as int)),
{
    let n: usize = data.len();
    let ghost values: Seq<int> = data@.map_values(|v: i16| v as int);
    if n == 0 {
        return Float64 { bits: 0 };
    }
    let mean: i128 = mean(data);
    assert(are_small(values));
    proof {
        lemma_mean_bounded(values);
    }
    let mut sum: Significant = Significant { bits: 0, zeros: 0 };
    let mut i: usize = 0;
    proof {
        assert(values.take(0) =~= seq![]);
        assert(0 * pow2(0) == 0) by (nonlinear_arith);
    }
    while i < n
        invariant
            n == data@.len() <= MAX_PIXELS,
            values == data@.map_values(|v: i16| v as int),
            mean == mean_of(values),
            abs(mean as int) < pow2(119),
            i <= n,
            sum.wf(),
            sum.zeros <= 1000,
            sum.value() == summed_distances(values.take(i as int), mean as int),
            sum.value() <= i * (2 * pow2(240)),
        decreases n - i,
    {
        proof {
            lemma_powers();
        }
        let apart: i128 = data[i] as i128 * 0x10_0000_0000_0000_0000_0000_0000 - mean;
        let size: u128 = if apart < 0 { (-apart) as u128 } else { apart as u128 };
        let distance: Significant = keep(size, 0, 1);
        let square: Significant = squared(distance);
        let ghost before: Significant = sum;
        proof {
            assert(size * 1 + 0 == size);
            lemma_square_bounded(data@[i as int] as int, mean as int);
            lemma_few_zeros(square, 240);
            assert(values.take(i + 1).drop_last() =~= values.take(i as int));
            lemma_sum_has_room(before.value() + square.value(), pow2(240), i as nat);
        }
        sum = plus(sum, square);
        proof {
            lemma_pow2_adds(241, 48);
            lemma_pow2_unfold(241);
            vstd::arithmetic::power2::lemma2_to64_rest();
            let w = pow2(240);
            assert((i + 1) * (2 * w) <= (2 * w) * 0x1_0000_0000_0000) by (nonlinear_arith)
                requires
                    i + 1 <= 0x1_0000_0000_0000,
                    w >= 0,
            ;
            lemma_few_zeros(sum, 289);
        }
        i = i + 1;
    }
    assert(values.take(n as int) =~= values);
    proof {
        lemma_variance_fits(n as nat, sum.value());
    }
    divided(sum, n as u64, 200)
}

// ---------------------------------------------------------------------------
// Blur
// ---------------------------------------------------------------------------

/// The blur score of pixels of this brightness: the variance of their Laplacian.
/// The higher it is, the sharper is the image.
pub open spec fn luma_score(luma: Seq<u8>, width: u32, height: u32) -> Float64 {
    variance_of(laplacian_of(luma, width as int, height as int))
}

/// The blur score of an image.
pub open spec fn score_of(img: &Image) -> Float64 {
    luma_score(luma_of(img), img.width, img.height)
}

/// The blur score of pixels of this brightness.
pub fn blur_score_of_luma(luma: &Vec<u8>, width: u32, height: u32) -> (r: Float64)
    requires
        luma@.len() == width * height,
        luma@.len() <= MAX_PIXELS,
    ensures
        r == luma_score(luma@, width, height),
{
    let laplacian: Vec<i16> = laplacian_filter(luma, width, height);
    assert(laplacian@.len() == laplacian_of(luma@, width as int, height as int).len());
    variance(laplacian.as_slice())
}

/// Blur score of an image: the variance of its Laplacian.
pub fn blur_score(img: &Image) -> (r: Float64)
    requires
        img.wf(),
        img.width * img.height <= MAX_PIXELS,
    ensures
        r == score_of(img),
{
    let luma: Vec<u8> = to_luma8(img);
    assert(luma@ =~= luma_of(img));
    blur_score_of_luma(&luma, img.width, img.height)
}

/// An image of one colour scores zero.
pub proof fn flat_images_score_zero(img: &Image, red: u8, green: u8, blue: u8)
    requires
        img.wf(),
        forall|k: int|
            0 <= k < img.width * img.height ==> #[trigger] img.data@[3 * k] == red
                && img.data@[3 * k + 1] == green && img.data@[3 * k + 2] == blue,
    ensures
        score_of(img).bits == 0,
{
    let (w, h) = (img.width as int, img.height as int);
    let luma = luma_of(img);
    let v = luma_pixel(red, green, blue);
    assert(0 <= w * h) by (nonlinear_arith)
        requires
            w >= 0,
            h >= 0,
    ;
    assert forall|k: int| 0 <= k < luma.len() implies #[trigger] luma[k] == v by {
        assert(img.data@[3 * k] == red);
    }
    let all = laplacian_of(luma, w, h);
    assert forall|k: int| 0 <= k < all.len() implies #[trigger] all[k] == 0 by {
        assert(w > 0 && h > 0) by (nonlinear_arith)
            requires
                0 <= k < w * h,
                w >= 0,
                h >= 0,
        ;
        let (x, y) = (k % w, k / w);
        lemma_flat_luma(luma, w, h, x, y - 1, v);
        lemma_flat_luma(luma, w, h, x - 1, y, v);
        lemma_flat_luma(luma, w, h, x + 1, y, v);
        lemma_flat_luma(luma, w, h, x, y + 1, v);
        lemma_flat_luma(luma, w, h, x, y, v);
    }
    variance_of_flat_is_zero(all, 0);
}

proof fn lemma_flat_luma(luma: Seq<u8>, w: int, h: int, x: int, y: int, v: u8)
    requires
        w > 0,
        h > 0,
        luma.len() == w * h,
        forall|i: int| 0 <= i < luma.len() ==> #[trigger] luma[i] == v,
    ensures
        luma_at(luma, w, h, x, y) == v,
{
    let (a, b) = (clamped(x, w), clamped(y, h));
    assert(0 <= b * w + a < w * h) by (nonlinear_arith)
        requires
            0 <= a < w,
            0 <= b < h,
    ;
}

/// How blurred an image is: the score, and whether it is below a threshold.
#[derive(Clone, Copy, PartialEq, Eq, Structural, Debug)]
pub struct BlurAssessment {
    pub score: Float64,
    pub is_blurry: bool,
}

/// Whether `found` is how blurred an image of this score is.
pub open spec fn is_assessment(found: BlurAssessment, score: Float64, threshold: Float64) -> bool {
    found.score == score && found.is_blurry == score.is_below(threshold)
}

/// Holds a score against a threshold.
fn held_against(score: Float64, threshold: Float64) -> (r: BlurAssessment)
    ensures
        is_assessment(r, score, threshold),
{
    BlurAssessment { score, is_blurry: score.below(threshold) }
}

/// Scores an image and holds it against a threshold.
pub fn assess_blur(img: &Image, threshold: Float64) -> (r: BlurAssessment)
    requires
        img.wf(),
        img.width * img.height <= MAX_PIXELS,
    ensures
        is_assessment(r, score_of(img), threshold),
{
    held_against(blur_score(img), threshold)
}

/// The larger of two numbers.
pub open spec fn greatest(a: int, b: int) -> int {
    if a >= b {
        a
    } else {
        b
    }
}

/// `out` is the part of `img` that the rectangle at (`x`, `y`), `w` by `h`
/// pixels, is clamped to: its corner moved inside the image, its size cut to
/// what is left there and at least one.
pub open spec fn is_clamped_crop(out: &Image, img: &Image, x: u32, y: u32, w: u32, h: u32) -> bool {
    let x0 = least(x as int, img.width - 1);
    let y0 = least(y as int, img.height - 1);
    is_cut_of(
        out,
        img,
        x0,
        y0,
        greatest(least(w as int, img.width - x0), 1),
        greatest(least(h as int, img.height - y0), 1),
    )
}

/// Clamps a rectangle to the image and cuts it out; `None` for an image without
/// pixels.
pub fn clamp_crop(img: &Image, x: u32, y: u32, w: u32, h: u32) -> (r: Option<Image>)
    requires
        img.wf(),
    ensures
        r is None <==> img.width == 0 || img.height == 0,
        r matches Some(out) ==> is_clamped_crop(&out, img, x, y, w, h) && 1 <= out.width
            <= img.width && 1 <= out.height <= img.height,
{
    if img.width == 0 || img.height == 0 {
        return None;
    }
    let x0: u32 = if x < img.width - 1 {
        x
    } else {
        img.width - 1
    };
    let y0: u32 = if y < img.height - 1 {
        y
    } else {
        img.height - 1
    };
    let w1: u32 = if w < img.width - x0 {
        w
    } else {
        img.width - x0
    };
    let h1: u32 = if h < img.height - y0 {
        h
    } else {
        img.height - y0
    };
    let w0: u32 = if w1 > 1 {
        w1
    } else {
        1
    };
    let h0: u32 = if h1 > 1 {
        h1
    } else {
        1
    };
    Some(cut(img, x0, y0, w0, h0))
}

/// An image brought to the largest size of its shape that fits within bounds,
/// by the Lanczos filter: its width, its height and its bytes.
pub uninterp spec fn lanczos_fit(
    width: u32,
    height: u32,
    rgb: Seq<u8>,
    nwidth: u32,
    nheight: u32,
) -> (u32, u32, Seq<u8>);

/// `image`'s `DynamicImage::resize` with the `Lanczos3` filter: a function of the
/// pixels and the bounds, and no larger than these.
#[verifier::external_body]
fn resize_lanczos3(img: &Image, nwidth: u32, nheight: u32) -> (r: Image)
    requires
        img.wf(),
        img.width > 0,
        img.height > 0,
        nwidth > 0,
        nheight > 0,
    ensures
        (r.width, r.height, r.data@) == lanczos_fit(
            img.width,
            img.height,
            img.data@,
            nwidth,
            nheight,
        ),
        r.wf(),
        1 <= r.width <= nwidth,
        1 <= r.height <= nheight,
{
    let rgb = RgbImage::from_raw(img.width, img.height, img.data.clone()).unwrap();
    let out = DynamicImage::ImageRgb8(rgb).resize(nwidth, nheight, FilterType::Lanczos3).into_rgb8();
    Image { width: out.width(), height: out.height(), data: out.into_raw() }
}

/// `out` is `img` with its long edge brought down to `BLUR_NORM_LONG_EDGE`, or
/// `img` itself where that is no longer.
pub open spec fn is_normalized(out: &Image, img: &Image) -> bool {
    if img.width > BLUR_NORM_LONG_EDGE || img.height > BLUR_NORM_LONG_EDGE {
        (out.width, out.height, out.data@) == lanczos_fit(
            img.width,
            img.height,
            img.data@,
            BLUR_NORM_LONG_EDGE,
            BLUR_NORM_LONG_EDGE,
        )
    } else {
        out.same_as(img)
    }
}

/// Brings the long edge of an image down to at most `BLUR_NORM_LONG_EDGE`; a
/// smaller image stays as it is.
pub fn normalize_for_blur(img: &Image) -> (r: Image)
    requires
        img.wf(),
        img.width > 0,
        img.height > 0,
    ensures
        is_normalized(&r, img),
        r.wf(),
        r.width <= BLUR_NORM_LONG_EDGE,
        r.height <= BLUR_NORM_LONG_EDGE,
{
    if img.width > BLUR_NORM_LONG_EDGE || img.height > BLUR_NORM_LONG_EDGE {
        resize_lanczos3(img, BLUR_NORM_LONG_EDGE, BLUR_NORM_LONG_EDGE)
    } else {
        img.copy()
    }
}

/// Whether `v` is the blur score of the part of `img` that a rectangle is clamped
/// to; zero for an image without pixels.
pub open spec fn is_region_score(v: Float64, img: &Image, x: u32, y: u32, w: u32, h: u32) -> bool {
    if img.width == 0 || img.height == 0 {
        v.bits == 0
    } else {
        exists|part: Image| #[trigger]
            is_clamped_crop(&part, img, x, y, w, h) && v == score_of(&part)
    }
}

/// Whether `v` is the blur score of that part, brought to a common size.
pub open spec fn is_normalized_score(
    v: Float64,
    img: &Image,
    x: u32,
    y: u32,
    w: u32,
    h: u32,
) -> bool {
    if img.width == 0 || img.height == 0 {
        v.bits == 0
    } else {
        exists|part: Image, small: Image| #[trigger]
            is_clamped_crop(&part, img, x, y, w, h) && #[trigger] is_normalized(&small, &part) && v
                == score_of(&small)
    }
}

/// Blur score of a part of an image, clamped to its bounds; zero for an image
/// without pixels.
pub fn blur_score_region(img: &Image, x: u32, y: u32, w: u32, h: u32) -> (r: Float64)
    requires
        img.wf(),
        img.width * img.height <= MAX_PIXELS,
    ensures
        is_region_score(r, img, x, y, w, h),
{
    match clamp_crop(img, x, y, w, h) {
        Some(part) => {
            assert(part.width * part.height <= img.width * img.height) by (nonlinear_arith)
                requires
                    0 <= part.width <= img.width,
                    0 <= part.height <= img.height,
            ;
            blur_score(&part)
        },
        None => Float64 { bits: 0 },
    }
}

/// Blur score of a part of an image brought to a common size, so that scores
/// compare across photos; zero for an image without pixels.
pub fn blur_score_region_normalized(img: &Image, x: u32, y: u32, w: u32, h: u32) -> (r: Float64)
    requires
        img.wf(),
    ensures
        is_normalized_score(r, img, x, y, w, h),
{
    match clamp_crop(img, x, y, w, h) {
        Some(part) => {
            let small: Image = normalize_for_blur(&part);
            assert(small.width * small.height <= 400 * 400) by (nonlinear_arith)
                requires
                    0 <= small.width <= 400,
                    0 <= small.height <= 400,
            ;
            blur_score(&small)
        },
        None => Float64 { bits: 0 },
    }
}

/// Scores a part of an image brought to a common size, and holds it against a
/// threshold.
pub fn assess_blur_region_normalized(
    img: &Image,
    x: u32,
    y: u32,
    w: u32,
    h: u32,
    threshold: Float64,
) -> (r: BlurAssessment)
    requires
        img.wf(),
    ensures
        is_normalized_score(r.score, img, x, y, w, h),
        is_assessment(r, r.score, threshold),
{
    held_against(blur_score_region_normalized(img, x, y, w, h), threshold)
}

// ---------------------------------------------------------------------------
// A single image
// ---------------------------------------------------------------------------

/// What is found of a single image.
#[derive(Debug)]
pub struct ImageAnalysis {
    pub width: u32,
    pub height: u32,
    pub blur_score: Float64,
    pub is_blurry: bool,
    pub perceptual_hash: String,
    pub is_raw: bool,
}

/// Tells what is found of the image at `path`.
pub fn analyze_image(path: &str, img: &Image) -> (r: ImageAnalysis)
    requires
        img.wf(),
        img.width * img.height <= MAX_PIXELS,
    ensures
        r.width == img.width,
        r.height == img.height,
        r.blur_score == score_of(img),
        r.is_blurry == r.blur_score.is_below(Float64 { bits: DEFAULT_BLUR_THRESHOLD }),
        decoded(r.perceptual_hash@) == Some(phash_of(img)),
        is_portable(path@) ==> r.is_raw == (last_name(path@) matches Some(name) && names_raw(name)),
        shows_extension(path@) ==> r.is_raw == names_raw(tail_name(path@)),
{
    let blur: BlurAssessment = assess_blur(img, Float64 { bits: DEFAULT_BLUR_THRESHOLD });
    ImageAnalysis {
        width: img.width,
        height: img.height,
        blur_score: blur.score,
        is_blurry: blur.is_blurry,
        perceptual_hash: perceptual_hash(img),
        is_raw: is_raw_path(path),
    }
}

// ---------------------------------------------------------------------------
// What a part of an image holds
// ---------------------------------------------------------------------------

/// The part at a rectangle inside the image is that rectangle, pixel for pixel: its
/// pixel (`i`, `j`) is the pixel (`x + i`, `y + j`) of the image.
pub proof fn part_is_the_rectangle(
    part: &Image,
    img: &Image,
    x: u32,
    y: u32,
    w: u32,
    h: u32,
    i: int,
    j: int,
    c: int,
)
    requires
        is_clamped_crop(part, img, x, y, w, h),
        w >= 1,
        h >= 1,
        x + w <= img.width,
        y + h <= img.height,
        0 <= i < w,
        0 <= j < h,
        0 <= c < 3,
    ensures
        part.width == w,
        part.height == h,
        part.data@.len() == w * h * 3,
        part.data@[(j * w + i) * 3 + c] == img.data@[((y + j) * img.width + (x + i)) * 3 + c],
{
    assert(part.channel(i, j, c) == img.channel(x + i, y + j, c));
}

/// A rectangle that starts inside the image and reaches over its right or lower edge
/// is cut off there; one without a size is a single pixel.
pub proof fn part_ends_at_the_edges(part: &Image, img: &Image, x: u32, y: u32, w: u32, h: u32)
    requires
        is_clamped_crop(part, img, x, y, w, h),
        x < img.width,
        y < img.height,
    ensures
        x + w > img.width ==> part.width == img.width - x,
        y + h > img.height ==> part.height == img.height - y,
        w == 0 ==> part.width == 1,
        h == 0 ==> part.height == 1,
        forall|i: int, j: int, c: int|
            0 <= i < part.width && 0 <= j < part.height && 0 <= c < 3 ==> #[trigger] part.channel(
                i,
                j,
                c,
            ) == img.data@[((y + j) * img.width + (x + i)) * 3 + c],
{
}

/// A rectangle that starts beyond the image is moved to its last column or row.
pub proof fn part_beyond_the_image_is_its_edge(
    part: &Image,
    img: &Image,
    x: u32,
    y: u32,
    w: u32,
    h: u32,
)
    requires
        is_clamped_crop(part, img, x, y, w, h),
        img.width > 0,
        img.height > 0,
        x >= img.width,
        y >= img.height,
    ensures
        part.width == 1,
        part.height == 1,
        forall|c: int|
            0 <= c < 3 ==> #[trigger] part.channel(0, 0, c) == img.data@[((img.height - 1)
                * img.width + (img.width - 1)) * 3 + c],
{
}

/// Whether two images of the same size hold the same pixels in a rectangle.
pub open spec fn agree_within(a: &Image, b: &Image, x: u32, y: u32, w: u32, h: u32) -> bool {
    &&& a.width == b.width
    &&& a.height == b.height
    &&& forall|i: int, j: int, c: int|
        x <= i < x + w && y <= j < y + h && 0 <= c < 3 ==> #[trigger] a.channel(i, j, c)
            == b.channel(i, j, c)
}

/// Pixels outside a rectangle of the image have no part in its blur score: images
/// that agree within it score the same there.
pub proof fn pixels_outside_do_not_change_the_score(
    a: &Image,
    b: &Image,
    x: u32,
    y: u32,
    w: u32,
    h: u32,
    s: Float64,
    t: Float64,
)
    requires
        agree_within(a, b, x, y, w, h),
        w >= 1,
        h >= 1,
        x + w <= a.width,
        y + h <= a.height,
    ensures
        is_region_score(s, a, x, y, w, h) && is_region_score(t, b, x, y, w, h) ==> s == t,
        is_normalized_score(s, a, x, y, w, h) && is_normalized_score(t, b, x, y, w, h) ==> s == t,
{
    assert forall|part: Image, other: Image|
        is_clamped_crop(&part, a, x, y, w, h) && is_clamped_crop(
            &other,
            b,
            x,
            y,
            w,
            h,
        ) implies part.width == other.width && part.height == other.height && #[trigger] part.data@
        == #[trigger] other.data@ by {
        assert forall|i: int, j: int, c: int|
            0 <= i < w && 0 <= j < h && 0 <= c < 3 implies #[trigger] part.channel(i, j, c)
            == other.channel(i, j, c) by {
            part_is_the_rectangle(&part, a, x, y, w, h, i, j, c);
            part_is_the_rectangle(&other, b, x, y, w, h, i, j, c);
            assert(a.channel(x + i, y + j, c) == b.channel(x + i, y + j, c));
        }
        part_is_the_rectangle(&part, a, x, y, w, h, 0, 0, 0);
        part_is_the_rectangle(&other, b, x, y, w, h, 0, 0, 0);
        channels_tell_the_image(&part, &other);
    }
    if is_region_score(s, a, x, y, w, h) && is_region_score(t, b, x, y, w, h) {
        let part = choose|part: Image| #[trigger]
            is_clamped_crop(&part, a, x, y, w, h) && s == score_of(&part);
        let other = choose|part: Image| #[trigger]
            is_clamped_crop(&part, b, x, y, w, h) && t == score_of(&part);
        assert(part.data@ == other.data@);
        lemma_same_score(&part, &other);
    }
    if is_normalized_score(s, a, x, y, w, h) && is_normalized_score(t, b, x, y, w, h) {
        let (part, small) = choose|part: Image, small: Image| #[trigger]
            is_clamped_crop(&part, a, x, y, w, h) && #[trigger] is_normalized(&small, &part) && s
                == score_of(&small);
        let (other, tiny) = choose|part: Image, small: Image| #[trigger]
            is_clamped_crop(&part, b, x, y, w, h) && #[trigger] is_normalized(&small, &part) && t
                == score_of(&small);
        assert(part.data@ == other.data@);
        lemma_same_score(&small, &tiny);
    }
}

/// Images of the same size and bytes score the same.
proof fn lemma_same_score(a: &Image, b: &Image)
    requires
        a.width == b.width,
        a.height == b.height,
        a.data@ == b.data@,
    ensures
        score_of(a) == score_of(b),
{
    assert(luma_of(a) =~= luma_of(b));
}

/// The score of a rectangle inside the image is that of the rectangle as an image of
/// its own.
pub proof fn part_scores_as_an_image(
    part: &Image,
    img: &Image,
    x: u32,
    y: u32,
    w: u32,
    h: u32,
    s: Float64,
)
    requires
        is_cut_of(part, img, x as int, y as int, w as int, h as int),
        w >= 1,
        h >= 1,
        x + w <= img.width,
        y + h <= img.height,
        is_region_score(s, img, x, y, w, h),
    ensures
        s == score_of(part),
{
    let other = choose|other: Image| #[trigger]
        is_clamped_crop(&other, img, x, y, w, h) && s == score_of(&other);
    assert forall|i: int, j: int, c: int|
        0 <= i < w && 0 <= j < h && 0 <= c < 3 implies #[trigger] part.channel(i, j, c)
        == other.channel(i, j, c) by {
        part_is_the_rectangle(&other, img, x, y, w, h, i, j, c);
    }
    part_is_the_rectangle(&other, img, x, y, w, h, 0, 0, 0);
    channels_tell_the_image(part, &other);
    lemma_same_score(part, &other);
}

/// An image of at most 400 pixels either way is scored as it is; of a larger one the
/// long edge is brought to 400, whatever its shape.
pub proof fn only_large_images_are_brought_down(out: &Image, img: &Image)
    requires
        is_normalized(out, img),
    ensures
        img.width <= 400 && img.height <= 400 ==> out.width == img.width && out.height
            == img.height && out.data@ == img.data@,
        img.width > 400 || img.height > 400 ==> (out.width, out.height, out.data@) == lanczos_fit(
            img.width,
            img.height,
            img.data@,
            400,
            400,
        ),
{
}

/// The verdict on a score turns at the threshold: what scores below it is blurred, what
/// reaches it is sharp, and a threshold that is no number blurs nothing.
pub proof fn verdict_turns_at_the_threshold(
    found: BlurAssessment,
    score: Float64,
    threshold: Float64,
)
    requires
        is_assessment(found, score, threshold),
        score.bits <= 0x7ff0_0000_0000_0000,
    ensures
        found.score.bits == score.bits,
        threshold.bits <= 0x7ff0_0000_0000_0000 ==> (found.is_blurry <==> score.bits
            < threshold.bits),
        threshold.bits > 0x7ff0_0000_0000_0000 ==> !found.is_blurry,
{
}

/// A rectangle of at most 400 pixels either way scores the same brought to a common size
/// as it does by itself; a larger one scores as the image that it is brought down to.
pub proof fn only_large_parts_score_otherwise(
    part: &Image,
    img: &Image,
    x: u32,
    y: u32,
    w: u32,
    h: u32,
    s: Float64,
) -> (small: Image)
    requires
        is_cut_of(part, img, x as int, y as int, w as int, h as int),
        w >= 1,
        h >= 1,
        x + w <= img.width,
        y + h <= img.height,
        is_normalized_score(s, img, x, y, w, h),
    ensures
        w <= 400 && h <= 400 ==> s == score_of(part),
        w > 400 || h > 400 ==> s == score_of(&small) && (small.width, small.height, small.data@)
            == lanczos_fit(w, h, part.data@, 400, 400),
{
    let (other, small) = choose|other: Image, small: Image| #[trigger]
        is_clamped_crop(&other, img, x, y, w, h) && #[trigger] is_normalized(&small, &other) && s
            == score_of(&small);
    assert forall|i: int, j: int, c: int|
        0 <= i < w && 0 <= j < h && 0 <= c < 3 implies #[trigger] part.channel(i, j, c)
        == other.channel(i, j, c) by {
        part_is_the_rectangle(&other, img, x, y, w, h, i, j, c);
    }
    part_is_the_rectangle(&other, img, x, y, w, h, 0, 0, 0);
    channels_tell_the_image(part, &other);
    only_large_images_are_brought_down(&small, &other);
    if w <= 400 && h <= 400 {
        lemma_same_score(&small, part);
    }
    small
}

/// An image without pixels scores zero in every part.
pub proof fn empty_images_score_zero(img: &Image, x: u32, y: u32, w: u32, h: u32, s: Float64)
    requires
        img.width == 0 || img.height == 0,
    ensures
        is_region_score(s, img, x, y, w, h) ==> s.bits == 0,
        is_normalized_score(s, img, x, y, w, h) ==> s.bits == 0,
{
}

/// Inside an image the Laplacian of a pixel is its four neighbours together less four
/// times the pixel; at a corner the pixel stands in for the two neighbours it lacks.
pub proof fn laplacian_inside_and_at_the_corner(luma: Seq<u8>, w: int, h: int, x: int, y: int)
    requires
        w >= 2,
        h >= 2,
    ensures
        1 <= x < w - 1 && 1 <= y < h - 1 ==> laplacian_at(luma, w, h, x, y) == luma[(y - 1) * w + x]
            + luma[(y + 1) * w + x] + luma[y * w + (x - 1)] + luma[y * w + (x + 1)] - 4 * luma[y * w
            + x],
        laplacian_at(luma, w, h, 0, 0) == luma[1] + luma[w] - 2 * luma[0],
{
    assert(0 * w == 0 && 1 * w == w) by (nonlinear_arith);
}

/// The score of brightness values does not change where all of them are raised by the
/// same amount.
pub proof fn brighter_images_score_the_same(a: Seq<u8>, b: Seq<u8>, w: u32, h: u32, d: int)
    requires
        a.len() == w * h,
        b.len() == w * h,
        forall|k: int| 0 <= k < a.len() ==> #[trigger] b[k] == a[k] + d,
    ensures
        luma_score(a, w, h) == luma_score(b, w, h),
{
    let (p, q) = (laplacian_of(a, w as int, h as int), laplacian_of(b, w as int, h as int));
    assert forall|k: int| 0 <= k < p.len() implies p[k] == q[k] by {
        let (wide, high) = (w as int, h as int);
        assert(wide > 0 && high > 0) by (nonlinear_arith)
            requires
                0 <= k < wide * high,
                wide >= 0,
                high >= 0,
        ;
        let (x, y) = (k % wide, k / wide);
        lemma_raised(a, b, wide, high, x, y - 1, d);
        lemma_raised(a, b, wide, high, x - 1, y, d);
        lemma_raised(a, b, wide, high, x + 1, y, d);
        lemma_raised(a, b, wide, high, x, y + 1, d);
        lemma_raised(a, b, wide, high, x, y, d);
    }
    assert(p =~= q);
}

proof fn lemma_raised(a: Seq<u8>, b: Seq<u8>, w: int, h: int, x: int, y: int, d: int)
    requires
        w > 0,
        h > 0,
        a.len() == w * h,
        forall|k: int| 0 <= k < a.len() ==> #[trigger] b[k] == a[k] + d,
    ensures
        luma_at(b, w, h, x, y) == luma_at(a, w, h, x, y) + d,
{
    let (i, j) = (clamped(x, w), clamped(y, h));
    assert(0 <= j * w + i < w * h) by (nonlinear_arith)
        requires
            0 <= i < w,
            0 <= j < h,
    ;
    assert(b[j * w + i] == a[j * w + i] + d);
}

/// The message of a raw frame of the wrong size tells how many bytes came, how many were
/// expected, and the width before the height.
pub proof fn raw_messages_tell_the_sizes(found: nat, width: nat, height: nat)
    ensures
        raw_size_message(found, width, height) == "RAW decode produced "@ + decimal(found)
            + " bytes, expected "@ + decimal(3 * (width * height)) + " for "@ + decimal(width) + "x"@
            + decimal(height) + " RGB"@,
{
    assert(width * height * 3 == 3 * (width * height)) by (nonlinear_arith);
}

} // verus!
