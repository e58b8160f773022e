//! Decisions of the photo editor: which settings change anything, where the
//! frame is cut, and what the tonal statistics say.
use vstd::arithmetic::power2::{lemma_pow2_pos, pow2};
use vstd::prelude::*;
use crate::float_bits::Float32;
use crate::raster::{cut, is_cut_of, least, Image};
use crate::rounding::{
    lemma_nearest_below, nearest, nearest_of, rounding_moves_little, short_numbers_stay,
};
use crate::singles::{
    at_most, binary_fractions_are_exact, pixels_in, round_pixels, rounded_pixels, whole_pixels,
};
use crate::vision::{clamped, greatest};

verus! {

/// Edit settings of a photo. All zero means no change. Sliders that are not
/// described run from -100 to 100.
#[derive(Clone, Copy, PartialEq, Eq, Structural, Debug)]
pub struct EditParams {
    /// Strength of the automatic exposure, 0 to 100.
    pub auto_exposure: Float32,
    /// Strength of the automatic white balance, 0 to 100.
    pub auto_white_balance: Float32,
    /// Strength of the automatic contrast, 0 to 100.
    pub auto_contrast: Float32,
    pub exposure: Float32,
    pub contrast: Float32,
    pub highlights: Float32,
    pub shadows: Float32,
    pub whites: Float32,
    pub blacks: Float32,
    pub saturation: Float32,
    pub vibrance: Float32,
    pub temperature: Float32,
    pub tint: Float32,
    /// Sharpening, 0 to 100.
    pub sharpening: Float32,
    /// Straightening, -100 to 100.
    pub straighten: Float32,
    /// Left edge of the crop, 0 to 1 of the straightened frame.
    pub crop_x: Float32,
    /// Upper edge of the crop.
    pub crop_y: Float32,
    /// Width of the crop.
    pub crop_w: Float32,
    /// Height of the crop.
    pub crop_h: Float32,
    /// Noise reduction, 0 to 100.
    pub noise_reduction: Float32,
    pub clarity: Float32,
    /// Vignette: negative darkens the edges, positive lightens them.
    pub vignette_amount: Float32,
    /// Where the vignette begins, 0 to 100.
    pub vignette_midpoint: Float32,
    /// Hue of the shadows, 0 to 360.
    pub shadow_hue: Float32,
    /// Saturation of the shadows, 0 to 100.
    pub shadow_sat: Float32,
    /// Hue of the highlights, 0 to 360.
    pub highlight_hue: Float32,
    /// Saturation of the highlights, 0 to 100.
    pub highlight_sat: Float32,
}

/// Whether a setting is zero, of either sign.
pub open spec fn is_zero(v: Float32) -> bool {
    v.magnitude() == 0
}

fn zero(v: Float32) -> (r: bool)
    ensures
        r == is_zero(v),
{
    v.unsigned() == 0
}

/// Whether `v` is over 0.001.
pub open spec fn is_over_thousandth(v: Float32) -> bool {
    (Float32 { bits: 0x3a83_126f }).is_below(v)
}

/// Whether `v` is under 0.999.
pub open spec fn is_under_full(v: Float32) -> bool {
    v.is_below(Float32 { bits: 0x3f7f_be77 })
}

impl EditParams {
    /// The settings other than those of the crop.
    pub open spec fn sliders(self) -> Seq<Float32> {
        seq![
            self.auto_exposure,
            self.auto_white_balance,
            self.auto_contrast,
            self.exposure,
            self.contrast,
            self.highlights,
            self.shadows,
            self.whites,
            self.blacks,
            self.saturation,
            self.vibrance,
            self.temperature,
            self.tint,
            self.sharpening,
            self.straighten,
            self.noise_reduction,
            self.clarity,
            self.vignette_amount,
            self.vignette_midpoint,
            self.shadow_hue,
            self.shadow_sat,
            self.highlight_hue,
            self.highlight_sat,
        ]
    }

    /// Whether the crop is set to something other than the full frame.
    pub open spec fn crops(self) -> bool {
        &&& is_over_thousandth(self.crop_w)
        &&& is_over_thousandth(self.crop_h)
        &&& (is_over_thousandth(self.crop_x) || is_over_thousandth(self.crop_y) || is_under_full(
            self.crop_w,
        ) || is_under_full(self.crop_h))
    }

    /// Whether nothing would change the image: no crop, and every slider at zero.
    pub open spec fn changes_nothing(self) -> bool {
        &&& !self.crops()
        &&& forall|i: int| 0 <= i < self.sliders().len() ==> is_zero(#[trigger] self.sliders()[i])
    }

    /// Whether the crop is set to something other than the full frame.
    pub fn crop_active(&self) -> (r: bool)
        ensures
            r == self.crops(),
    {
        let low: Float32 = Float32 { bits: 0x3a83_126f };
        let high: Float32 = Float32 { bits: 0x3f7f_be77 };
        low.below(self.crop_w) && low.below(self.crop_h) && (low.below(self.crop_x) || low.below(
            self.crop_y,
        ) || self.crop_w.below(high) || self.crop_h.below(high))
    }

    /// Whether nothing would change the image: all sliders are at zero and there is
    /// no crop.
    pub fn is_noop(&self) -> (r: bool)
        ensures
            r == self.changes_nothing(),
    {
        let quiet: bool = zero(self.auto_exposure)
            && zero(self.auto_white_balance)
            && zero(self.auto_contrast)
            && zero(self.exposure)
            && zero(self.contrast)
            && zero(self.highlights)
            && zero(self.shadows)
            && zero(self.whites)
            && zero(self.blacks)
            && zero(self.saturation)
            && zero(self.vibrance)
            && zero(self.temperature)
            && zero(self.tint)
            && zero(self.sharpening)
            && zero(self.straighten)
            && zero(self.noise_reduction)
            && zero(self.clarity)
            && zero(self.vignette_amount)
            && zero(self.vignette_midpoint)
            && zero(self.shadow_hue)
            && zero(self.shadow_sat)
            && zero(self.highlight_hue)
            && zero(self.highlight_sat);
        proof {
            let s = self.sliders();
            assert(s[0] == self.auto_exposure && s[1] == self.auto_white_balance);
            assert(s[2] == self.auto_contrast && s[3] == self.exposure);
            assert(s[4] == self.contrast && s[5] == self.highlights);
            assert(s[6] == self.shadows && s[7] == self.whites);
            assert(s[8] == self.blacks && s[9] == self.saturation);
            assert(s[10] == self.vibrance && s[11] == self.temperature);
            assert(s[12] == self.tint && s[13] == self.sharpening);
            assert(s[14] == self.straighten && s[15] == self.noise_reduction);
            assert(s[16] == self.clarity && s[17] == self.vignette_amount);
            assert(s[18] == self.vignette_midpoint && s[19] == self.shadow_hue);
            assert(s[20] == self.shadow_sat && s[21] == self.highlight_hue);
            assert(s[22] == self.highlight_sat);
            if quiet {
                assert forall|i: int| 0 <= i < s.len() implies is_zero(#[trigger] s[i]) by {}
            }
        }
        !self.crop_active() && quiet
    }
}

impl Default for EditParams {
    fn default() -> (r: EditParams)
        ensures
            forall|i: int| 0 <= i < r.sliders().len() ==> #[trigger] r.sliders()[i].bits == 0,
            r.crop_x.bits == 0 && r.crop_y.bits == 0 && r.crop_w.bits == 0 && r.crop_h.bits == 0,
    {
        let zero: Float32 = Float32 { bits: 0 };
        EditParams {
            auto_exposure: zero,
            auto_white_balance: zero,
            auto_contrast: zero,
            exposure: zero,
            contrast: zero,
            highlights: zero,
            shadows: zero,
            whites: zero,
            blacks: zero,
            saturation: zero,
            vibrance: zero,
            temperature: zero,
            tint: zero,
            sharpening: zero,
            straighten: zero,
            crop_x: zero,
            crop_y: zero,
            crop_w: zero,
            crop_h: zero,
            noise_reduction: zero,
            clarity: zero,
            vignette_amount: zero,
            vignette_midpoint: zero,
            shadow_hue: zero,
            shadow_sat: zero,
            highlight_hue: zero,
            highlight_sat: zero,
        }
    }
}

/// Settings that are all zero change nothing.
pub proof fn zero_settings_change_nothing(p: EditParams)
    requires
        forall|i: int| 0 <= i < p.sliders().len() ==> #[trigger] p.sliders()[i].bits == 0,
        p.crop_w.bits == 0,
    ensures
        p.changes_nothing(),
{
    assert forall|i: int| 0 <= i < p.sliders().len() implies is_zero(
        #[trigger] p.sliders()[i],
    ) by {}
}

/// A crop of the full frame, from 0 to 1 both ways, is no crop.
pub proof fn full_frame_is_no_crop(p: EditParams)
    requires
        p.crop_x.bits == 0,
        p.crop_y.bits == 0,
        p.crop_w.bits == 0x3f80_0000,
        p.crop_h.bits == 0x3f80_0000,
    ensures
        !p.crops(),
{
}

// ---------------------------------------------------------------------------
// Geometry
// ---------------------------------------------------------------------------

/// The size, along one edge of `n` pixels, of a crop that starts at `at` and asks
/// for `size` pixels: what is left of the edge there, and at least one pixel
/// where there is one.
pub open spec fn crop_size(n: int, at: int, size: int) -> int {
    least(greatest(least(size, greatest(n - at, 0)), 1), n - least(at, n))
}

/// A number held between 0 and 1.
pub open spec fn held_in_unit(v: Float32) -> Float32 {
    if v.is_nan() {
        v
    } else if v.is_negative() {
        Float32 { bits: 0 }
    } else if v.bits > 0x3f80_0000 {
        Float32 { bits: 0x3f80_0000 }
    } else {
        v
    }
}

fn hold_in_unit(v: Float32) -> (r: Float32)
    ensures
        r == held_in_unit(v),
{
    if v.nan() {
        v
    } else if v.bits >= 0x8000_0000 {
        Float32 { bits: 0 }
    } else if v.bits > 0x3f80_0000 {
        Float32 { bits: 0x3f80_0000 }
    } else {
        v
    }
}

/// Where a crop starts along an edge of `n` pixels, of which `v` is left out.
pub open spec fn crop_start(v: Float32, n: u32) -> int {
    pixels_in(held_in_unit(v), n) as int
}

/// `out` is the part of `img` that the crop of the settings leaves: its start to
/// the pixel below, its size to the nearest pixel, both held inside the frame.
pub open spec fn is_crop_of(out: &Image, img: &Image, p: &EditParams) -> bool {
    let x = crop_start(p.crop_x, img.width);
    let y = crop_start(p.crop_y, img.height);
    is_cut_of(
        out,
        img,
        least(x, img.width as int),
        least(y, img.height as int),
        crop_size(img.width as int, x, rounded_pixels(p.crop_w, img.width) as int),
        crop_size(img.height as int, y, rounded_pixels(p.crop_h, img.height) as int),
    )
}

/// Cuts the user's crop, given from 0 to 1 of the frame, out of the straightened
/// frame. A crop of the full frame is none.
pub fn crop(img: &Image, p: &EditParams) -> (r: Image)
    requires
        img.wf(),
    ensures
        !p.crops() ==> r.same_as(img),
        p.crops() ==> is_crop_of(&r, img, p),
{
    if !p.crop_active() {
        return img.copy();
    }
    let x: u32 = whole_pixels(hold_in_unit(p.crop_x), img.width);
    let y: u32 = whole_pixels(hold_in_unit(p.crop_y), img.height);
    let w: u32 = round_pixels(p.crop_w, img.width);
    let h: u32 = round_pixels(p.crop_h, img.height);
    let left_w: u32 = if x < img.width { img.width - x } else { 0 };
    let left_h: u32 = if y < img.height { img.height - y } else { 0 };
    let w1: u32 = if w < left_w { w } else { left_w };
    let h1: u32 = if h < left_h { h } else { left_h };
    let w0: u32 = if w1 > 1 { w1 } else { 1 };
    let h0: u32 = if h1 > 1 { h1 } else { 1 };
    cut(img, x, y, w0, h0)
}

/// A crop stays inside the frame, and one that starts inside it holds a pixel.
pub proof fn crop_stays_inside(n: int, at: int, size: int)
    requires
        0 <= n,
        0 <= at,
        0 <= size,
    ensures
        0 <= least(at, n) <= least(at, n) + crop_size(n, at, size) <= n,
        at < n ==> crop_size(n, at, size) >= 1,
{
}

/// `size` cut to an edge of `n` pixels, and at least one.
pub open spec fn fitted(n: int, size: int) -> int {
    greatest(least(size, n), 1)
}

/// `out` is the middle of `img`, as large as asked for and as there is room, at least
/// one pixel: as many columns and rows are cut off before it as behind it, or one fewer.
pub open spec fn is_middle_of(out: &Image, img: &Image, w: u32, h: u32) -> bool {
    &&& out.wf()
    &&& out.width == greatest(least(w as int, img.width as int), 1)
    &&& out.height == greatest(least(h as int, img.height as int), 1)
    &&& forall|i: int, j: int, c: int|
        0 <= i < out.width && 0 <= j < out.height && 0 <= c < 3 ==> #[trigger] out.channel(i, j, c)
            == img.channel(i + (img.width - out.width) / 2, j + (img.height - out.height) / 2, c)
}

/// Cuts the middle out of a rotated frame: the largest upright rectangle without
/// blank corners, whose size in pixels is `w` by `h`.
pub fn straighten(rotated: &Image, w: u32, h: u32) -> (r: Image)
    requires
        rotated.wf(),
        rotated.width > 0,
        rotated.height > 0,
    ensures
        is_cut_of(
            &r,
            rotated,
            (rotated.width - fitted(rotated.width as int, w as int)) / 2,
            (rotated.height - fitted(rotated.height as int, h as int)) / 2,
            fitted(rotated.width as int, w as int),
            fitted(rotated.height as int, h as int),
        ),
        is_middle_of(&r, rotated, w, h),
{
    let w1: u32 = if w < rotated.width { w } else { rotated.width };
    let h1: u32 = if h < rotated.height { h } else { rotated.height };
    let w0: u32 = if w1 > 1 { w1 } else { 1 };
    let h0: u32 = if h1 > 1 { h1 } else { 1 };
    cut(rotated, (rotated.width - w0) / 2, (rotated.height - h0) / 2, w0, h0)
}

/// A straightened frame lies inside the rotated one, in its middle: what is cut
/// off on the two sides differs by at most a pixel.
pub proof fn straightened_frame_is_centred(n: int, size: int)
    requires
        n > 0,
        size >= 0,
    ensures
        1 <= fitted(n, size) <= n,
        0 <= (n - fitted(n, size)) / 2,
        0 <= (n - fitted(n, size) - (n - fitted(n, size)) / 2) - (n - fitted(n, size)) / 2 <= 1,
{
}

// ---------------------------------------------------------------------------
// Tonal statistics
// ---------------------------------------------------------------------------

/// How often `v` occurs.
pub open spec fn occurrences(levels: Seq<u8>, v: int) -> nat
    decreases levels.len(),
{
    if levels.len() == 0 {
        0
    } else {
        occurrences(levels.drop_last(), v) + if levels.last() == v {
            1nat
        } else {
            0
        }
    }
}

/// A level occurs at most once for each place.
proof fn lemma_occurrences_bounded(levels: Seq<u8>, v: int)
    ensures
        occurrences(levels, v) <= levels.len(),
    decreases levels.len(),
{
    if levels.len() > 0 {
        lemma_occurrences_bounded(levels.drop_last(), v);
    }
}

/// Counts how often each of the 256 levels occurs.
pub fn histogram(levels: &[u8]) -> (r: Vec<u32>)
    requires
        levels@.len() <= u32::MAX,
    ensures
        is_histogram(r@, levels@),
{
    let mut hist: Vec<u32> = Vec::new();
    let mut v: usize = 0;
    while v < 256
        invariant
            v <= 256,
            hist@.len() == v,
            forall|k: int| 0 <= k < v ==> #[trigger] hist@[k] == 0,
        decreases 256 - v,
    {
        hist.push(0);
        v = v + 1;
    }
    let mut i: usize = 0;
    assert(levels@.take(0) =~= seq![]);
    while i < levels.len()
        invariant
            levels@.len() <= u32::MAX,
            i <= levels@.len(),
            hist@.len() == 256,
            forall|k: int|
                0 <= k < 256 ==> #[trigger] hist@[k] == occurrences(levels@.take(i as int), k),
        decreases levels@.len() - i,
    {
        let level: usize = levels[i] as usize;
        proof {
            lemma_occurrences_bounded(levels@.take(i as int), level as int);
            assert(levels@.take(i + 1).drop_last() =~= levels@.take(i as int));
        }
        let count: u32 = hist[level];
        hist.set(level, count + 1);
        i = i + 1;
    }
    assert(levels@.take(levels@.len() as int) =~= levels@);
    hist
}

/// How many values lie at the levels below `n`.
pub open spec fn below_level(hist: Seq<u32>, n: int) -> nat
    decreases n,
{
    if n <= 0 {
        0
    } else {
        below_level(hist, n - 1) + hist[n - 1] as nat
    }
}

/// More levels hold no fewer values.
proof fn lemma_below_level_grows(hist: Seq<u32>, a: int, b: int)
    requires
        a <= b,
    ensures
        below_level(hist, a) <= below_level(hist, b),
    decreases b - a,
{
    if a < b {
        lemma_below_level_grows(hist, a, b - 1);
    }
}

/// Whether `r` is the lowest level up to which at least `target` values lie, or
/// the highest level where there are not that many.
pub open spec fn is_percentile(hist: Seq<u32>, target: int, r: u8) -> bool {
    &&& r < 255 ==> below_level(hist, r + 1) >= target
    &&& r > 0 ==> below_level(hist, r as int) < target
}

/// There is one such level.
pub proof fn percentile_is_unique(hist: Seq<u32>, target: int, a: u8, b: u8)
    requires
        is_percentile(hist, target, a),
        is_percentile(hist, target, b),
    ensures
        a == b,
{
    if a < b {
        lemma_below_level_grows(hist, a + 1, b as int);
    }
    if b < a {
        lemma_below_level_grows(hist, b + 1, a as int);
    }
}

/// A higher target is reached at no lower a level.
pub proof fn percentiles_ascend(hist: Seq<u32>, low: int, high: int, a: u8, b: u8)
    requires
        low <= high,
        is_percentile(hist, low, a),
        is_percentile(hist, high, b),
    ensures
        a <= b,
{
    if b < a {
        lemma_below_level_grows(hist, b + 1, a as int);
    }
}

/// The lowest level up to which at least `target` values lie; the highest level
/// where there are not that many.
pub fn percentile(hist: &Vec<u32>, target: u32) -> (r: u8)
    requires
        hist@.len() == 256,
        below_level(hist@, 256) <= u32::MAX,
    ensures
        is_percentile(hist@, target as int, r),
{
    let mut sum: u32 = 0;
    let mut v: usize = 0;
    while v < 256
        invariant
            hist@.len() == 256,
            below_level(hist@, 256) <= u32::MAX,
            v <= 256,
            sum == below_level(hist@, v as int),
            v > 0 ==> sum < target,
        decreases 256 - v,
    {
        proof {
            lemma_below_level_grows(hist@, v + 1, 256);
        }
        sum = sum + hist[v];
        if sum >= target {
            return v as u8;
        }
        v = v + 1;
    }
    proof {
        lemma_below_level_grows(hist@, 255, 256);
    }
    255
}

/// A hundredth of `n` values, in single precision and without its fraction.
pub open spec fn hundredth(n: nat) -> nat {
    nearest_of(0xa3_d70a * nearest_of(n, 1), 1) / 0x4000_0000
}

/// Ninety-nine hundredths of `n` values, in single precision, without their
/// fraction and cut off at 32 bits.
pub open spec fn most_hundredths(n: nat) -> nat {
    at_most(nearest_of(0xfd_70a4 * nearest_of(n, 1), 1) / 0x100_0000, 0xffff_ffff)
}

/// Whether `hist` counts how often each level occurs.
pub open spec fn is_histogram(hist: Seq<u32>, levels: Seq<u8>) -> bool {
    &&& hist.len() == 256
    &&& forall|v: int| 0 <= v < 256 ==> #[trigger] hist[v] == occurrences(levels, v)
}

/// How many of the values are below `n`.
pub open spec fn occurring_below(levels: Seq<u8>, n: int) -> nat
    decreases levels.len(),
{
    if levels.len() == 0 {
        0
    } else {
        occurring_below(levels.drop_last(), n) + if levels.last() < n {
            1nat
        } else {
            0
        }
    }
}

/// Whether `r` is the lowest level up to which at least `target` of the values
/// lie, or the highest level where there are not that many.
pub open spec fn divides(levels: Seq<u8>, target: nat, r: u8) -> bool {
    &&& r < 255 ==> occurring_below(levels, r + 1) >= target
    &&& r > 0 ==> occurring_below(levels, r as int) < target
}

proof fn lemma_occurrences_total(hist: Seq<u32>, levels: Seq<u8>, n: int)
    requires
        is_histogram(hist, levels),
        0 <= n <= 256,
    ensures
        below_level(hist, n) == occurring_below(levels, n),
    decreases n,
{
    if n > 0 {
        lemma_occurrences_total(hist, levels, n - 1);
        lemma_one_more_level(levels, n - 1);
    } else {
        lemma_none_below_zero(levels);
    }
}

proof fn lemma_one_more_level(levels: Seq<u8>, v: int)
    ensures
        occurring_below(levels, v + 1) == occurring_below(levels, v) + occurrences(levels, v),
    decreases levels.len(),
{
    if levels.len() > 0 {
        lemma_one_more_level(levels.drop_last(), v);
    }
}

proof fn lemma_none_below_zero(levels: Seq<u8>)
    ensures
        occurring_below(levels, 0) == 0,
    decreases levels.len(),
{
    if levels.len() > 0 {
        lemma_none_below_zero(levels.drop_last());
    }
}

proof fn lemma_occurring_below(levels: Seq<u8>, n: int)
    requires
        n >= 256,
    ensures
        occurring_below(levels, n) == levels.len(),
    decreases levels.len(),
{
    if levels.len() > 0 {
        lemma_occurring_below(levels.drop_last(), n);
    }
}

/// The levels that automatic contrast spreads out: those below which one hundredth
/// and ninety-nine hundredths of the values lie.
pub fn contrast_range(levels: &[u8]) -> (r: (u8, u8))
    requires
        levels@.len() <= u32::MAX,
    ensures
        divides(levels@, hundredth(levels@.len()), r.0),
        divides(levels@, most_hundredths(levels@.len()), r.1),
{
    let hist: Vec<u32> = histogram(levels);
    let n: usize = levels.len();
    proof {
        lemma_occurrences_total(hist@, levels@, 256);
        lemma_occurring_below(levels@, 256);
        lemma_nearest_below(n as nat, 0x1_0000_0000);
    }
    let count: u128 = nearest(n as u128, 1);
    proof {
        lemma_nearest_below((0xa3_d70a * count) as nat, 0x100_0000_0000_0000);
        lemma_nearest_below((0xfd_70a4 * count) as nat, 0x100_0000_0000_0000);
    }
    let low: u128 = nearest(0xa3_d70a * count, 1) / 0x4000_0000;
    let high: u128 = nearest(0xfd_70a4 * count, 1) / 0x100_0000;
    let dark: u8 = percentile(&hist, low as u32);
    let bright: u8 = percentile(&hist, if high > 0xffff_ffff { 0xffff_ffff } else { high as u32 });
    proof {
        lemma_occurrences_total(hist@, levels@, dark as int);
        lemma_occurrences_total(hist@, levels@, dark + 1);
        lemma_occurrences_total(hist@, levels@, bright as int);
        lemma_occurrences_total(hist@, levels@, bright + 1);
    }
    (dark, bright)
}

// ---------------------------------------------------------------------------
// Noise reduction
// ---------------------------------------------------------------------------

/// The `k`-th of the neighbours of a place, row by row, in the window that
/// reaches `r` pixels to each side; beyond an edge, the nearest pixel.
pub open spec fn neighbour(img: &Image, x: int, y: int, c: int, r: int, k: int) -> u8 {
    img.channel(
        clamped(x + k % (2 * r + 1) - r, img.width as int),
        clamped(y + k / (2 * r + 1) - r, img.height as int),
        c,
    )
}

/// How many of the first `n` neighbours are at most `v`.
pub open spec fn neighbours_up_to(
    img: &Image,
    x: int,
    y: int,
    c: int,
    r: int,
    n: int,
    v: int,
) -> nat
    decreases n,
{
    if n <= 0 {
        0
    } else {
        neighbours_up_to(img, x, y, c, r, n - 1, v) + if neighbour(img, x, y, c, r, n - 1) <= v {
            1nat
        } else {
            0
        }
    }
}

/// Whether `v` is the median of the window around a place: the least value that
/// half of the window's pixels do not exceed.
pub open spec fn is_median(img: &Image, x: int, y: int, c: int, r: int, v: u8) -> bool {
    let n = (2 * r + 1) * (2 * r + 1);
    &&& 2 * neighbours_up_to(img, x, y, c, r, n, v as int) >= n
    &&& 2 * neighbours_up_to(img, x, y, c, r, n, v - 1) < n
}

/// `out` is `img` with every byte replaced by the median of its window.
pub open spec fn is_median_of(out: &Image, img: &Image, r: int) -> bool {
    &&& out.wf()
    &&& out.width == img.width
    &&& out.height == img.height
    &&& forall|x: int, y: int, c: int|
        0 <= x < img.width && 0 <= y < img.height && 0 <= c < 3 ==> is_median(
            img,
            x,
            y,
            c,
            r,
            #[trigger] out.channel(x, y, c),
        )
}

/// `imageproc`'s `filter::median_filter` with the same radius both ways: each
/// channel of each pixel becomes the median of its window, which goes on beyond
/// the edges with their pixels.
#[verifier::external_body]
fn median_filter(img: &Image, radius: u32) -> (r: Image)
    requires
        img.wf(),
        1 <= radius <= 64,
        img.width + radius <= i32::MAX,
        img.height + radius <= i32::MAX,
    ensures
        is_median_of(&r, img, radius as int),
{
    let rgb = image::RgbImage::from_raw(img.width, img.height, img.data.clone()).unwrap();
    let out = imageproc::filter::median_filter(&rgb, radius, radius);
    Image { width: out.width(), height: out.height(), data: out.into_raw() }
}

/// Radius of the median for a noise reduction of this strength: two pixels from
/// 60 on, one below.
pub open spec fn denoise_radius(strength: Float32) -> int {
    if (Float32 { bits: 0x4270_0000 }).is_at_most(strength) {
        2
    } else {
        1
    }
}

/// Radius of the median for a noise reduction of this strength.
pub fn noise_radius(strength: Float32) -> (r: u32)
    ensures
        r == denoise_radius(strength),
{
    let sixty: Float32 = Float32 { bits: 0x4270_0000 };
    if sixty.at_most(strength) {
        2
    } else {
        1
    }
}

/// The smoothed image that noise reduction of this strength blends in.
pub fn smoothed(img: &Image, strength: Float32) -> (r: Image)
    requires
        img.wf(),
        img.width + denoise_radius(strength) <= i32::MAX,
        img.height + denoise_radius(strength) <= i32::MAX,
    ensures
        is_median_of(&r, img, denoise_radius(strength)),
{
    median_filter(img, noise_radius(strength))
}

// ---------------------------------------------------------------------------
// What a crop holds
// ---------------------------------------------------------------------------

/// A crop that starts at or beyond zero leaves out, at the left and at the top, the
/// whole columns and rows in its fractions of the frame: its pixel (`i`, `j`) is the
/// pixel of the frame that many columns further right and that many rows further down.
pub proof fn crop_leaves_out_the_left_and_the_top(
    out: &Image,
    img: &Image,
    p: &EditParams,
    i: int,
    j: int,
    c: int,
)
    requires
        is_crop_of(out, img, p),
        p.crop_x.bits < 0x3f80_0000,
        p.crop_y.bits < 0x3f80_0000,
        0 <= i < out.width,
        0 <= j < out.height,
        0 <= c < 3,
    ensures
        pixels_in(p.crop_x, img.width) + i < img.width,
        pixels_in(p.crop_y, img.height) + j < img.height,
        out.data@[(j * out.width + i) * 3 + c] == img.data@[((pixels_in(p.crop_y, img.height) + j)
            * img.width + (pixels_in(p.crop_x, img.width) + i)) * 3 + c],
{
    assert(out.channel(i, j, c) == img.channel(
        least(crop_start(p.crop_x, img.width), img.width as int) + i,
        least(crop_start(p.crop_y, img.height), img.height as int) + j,
        c,
    ));
}

/// With its upper edge at zero or above the frame, a crop starts with the frame's first
/// row: row for row it is what the frame holds from the top.
pub proof fn crop_from_the_top_keeps_the_rows(
    out: &Image,
    img: &Image,
    p: &EditParams,
    i: int,
    j: int,
    c: int,
)
    requires
        is_crop_of(out, img, p),
        p.crop_y.bits == 0 || 0x8000_0000 <= p.crop_y.bits <= 0xff80_0000,
        p.crop_x.bits == 0 || 0x8000_0000 <= p.crop_x.bits <= 0xff80_0000,
        0 <= i < out.width,
        0 <= j < out.height,
        0 <= c < 3,
    ensures
        out.channel(i, j, c) == img.channel(i, j, c),
{
    lemma_no_pixels(img.width);
    lemma_no_pixels(img.height);
}

/// A crop from the top keeps the columns of the rows it keeps, whatever its left edge,
/// and a crop from the left the rows of its columns.
pub proof fn crop_edges_do_not_mix(
    out: &Image,
    img: &Image,
    p: &EditParams,
    i: int,
    j: int,
    c: int,
)
    requires
        is_crop_of(out, img, p),
        0 <= i < out.width,
        0 <= j < out.height,
        0 <= c < 3,
    ensures
        p.crop_y.bits == 0 && p.crop_x.bits <= 0x3f80_0000 ==> out.channel(i, j, c) == img.channel(
            pixels_in(p.crop_x, img.width) + i,
            j,
            c,
        ),
        p.crop_x.bits == 0 && p.crop_y.bits <= 0x3f80_0000 ==> out.channel(i, j, c) == img.channel(
            i,
            pixels_in(p.crop_y, img.height) + j,
            c,
        ),
{
    lemma_no_pixels(img.width);
    lemma_no_pixels(img.height);
    assert(out.channel(i, j, c) == img.channel(
        least(crop_start(p.crop_x, img.width), img.width as int) + i,
        least(crop_start(p.crop_y, img.height), img.height as int) + j,
        c,
    ));
}

/// Zero times a length holds no pixel.
proof fn lemma_no_pixels(n: u32)
    ensures
        pixels_in(Float32 { bits: 0 }, n) == 0,
{
    let zero = Float32 { bits: 0 };
    assert(zero.significand() * nearest_of(n as nat, 1) == 0) by (nonlinear_arith)
        requires
            zero.significand() == 0,
    ;
    short_numbers_stay(0, 1);
    let unit = pow2((-zero.exponent()) as nat);
    lemma_pow2_pos((-zero.exponent()) as nat);
    assert(0nat / unit == 0) by (nonlinear_arith)
        requires
            unit > 0,
    ;
}

/// Along either edge a crop is as long as its fraction of the frame to the nearest
/// pixel, where that much is left behind its start; else it is what is left.
pub proof fn crop_is_as_large_as_asked(out: &Image, img: &Image, p: &EditParams)
    requires
        is_crop_of(out, img, p),
        p.crop_x.bits < 0x3f80_0000,
        p.crop_y.bits < 0x3f80_0000,
        pixels_in(p.crop_x, img.width) < img.width,
        pixels_in(p.crop_y, img.height) < img.height,
    ensures
        pixels_in(p.crop_x, img.width) + rounded_pixels(p.crop_w, img.width) > img.width
            ==> out.width == img.width - pixels_in(p.crop_x, img.width),
        pixels_in(p.crop_y, img.height) + rounded_pixels(p.crop_h, img.height) > img.height
            ==> out.height == img.height - pixels_in(p.crop_y, img.height),
        1 <= rounded_pixels(p.crop_w, img.width) <= img.width - pixels_in(p.crop_x, img.width)
            ==> out.width == rounded_pixels(p.crop_w, img.width),
        1 <= rounded_pixels(p.crop_h, img.height) <= img.height - pixels_in(p.crop_y, img.height)
            ==> out.height == rounded_pixels(p.crop_h, img.height),
        rounded_pixels(p.crop_w, img.width) == 0 ==> out.width == 1,
        rounded_pixels(p.crop_h, img.height) == 0 ==> out.height == 1,
{
}

/// Of two crops with the same start, the pixels of the smaller are pixels of the larger
/// in the same place.
pub proof fn larger_crops_extend_smaller_ones(
    small: &Image,
    large: &Image,
    img: &Image,
    p: &EditParams,
    q: &EditParams,
    i: int,
    j: int,
    c: int,
)
    requires
        is_crop_of(small, img, p),
        is_crop_of(large, img, q),
        p.crop_x == q.crop_x,
        p.crop_y == q.crop_y,
        0 <= i < small.width,
        0 <= j < small.height,
        i < large.width,
        j < large.height,
        0 <= c < 3,
    ensures
        small.channel(i, j, c) == large.channel(i, j, c),
{
    assert(large.channel(i, j, c) == img.channel(
        least(crop_start(p.crop_x, img.width), img.width as int) + i,
        least(crop_start(p.crop_y, img.height), img.height as int) + j,
        c,
    ));
}

/// A setting crops exactly where its width and height are over 0.001 and it leaves
/// something out: at the left or the top by more than 0.001, or by a width or height
/// under 0.999. Stated of settings that are numbers and not negative.
pub proof fn crops_that_leave_something_out(p: EditParams)
    requires
        p.crop_x.bits <= 0x7f80_0000,
        p.crop_y.bits <= 0x7f80_0000,
        p.crop_w.bits <= 0x7f80_0000,
        p.crop_h.bits <= 0x7f80_0000,
    ensures
        p.crops() <==> p.crop_w.bits > 0x3a83_126f && p.crop_h.bits > 0x3a83_126f && (p.crop_x.bits
            > 0x3a83_126f || p.crop_y.bits > 0x3a83_126f || p.crop_w.bits < 0x3f7f_be77
            || p.crop_h.bits < 0x3f7f_be77),
{
}

/// A setting that changes nothing has every slider at zero of either sign; one slider
/// that is not is a change.
pub proof fn every_slider_counts(p: EditParams)
    ensures
        p.changes_nothing() <==> !p.crops() && p.auto_exposure.bits % 0x8000_0000 == 0
            && p.auto_white_balance.bits % 0x8000_0000 == 0 && p.auto_contrast.bits % 0x8000_0000
            == 0 && p.exposure.bits % 0x8000_0000 == 0 && p.contrast.bits % 0x8000_0000 == 0
            && p.highlights.bits % 0x8000_0000 == 0 && p.shadows.bits % 0x8000_0000 == 0
            && p.whites.bits % 0x8000_0000 == 0 && p.blacks.bits % 0x8000_0000 == 0
            && p.saturation.bits % 0x8000_0000 == 0 && p.vibrance.bits % 0x8000_0000 == 0
            && p.temperature.bits % 0x8000_0000 == 0 && p.tint.bits % 0x8000_0000 == 0
            && p.sharpening.bits % 0x8000_0000 == 0 && p.straighten.bits % 0x8000_0000 == 0
            && p.noise_reduction.bits % 0x8000_0000 == 0 && p.clarity.bits % 0x8000_0000 == 0
            && p.vignette_amount.bits % 0x8000_0000 == 0 && p.vignette_midpoint.bits % 0x8000_0000
            == 0 && p.shadow_hue.bits % 0x8000_0000 == 0 && p.shadow_sat.bits % 0x8000_0000 == 0
            && p.highlight_hue.bits % 0x8000_0000 == 0 && p.highlight_sat.bits % 0x8000_0000 == 0,
{
    let s = p.sliders();
    assert(s[0] == p.auto_exposure && s[1] == p.auto_white_balance);
    assert(s[2] == p.auto_contrast && s[3] == p.exposure);
    assert(s[4] == p.contrast && s[5] == p.highlights);
    assert(s[6] == p.shadows && s[7] == p.whites);
    assert(s[8] == p.blacks && s[9] == p.saturation);
    assert(s[10] == p.vibrance && s[11] == p.temperature);
    assert(s[12] == p.tint && s[13] == p.sharpening);
    assert(s[14] == p.straighten && s[15] == p.noise_reduction);
    assert(s[16] == p.clarity && s[17] == p.vignette_amount);
    assert(s[18] == p.vignette_midpoint && s[19] == p.shadow_hue);
    assert(s[20] == p.shadow_sat && s[21] == p.highlight_hue);
    assert(s[22] == p.highlight_sat);
    if p.changes_nothing() {
        assert(forall|i: int| 0 <= i < 23 ==> is_zero(#[trigger] s[i]));
    } else {
        assert(s.len() == 23);
    }
}

/// What straightening cuts off lies evenly around what it keeps: pixel (`i`, `j`) of
/// the result is the pixel of the rotated frame half of the lost columns further right
/// and half of the lost rows further down; a size beyond the frame is that of the frame.
pub proof fn straightening_keeps_the_middle(
    out: &Image,
    rotated: &Image,
    w: u32,
    h: u32,
    i: int,
    j: int,
    c: int,
)
    requires
        rotated.width >= 1,
        rotated.height >= 1,
        is_middle_of(out, rotated, w, h),
        0 <= i < out.width,
        0 <= j < out.height,
        0 <= c < 3,
    ensures
        1 <= w <= rotated.width ==> out.width == w,
        1 <= h <= rotated.height ==> out.height == h,
        w > rotated.width ==> out.width == rotated.width,
        h > rotated.height ==> out.height == rotated.height,
        1 <= w <= rotated.width && 1 <= h <= rotated.height ==> out.channel(i, j, c)
            == rotated.channel((rotated.width - w) / 2 + i, (rotated.height - h) / 2 + j, c),
        w >= rotated.width && h >= rotated.height ==> out.channel(i, j, c) == rotated.channel(
            i,
            j,
            c,
        ),
{
}

/// The median filter of noise reduction reaches two pixels from a strength of 60 on
/// and one below; it reaches no less for more strength.
pub proof fn stronger_noise_reduction_reaches_further(strength: Float32)
    requires
        strength.bits <= 0x7f80_0000,
    ensures
        strength.bits >= 0x4270_0000 ==> denoise_radius(strength) == 2,
        strength.bits < 0x4270_0000 ==> denoise_radius(strength) == 1,
{
}

/// A count of values, split at a level into those below it and those from it on, is
/// shared out in full, and each value is counted once.
pub proof fn values_below_a_level(levels: Seq<u8>, n: int, v: u8)
    ensures
        occurring_below(levels.push(v), n) == occurring_below(levels, n) + (if v < n {
            1int
        } else {
            0
        }),
        occurrences(levels.push(v), n) == occurrences(levels, n) + (if v == n {
            1int
        } else {
            0
        }),
        occurring_below(levels, 256) == levels.len(),
        occurring_below(levels, 0) == 0,
{
    assert(levels.push(v).drop_last() =~= levels);
    lemma_occurring_below(levels, 256);
    lemma_none_below_zero(levels);
}

/// A crop from half, a quarter, an eighth of the frame and so on leaves out that part of
/// its columns and rows, without the rest: half of 64 rows are the first 32, and the
/// crop's first row is the one behind them.
pub proof fn crop_from_a_binary_fraction(
    out: &Image,
    img: &Image,
    p: &EditParams,
    a: nat,
    b: nat,
    i: int,
    j: int,
    c: int,
)
    requires
        is_crop_of(out, img, p),
        1 <= a <= 23,
        1 <= b <= 23,
        p.crop_x.bits == (127 - a) * 0x80_0000,
        p.crop_y.bits == (127 - b) * 0x80_0000,
        img.width < 0x100_0000,
        img.height < 0x100_0000,
        0 <= i < out.width,
        0 <= j < out.height,
        0 <= c < 3,
    ensures
        out.channel(i, j, c) == img.channel(
            img.width as nat / pow2(a) + i,
            img.height as nat / pow2(b) + j,
            c,
        ),
{
    binary_fractions_are_exact(p.crop_x, img.width, a);
    binary_fractions_are_exact(p.crop_y, img.height, b);
    crop_leaves_out_the_left_and_the_top(out, img, p, i, j, c);
}

/// A hundredth of a count, as single precision gives it, is the whole hundredths in it,
/// or one less where the count is at most one over a multiple of a hundred.
pub proof fn a_hundredth_is_near_the_fraction(n: nat)
    requires
        n < 0x100_0000,
    ensures
        100 * hundredth(n) <= n <= 100 * hundredth(n) + 101,
{
    short_numbers_stay(n, 1);
    rounding_moves_little((0xa3_d70a * n) as nat);
}

/// Ninety-nine hundredths of a count, as single precision gives them, lie within two of
/// the fraction.
pub proof fn most_hundredths_are_near_the_fraction(n: nat)
    requires
        n < 0x100_0000,
    ensures
        100 * most_hundredths(n) <= 99 * n + 115,
        99 * n <= 100 * most_hundredths(n) + 183,
{
    short_numbers_stay(n, 1);
    rounding_moves_little((0xfd_70a4 * n) as nat);
}

/// A level divides values where at least as many as the target lie at it or below, and
/// fewer than that lie below it; the ends of the range are exempt.
pub proof fn levels_divide_the_values(levels: Seq<u8>, target: nat, r: u8)
    requires
        divides(levels, target, r),
    ensures
        r < 255 ==> occurring_below(levels, r as int) + occurrences(levels, r as int) >= target,
        r > 0 ==> occurring_below(levels, r as int) < target,
        target == 0 ==> r == 0,
        target > levels.len() ==> r == 255,
{
    lemma_one_more_level(levels, r as int);
    lemma_no_more_than_all(levels, r + 1);
}

proof fn lemma_no_more_than_all(levels: Seq<u8>, n: int)
    ensures
        occurring_below(levels, n) <= levels.len(),
    decreases levels.len(),
{
    if levels.len() > 0 {
        lemma_no_more_than_all(levels.drop_last(), n);
    }
}

/// A crop that starts at the right or lower edge of the frame, or beyond it, holds
/// nothing.
pub proof fn crops_beyond_the_frame_are_empty(out: &Image, img: &Image, p: &EditParams)
    requires
        is_crop_of(out, img, p),
        img.width < 0x100_0000,
        img.height < 0x100_0000,
    ensures
        0x3f80_0000 <= p.crop_x.bits <= 0x7f80_0000 ==> out.width == 0,
        0x3f80_0000 <= p.crop_y.bits <= 0x7f80_0000 ==> out.height == 0,
{
    let one = Float32 { bits: 0x3f80_0000 };
    binary_fractions_are_exact(one, img.width, 0);
    binary_fractions_are_exact(one, img.height, 0);
    vstd::arithmetic::power2::lemma2_to64();
    assert(img.width as nat / 1 == img.width && img.height as nat / 1 == img.height);
}

/// What a histogram counts below a level is how many of the values lie below it, and all
/// of them lie below 256.
pub proof fn histograms_count_the_values(hist: Seq<u32>, levels: Seq<u8>, n: int)
    requires
        is_histogram(hist, levels),
        0 <= n < 256,
    ensures
        below_level(hist, n) == occurring_below(levels, n),
        below_level(hist, n + 1) == below_level(hist, n) + hist[n],
        below_level(hist, 256) == levels.len(),
        below_level(hist, 0) == 0,
{
    lemma_occurrences_total(hist, levels, n);
    lemma_occurrences_total(hist, levels, 256);
    lemma_occurring_below(levels, 256);
}

/// A percentile is the lowest level at which the target is reached: at a higher one as
/// many values lie up to it, at a lower one fewer than the target.
pub proof fn percentiles_are_the_lowest_levels(hist: Seq<u32>, target: int, r: u8, v: int)
    requires
        is_percentile(hist, target, r),
        0 <= v < 255,
    ensures
        v >= r ==> below_level(hist, v + 1) >= target,
        v < r ==> below_level(hist, v + 1) < target,
{
    if v >= r {
        lemma_below_level_grows(hist, r + 1, v + 1);
    } else {
        lemma_below_level_grows(hist, v + 1, r as int);
    }
}

} // verus!
