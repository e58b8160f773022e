//! Healing of spots: which patch of the picture is cloned over a spot, and which
//! pixels that changes.
use vstd::prelude::*;
use crate::float_bits::Float32;
use crate::raster::{cut, is_cut_of, least, Image};
use crate::rounding::{
    lemma_count_bounded, lemma_nearest_below, lemma_nearest_near, lemma_nearest_positive,
    lemma_sum_bounded, lemma_third, nearest, nearest_of, short_numbers_stay,
    thirds_are_exact,
};
use crate::singles::{place_pixels, placed_at};
use crate::vision::greatest;

verus! {

/// A round healing stamp: its centre, from 0 to 1 of the frame, and its radius as
/// a fraction of the frame's width.
#[derive(Clone, Copy, PartialEq, Eq, Structural, Debug)]
pub struct HealStamp {
    pub x: Float32,
    pub y: Float32,
    pub r: Float32,
}

/// One stroke of the healing brush; a click is a stroke of one stamp.
#[derive(Clone, Debug)]
pub struct HealStroke {
    pub stamps: Vec<HealStamp>,
}

/// The retouching of a photo.
#[derive(Clone, Debug)]
pub struct RetouchOps {
    pub heals: Vec<HealStroke>,
}

/// The stamps of the first `n` strokes, in order.
pub open spec fn stamps_of(heals: Seq<HealStroke>, n: int) -> Seq<HealStamp>
    decreases n,
{
    if n <= 0 {
        seq![]
    } else {
        stamps_of(heals, n - 1) + heals[n - 1].stamps@
    }
}

impl RetouchOps {
    /// All stamps, in the order in which they are applied.
    pub open spec fn in_order(&self) -> Seq<HealStamp> {
        stamps_of(self.heals@, self.heals@.len() as int)
    }

    /// Whether there is nothing to retouch: no stroke has a stamp.
    pub fn is_empty(&self) -> (r: bool)
        ensures
            r == (self.in_order().len() == 0),
            r == forall|i: int|
                0 <= i < self.heals@.len() ==> #[trigger] self.heals@[i].stamps@.len() == 0,
    {
        let mut i: usize = 0;
        while i < self.heals.len()
            invariant
                i <= self.heals@.len(),
                stamps_of(self.heals@, i as int).len() == 0,
                forall|k: int| 0 <= k < i ==> #[trigger] self.heals@[k].stamps@.len() == 0,
            decreases self.heals@.len() - i,
        {
            if self.heals[i].stamps.len() > 0 {
                proof {
                    lemma_stamps_grow(self.heals@, i + 1, self.heals@.len() as int);
                }
                return false;
            }
            i = i + 1;
        }
        true
    }

    /// The stamps in the order in which they are applied.
    pub fn stamps(&self) -> (r: Vec<HealStamp>)
        ensures
            r@ == self.in_order(),
    {
        let mut all: Vec<HealStamp> = Vec::new();
        let mut i: usize = 0;
        while i < self.heals.len()
            invariant
                i <= self.heals@.len(),
                all@ == stamps_of(self.heals@, i as int),
            decreases self.heals@.len() - i,
        {
            let stroke: &Vec<HealStamp> = &self.heals[i].stamps;
            let ghost before: Seq<HealStamp> = all@;
            let mut j: usize = 0;
            while j < stroke.len()
                invariant
                    j <= stroke@.len(),
                    all@ == before + stroke@.take(j as int),
                decreases stroke@.len() - j,
            {
                all.push(stroke[j]);
                j = j + 1;
                assert(all@ =~= before + stroke@.take(j as int));
            }
            assert(stroke@.take(stroke@.len() as int) =~= stroke@);
            i = i + 1;
        }
        all
    }
}

impl Default for RetouchOps {
    fn default() -> (r: RetouchOps)
        ensures
            r.heals@.len() == 0,
            r.in_order().len() == 0,
    {
        RetouchOps { heals: Vec::new() }
    }
}

proof fn lemma_stamps_grow(heals: Seq<HealStroke>, a: int, b: int)
    requires
        a <= b,
    ensures
        stamps_of(heals, a).len() <= stamps_of(heals, b).len(),
    decreases b - a,
{
    if a < b {
        lemma_stamps_grow(heals, a, b - 1);
    }
}

/// The stamps of strokes one behind the other follow one another.
pub proof fn stamps_follow_one_another(first: Seq<HealStroke>, second: Seq<HealStroke>, n: int)
    requires
        0 <= n <= second.len(),
    ensures
        stamps_of(first + second, first.len() + n) == stamps_of(first, first.len() as int)
            + stamps_of(second, n),
    decreases n,
{
    let all = first + second;
    if n == 0 {
        lemma_stamps_of_front(first, second, first.len() as int);
        assert(stamps_of(first, first.len() as int) + stamps_of(second, 0) =~= stamps_of(
            first,
            first.len() as int,
        ));
    } else {
        stamps_follow_one_another(first, second, n - 1);
        assert(all[first.len() + n - 1] == second[n - 1]);
        assert(stamps_of(all, first.len() + n) =~= stamps_of(first, first.len() as int) + stamps_of(
            second,
            n,
        ));
    }
}

proof fn lemma_stamps_of_front(first: Seq<HealStroke>, second: Seq<HealStroke>, n: int)
    requires
        0 <= n <= first.len(),
    ensures
        stamps_of(first + second, n) == stamps_of(first, n),
    decreases n,
{
    if n > 0 {
        lemma_stamps_of_front(first, second, n - 1);
        assert((first + second)[n - 1] == first[n - 1]);
    }
}

// ---------------------------------------------------------------------------
// Stamps in pixels
// ---------------------------------------------------------------------------

/// The largest radius of a stamp on an image whose short edge is `n` pixels: a
/// third of that, in single precision and without its fraction.
pub open spec fn radius_limit(n: nat) -> nat {
    nearest_of(nearest_of(n, 1) * 0x100_0000, 3) / 0x100_0000
}

/// The radius in pixels of a stamp on a frame: its fraction of the width to the
/// nearest pixel, at most the limit and at least two; zero where it is no number.
pub open spec fn stamp_radius(r: Float32, width: u32, height: u32) -> int {
    let limit = radius_limit(least(width as int, height as int) as nat) as int;
    if r.is_nan() {
        0
    } else {
        greatest(least(placed_at(r, width), limit), 2)
    }
}

/// On a frame of six pixels or more both ways, no stamp is larger than the limit.
pub proof fn stamps_keep_to_the_limit(r: Float32, width: u32, height: u32)
    requires
        width >= 6,
        height >= 6,
    ensures
        0 <= stamp_radius(r, width, height) <= radius_limit(
            least(width as int, height as int) as nat,
        ) <= 0x7fff_ffff,
{
    lemma_third(least(width as int, height as int) as nat);
}

impl HealStamp {
    /// The centre and the radius in pixels on a frame of this size.
    pub fn place(self, width: u32, height: u32) -> (r: (i32, i32, i32))
        ensures
            r.0 == placed_at(self.x, width),
            r.1 == placed_at(self.y, height),
            r.2 == stamp_radius(self.r, width, height),
            r.2 == 0 || r.2 >= 2,
    {
        let short: u32 = if width <= height { width } else { height };
        proof {
            lemma_nearest_below(short as nat, 0x1_0000_0000);
        }
        let edge: u128 = nearest(short as u128, 1);
        let limit: u128 = nearest(edge * 0x100_0000, 3) / 0x100_0000;
        let wanted: i32 = place_pixels(self.r, width);
        let radius: i32 = if self.r.nan() {
            0
        } else if wanted < 2 || limit < 2 {
            2
        } else if wanted as u128 <= limit {
            wanted
        } else {
            limit as i32
        };
        (place_pixels(self.x, width), place_pixels(self.y, height), radius)
    }
}

// ---------------------------------------------------------------------------
// The ring around a spot
// ---------------------------------------------------------------------------

/// Largest radius of a spot: with its ring, distances squared fit in 31 bits.
pub const MAX_RADIUS: i32 = 21_845;

/// Whether the square that reaches `d` pixels around (`x`, `y`) lies inside the
/// image.
pub open spec fn reaches(img: &Image, x: int, y: int, d: int) -> bool {
    &&& d <= x
    &&& d <= y
    &&& x + d < img.width
    &&& y + d < img.height
}

/// Outer radius of the ring around a spot of radius `r`.
pub open spec fn ring_radius(r: int) -> int {
    3 * r / 2
}

/// Whether the place `dx` right of a spot's centre and `dy` below it lies in the
/// ring around the spot.
pub open spec fn in_ring(r: int, dx: int, dy: int) -> bool {
    r * r <= dx * dx + dy * dy <= ring_radius(r) * ring_radius(r)
}

/// Whether the image has a pixel at this place.
pub open spec fn has_place(img: &Image, x: int, y: int) -> bool {
    0 <= x < img.width && 0 <= y < img.height
}

/// Side of the square that holds the ring.
pub open spec fn ring_side(r: int) -> int {
    2 * ring_radius(r) + 1
}

/// How far right of the centre the `k`-th place of that square lies, row by row.
pub open spec fn ring_dx(r: int, k: int) -> int {
    k % ring_side(r) - ring_radius(r)
}

/// How far below the centre the `k`-th place of that square lies.
pub open spec fn ring_dy(r: int, k: int) -> int {
    k / ring_side(r) - ring_radius(r)
}

/// The square of the difference of two pixels in one channel.
pub open spec fn squared_error(img: &Image, x: int, y: int, x2: int, y2: int, c: int) -> nat {
    ((img.channel(x, y, c) - img.channel(x2, y2, c)) * (img.channel(x, y, c) - img.channel(
        x2,
        y2,
        c,
    ))) as nat
}

/// `sum` and the squared errors of the three channels of two pixels, kept to 24
/// significant bits after each addition.
pub open spec fn plus_errors(img: &Image, sum: nat, x: int, y: int, x2: int, y2: int) -> nat {
    let red = nearest_of(sum + squared_error(img, x, y, x2, y2, 0), 1);
    let green = nearest_of(red + squared_error(img, x, y, x2, y2, 1), 1);
    nearest_of(green + squared_error(img, x, y, x2, y2, 2), 1)
}

/// Whether the `k`-th place of the square lies in the ring around a spot at
/// (`cx`, `cy`), and inside the image.
pub open spec fn is_compared(img: &Image, cx: int, cy: int, r: int, k: int) -> bool {
    in_ring(r, ring_dx(r, k), ring_dy(r, k)) && has_place(
        img,
        cx + ring_dx(r, k),
        cy + ring_dy(r, k),
    )
}

/// The squared errors between the rings around (`cx`, `cy`) and (`sx`, `sy`),
/// summed up over those of the first `n` places that are compared.
pub open spec fn ring_sum(img: &Image, cx: int, cy: int, sx: int, sy: int, r: int, n: int) -> nat
    decreases n,
{
    if n <= 0 {
        0
    } else {
        let (dx, dy) = (ring_dx(r, n - 1), ring_dy(r, n - 1));
        let sum = ring_sum(img, cx, cy, sx, sy, r, n - 1);
        if is_compared(img, cx, cy, r, n - 1) {
            plus_errors(img, sum, cx + dx, cy + dy, sx + dx, sy + dy)
        } else {
            sum
        }
    }
}

/// How many channel values are compared in the first `n` places, kept to 24
/// significant bits.
pub open spec fn ring_count(img: &Image, cx: int, cy: int, r: int, n: int) -> nat
    decreases n,
{
    if n <= 0 {
        0
    } else if is_compared(img, cx, cy, r, n - 1) {
        nearest_of(ring_count(img, cx, cy, r, n - 1) + 3, 1)
    } else {
        ring_count(img, cx, cy, r, n - 1)
    }
}

/// How badly two rings match, as far as the ring around (`cx`, `cy`) lies inside
/// the image: the mean squared error to 24 significant bits, taken 2^64 times.
pub open spec fn ring_score(img: &Image, cx: int, cy: int, sx: int, sy: int, r: int) -> nat {
    let places = ring_side(r) * ring_side(r);
    nearest_of(
        ring_sum(img, cx, cy, sx, sy, r, places) * 0x1_0000_0000_0000_0000,
        ring_count(img, cx, cy, r, places),
    )
}

/// Where the ring around a spot lies inside the image, all of it is compared.
pub proof fn whole_rings_are_compared(img: &Image, cx: int, cy: int, r: int, k: int)
    requires
        r >= 1,
        reaches(img, cx, cy, ring_radius(r)),
        0 <= k < ring_side(r) * ring_side(r),
    ensures
        is_compared(img, cx, cy, r, k) <==> in_ring(r, ring_dx(r, k), ring_dy(r, k)),
{
    assert(0 <= k % ring_side(r) < ring_side(r) && 0 <= k / ring_side(r) < ring_side(r))
        by (nonlinear_arith)
        requires
            0 <= k < ring_side(r) * ring_side(r),
            ring_side(r) > 0,
    ;
}

/// At least one place is compared where the spot lies inside the image: the one `r`
/// right of the centre.
proof fn lemma_ring_not_empty(img: &Image, cx: int, cy: int, r: int, n: int)
    requires
        r >= 1,
        reaches(img, cx, cy, r),
        n > ring_radius(r) * ring_side(r) + r + ring_radius(r),
    ensures
        ring_count(img, cx, cy, r, n) > 0,
    decreases n,
{
    let r1 = ring_radius(r);
    let k = r1 * ring_side(r) + (r + r1);
    assert(r <= r1);
    assert(r1 * ring_side(r) >= 0) by (nonlinear_arith)
        requires
            r1 >= 0,
            ring_side(r) >= 0,
    ;
    if n - 1 == k {
        vstd::arithmetic::div_mod::lemma_fundamental_div_mod_converse(
            k,
            ring_side(r),
            r1,
            r + r1,
        );
        assert(r * r <= r1 * r1) by (nonlinear_arith)
            requires
                0 <= r <= r1,
        ;
        assert(r * r + 0 * 0 == r * r) by (nonlinear_arith);
        assert(is_compared(img, cx, cy, r, k));
        lemma_nearest_positive(ring_count(img, cx, cy, r, n - 1) + 3);
    } else {
        lemma_ring_not_empty(img, cx, cy, r, n - 1);
        lemma_nearest_positive(ring_count(img, cx, cy, r, n - 1) + 3);
    }
}

fn byte_error(img: &Image, x: i64, y: i64, x2: i64, y2: i64, c: usize) -> (e: u128)
    requires
        img.wf(),
        0 <= x < img.width,
        0 <= y < img.height,
        0 <= x2 < img.width,
        0 <= y2 < img.height,
        c < 3,
    ensures
        e == squared_error(img, x as int, y as int, x2 as int, y2 as int, c as int),
        e <= 65025,
{
    let a: i32 = img.get(x as u32, y as u32, c) as i32;
    let b: i32 = img.get(x2 as u32, y2 as u32, c) as i32;
    let d: i32 = a - b;
    assert(0 <= d * d <= 65025) by (nonlinear_arith)
        requires
            -255 <= d <= 255,
    ;
    (d * d) as u128
}

/// Adds up how badly two rings match.
fn score_ring(img: &Image, cx: i64, cy: i64, sx: i64, sy: i64, r: i64) -> (score: u128)
    requires
        img.wf(),
        1 <= r <= MAX_RADIUS,
        reaches(img, cx as int, cy as int, r as int),
        reaches(img, sx as int, sy as int, ring_radius(r as int)),
    ensures
        score == ring_score(img, cx as int, cy as int, sx as int, sy as int, r as int),
{
    let r1: i64 = 3 * r / 2;
    let side: i64 = 2 * r1 + 1;
    let mut sum: u128 = 0;
    let mut count: u128 = 0;
    let mut k: i64 = 0;
    let mut dx: i64 = -r1;
    let mut dy: i64 = -r1;
    assert(side * side <= 0x400_0000 * 0x400_0000) by (nonlinear_arith)
        requires
            0 <= side <= 0x400_0000,
    ;
    assert(r * r <= 0x100_0000 * 0x100_0000) by (nonlinear_arith)
        requires
            0 <= r <= 0x100_0000,
    ;
    assert(r1 * r1 <= 0x200_0000 * 0x200_0000) by (nonlinear_arith)
        requires
            0 <= r1 <= 0x200_0000,
    ;
    assert((-r1 + r1) * side + (-r1 + r1) == 0) by (nonlinear_arith);
    let places: i64 = side * side;
    while k < places
        invariant
            img.wf(),
            1 <= r <= MAX_RADIUS,
            r1 == ring_radius(r as int),
            side == ring_side(r as int),
            places == side * side,
            places <= 0x400_0000 * 0x400_0000,
            r * r <= 0x100_0000 * 0x100_0000,
            r1 * r1 <= 0x200_0000 * 0x200_0000,
            reaches(img, cx as int, cy as int, r as int),
            reaches(img, sx as int, sy as int, r1 as int),
            0 <= k <= places,
            -r1 <= dx <= r1,
            -r1 <= dy <= r1 + 1,
            k == (dy + r1) * side + (dx + r1),
            sum == ring_sum(img, cx as int, cy as int, sx as int, sy as int, r as int, k as int),
            sum <= 0x200_0000_0000,
            count == ring_count(img, cx as int, cy as int, r as int, k as int),
            count <= 0x400_0000,
        decreases places - k,
    {
        proof {
            vstd::arithmetic::div_mod::lemma_fundamental_div_mod_converse(
                k as int,
                side as int,
                dy + r1,
                dx + r1,
            );
            assert(dy <= r1) by (nonlinear_arith)
                requires
                    (dy + r1) * side + (dx + r1) < side * side,
                    dx + r1 >= 0,
                    side == 2 * r1 + 1,
                    side >= 1,
            ;
            assert(0 <= dx * dx <= 0x200_0000 * 0x200_0000) by (nonlinear_arith)
                requires
                    -0x200_0000 <= dx <= 0x200_0000,
            ;
            assert(0 <= dy * dy <= 0x200_0000 * 0x200_0000) by (nonlinear_arith)
                requires
                    -0x200_0000 <= dy <= 0x200_0000,
            ;
        }
        let d2: i64 = dx * dx + dy * dy;
        let inside: bool = 0 <= cx + dx && cx + dx < img.width as i64 && 0 <= cy + dy && cy + dy
            < img.height as i64;
        if r * r <= d2 && d2 <= r1 * r1 && inside {
            let red: u128 = byte_error(img, cx + dx, cy + dy, sx + dx, sy + dy, 0);
            proof {
                lemma_sum_bounded((sum + red) as nat);
            }
            sum = nearest(sum + red, 1);
            let green: u128 = byte_error(img, cx + dx, cy + dy, sx + dx, sy + dy, 1);
            proof {
                lemma_sum_bounded((sum + green) as nat);
            }
            sum = nearest(sum + green, 1);
            let blue: u128 = byte_error(img, cx + dx, cy + dy, sx + dx, sy + dy, 2);
            proof {
                lemma_sum_bounded((sum + blue) as nat);
                lemma_count_bounded((count + 3) as nat);
            }
            sum = nearest(sum + blue, 1);
            count = nearest(count + 3, 1);
        }
        k = k + 1;
        if dx < r1 {
            dx = dx + 1;
        } else {
            assert((dy + 1 + r1) * side == (dy + r1) * side + side) by (nonlinear_arith);
            dx = -r1;
            dy = dy + 1;
        }
    }
    proof {
        assert(r1 * side + r + r1 < side * side) by (nonlinear_arith)
            requires
                side == 2 * r1 + 1,
                1 <= r <= r1,
        ;
        lemma_ring_not_empty(img, cx as int, cy as int, r as int, places as int);
    }
    nearest(sum * 0x1_0000_0000_0000_0000, count)
}

// ---------------------------------------------------------------------------
// The source of a patch
// ---------------------------------------------------------------------------

/// Whether the `i`-th source, given by its distance from the spot, has its ring
/// inside the image.
pub open spec fn usable(
    img: &Image,
    cx: int,
    cy: int,
    r: int,
    offsets: Seq<(i32, i32)>,
    i: int,
) -> bool {
    0 <= i < offsets.len() && reaches(
        img,
        cx + offsets[i].0,
        cy + offsets[i].1,
        ring_radius(r),
    )
}

/// How badly the ring around the `i`-th source matches that around the spot.
pub open spec fn source_score(
    img: &Image,
    cx: int,
    cy: int,
    r: int,
    offsets: Seq<(i32, i32)>,
    i: int,
) -> nat {
    ring_score(img, cx, cy, cx + offsets[i].0, cy + offsets[i].1, r)
}

/// Whether the `i`-th source matches best: no usable source matches better, and
/// none before it as well.
pub open spec fn is_best_source(
    img: &Image,
    cx: int,
    cy: int,
    r: int,
    offsets: Seq<(i32, i32)>,
    i: int,
) -> bool {
    &&& usable(img, cx, cy, r, offsets, i)
    &&& forall|j: int| #[trigger]
        usable(img, cx, cy, r, offsets, j) ==> source_score(img, cx, cy, r, offsets, i)
            <= source_score(img, cx, cy, r, offsets, j)
    &&& forall|j: int| #[trigger]
        usable(img, cx, cy, r, offsets, j) && j < i ==> source_score(img, cx, cy, r, offsets, i)
            < source_score(img, cx, cy, r, offsets, j)
}

/// There is at most one best source.
pub proof fn best_source_is_unique(
    img: &Image,
    cx: int,
    cy: int,
    r: int,
    offsets: Seq<(i32, i32)>,
    i: int,
    j: int,
)
    requires
        is_best_source(img, cx, cy, r, offsets, i),
        is_best_source(img, cx, cy, r, offsets, j),
    ensures
        i == j,
{
}

/// Whether the square that reaches `d` pixels around (`x`, `y`) lies inside the
/// image.
pub fn reach(img: &Image, x: i64, y: i64, d: i64) -> (r: bool)
    requires
        0 <= d <= 0x1_0000_0000,
        -0x1_0000_0000 <= x <= 0x1_0000_0000,
        -0x1_0000_0000 <= y <= 0x1_0000_0000,
    ensures
        r == reaches(img, x as int, y as int, d as int),
{
    d <= x && d <= y && x + d < img.width as i64 && y + d < img.height as i64
}

/// Finds the source, among those at the given distances from the spot, whose ring
/// matches best that around the spot, as far as the latter lies inside the image. The
/// spot must lie inside the image, unless no source is usable.
pub fn best_source(img: &Image, cx: i32, cy: i32, r: i32, offsets: &[(i32, i32)]) -> (best: Option<
    (i32, i32),
>)
    requires
        img.wf(),
        img.width <= i32::MAX,
        img.height <= i32::MAX,
        1 <= r <= MAX_RADIUS,
        reaches(img, cx as int, cy as int, r as int) || forall|i: int|
            !#[trigger] usable(img, cx as int, cy as int, r as int, offsets@, i),
    ensures
        best is None <==> forall|i: int|
            !#[trigger] usable(img, cx as int, cy as int, r as int, offsets@, i),
        best matches Some(at) ==> exists|i: int| #[trigger]
            is_best_source(img, cx as int, cy as int, r as int, offsets@, i) && at.0 == cx
                + offsets@[i].0 && at.1 == cy + offsets@[i].1,
{
    let r1: i64 = 3 * (r as i64) / 2;
    let mut best: Option<(i32, i32)> = None;
    let mut best_score: u128 = 0;
    let ghost mut at: int = 0;
    let mut i: usize = 0;
    while i < offsets.len()
        invariant
            img.wf(),
            img.width <= i32::MAX,
            img.height <= i32::MAX,
            1 <= r <= MAX_RADIUS,
            r1 == ring_radius(r as int),
            reaches(img, cx as int, cy as int, r as int) || forall|j: int|
                !#[trigger] usable(img, cx as int, cy as int, r as int, offsets@, j),
            i <= offsets@.len(),
            best is None ==> forall|j: int|
                j < i ==> !#[trigger] usable(img, cx as int, cy as int, r as int, offsets@, j),
            best matches Some(p) ==> {
                &&& 0 <= at < i
                &&& usable(img, cx as int, cy as int, r as int, offsets@, at)
                &&& p.0 == cx + offsets@[at].0
                &&& p.1 == cy + offsets@[at].1
                &&& best_score == source_score(
                    img,
                    cx as int,
                    cy as int,
                    r as int,
                    offsets@,
                    at,
                )
                &&& forall|j: int|
                    j < i && #[trigger] usable(img, cx as int, cy as int, r as int, offsets@, j)
                        ==> best_score <= source_score(
                        img,
                        cx as int,
                        cy as int,
                        r as int,
                        offsets@,
                        j,
                    )
                &&& forall|j: int|
                    j < at && #[trigger] usable(img, cx as int, cy as int, r as int, offsets@, j)
                        ==> best_score < source_score(
                        img,
                        cx as int,
                        cy as int,
                        r as int,
                        offsets@,
                        j,
                    )
            },
        decreases offsets@.len() - i,
    {
        let sx: i64 = cx as i64 + offsets[i].0 as i64;
        let sy: i64 = cy as i64 + offsets[i].1 as i64;
        if reach(img, sx, sy, r1) {
            assert(usable(img, cx as int, cy as int, r as int, offsets@, i as int));
            let score: u128 = score_ring(img, cx as i64, cy as i64, sx, sy, r as i64);
            if best.is_none() || score < best_score {
                best_score = score;
                best = Some((sx as i32, sy as i32));
                proof {
                    at = i as int;
                }
            }
        }
        i = i + 1;
    }
    proof {
        if best is Some {
            assert(is_best_source(img, cx as int, cy as int, r as int, offsets@, at));
        } else {
            assert forall|j: int|
                !#[trigger] usable(img, cx as int, cy as int, r as int, offsets@, j) by {}
        }
    }
    best
}

// ---------------------------------------------------------------------------
// Healing a spot
// ---------------------------------------------------------------------------

/// Decides whether a spot is healed, and from where: the spot with one pixel
/// around it must lie inside the image, and there must be a usable source.
pub fn plan_heal(img: &Image, cx: i32, cy: i32, r: i32, offsets: &[(i32, i32)]) -> (plan: Option<
    (i32, i32),
>)
    requires
        img.wf(),
        img.width <= i32::MAX,
        img.height <= i32::MAX,
        r <= MAX_RADIUS,
    ensures
        plan is None <==> r < 1 || !reaches(img, cx as int, cy as int, r + 1) || forall|i: int|
            !#[trigger] usable(img, cx as int, cy as int, r as int, offsets@, i),
        plan matches Some(at) ==> exists|i: int| #[trigger]
            is_best_source(img, cx as int, cy as int, r as int, offsets@, i) && at.0 == cx
                + offsets@[i].0 && at.1 == cy + offsets@[i].1,
        plan matches Some(at) ==> r >= 2 ==> reaches(img, at.0 as int, at.1 as int, r + 1),
{
    if r < 1 || !reach(img, cx as i64, cy as i64, r as i64 + 1) {
        return None;
    }
    best_source(img, cx, cy, r, offsets)
}

/// On a frame of fewer than seven pixels one way, no stamp fits: it has no radius, or
/// reaches with one pixel around it over an edge, wherever its centre lies.
pub proof fn small_frames_fit_no_stamp(img: &Image, stamp: HealStamp, x: int, y: int)
    requires
        img.width < 7 || img.height < 7,
    ensures
        ({
            let r = stamp_radius(stamp.r, img.width, img.height);
            r < 1 || !reaches(img, x, y, r + 1)
        }),
{
}

/// Whether the place `dx` right of a spot's centre and `dy` below it belongs to
/// the spot.
pub open spec fn in_disc(r: int, dx: int, dy: int) -> bool {
    dx * dx + dy * dy <= r * r
}

/// Side of the patch of a spot: the spot with one pixel around it.
pub open spec fn patch_side(r: int) -> int {
    2 * r + 3
}

/// `patch` holds the pixels of `img` around (`cx`, `cy`), up to one more than `r` off
/// along either axis, with that place in its middle.
pub open spec fn is_patch_around(patch: &Image, img: &Image, cx: int, cy: int, r: int) -> bool {
    &&& patch.wf()
    &&& patch.width == patch_side(r)
    &&& patch.height == patch_side(r)
    &&& forall|x: int, y: int, c: int|
        0 <= x < patch_side(r) && 0 <= y < patch_side(r) && 0 <= c < 3 ==> #[trigger] patch.channel(
            x,
            y,
            c,
        ) == img.channel(cx + (x - r - 1), cy + (y - r - 1), c)
}

/// Cuts out the patch around a spot or a source.
pub fn spot_patch(img: &Image, cx: i32, cy: i32, r: i32) -> (patch: Image)
    requires
        img.wf(),
        img.width <= i32::MAX,
        img.height <= i32::MAX,
        1 <= r <= MAX_RADIUS,
        reaches(img, cx as int, cy as int, r + 1),
    ensures
        is_cut_of(&patch, img, cx - r - 1, cy - r - 1, patch_side(r as int), patch_side(r as int)),
        is_patch_around(&patch, img, cx as int, cy as int, r as int),
{
    let side: u32 = 2 * (r as u32) + 3;
    cut(img, (cx - r - 1) as u32, (cy - r - 1) as u32, side, side)
}

/// Which places of a patch belong to the spot, row by row.
pub fn disc_mask(r: i32) -> (mask: Vec<bool>)
    requires
        1 <= r <= MAX_RADIUS,
    ensures
        mask@.len() == patch_side(r as int) * patch_side(r as int),
        forall|k: int|
            0 <= k < mask@.len() ==> #[trigger] mask@[k] == in_disc(
                r as int,
                k % patch_side(r as int) - r - 1,
                k / patch_side(r as int) - r - 1,
            ),
{
    let wide: i64 = r as i64;
    let side: i64 = 2 * wide + 3;
    let mut mask: Vec<bool> = Vec::new();
    let mut dx: i64 = -wide - 1;
    let mut dy: i64 = -wide - 1;
    let mut k: i64 = 0;
    assert(side * side <= 0x400_0000 * 0x400_0000) by (nonlinear_arith)
        requires
            0 <= side <= 0x400_0000,
    ;
    assert(wide * wide <= 0x100_0000 * 0x100_0000) by (nonlinear_arith)
        requires
            0 <= wide <= 0x100_0000,
    ;
    assert((dy + wide + 1) * side + (dx + wide + 1) == 0) by (nonlinear_arith)
        requires
            dx == -wide - 1,
            dy == -wide - 1,
    ;
    let places: i64 = side * side;
    while k < places
        invariant
            wide == r,
            1 <= r <= MAX_RADIUS,
            side == patch_side(r as int),
            places == side * side,
            places <= 0x400_0000 * 0x400_0000,
            wide * wide <= 0x100_0000 * 0x100_0000,
            0 <= k <= places,
            -wide - 1 <= dx <= wide + 1,
            -wide - 1 <= dy <= wide + 2,
            k == (dy + wide + 1) * side + (dx + wide + 1),
            mask@.len() == k,
            forall|i: int|
                0 <= i < k ==> #[trigger] mask@[i] == in_disc(
                    r as int,
                    i % side as int - r - 1,
                    i / side as int - r - 1,
                ),
        decreases places - k,
    {
        proof {
            vstd::arithmetic::div_mod::lemma_fundamental_div_mod_converse(
                k as int,
                side as int,
                dy + wide + 1,
                dx + wide + 1,
            );
            assert(0 <= dx * dx <= 0x200_0000 * 0x200_0000) by (nonlinear_arith)
                requires
                    -0x200_0000 <= dx <= 0x200_0000,
            ;
            assert(0 <= dy * dy <= 0x200_0000 * 0x200_0000) by (nonlinear_arith)
                requires
                    -0x200_0000 <= dy <= 0x200_0000,
            ;
        }
        mask.push(dx * dx + dy * dy <= wide * wide);
        k = k + 1;
        if dx < wide + 1 {
            dx = dx + 1;
        } else {
            assert((dy + 1 + wide + 1) * side == (dy + wide + 1) * side + side)
                by (nonlinear_arith);
            dx = -wide - 1;
            dy = dy + 1;
        }
    }
    mask
}

/// What the pixel in column `x` and row `y` of a healed image holds in channel
/// `c`: inside the spot what the healed patch holds there, elsewhere what the
/// image held.
pub open spec fn healed_channel(
    img: &Image,
    cx: int,
    cy: int,
    r: int,
    patch: &Image,
    x: int,
    y: int,
    c: int,
) -> u8 {
    if in_disc(r, x - cx, y - cy) {
        patch.channel(x - (cx - r - 1), y - (cy - r - 1), c)
    } else {
        img.channel(x, y, c)
    }
}

/// `out` is `img` with the spot replaced by the healed patch.
pub open spec fn is_healed(out: &Image, img: &Image, cx: int, cy: int, r: int, patch: &Image) -> bool {
    &&& out.wf()
    &&& out.width == img.width
    &&& out.height == img.height
    &&& forall|x: int, y: int, c: int|
        0 <= x < img.width && 0 <= y < img.height && 0 <= c < 3 ==> #[trigger] out.channel(x, y, c)
            == healed_channel(img, cx, cy, r, patch, x, y, c)
}

/// Healing changes no pixel outside the spot.
pub proof fn healing_stays_in_the_spot(
    out: &Image,
    img: &Image,
    cx: int,
    cy: int,
    r: int,
    patch: &Image,
    x: int,
    y: int,
    c: int,
)
    requires
        is_healed(out, img, cx, cy, r, patch),
        0 <= x < img.width,
        0 <= y < img.height,
        0 <= c < 3,
        !in_disc(r, x - cx, y - cy),
    ensures
        out.channel(x, y, c) == img.channel(x, y, c),
{
}

/// A spot healed with its own patch stays as it is.
pub proof fn healing_with_itself_changes_nothing(
    out: &Image,
    img: &Image,
    cx: int,
    cy: int,
    r: int,
    patch: &Image,
    x: int,
    y: int,
    c: int,
)
    requires
        r >= 1,
        is_cut_of(patch, img, cx - r - 1, cy - r - 1, patch_side(r), patch_side(r)),
        is_healed(out, img, cx, cy, r, patch),
        0 <= x < img.width,
        0 <= y < img.height,
        0 <= c < 3,
    ensures
        out.channel(x, y, c) == img.channel(x, y, c),
{
    if in_disc(r, x - cx, y - cy) {
        lemma_disc_in_patch(r, x - cx, y - cy);
        assert(patch.channel(x - (cx - r - 1), y - (cy - r - 1), c) == img.channel(x, y, c));
    }
}

/// The spot reaches no further than its radius.
proof fn lemma_disc_in_patch(r: int, dx: int, dy: int)
    requires
        r >= 0,
        in_disc(r, dx, dy),
    ensures
        -r <= dx <= r,
        -r <= dy <= r,
{
    assert(-r <= dx <= r && -r <= dy <= r) by (nonlinear_arith)
        requires
            r >= 0,
            dx * dx + dy * dy <= r * r,
    ;
}

/// Puts a healed patch over a spot: only the pixels of the spot change.
pub fn apply_heal(img: &mut Image, cx: i32, cy: i32, r: i32, patch: &Image)
    requires
        old(img).wf(),
        old(img).width <= i32::MAX,
        old(img).height <= i32::MAX,
        1 <= r <= MAX_RADIUS,
        reaches(old(img), cx as int, cy as int, r + 1),
        patch.wf(),
        patch.width == patch_side(r as int),
        patch.height == patch_side(r as int),
    ensures
        is_healed(final(img), old(img), cx as int, cy as int, r as int, patch),
{
    let ghost before: Image = *img;
    let side: u32 = 2 * (r as u32) + 3;
    let x0: u32 = (cx - r - 1) as u32;
    let y0: u32 = (cy - r - 1) as u32;
    let mut j: u32 = 0;
    proof {
        assert forall|x: int, y: int| #[trigger]
            in_disc(r as int, x - cx, y - cy) implies x0 < x < x0 + side - 1 && y0 < y < y0 + side
            - 1 by {
            lemma_disc_in_patch(r as int, x - cx, y - cy);
        }
    }
    while j < side
        invariant
            forall|x: int, y: int| #[trigger]
                in_disc(r as int, x - cx, y - cy) ==> x0 < x < x0 + side - 1 && y0 < y < y0 + side
                    - 1,
            before.wf(),
            img.wf(),
            img.width == before.width,
            img.height == before.height,
            before.width <= i32::MAX,
            before.height <= i32::MAX,
            1 <= r <= MAX_RADIUS,
            reaches(&before, cx as int, cy as int, r + 1),
            patch.wf(),
            patch.width == side,
            patch.height == side,
            side == patch_side(r as int),
            x0 == cx - r - 1,
            y0 == cy - r - 1,
            j <= side,
            forall|x: int, y: int, c: int|
                0 <= x < before.width && 0 <= y < before.height && 0 <= c < 3
                    ==> #[trigger] img.channel(x, y, c) == if y < y0 + j {
                    healed_channel(&before, cx as int, cy as int, r as int, patch, x, y, c)
                } else {
                    before.channel(x, y, c)
                },
        decreases side - j,
    {
        let mut i: u32 = 0;
        while i < side
            invariant
                forall|x: int, y: int| #[trigger]
                    in_disc(r as int, x - cx, y - cy) ==> x0 < x < x0 + side - 1 && y0 < y < y0
                        + side - 1,
                before.wf(),
                img.wf(),
                img.width == before.width,
                img.height == before.height,
                before.width <= i32::MAX,
                before.height <= i32::MAX,
                1 <= r <= MAX_RADIUS,
                reaches(&before, cx as int, cy as int, r + 1),
                patch.wf(),
                patch.width == side,
                patch.height == side,
                side == patch_side(r as int),
                x0 == cx - r - 1,
                y0 == cy - r - 1,
                j < side,
                i <= side,
                forall|x: int, y: int, c: int|
                    0 <= x < before.width && 0 <= y < before.height && 0 <= c < 3
                        ==> #[trigger] img.channel(x, y, c) == if y < y0 + j || (y == y0 + j && x
                        < x0 + i) {
                        healed_channel(&before, cx as int, cy as int, r as int, patch, x, y, c)
                    } else {
                        before.channel(x, y, c)
                    },
            decreases side - i,
        {
            let dx: i64 = i as i64 - r as i64 - 1;
            let dy: i64 = j as i64 - r as i64 - 1;
            proof {
                assert(0 <= dx * dx <= 0x200_0000 * 0x200_0000) by (nonlinear_arith)
                    requires
                        -0x200_0000 <= dx <= 0x200_0000,
                ;
                assert(0 <= dy * dy <= 0x200_0000 * 0x200_0000) by (nonlinear_arith)
                    requires
                        -0x200_0000 <= dy <= 0x200_0000,
                ;
                assert(0 <= r * r <= 0x100_0000 * 0x100_0000) by (nonlinear_arith)
                    requires
                        0 <= r <= 0x100_0000,
                ;
            }
            if dx * dx + dy * dy <= r as i64 * r as i64 {
                img.put_pixel(
                    x0 + i,
                    y0 + j,
                    patch.get(i, j, 0),
                    patch.get(i, j, 1),
                    patch.get(i, j, 2),
                );
            }
            i = i + 1;
        }
        j = j + 1;
    }
}

// ---------------------------------------------------------------------------
// What the score of a source says
// ---------------------------------------------------------------------------

/// Whether the pixel `dx` right and `dy` below a spot's centre is, in red, green and
/// blue, that in the same place around a source.
pub open spec fn agrees_at(
    img: &Image,
    cx: int,
    cy: int,
    sx: int,
    sy: int,
    dx: int,
    dy: int,
) -> bool {
    &&& img.channel(cx + dx, cy + dy, 0) == img.channel(sx + dx, sy + dy, 0)
    &&& img.channel(cx + dx, cy + dy, 1) == img.channel(sx + dx, sy + dy, 1)
    &&& img.channel(cx + dx, cy + dy, 2) == img.channel(sx + dx, sy + dy, 2)
}

/// Whether the place `dx` right and `dy` below a spot at (`cx`, `cy`) has its pixel
/// compared: it is as far from the centre as the spot's edge or further, no further
/// than one and a half times that, and inside the image.
pub open spec fn around_spot(img: &Image, cx: int, cy: int, r: int, dx: int, dy: int) -> bool {
    &&& r * r <= dx * dx + dy * dy
    &&& dx * dx + dy * dy <= (3 * r / 2) * (3 * r / 2)
    &&& 0 <= cx + dx < img.width
    &&& 0 <= cy + dy < img.height
}

/// Whether the pixels around a spot and a source agree in every place.
pub open spec fn rings_agree(img: &Image, cx: int, cy: int, sx: int, sy: int, r: int) -> bool {
    forall|dx: int, dy: int|
        around_spot(img, cx, cy, r, dx, dy) ==> #[trigger] agrees_at(img, cx, cy, sx, sy, dx, dy)
}

/// A source scores zero exactly where the pixels around it agree with those around the
/// spot, in all three channels and in every place that is compared.
pub proof fn only_equal_rings_score_zero(img: &Image, cx: int, cy: int, sx: int, sy: int, r: int)
    requires
        r >= 1,
        r <= cx < img.width - r,
        r <= cy < img.height - r,
    ensures
        ring_score(img, cx, cy, sx, sy, r) == 0 <==> rings_agree(img, cx, cy, sx, sy, r),
{
    let side = 2 * (3 * r / 2) + 1;
    let places = side * side;
    let r1 = 3 * r / 2;
    assert(r1 * side + r + r1 < side * side) by (nonlinear_arith)
        requires
            side == 2 * r1 + 1,
            1 <= r <= r1,
    ;
    lemma_ring_not_empty(img, cx, cy, r, places);
    lemma_ring_count_bounded(img, cx, cy, r, places);
    let sum = ring_sum(img, cx, cy, sx, sy, r, places);
    let count = ring_count(img, cx, cy, r, places);
    if rings_agree(img, cx, cy, sx, sy, r) {
        lemma_equal_rings_sum(img, cx, cy, sx, sy, r, places);
        short_numbers_stay(0, count);
    } else {
        let (dx, dy) = choose|dx: int, dy: int|
            around_spot(img, cx, cy, r, dx, dy) && !#[trigger] agrees_at(
                img,
                cx,
                cy,
                sx,
                sy,
                dx,
                dy,
            );
        lemma_within(r1, dx, dy);
        let k = (dy + r1) * side + (dx + r1);
        assert(0 <= k < side * side) by (nonlinear_arith)
            requires
                k == (dy + r1) * side + (dx + r1),
                side == 2 * r1 + 1,
                -r1 <= dx <= r1,
                -r1 <= dy <= r1,
        ;
        lemma_difference_counts(img, cx, cy, sx, sy, r, dx, dy, places);
        lemma_nearest_near((sum * 0x1_0000_0000_0000_0000) as nat, count);
    }
}

/// A place no further off than `d` is no further off along either axis.
proof fn lemma_within(d: int, dx: int, dy: int)
    requires
        d >= 0,
        dx * dx + dy * dy <= d * d,
    ensures
        -d <= dx <= d,
        -d <= dy <= d,
{
    assert(-d <= dx <= d && -d <= dy <= d) by (nonlinear_arith)
        requires
            d >= 0,
            dx * dx + dy * dy <= d * d,
    ;
}

proof fn lemma_ring_count_bounded(img: &Image, cx: int, cy: int, r: int, n: int)
    ensures
        ring_count(img, cx, cy, r, n) <= 0x400_0000,
    decreases n,
{
    if n > 0 {
        lemma_ring_count_bounded(img, cx, cy, r, n - 1);
        lemma_count_bounded(ring_count(img, cx, cy, r, n - 1) + 3);
    }
}

proof fn lemma_equal_rings_sum(img: &Image, cx: int, cy: int, sx: int, sy: int, r: int, n: int)
    requires
        rings_agree(img, cx, cy, sx, sy, r),
    ensures
        ring_sum(img, cx, cy, sx, sy, r, n) == 0,
    decreases n,
{
    if n > 0 {
        lemma_equal_rings_sum(img, cx, cy, sx, sy, r, n - 1);
        let (dx, dy) = (ring_dx(r, n - 1), ring_dy(r, n - 1));
        if is_compared(img, cx, cy, r, n - 1) {
            assert(around_spot(img, cx, cy, r, dx, dy));
            assert(agrees_at(img, cx, cy, sx, sy, dx, dy));
            lemma_square(img, cx + dx, cy + dy, sx + dx, sy + dy, 0);
            lemma_square(img, cx + dx, cy + dy, sx + dx, sy + dy, 1);
            lemma_square(img, cx + dx, cy + dy, sx + dx, sy + dy, 2);
            short_numbers_stay(0, 1);
        }
    }
}

/// A place in which a channel differs makes the sum more than zero.
proof fn lemma_difference_counts(
    img: &Image,
    cx: int,
    cy: int,
    sx: int,
    sy: int,
    r: int,
    dx: int,
    dy: int,
    n: int,
)
    requires
        r >= 1,
        around_spot(img, cx, cy, r, dx, dy),
        !agrees_at(img, cx, cy, sx, sy, dx, dy),
        n > (dy + 3 * r / 2) * (2 * (3 * r / 2) + 1) + (dx + 3 * r / 2),
    ensures
        ring_sum(img, cx, cy, sx, sy, r, n) > 0,
    decreases n,
{
    let r1 = 3 * r / 2;
    let side = 2 * r1 + 1;
    lemma_within(r1, dx, dy);
    let k = (dy + r1) * side + (dx + r1);
    assert(k >= 0) by (nonlinear_arith)
        requires
            k == (dy + r1) * side + (dx + r1),
            side >= 0,
            dy + r1 >= 0,
            dx + r1 >= 0,
    ;
    let sum = ring_sum(img, cx, cy, sx, sy, r, n - 1);
    let (ex, ey) = (ring_dx(r, n - 1), ring_dy(r, n - 1));
    if n - 1 == k {
        vstd::arithmetic::div_mod::lemma_fundamental_div_mod_converse(k, side, dy + r1, dx + r1);
        lemma_errors_count(img, sum, cx + dx, cy + dy, sx + dx, sy + dy);
    } else {
        lemma_difference_counts(img, cx, cy, sx, sy, r, dx, dy, n - 1);
        lemma_errors_count(img, sum, cx + ex, cy + ey, sx + ex, sy + ey);
    }
}

/// With the errors of two pixels a sum is more than zero where it was before, and where
/// the pixels differ in any channel.
proof fn lemma_errors_count(img: &Image, sum: nat, x: int, y: int, x2: int, y2: int)
    requires
        sum > 0 || img.channel(x, y, 0) != img.channel(x2, y2, 0) || img.channel(x, y, 1)
            != img.channel(x2, y2, 1) || img.channel(x, y, 2) != img.channel(x2, y2, 2),
    ensures
        plus_errors(img, sum, x, y, x2, y2) > 0,
{
    lemma_square(img, x, y, x2, y2, 0);
    lemma_square(img, x, y, x2, y2, 1);
    lemma_square(img, x, y, x2, y2, 2);
    let red = sum + squared_error(img, x, y, x2, y2, 0);
    if red > 0 {
        lemma_nearest_positive(red);
    } else {
        short_numbers_stay(0, 1);
    }
    let green = nearest_of(red, 1) + squared_error(img, x, y, x2, y2, 1);
    if green > 0 {
        lemma_nearest_positive(green);
    } else {
        short_numbers_stay(0, 1);
    }
    lemma_nearest_positive(nearest_of(green, 1) + squared_error(img, x, y, x2, y2, 2));
}

proof fn lemma_square(img: &Image, x: int, y: int, x2: int, y2: int, c: int)
    ensures
        squared_error(img, x, y, x2, y2, c) == square_of(
            img.channel(x, y, c) - img.channel(x2, y2, c),
        ),
        img.channel(x, y, c) == img.channel(x2, y2, c) <==> squared_error(img, x, y, x2, y2, c)
            == 0,
{
    let d = img.channel(x, y, c) - img.channel(x2, y2, c);
    assert(d * d >= 0 && (d == 0 <==> d * d == 0)) by (nonlinear_arith);
}

/// A number times itself.
pub open spec fn square_of(d: int) -> nat {
    (d * d) as nat
}

/// How far the pixels (`x`, `y`) and (`x2`, `y2`) are apart: the squares of their
/// differences in red, green and blue together.
pub open spec fn colour_error(img: &Image, x: int, y: int, x2: int, y2: int) -> nat {
    square_of(img.channel(x, y, 0) - img.channel(x2, y2, 0)) + square_of(
        img.channel(x, y, 1) - img.channel(x2, y2, 1),
    ) + square_of(img.channel(x, y, 2) - img.channel(x2, y2, 2))
}

/// The sum of `f` over the first `n` places of the row `dy` below the centre, from `d`
/// left of the centre on.
pub open spec fn row_total(f: spec_fn(int, int) -> nat, d: int, dy: int, n: int) -> nat
    decreases n,
{
    if n <= 0 {
        0
    } else {
        row_total(f, d, dy, n - 1) + f(n - 1 - d, dy)
    }
}

/// The sum of `f` over the first `m` rows of the square that reaches `d` around the
/// centre, from the top.
pub open spec fn square_total(f: spec_fn(int, int) -> nat, d: int, m: int) -> nat
    decreases m,
{
    if m <= 0 {
        0
    } else {
        square_total(f, d, m - 1) + row_total(f, d, m - 1 - d, 2 * d + 1)
    }
}

/// The errors of all compared places together, exactly.
pub open spec fn error_total(img: &Image, cx: int, cy: int, sx: int, sy: int, r: int) -> nat {
    square_total(
        |dx: int, dy: int|
            if around_spot(img, cx, cy, r, dx, dy) {
                colour_error(img, cx + dx, cy + dy, sx + dx, sy + dy)
            } else {
                0
            },
        3 * r / 2,
        2 * (3 * r / 2) + 1,
    )
}

/// How many places are compared.
pub open spec fn place_total(img: &Image, cx: int, cy: int, r: int) -> nat {
    square_total(
        |dx: int, dy: int|
            if around_spot(img, cx, cy, r, dx, dy) {
                1
            } else {
                0
            },
        3 * r / 2,
        2 * (3 * r / 2) + 1,
    )
}

/// The score of a source is the mean of the squared differences, over all compared
/// places and the three channels of each: their exact sum over three times the number
/// of places, where both have at most 24 bits and no step is rounded but the last.
pub proof fn score_is_the_mean_of_the_squares(
    img: &Image,
    cx: int,
    cy: int,
    sx: int,
    sy: int,
    r: int,
)
    requires
        r >= 1,
        error_total(img, cx, cy, sx, sy, r) < 0x100_0000,
        3 * place_total(img, cx, cy, r) < 0x100_0000,
    ensures
        ring_score(img, cx, cy, sx, sy, r) == nearest_of(
            error_total(img, cx, cy, sx, sy, r) * 0x1_0000_0000_0000_0000,
            3 * place_total(img, cx, cy, r),
        ),
{
    let d = 3 * r / 2;
    let side = 2 * d + 1;
    let f = |dx: int, dy: int|
        if around_spot(img, cx, cy, r, dx, dy) {
            colour_error(img, cx + dx, cy + dy, sx + dx, sy + dy)
        } else {
            0
        };
    let g = |dx: int, dy: int|
        if around_spot(img, cx, cy, r, dx, dy) {
            1nat
        } else {
            0
        };
    assert(error_total(img, cx, cy, sx, sy, r) == square_total(f, d, side));
    assert(place_total(img, cx, cy, r) == square_total(g, d, side));
    lemma_exact_sum(img, cx, cy, sx, sy, r, f, side, 0);
    lemma_exact_count(img, cx, cy, r, g, side, 0);
}

proof fn lemma_exact_sum(
    img: &Image,
    cx: int,
    cy: int,
    sx: int,
    sy: int,
    r: int,
    f: spec_fn(int, int) -> nat,
    m: int,
    n: int,
)
    requires
        r >= 1,
        0 <= m,
        0 <= n <= 2 * (3 * r / 2) + 1,
        forall|dx: int, dy: int| #[trigger]
            f(dx, dy) == (if around_spot(img, cx, cy, r, dx, dy) {
                colour_error(img, cx + dx, cy + dy, sx + dx, sy + dy)
            } else {
                0
            }),
        square_total(f, 3 * r / 2, m) + row_total(f, 3 * r / 2, m - 3 * r / 2, n) < 0x100_0000,
    ensures
        ring_sum(img, cx, cy, sx, sy, r, m * (2 * (3 * r / 2) + 1) + n) == square_total(
            f,
            3 * r / 2,
            m,
        ) + row_total(f, 3 * r / 2, m - 3 * r / 2, n),
    decreases m, n,
{
    let d = 3 * r / 2;
    let side = 2 * d + 1;
    assert(m * side >= 0) by (nonlinear_arith)
        requires
            m >= 0,
            side >= 0,
    ;
    if n > 0 {
        lemma_exact_sum(img, cx, cy, sx, sy, r, f, m, n - 1);
        let k = m * side + (n - 1);
        vstd::arithmetic::div_mod::lemma_fundamental_div_mod_converse(k, side, m, n - 1);
        let (dx, dy) = (n - 1 - d, m - d);
        assert(ring_dx(r, k) == dx && ring_dy(r, k) == dy);
        let sum = ring_sum(img, cx, cy, sx, sy, r, k);
        assert(is_compared(img, cx, cy, r, k) <==> around_spot(img, cx, cy, r, dx, dy));
        assert(f(dx, dy) >= 0);
        if around_spot(img, cx, cy, r, dx, dy) {
            lemma_square(img, cx + dx, cy + dy, sx + dx, sy + dy, 0);
            lemma_square(img, cx + dx, cy + dy, sx + dx, sy + dy, 1);
            lemma_square(img, cx + dx, cy + dy, sx + dx, sy + dy, 2);
            let red = sum + squared_error(img, cx + dx, cy + dy, sx + dx, sy + dy, 0);
            let green = red + squared_error(img, cx + dx, cy + dy, sx + dx, sy + dy, 1);
            short_numbers_stay(red, 1);
            short_numbers_stay(green, 1);
            short_numbers_stay(
                green + squared_error(img, cx + dx, cy + dy, sx + dx, sy + dy, 2),
                1,
            );
        }
    } else if m > 0 {
        lemma_exact_sum(img, cx, cy, sx, sy, r, f, m - 1, side);
        assert((m - 1) * side + side == m * side) by (nonlinear_arith);
    } else {
        assert(0 * side == 0) by (nonlinear_arith);
    }
}

proof fn lemma_exact_count(
    img: &Image,
    cx: int,
    cy: int,
    r: int,
    g: spec_fn(int, int) -> nat,
    m: int,
    n: int,
)
    requires
        r >= 1,
        0 <= m,
        0 <= n <= 2 * (3 * r / 2) + 1,
        forall|dx: int, dy: int| #[trigger]
            g(dx, dy) == (if around_spot(img, cx, cy, r, dx, dy) {
                1nat
            } else {
                0
            }),
        3 * (square_total(g, 3 * r / 2, m) + row_total(g, 3 * r / 2, m - 3 * r / 2, n))
            < 0x100_0000,
    ensures
        ring_count(img, cx, cy, r, m * (2 * (3 * r / 2) + 1) + n) == 3 * (square_total(
            g,
            3 * r / 2,
            m,
        ) + row_total(g, 3 * r / 2, m - 3 * r / 2, n)),
    decreases m, n,
{
    let d = 3 * r / 2;
    let side = 2 * d + 1;
    assert(m * side >= 0) by (nonlinear_arith)
        requires
            m >= 0,
            side >= 0,
    ;
    if n > 0 {
        lemma_exact_count(img, cx, cy, r, g, m, n - 1);
        let k = m * side + (n - 1);
        vstd::arithmetic::div_mod::lemma_fundamental_div_mod_converse(k, side, m, n - 1);
        let (dx, dy) = (n - 1 - d, m - d);
        assert(ring_dx(r, k) == dx && ring_dy(r, k) == dy);
        assert(is_compared(img, cx, cy, r, k) <==> around_spot(img, cx, cy, r, dx, dy));
        assert(g(dx, dy) >= 0);
        if around_spot(img, cx, cy, r, dx, dy) {
            short_numbers_stay(ring_count(img, cx, cy, r, k) + 3, 1);
        }
    } else if m > 0 {
        lemma_exact_count(img, cx, cy, r, g, m - 1, side);
        assert((m - 1) * side + side == m * side) by (nonlinear_arith);
    } else {
        assert(0 * side == 0) by (nonlinear_arith);
    }
}

/// Where the pixels around some source agree with those around the spot, so do those
/// around the best source, and it is listed no later.
pub proof fn an_equal_source_is_taken(
    img: &Image,
    cx: int,
    cy: int,
    r: int,
    offsets: Seq<(i32, i32)>,
    best: int,
    i: int,
)
    requires
        r >= 1,
        r <= cx < img.width - r,
        r <= cy < img.height - r,
        is_best_source(img, cx, cy, r, offsets, best),
        usable(img, cx, cy, r, offsets, i),
        rings_agree(img, cx, cy, cx + offsets[i].0, cy + offsets[i].1, r),
    ensures
        rings_agree(img, cx, cy, cx + offsets[best].0, cy + offsets[best].1, r),
        best <= i,
{
    only_equal_rings_score_zero(img, cx, cy, cx + offsets[i].0, cy + offsets[i].1, r);
    only_equal_rings_score_zero(img, cx, cy, cx + offsets[best].0, cy + offsets[best].1, r);
}

/// The best source is one of those given, its ring lies inside the image, and no source
/// with its ring inside the image matches better; of those that match as well it is
/// the first.
pub proof fn best_source_beats_the_others(
    img: &Image,
    cx: int,
    cy: int,
    r: int,
    offsets: Seq<(i32, i32)>,
    best: int,
    i: int,
)
    requires
        is_best_source(img, cx, cy, r, offsets, best),
        0 <= i < offsets.len(),
        3 * r / 2 <= cx + offsets[i].0 < img.width - 3 * r / 2,
        3 * r / 2 <= cy + offsets[i].1 < img.height - 3 * r / 2,
    ensures
        0 <= best < offsets.len(),
        3 * r / 2 <= cx + offsets[best].0 < img.width - 3 * r / 2,
        3 * r / 2 <= cy + offsets[best].1 < img.height - 3 * r / 2,
        ring_score(img, cx, cy, cx + offsets[best].0, cy + offsets[best].1, r) <= ring_score(
            img,
            cx,
            cy,
            cx + offsets[i].0,
            cy + offsets[i].1,
            r,
        ),
        i < best ==> ring_score(img, cx, cy, cx + offsets[best].0, cy + offsets[best].1, r)
            < ring_score(img, cx, cy, cx + offsets[i].0, cy + offsets[i].1, r),
{
    assert(usable(img, cx, cy, r, offsets, i));
}

/// A healed image holds the patch wherever the distance from the spot's centre is at
/// most its radius, the patch's centre over the spot's, and the image elsewhere.
pub proof fn healing_replaces_the_disc(
    out: &Image,
    img: &Image,
    cx: int,
    cy: int,
    r: int,
    patch: &Image,
    dx: int,
    dy: int,
    c: int,
)
    requires
        is_healed(out, img, cx, cy, r, patch),
        0 <= cx + dx < img.width,
        0 <= cy + dy < img.height,
        0 <= c < 3,
    ensures
        dx * dx + dy * dy <= r * r ==> out.channel(cx + dx, cy + dy, c) == patch.channel(
            r + 1 + dx,
            r + 1 + dy,
            c,
        ),
        dx * dx + dy * dy > r * r ==> out.channel(cx + dx, cy + dy, c) == img.channel(
            cx + dx,
            cy + dy,
            c,
        ),
{
}

/// A patch that was cut out around one place and healed over another moves the pixels
/// of the disc from the one to the other.
pub proof fn healing_moves_the_disc(
    out: &Image,
    img: &Image,
    cx: int,
    cy: int,
    sx: int,
    sy: int,
    r: int,
    patch: &Image,
    dx: int,
    dy: int,
    c: int,
)
    requires
        r >= 1,
        is_patch_around(patch, img, sx, sy, r),
        is_healed(out, img, cx, cy, r, patch),
        0 <= cx + dx < img.width,
        0 <= cy + dy < img.height,
        dx * dx + dy * dy <= r * r,
        0 <= c < 3,
    ensures
        patch.width == 2 * r + 3,
        out.channel(cx + dx, cy + dy, c) == img.channel(sx + dx, sy + dy, c),
{
    lemma_within(r, dx, dy);
    assert(patch.channel(r + 1 + dx, r + 1 + dy, c) == img.channel(sx + dx, sy + dy, c));
}

/// A stamp's radius is its fraction of the width to the nearest pixel, but at least two
/// and at most what the frame allows; frames that allow less than two leave two.
pub proof fn stamp_radius_is_held(r: Float32, width: u32, height: u32)
    requires
        r.bits % 0x8000_0000 <= 0x7f80_0000,
    ensures
        ({
            let short = if width <= height {
                width
            } else {
                height
            };
            let most = radius_limit(short as nat);
            let wanted = placed_at(r, width);
            let found = stamp_radius(r, width, height);
            &&& found >= 2
            &&& 2 <= wanted <= most ==> found == wanted
            &&& 2 <= most <= wanted ==> found == most
            &&& wanted <= 2 ==> found == 2
        }),
{
}

/// The largest radius on an image is a third of its short edge, without the fraction.
pub proof fn radius_limit_is_a_third(n: nat)
    requires
        n < 0x40_0000,
    ensures
        radius_limit(n) == n / 3,
{
    thirds_are_exact(n);
}

/// A square reaches `d` pixels around a place where so many columns and rows lie on each
/// side of it.
pub proof fn squares_that_reach_lie_inside(img: &Image, x: int, y: int, d: int)
    ensures
        reaches(img, x, y, d) <==> 0 <= x - d && 0 <= y - d && x + d <= img.width - 1 && y + d
            <= img.height - 1,
{
}

/// The stamps of a stroke are applied in its order, those of the next stroke behind
/// them.
pub proof fn strokes_are_applied_in_order(heals: Seq<HealStroke>, n: int, k: int)
    requires
        0 <= n < heals.len(),
        0 <= k < heals[n].stamps@.len(),
    ensures
        stamps_of(heals, 0).len() == 0,
        stamps_of(heals, n + 1).len() == stamps_of(heals, n).len() + heals[n].stamps@.len(),
        stamps_of(heals, n + 1)[stamps_of(heals, n).len() + k] == heals[n].stamps@[k],
        stamps_of(heals, n + 1).take(stamps_of(heals, n).len() as int) == stamps_of(heals, n),
{
    assert(stamps_of(heals, n + 1).take(stamps_of(heals, n).len() as int) =~= stamps_of(heals, n));
}

} // verus!
