//! Faces: what the detector and the landmark model are given, what is made of
//! their output, and whether the eyes are closed.
use image::imageops::FilterType;
use image::{DynamicImage, RgbImage};
use vstd::prelude::*;
use crate::float_bits::Float32;
use crate::order::{is_stable_order, precedes, stable_order};
use crate::raster::{byte_index_in_bounds, Image};
use crate::sizes::{
    a_size_over_itself_is_one, apart, difference, doubles_are_positive, lemma_no_size,
    lemma_zero_ratio, lemma_zero_square, lemma_zero_units, quotient_of_sizes, ratio, root, square,
    square_root, squared_size, sum, summed, zero_adds_nothing,
};
use crate::text::{append_decimal, decimal};
use crate::vision::BlurAssessment;

verus! {

/// Bit pattern of the eye aspect ratio, 0.22, at which an eye counts as closed.
pub const DEFAULT_EAR_THRESHOLD: u32 = 0x3e61_47ae;

/// Bit pattern of the score, 0.6, from which the detector's finding is kept.
pub const DEFAULT_SCORE_THRESHOLD: u32 = 0x3f19_999a;

/// Bit pattern of the overlap, 0.3, above which one of two faces is dropped.
pub const DEFAULT_NMS_THRESHOLD: u32 = 0x3e99_999a;

/// Side in pixels of the detector's square input.
pub const YUNET_INPUT: u32 = 640;

/// Side in pixels of the landmark model's square input.
pub const FACEMESH_INPUT: u32 = 192;

/// How many landmarks the landmark model gives.
pub const FACEMESH_POINTS: usize = 468;

/// How many landmarks it takes to hold both eyes.
pub const EYE_LANDMARKS: usize = 388;

/// A point of an image, in pixels from its upper left corner.
#[derive(Clone, Copy, PartialEq, Eq, Structural, Debug)]
pub struct Point {
    pub x: Float32,
    pub y: Float32,
}

/// The box of a detected face, in pixels, and how sure the detector is of it.
#[derive(Clone, Copy, PartialEq, Eq, Structural, Debug)]
pub struct FaceBox {
    pub x: Float32,
    pub y: Float32,
    pub w: Float32,
    pub h: Float32,
    pub score: Float32,
}

// ---------------------------------------------------------------------------
// Eyes
// ---------------------------------------------------------------------------

/// Places of the left eye's contour in the mesh: outer corner, two points above,
/// inner corner, two points below.
pub const LEFT_EYE_IDX: [usize; 6] = [33, 160, 158, 133, 153, 144];

/// Places of the right eye's contour in the mesh, in the same order.
pub const RIGHT_EYE_IDX: [usize; 6] = [362, 385, 387, 263, 373, 380];

/// The landmarks at the given places.
pub open spec fn picked(landmarks: Seq<Point>, places: Seq<usize>) -> Seq<Point> {
    places.map_values(|i: usize| landmarks[i as int])
}

/// Text of the error for too few landmarks.
pub open spec fn too_few_landmarks(found: nat) -> Seq<char> {
    "need at least 388 landmarks for eye indices, got "@ + decimal(found)
}

fn pick(landmarks: &[Point], places: [usize; 6]) -> (r: [Point; 6])
    requires
        forall|i: int| 0 <= i < 6 ==> #[trigger] places@[i] < landmarks@.len(),
    ensures
        r@ == picked(landmarks@, places@),
{
    let r: [Point; 6] = [
        landmarks[places[0]],
        landmarks[places[1]],
        landmarks[places[2]],
        landmarks[places[3]],
        landmarks[places[4]],
        landmarks[places[5]],
    ];
    assert(r@ =~= picked(landmarks@, places@));
    r
}

/// Picks the contours of the left and the right eye out of the mesh.
pub fn eye_contours(landmarks: &[Point]) -> (r: Result<([Point; 6], [Point; 6]), String>)
    ensures
        r is Ok <==> landmarks@.len() >= EYE_LANDMARKS,
        r matches Ok(eyes) ==> eyes.0@ == picked(landmarks@, LEFT_EYE_IDX@) && eyes.1@ == picked(
            landmarks@,
            RIGHT_EYE_IDX@,
        ),
        r matches Err(e) ==> e@ == too_few_landmarks(landmarks@.len()),
{
    if landmarks.len() < EYE_LANDMARKS {
        let mut message: String = "need at least 388 landmarks for eye indices, got ".to_owned();
        append_decimal(&mut message, landmarks.len() as u64);
        return Err(message);
    }
    let left: [Point; 6] = pick(landmarks, LEFT_EYE_IDX);
    let right: [Point; 6] = pick(landmarks, RIGHT_EYE_IDX);
    Ok((left, right))
}

/// How far the eyes of a face are open, and which of them are closed.
#[derive(Clone, Copy, PartialEq, Eq, Structural, Debug)]
pub struct EyesState {
    pub left_ear: Float32,
    pub right_ear: Float32,
    /// Both eyes are closed.
    pub both_closed: bool,
    /// At least one eye is closed.
    pub any_closed: bool,
}

impl EyesState {
    /// The flags are those of the two ratios held against `threshold`: an eye is
    /// closed whose ratio is at most that.
    pub open spec fn agrees_with(self, threshold: Float32) -> bool {
        &&& self.both_closed == (self.left_ear.is_at_most(threshold) && self.right_ear.is_at_most(
            threshold,
        ))
        &&& self.any_closed == (self.left_ear.is_at_most(threshold) || self.right_ear.is_at_most(
            threshold,
        ))
    }
}

/// Bit pattern of 2^-23: an eye that is no wider counts as closed.
pub const NO_WIDTH: u32 = 0x3400_0000;

/// How far two points are apart, as arithmetic of 32 bits gives it: the root of the sum
/// of the squares of their differences, each step to the nearest number.
#[verifier::opaque]
pub open spec fn distance_between(a: Point, b: Point) -> Float32 {
    root(sum(square(apart(a.x, b.x)), square(apart(a.y, b.y))))
}

/// The aspect ratio of an eye with this contour: the two heights together over twice the
/// width, each step to the nearest number; zero for an eye without a width.
pub open spec fn aspect_ratio(eye: Seq<Point>) -> Float32 {
    let width = distance_between(eye[0], eye[3]);
    if width.is_at_most(Float32 { bits: NO_WIDTH }) {
        Float32 { bits: 0 }
    } else {
        ratio(
            sum(distance_between(eye[1], eye[5]), distance_between(eye[2], eye[4])),
            sum(width, width),
        )
    }
}

impl Point {
    /// How far two points are apart.
    pub fn dist(self, other: Point) -> (r: Float32)
        ensures
            r == distance_between(self, other),
    {
        proof {
            reveal(distance_between);
        }
        let dx: Float32 = difference(self.x, other.x);
        let dy: Float32 = difference(self.y, other.y);
        square_root(summed(squared_size(dx), squared_size(dy)))
    }
}

/// Aspect ratio of an eye, given its contour: about 0.3 to 0.4 where it is open, near
/// zero where it is closed.
pub fn eye_aspect_ratio(eye: &[Point; 6]) -> (r: Float32)
    ensures
        r == aspect_ratio(eye@),
{
    let horizontal: Float32 = eye[0].dist(eye[3]);
    if horizontal.at_most(Float32 { bits: NO_WIDTH }) {
        return Float32 { bits: 0 };
    }
    let vertical: Float32 = summed(eye[1].dist(eye[5]), eye[2].dist(eye[4]));
    quotient_of_sizes(vertical, summed(horizontal, horizontal))
}

/// Classifies the eyes of a full set of landmarks: an eye is closed whose aspect ratio is
/// at most the threshold.
pub fn classify_eyes(landmarks: &[Point], threshold: Float32) -> (r: Result<EyesState, String>)
    ensures
        r is Ok <==> landmarks@.len() >= EYE_LANDMARKS,
        r matches Ok(s) ==> {
            &&& s.left_ear == aspect_ratio(picked(landmarks@, LEFT_EYE_IDX@))
            &&& s.right_ear == aspect_ratio(picked(landmarks@, RIGHT_EYE_IDX@))
            &&& s.agrees_with(threshold)
        },
        r matches Err(e) ==> e@ == too_few_landmarks(landmarks@.len()),
{
    match eye_contours(landmarks) {
        Ok((left, right)) => Ok(
            eyes_state(eye_aspect_ratio(&left), eye_aspect_ratio(&right), threshold),
        ),
        Err(e) => Err(e),
    }
}

/// No other landmark than those of the contours matters: sets of landmarks that agree on
/// the contours have the same eyes.
pub proof fn only_the_contours_matter(a: Seq<Point>, b: Seq<Point>)
    requires
        forall|i: int|
            0 <= i < 6 ==> a[#[trigger] LEFT_EYE_IDX@[i] as int] == b[LEFT_EYE_IDX@[i] as int],
        forall|i: int|
            0 <= i < 6 ==> a[#[trigger] RIGHT_EYE_IDX@[i] as int] == b[RIGHT_EYE_IDX@[i] as int],
    ensures
        aspect_ratio(picked(a, LEFT_EYE_IDX@)) == aspect_ratio(picked(b, LEFT_EYE_IDX@)),
        aspect_ratio(picked(a, RIGHT_EYE_IDX@)) == aspect_ratio(picked(b, RIGHT_EYE_IDX@)),
{
    assert(picked(a, LEFT_EYE_IDX@) =~= picked(b, LEFT_EYE_IDX@));
    assert(picked(a, RIGHT_EYE_IDX@) =~= picked(b, RIGHT_EYE_IDX@));
}

/// Holds the aspect ratios of both eyes against a threshold.
pub fn eyes_state(left_ear: Float32, right_ear: Float32, threshold: Float32) -> (r: EyesState)
    ensures
        r.left_ear == left_ear,
        r.right_ear == right_ear,
        r.agrees_with(threshold),
{
    let left_closed: bool = left_ear.at_most(threshold);
    let right_closed: bool = right_ear.at_most(threshold);
    EyesState {
        left_ear,
        right_ear,
        both_closed: left_closed && right_closed,
        any_closed: left_closed || right_closed,
    }
}

/// Where both eyes are closed, one is.
pub proof fn both_closed_means_any_closed(state: EyesState, threshold: Float32)
    requires
        state.agrees_with(threshold),
    ensures
        state.both_closed ==> state.any_closed,
{
}

/// A higher threshold opens no eye.
pub proof fn higher_threshold_closes_more(
    low: EyesState,
    high: EyesState,
    low_threshold: Float32,
    high_threshold: Float32,
)
    requires
        low.left_ear == high.left_ear,
        low.right_ear == high.right_ear,
        low.agrees_with(low_threshold),
        high.agrees_with(high_threshold),
        low_threshold.is_at_most(high_threshold),
    ensures
        low.both_closed ==> high.both_closed,
        low.any_closed ==> high.any_closed,
{
}

// ---------------------------------------------------------------------------
// Model input
// ---------------------------------------------------------------------------

/// An image brought to exactly `nwidth` by `nheight` pixels by the triangle
/// filter, as bytes.
pub uninterp spec fn triangle_resized(
    width: u32,
    height: u32,
    rgb: Seq<u8>,
    nwidth: u32,
    nheight: u32,
) -> Seq<u8>;

/// `image`'s `DynamicImage::resize_exact` with the `Triangle` filter: an image of
/// exactly the size asked for, a function of the pixels.
#[verifier::external_body]
fn resize_exact(img: &Image, nwidth: u32, nheight: u32) -> (r: Image)
    requires
        img.wf(),
        0 < nwidth <= 4096,
        0 < nheight <= 4096,
    ensures
        r.wf(),
        r.width == nwidth,
        r.height == nheight,
        r.data@ == triangle_resized(img.width, img.height, img.data@, nwidth, nheight),
{
    let rgb = RgbImage::from_raw(img.width, img.height, img.data.clone()).unwrap();
    let full = DynamicImage::ImageRgb8(rgb);
    let out = full.resize_exact(nwidth, nheight, FilterType::Triangle).into_rgb8();
    Image { width: out.width(), height: out.height(), data: out.into_raw() }
}

/// Order of the colour planes that a model takes.
#[derive(Clone, Copy, PartialEq, Eq, Structural, Debug)]
pub enum Planes {
    /// Red, green, blue.
    Rgb,
    /// Blue, green, red.
    Bgr,
}

impl Planes {
    /// The channel that the `k`-th plane holds.
    pub open spec fn channel(self, k: int) -> int {
        match self {
            Planes::Rgb => k,
            Planes::Bgr => 2 - k,
        }
    }
}

/// `planes` is `img` with one plane after the other, each row by row.
pub open spec fn is_planar(planes: Seq<u8>, img: &Image, order: Planes) -> bool {
    &&& planes.len() == 3 * (img.width * img.height)
    &&& forall|k: int, x: int, y: int|
        0 <= k < 3 && 0 <= x < img.width && 0 <= y < img.height
            ==> #[trigger] planes[plane_index(img.width as int, img.height as int, k, x, y)]
            == img.channel(x, y, order.channel(k))
}

/// Where the value of column `x` and row `y` stands in the `k`-th plane.
pub open spec fn plane_index(width: int, height: int, k: int, x: int, y: int) -> int {
    k * (width * height) + (y * width + x)
}

/// Puts the channels of an image into planes.
pub fn to_planes(img: &Image, order: Planes) -> (planes: Vec<u8>)
    requires
        img.wf(),
    ensures
        is_planar(planes@, img, order),
{
    let mut planes: Vec<u8> = Vec::new();
    let ghost (w, h) = (img.width as int, img.height as int);
    let mut k: usize = 0;
    proof {
        assert(0 * (w * h) == 0) by (nonlinear_arith);
    }
    while k < 3
        invariant
            img.wf(),
            w == img.width,
            h == img.height,
            k <= 3,
            planes@.len() == k * (w * h),
            forall|p: int, x: int, y: int|
                0 <= p < k && 0 <= x < w && 0 <= y < h ==> #[trigger] planes@[plane_index(
                    w,
                    h,
                    p,
                    x,
                    y,
                )] == img.channel(x, y, order.channel(p)),
        decreases 3 - k,
    {
        let c: usize = match order {
            Planes::Rgb => k,
            Planes::Bgr => 2 - k,
        };
        let mut y: u32 = 0;
        assert(0 * w == 0) by (nonlinear_arith);
        while y < img.height
            invariant
                img.wf(),
                w == img.width,
                h == img.height,
                k < 3,
                c == order.channel(k as int),
                0 <= c < 3,
                y <= h,
                planes@.len() == k * (w * h) + y * w,
                forall|p: int, a: int, b: int|
                    0 <= p < k && 0 <= a < w && 0 <= b < h ==> #[trigger] planes@[plane_index(
                        w,
                        h,
                        p,
                        a,
                        b,
                    )] == img.channel(a, b, order.channel(p)),
                forall|a: int, b: int|
                    0 <= a < w && 0 <= b < y ==> #[trigger] planes@[plane_index(
                        w,
                        h,
                        k as int,
                        a,
                        b,
                    )] == img.channel(a, b, c as int),
            decreases h - y,
        {
            let mut x: u32 = 0;
            while x < img.width
                invariant
                    img.wf(),
                    w == img.width,
                    h == img.height,
                    k < 3,
                    0 <= c < 3,
                    c == order.channel(k as int),
                    y < h,
                    x <= w,
                    planes@.len() == k * (w * h) + y * w + x,
                    forall|p: int, a: int, b: int|
                        0 <= p < k && 0 <= a < w && 0 <= b < h ==> #[trigger] planes@[plane_index(
                            w,
                            h,
                            p,
                            a,
                            b,
                        )] == img.channel(a, b, order.channel(p)),
                    forall|a: int, b: int|
                        0 <= a < w && 0 <= b < y ==> #[trigger] planes@[plane_index(
                            w,
                            h,
                            k as int,
                            a,
                            b,
                        )] == img.channel(a, b, c as int),
                    forall|a: int|
                        0 <= a < x ==> #[trigger] planes@[plane_index(
                            w,
                            h,
                            k as int,
                            a,
                            y as int,
                        )] == img.channel(a, y as int, c as int),
                decreases w - x,
            {
                let ghost held: Seq<u8> = planes@;
                planes.push(img.get(x, y, c));
                proof {
                    assert forall|p: int, a: int, b: int|
                        0 <= p < k && 0 <= a < w && 0 <= b < h implies #[trigger] planes@[plane_index(
                        w,
                        h,
                        p,
                        a,
                        b,
                    )] == img.channel(a, b, order.channel(p)) by {
                        lemma_plane_order(w, h, p, a, b, k as int, x as int, y as int);
                        assert(held[plane_index(w, h, p, a, b)] == img.channel(
                            a,
                            b,
                            order.channel(p),
                        ));
                    }
                    assert forall|a: int, b: int|
                        0 <= a < w && 0 <= b < y implies #[trigger] planes@[plane_index(
                        w,
                        h,
                        k as int,
                        a,
                        b,
                    )] == img.channel(a, b, c as int) by {
                        lemma_plane_order(w, h, k as int, a, b, k as int, x as int, y as int);
                        assert(held[plane_index(w, h, k as int, a, b)] == img.channel(
                            a,
                            b,
                            c as int,
                        ));
                    }
                    assert forall|a: int| 0 <= a < x + 1 implies #[trigger] planes@[plane_index(
                        w,
                        h,
                        k as int,
                        a,
                        y as int,
                    )] == img.channel(a, y as int, c as int) by {
                        if a < x {
                            lemma_plane_order(
                                w,
                                h,
                                k as int,
                                a,
                                y as int,
                                k as int,
                                x as int,
                                y as int,
                            );
                            assert(held[plane_index(w, h, k as int, a, y as int)] == img.channel(
                                a,
                                y as int,
                                c as int,
                            ));
                        }
                    }
                }
                x = x + 1;
            }
            assert((y + 1) * w == y * w + w) by (nonlinear_arith);
            y = y + 1;
        }
        proof {
            assert(h * w == w * h) by (nonlinear_arith);
            assert((k + 1) * (w * h) == k * (w * h) + w * h) by (nonlinear_arith);
        }
        k = k + 1;
    }
    planes
}

/// Places of earlier planes, of earlier rows and of earlier columns come first.
proof fn lemma_plane_order(
    w: int,
    h: int,
    p: int,
    a: int,
    b: int,
    k: int,
    x: int,
    y: int,
)
    requires
        0 <= p <= k,
        0 <= a < w,
        0 <= b < h,
        0 <= x,
        0 <= y < h,
        p < k || b < y || (b == y && a < x),
    ensures
        0 <= plane_index(w, h, p, a, b) < k * (w * h) + y * w + x,
{
    byte_index_in_bounds(w, h, a, b, 0);
    assert(0 <= p * (w * h)) by (nonlinear_arith)
        requires
            0 <= p,
            0 <= w * h,
    ;
    assert(0 <= y * w) by (nonlinear_arith)
        requires
            0 <= y,
            0 <= w,
    ;
    if p < k {
        assert((p + 1) * (w * h) <= k * (w * h)) by (nonlinear_arith)
            requires
                p + 1 <= k,
                0 <= w * h,
        ;
        assert((p + 1) * (w * h) == p * (w * h) + w * h) by (nonlinear_arith);
    } else if b < y {
        assert((b + 1) * w <= y * w) by (nonlinear_arith)
            requires
                b + 1 <= y,
                0 <= w,
        ;
        assert((b + 1) * w == b * w + w) by (nonlinear_arith);
    }
}

/// Whether `planes` is `img` brought to a square of the given side, in planes.
pub open spec fn is_model_input(planes: Seq<u8>, img: &Image, side: u32, order: Planes) -> bool {
    exists|square: Image| #[trigger]
        is_planar(planes, &square, order) && square.wf() && square.width == side && square.height
            == side && square.data@ == triangle_resized(
            img.width,
            img.height,
            img.data@,
            side,
            side,
        )
}

/// What the face detector is given: the frame brought to its input size, in blue,
/// green and red planes.
pub fn detector_input(img: &Image) -> (planes: Vec<u8>)
    requires
        img.wf(),
    ensures
        is_model_input(planes@, img, YUNET_INPUT, Planes::Bgr),
        planes@.len() == 3 * 640 * 640,
{
    let square: Image = resize_exact(img, YUNET_INPUT, YUNET_INPUT);
    let planes: Vec<u8> = to_planes(&square, Planes::Bgr);
    assert(is_planar(planes@, &square, Planes::Bgr));
    planes
}

/// What the landmark model is given: the face brought to its input size, in red,
/// green and blue planes.
pub fn landmark_input(img: &Image) -> (planes: Vec<u8>)
    requires
        img.wf(),
    ensures
        is_model_input(planes@, img, FACEMESH_INPUT, Planes::Rgb),
        planes@.len() == 3 * 192 * 192,
{
    let square: Image = resize_exact(img, FACEMESH_INPUT, FACEMESH_INPUT);
    let planes: Vec<u8> = to_planes(&square, Planes::Rgb);
    assert(is_planar(planes@, &square, Planes::Rgb));
    planes
}

// ---------------------------------------------------------------------------
// Detector output
// ---------------------------------------------------------------------------

/// A finding of the detector: its place in the output, and the column and row of
/// its cell in the grid.
#[derive(Clone, Copy, PartialEq, Eq, Structural, Debug)]
pub struct Cell {
    pub index: usize,
    pub col: u32,
    pub row: u32,
}

/// The cell of the `i`-th value of an output whose grid has `cols` columns.
pub open spec fn cell_at(i: int, cols: int) -> Cell {
    Cell { index: i as usize, col: (i % cols) as u32, row: (i / cols) as u32 }
}

/// The cells of the first `n` scores that are not below the threshold, in order.
pub open spec fn findings(scores: Seq<Float32>, threshold: Float32, cols: int, n: int) -> Seq<Cell>
    decreases n,
{
    if n <= 0 {
        seq![]
    } else if scores[n - 1].is_below(threshold) {
        findings(scores, threshold, cols, n - 1)
    } else {
        findings(scores, threshold, cols, n - 1).push(cell_at(n - 1, cols))
    }
}

/// Columns of the detector's grid for a stride.
pub fn grid_columns(stride: u32) -> (r: u32)
    requires
        stride > 0,
    ensures
        r == 640u32 / stride,
{
    YUNET_INPUT / stride
}

/// Keeps the detector's findings whose score is not below the threshold.
pub fn detections(scores: &[Float32], threshold: Float32, cols: u32) -> (r: Vec<Cell>)
    requires
        scores@.len() <= u32::MAX,
        cols > 0,
    ensures
        r@ == findings(scores@, threshold, cols as int, scores@.len() as int),
{
    let mut found: Vec<Cell> = Vec::new();
    let mut i: usize = 0;
    while i < scores.len()
        invariant
            scores@.len() <= u32::MAX,
            cols > 0,
            i <= scores@.len(),
            found@ == findings(scores@, threshold, cols as int, i as int),
        decreases scores@.len() - i,
    {
        if !scores[i].below(threshold) {
            found.push(Cell { index: i, col: i as u32 % cols, row: i as u32 / cols });
        }
        i = i + 1;
    }
    found
}

/// Keys by which faces are ordered: the surest first.
pub open spec fn surest_first(scores: Seq<Float32>) -> Seq<i128> {
    scores.map_values(|s: Float32| (-s.key()) as i128)
}

/// Whether face `b` overlaps one of the kept faces by more than the threshold.
pub open spec fn suppressed(
    kept: Seq<usize>,
    overlaps: Seq<Vec<Float32>>,
    threshold: Float32,
    b: usize,
) -> bool {
    exists|k: int|
        0 <= k < kept.len() && threshold.is_below(
            overlaps[b as int]@[#[trigger] kept[k] as int],
        )
}

/// The faces that are kept of the first `n` in order: each one that does not
/// overlap a face kept before it by more than the threshold.
pub open spec fn survivors(
    order: Seq<usize>,
    overlaps: Seq<Vec<Float32>>,
    threshold: Float32,
    n: int,
) -> Seq<usize>
    decreases n,
{
    if n <= 0 {
        seq![]
    } else {
        let kept = survivors(order, overlaps, threshold, n - 1);
        if suppressed(kept, overlaps, threshold, order[n - 1]) {
            kept
        } else {
            kept.push(order[n - 1])
        }
    }
}

/// `overlaps` holds a value for each pair of `n` faces.
pub open spec fn is_square(overlaps: Seq<Vec<Float32>>, n: nat) -> bool {
    &&& overlaps.len() == n
    &&& forall|i: int| 0 <= i < n ==> #[trigger] overlaps[i]@.len() == n
}

/// Non-maximum suppression: goes through the faces from the surest down and keeps
/// each one that does not overlap a kept one by more than the threshold.
/// `overlaps[i][j]` is the overlap of face `i` with face `j`.
pub fn nms(scores: &[Float32], overlaps: &Vec<Vec<Float32>>, threshold: Float32) -> (r: Vec<usize>)
    requires
        is_square(overlaps@, scores@.len()),
        forall|i: int| 0 <= i < scores@.len() ==> !(#[trigger] scores@[i]).is_nan(),
    ensures
        exists|order: Seq<usize>| #[trigger]
            is_stable_order(order, surest_first(scores@)) && r@ == survivors(
                order,
                overlaps@,
                threshold,
                order.len() as int,
            ),
{
    let mut keys: Vec<i128> = Vec::new();
    let mut i: usize = 0;
    while i < scores.len()
        invariant
            i <= scores@.len(),
            keys@ == surest_first(scores@).take(i as int),
        decreases scores@.len() - i,
    {
        keys.push(-(scores[i].order_key() as i128));
        i = i + 1;
        assert(keys@ =~= surest_first(scores@).take(i as int));
    }
    assert(keys@ =~= surest_first(scores@));
    let order: Vec<usize> = stable_order(&keys);
    let mut kept: Vec<usize> = Vec::new();
    let mut n: usize = 0;
    while n < order.len()
        invariant
            is_square(overlaps@, scores@.len()),
            is_stable_order(order@, surest_first(scores@)),
            n <= order@.len(),
            kept@ == survivors(order@, overlaps@, threshold, n as int),
            forall|k: int| 0 <= k < kept@.len() ==> #[trigger] kept@[k] < scores@.len(),
        decreases order@.len() - n,
    {
        let b: usize = order[n];
        let mut overlapping: bool = false;
        let mut k: usize = 0;
        while k < kept.len()
            invariant
                is_square(overlaps@, scores@.len()),
                b < scores@.len(),
                k <= kept@.len(),
                forall|j: int| 0 <= j < kept@.len() ==> #[trigger] kept@[j] < scores@.len(),
                overlapping == exists|j: int|
                    0 <= j < k && threshold.is_below(
                        overlaps@[b as int]@[#[trigger] kept@[j] as int],
                    ),
            decreases kept@.len() - k,
        {
            let other: usize = kept[k];
            assert(overlaps@[b as int]@.len() == scores@.len());
            if threshold.below(overlaps[b][other]) {
                overlapping = true;
            }
            k = k + 1;
        }
        assert(overlapping == suppressed(kept@, overlaps@, threshold, b));
        if !overlapping {
            kept.push(b);
        }
        n = n + 1;
    }
    kept
}

/// What survives stays: the survivors of fewer faces come first among those of
/// more.
proof fn lemma_survivors_grow(
    order: Seq<usize>,
    overlaps: Seq<Vec<Float32>>,
    threshold: Float32,
    m: int,
    n: int,
)
    requires
        m <= n,
    ensures
        survivors(order, overlaps, threshold, m).len() <= survivors(
            order,
            overlaps,
            threshold,
            n,
        ).len(),
        forall|k: int|
            0 <= k < survivors(order, overlaps, threshold, m).len() ==> survivors(
                order,
                overlaps,
                threshold,
                n,
            )[k] == #[trigger] survivors(order, overlaps, threshold, m)[k],
    decreases n - m,
{
    if m < n {
        lemma_survivors_grow(order, overlaps, threshold, m, n - 1);
    }
}

/// No two kept faces overlap by more than the threshold: none overlaps one that
/// was kept before it.
pub proof fn kept_faces_do_not_overlap(
    order: Seq<usize>,
    overlaps: Seq<Vec<Float32>>,
    threshold: Float32,
    n: int,
    i: int,
    j: int,
)
    requires
        0 <= i < j < survivors(order, overlaps, threshold, n).len(),
    ensures
        ({
            let kept = survivors(order, overlaps, threshold, n);
            !threshold.is_below(overlaps[kept[j] as int]@[kept[i] as int])
        }),
    decreases n,
{
    if n > 0 {
        let before = survivors(order, overlaps, threshold, n - 1);
        if j < before.len() {
            kept_faces_do_not_overlap(order, overlaps, threshold, n - 1, i, j);
        } else {
            assert(!suppressed(before, overlaps, threshold, order[n - 1]));
            assert(before[i] == survivors(order, overlaps, threshold, n)[i]);
        }
    }
}

/// A face that is dropped overlaps a surer face that is kept.
pub proof fn dropped_faces_overlap_a_kept_one(
    order: Seq<usize>,
    scores: Seq<Float32>,
    overlaps: Seq<Vec<Float32>>,
    threshold: Float32,
    place: int,
)
    requires
        is_stable_order(order, surest_first(scores)),
        0 <= place < order.len(),
        !survivors(order, overlaps, threshold, order.len() as int).contains(order[place]),
    ensures
        exists|k: int|
            0 <= k < survivors(order, overlaps, threshold, order.len() as int).len()
                && threshold.is_below(
                overlaps[order[place] as int]@[#[trigger] survivors(
                    order,
                    overlaps,
                    threshold,
                    order.len() as int,
                )[k] as int],
            ) && scores[survivors(order, overlaps, threshold, order.len() as int)[k] as int].key()
                >= scores[order[place] as int].key(),
{
    let n = order.len() as int;
    let all = survivors(order, overlaps, threshold, n);
    let before = survivors(order, overlaps, threshold, place);
    lemma_survivors_grow(order, overlaps, threshold, place, n);
    lemma_survivors_grow(order, overlaps, threshold, place + 1, n);
    if !suppressed(before, overlaps, threshold, order[place]) {
        let with = survivors(order, overlaps, threshold, place + 1);
        assert(with[before.len() as int] == order[place]);
        assert(all[before.len() as int] == order[place]);
        assert(false);
    }
    let k = choose|k: int|
        0 <= k < before.len() && threshold.is_below(
            overlaps[order[place] as int]@[#[trigger] before[k] as int],
        );
    assert(all[k] == before[k]);
    lemma_survivors_come_from_order(order, overlaps, threshold, place, k);
    let a = choose|a: int| 0 <= a < place && #[trigger] order[a] == before[k];
    assert(precedes(surest_first(scores), order[a] as int, order[place] as int));
}

proof fn lemma_survivors_come_from_order(
    order: Seq<usize>,
    overlaps: Seq<Vec<Float32>>,
    threshold: Float32,
    n: int,
    k: int,
)
    requires
        0 <= n <= order.len(),
        0 <= k < survivors(order, overlaps, threshold, n).len(),
    ensures
        exists|a: int|
            0 <= a < n && #[trigger] order[a] == survivors(order, overlaps, threshold, n)[k],
    decreases n,
{
    if n > 0 {
        let before = survivors(order, overlaps, threshold, n - 1);
        if k < before.len() {
            lemma_survivors_come_from_order(order, overlaps, threshold, n - 1, k);
            let a = choose|a: int| 0 <= a < n - 1 && #[trigger] order[a] == before[k];
            assert(order[a] == survivors(order, overlaps, threshold, n)[k]);
        } else {
            assert(order[n - 1] == survivors(order, overlaps, threshold, n)[k]);
        }
    }
}

// ---------------------------------------------------------------------------
// The primary face
// ---------------------------------------------------------------------------

/// The face found by going through the first `n` areas and moving on to each that
/// is not below the one held; an area that is no number is not below any.
pub open spec fn largest_of(areas: Seq<Float32>, n: int) -> int
    decreases n,
{
    if n <= 1 {
        0
    } else {
        let held = largest_of(areas, n - 1);
        if areas[n - 1].is_below(areas[held]) {
            held
        } else {
            n - 1
        }
    }
}

/// The largest face, by the areas of the boxes; `None` where there is no face.
pub fn primary_face(areas: &[Float32]) -> (r: Option<usize>)
    ensures
        r is None <==> areas@.len() == 0,
        r matches Some(i) ==> i < areas@.len() && i == largest_of(areas@, areas@.len() as int),
{
    if areas.len() == 0 {
        return None;
    }
    let mut held: usize = 0;
    let mut i: usize = 1;
    while i < areas.len()
        invariant
            1 <= i <= areas@.len(),
            held < i,
            held == largest_of(areas@, i as int),
        decreases areas@.len() - i,
    {
        if !areas[i].below(areas[held]) {
            held = i;
        }
        i = i + 1;
    }
    Some(held)
}

/// Among areas that are numbers, the primary face is the largest, and the last of
/// those that are equally large.
pub proof fn primary_face_is_the_last_largest(areas: Seq<Float32>, n: int, i: int)
    requires
        0 < n <= areas.len(),
        forall|k: int| 0 <= k < n ==> !(#[trigger] areas[k]).is_nan(),
        0 <= i < n,
    ensures
        0 <= largest_of(areas, n) < n,
        areas[i].key() <= areas[largest_of(areas, n)].key(),
        i > largest_of(areas, n) ==> areas[i].key() < areas[largest_of(areas, n)].key(),
    decreases n,
{
    if n > 1 {
        if i < n - 1 {
            primary_face_is_the_last_largest(areas, n - 1, i);
        } else {
            primary_face_is_the_last_largest(areas, n - 1, 0);
        }
    }
}

// ---------------------------------------------------------------------------
// Landmarks
// ---------------------------------------------------------------------------

/// Text of the error for too short an output of the landmark model.
pub open spec fn short_mesh(found: nat) -> Seq<char> {
    "FaceMesh returned "@ + decimal(found) + " values, expected 1404 (468 pts x 3)"@
}

/// Takes the landmarks out of the model's output, which gives three coordinates
/// to a point; the third is not used.
pub fn landmark_points(values: &[Float32]) -> (r: Result<Vec<Point>, String>)
    ensures
        r is Ok <==> values@.len() >= 1404,
        r matches Ok(points) ==> points@.len() == FACEMESH_POINTS && forall|i: int|
            0 <= i < FACEMESH_POINTS ==> #[trigger] points@[i].x == values@[3 * i] && points@[i].y
                == values@[3 * i + 1],
        r matches Err(e) ==> e@ == short_mesh(values@.len()),
{
    if values.len() < FACEMESH_POINTS * 3 {
        let mut message: String = "FaceMesh returned ".to_owned();
        append_decimal(&mut message, values.len() as u64);
        message.append(" values, expected 1404 (468 pts x 3)");
        return Err(message);
    }
    let mut points: Vec<Point> = Vec::new();
    let mut i: usize = 0;
    while i < FACEMESH_POINTS
        invariant
            values@.len() >= 1404,
            i <= FACEMESH_POINTS,
            points@.len() == i,
            forall|k: int|
                0 <= k < i ==> #[trigger] points@[k].x == values@[3 * k] && points@[k].y
                    == values@[3 * k + 1],
        decreases FACEMESH_POINTS - i,
    {
        points.push(Point { x: values[i * 3], y: values[i * 3 + 1] });
        i = i + 1;
    }
    Ok(points)
}

/// How sure the landmark model is that there is a face: the first value of its score
/// output, or one where that is missing.
pub fn landmark_score(values: &[Float32]) -> (r: Float32)
    ensures
        r == (if values@.len() > 0 {
            values@[0]
        } else {
            Float32 { bits: 0x3f80_0000 }
        }),
{
    if values.len() > 0 {
        values[0]
    } else {
        Float32 { bits: 0x3f80_0000 }
    }
}

/// What is found of the primary face of a frame.
#[derive(Clone, Copy, PartialEq, Eq, Structural, Debug)]
pub struct FaceAnalysis {
    pub face: Option<FaceBox>,
    pub face_blur: Option<BlurAssessment>,
    pub eyes: Option<EyesState>,
}

// ---------------------------------------------------------------------------
// What the models' inputs and outputs mean
// ---------------------------------------------------------------------------

/// The contours of the eyes, landmark by landmark: outer corner, two above, inner
/// corner, two below.
pub proof fn contours_by_landmark(landmarks: Seq<Point>)
    ensures
        picked(landmarks, LEFT_EYE_IDX@) == seq![
            landmarks[33],
            landmarks[160],
            landmarks[158],
            landmarks[133],
            landmarks[153],
            landmarks[144],
        ],
        picked(landmarks, RIGHT_EYE_IDX@) == seq![
            landmarks[362],
            landmarks[385],
            landmarks[387],
            landmarks[263],
            landmarks[373],
            landmarks[380],
        ],
{
    assert(picked(landmarks, LEFT_EYE_IDX@) =~= seq![
        landmarks[33],
        landmarks[160],
        landmarks[158],
        landmarks[133],
        landmarks[153],
        landmarks[144],
    ]);
    assert(picked(landmarks, RIGHT_EYE_IDX@) =~= seq![
        landmarks[362],
        landmarks[385],
        landmarks[387],
        landmarks[263],
        landmarks[373],
        landmarks[380],
    ]);
}

/// An eye is closed whose ratio does not exceed the threshold: both are where neither
/// exceeds it, one is where not both exceed it.
pub proof fn closed_eyes_do_not_exceed_the_threshold(state: EyesState, threshold: Float32)
    requires
        state.agrees_with(threshold),
        state.left_ear.bits <= 0x7f80_0000,
        state.right_ear.bits <= 0x7f80_0000,
        threshold.bits <= 0x7f80_0000,
    ensures
        state.both_closed <==> state.left_ear.bits <= threshold.bits && state.right_ear.bits
            <= threshold.bits,
        state.any_closed <==> state.left_ear.bits <= threshold.bits || state.right_ear.bits
            <= threshold.bits,
{
}

/// A ratio that is no number closes no eye.
pub proof fn no_ratio_closes_no_eye(state: EyesState, threshold: Float32)
    requires
        state.agrees_with(threshold),
        state.left_ear.bits % 0x8000_0000 > 0x7f80_0000,
    ensures
        !state.both_closed,
        state.any_closed <==> state.right_ear.is_at_most(threshold),
{
}

/// It does not count which eye is the left one: faces whose ratios are exchanged have
/// the same eyes closed.
pub proof fn eyes_count_alike(a: EyesState, b: EyesState, threshold: Float32)
    requires
        a.agrees_with(threshold),
        b.agrees_with(threshold),
        a.left_ear == b.right_ear,
        a.right_ear == b.left_ear,
    ensures
        a.both_closed == b.both_closed,
        a.any_closed == b.any_closed,
{
}

/// Points are as far apart one way as the other.
pub proof fn distance_knows_no_direction(a: Point, b: Point)
    ensures
        distance_between(a, b) == distance_between(b, a),
{
    reveal(distance_between);
    lemma_apart_both_ways(a.x, b.x);
    lemma_apart_both_ways(a.y, b.y);
}

proof fn lemma_apart_both_ways(a: Float32, b: Float32)
    ensures
        apart(a, b) == apart(b, a),
{
}

/// The ratio of an eye does not change where its two lids are exchanged, or its two
/// corners, or the two heights.
pub proof fn ratio_of_a_turned_eye(eye: Seq<Point>)
    requires
        eye.len() == 6,
    ensures
        aspect_ratio(seq![eye[0], eye[5], eye[4], eye[3], eye[2], eye[1]]) == aspect_ratio(eye),
        aspect_ratio(seq![eye[3], eye[2], eye[1], eye[0], eye[5], eye[4]]) == aspect_ratio(eye),
{
    distance_knows_no_direction(eye[1], eye[5]);
    distance_knows_no_direction(eye[2], eye[4]);
    distance_knows_no_direction(eye[0], eye[3]);
    lemma_sum_both_ways(distance_between(eye[1], eye[5]), distance_between(eye[2], eye[4]));
    lemma_same_ratio(seq![eye[0], eye[5], eye[4], eye[3], eye[2], eye[1]], eye);
    lemma_same_ratio(seq![eye[3], eye[2], eye[1], eye[0], eye[5], eye[4]], eye);
}

proof fn lemma_sum_both_ways(a: Float32, b: Float32)
    ensures
        sum(a, b) == sum(b, a),
{
}

/// Eyes of the same width and the same two heights have the same ratio.
proof fn lemma_same_ratio(a: Seq<Point>, b: Seq<Point>)
    requires
        distance_between(a[0], a[3]) == distance_between(b[0], b[3]),
        sum(distance_between(a[1], a[5]), distance_between(a[2], a[4])) == sum(
            distance_between(b[1], b[5]),
            distance_between(b[2], b[4]),
        ),
    ensures
        aspect_ratio(a) == aspect_ratio(b),
{
}

/// An eye whose lids touch, each of the two points above on the one below it, has a
/// ratio of zero; so has one that is no wider than 2^-23.
pub proof fn shut_eyes_have_no_ratio(eye: Seq<Point>)
    requires
        eye.len() == 6,
        distance_between(eye[0], eye[3]).bits < 0x7f80_0000,
        forall|i: int|
            0 <= i < 6 ==> (#[trigger] eye[i]).x.bits % 0x8000_0000 < 0x7f80_0000 && eye[i].y.bits
                % 0x8000_0000 < 0x7f80_0000,
    ensures
        eye[1] == eye[5] && eye[2] == eye[4] ==> aspect_ratio(eye).bits == 0,
        distance_between(eye[0], eye[3]).bits <= 0x3400_0000 ==> aspect_ratio(eye).bits == 0,
{
    let width = distance_between(eye[0], eye[3]);
    if eye[1] == eye[5] && eye[2] == eye[4] && width.bits > 0x3400_0000 {
        lemma_no_distance(eye[1]);
        lemma_no_distance(eye[2]);
        lemma_zero_sum();
        doubles_are_positive(width);
        lemma_zero_ratio(sum(width, width));
        lemma_ratio_of_no_height(eye);
    }
}

proof fn lemma_zero_sum()
    ensures
        sum(Float32 { bits: 0 }, Float32 { bits: 0 }) == (Float32 { bits: 0 }),
{
    lemma_no_size(1);
    lemma_zero_units();
}

proof fn lemma_ratio_of_no_height(eye: Seq<Point>)
    requires
        sum(distance_between(eye[1], eye[5]), distance_between(eye[2], eye[4])) == (Float32 {
            bits: 0,
        }),
        ratio(
            Float32 { bits: 0 },
            sum(distance_between(eye[0], eye[3]), distance_between(eye[0], eye[3])),
        ) == (Float32 { bits: 0 }),
    ensures
        aspect_ratio(eye).bits == 0,
{
}

proof fn lemma_no_distance(a: Point)
    requires
        a.x.bits % 0x8000_0000 < 0x7f80_0000,
        a.y.bits % 0x8000_0000 < 0x7f80_0000,
    ensures
        distance_between(a, a) == (Float32 { bits: 0 }),
{
    reveal(distance_between);
    lemma_no_size(1);
    lemma_zero_units();
    lemma_zero_square();
}

/// The detector is given blue, green and red planes of 640 by 640 values: the value of
/// a column and row in each is that of the frame brought to this size.
pub proof fn detector_planes_by_value(planes: Seq<u8>, img: &Image, x: int, y: int)
    requires
        is_model_input(planes, img, YUNET_INPUT, Planes::Bgr),
        0 <= x < 640,
        0 <= y < 640,
    ensures
        planes.len() == 1228800,
        ({
            let frame = triangle_resized(img.width, img.height, img.data@, 640, 640);
            let at = y * 640 + x;
            &&& planes[at] == frame[3 * at + 2]
            &&& planes[409600 + at] == frame[3 * at + 1]
            &&& planes[819200 + at] == frame[3 * at]
        }),
{
    let square = choose|square: Image| #[trigger]
        is_planar(planes, &square, Planes::Bgr) && square.wf() && square.width == 640
            && square.height == 640 && square.data@ == triangle_resized(
            img.width,
            img.height,
            img.data@,
            640,
            640,
        );
    assert(planes[plane_index(640, 640, 0, x, y)] == square.channel(x, y, 2));
    assert(planes[plane_index(640, 640, 1, x, y)] == square.channel(x, y, 1));
    assert(planes[plane_index(640, 640, 2, x, y)] == square.channel(x, y, 0));
}

/// The landmark model is given red, green and blue planes of 192 by 192 values.
pub proof fn landmark_planes_by_value(planes: Seq<u8>, img: &Image, x: int, y: int)
    requires
        is_model_input(planes, img, FACEMESH_INPUT, Planes::Rgb),
        0 <= x < 192,
        0 <= y < 192,
    ensures
        planes.len() == 110592,
        ({
            let face = triangle_resized(img.width, img.height, img.data@, 192, 192);
            let at = y * 192 + x;
            &&& planes[at] == face[3 * at]
            &&& planes[36864 + at] == face[3 * at + 1]
            &&& planes[73728 + at] == face[3 * at + 2]
        }),
{
    let square = choose|square: Image| #[trigger]
        is_planar(planes, &square, Planes::Rgb) && square.wf() && square.width == 192
            && square.height == 192 && square.data@ == triangle_resized(
            img.width,
            img.height,
            img.data@,
            192,
            192,
        );
    assert(planes[plane_index(192, 192, 0, x, y)] == square.channel(x, y, 0));
    assert(planes[plane_index(192, 192, 1, x, y)] == square.channel(x, y, 1));
    assert(planes[plane_index(192, 192, 2, x, y)] == square.channel(x, y, 2));
}

/// A score is a finding exactly where it is not below the threshold, and its cell is the
/// one that its place counts to, row by row: with one score more, its cell comes behind
/// the findings so far.
pub proof fn scores_from_the_threshold_are_findings(
    scores: Seq<Float32>,
    threshold: Float32,
    cols: int,
    n: int,
)
    requires
        0 <= n < scores.len() <= u32::MAX,
        0 < cols <= u32::MAX,
    ensures
        findings(scores, threshold, cols, 0).len() == 0,
        scores[n].is_below(threshold) ==> findings(scores, threshold, cols, n + 1) == findings(
            scores,
            threshold,
            cols,
            n,
        ),
        !scores[n].is_below(threshold) ==> ({
            let cell = findings(scores, threshold, cols, n + 1).last();
            &&& findings(scores, threshold, cols, n + 1).drop_last() == findings(
                scores,
                threshold,
                cols,
                n,
            )
            &&& cell.index == n
            &&& cell.row * cols + cell.col == n
            &&& cell.col < cols
        }),
{
    if !scores[n].is_below(threshold) {
        let before = findings(scores, threshold, cols, n);
        assert(before.push(cell_at(n, cols)).drop_last() =~= before);
        vstd::arithmetic::div_mod::lemma_fundamental_div_mod(n, cols);
        assert(cols * (n / cols) == (n / cols) * cols) by (nonlinear_arith);
        assert(0 <= n % cols <= n && 0 <= n / cols <= n) by (nonlinear_arith)
            requires
                n >= 0,
                cols > 0,
        ;
    }
}

/// A face goes before another exactly where it is surer, or as sure and listed first.
pub proof fn surer_faces_go_first(scores: Seq<Float32>, order: Seq<usize>, a: int, b: int)
    requires
        is_stable_order(order, surest_first(scores)),
        0 <= a < b < order.len(),
        forall|i: int| 0 <= i < scores.len() ==> (#[trigger] scores[i]).bits <= 0x7f80_0000,
    ensures
        scores[order[a] as int].bits > scores[order[b] as int].bits || (scores[order[a] as int].bits
            == scores[order[b] as int].bits && order[a] < order[b]),
{
    assert(precedes(surest_first(scores), order[a] as int, order[b] as int));
    assert(scores[order[a] as int].bits <= 0x7f80_0000);
    assert(scores[order[b] as int].bits <= 0x7f80_0000);
}

/// The surest face is always kept, as the first.
pub proof fn the_surest_face_is_kept(
    order: Seq<usize>,
    overlaps: Seq<Vec<Float32>>,
    threshold: Float32,
    n: int,
)
    requires
        1 <= n <= order.len(),
    ensures
        survivors(order, overlaps, threshold, n).len() >= 1,
        survivors(order, overlaps, threshold, n)[0] == order[0],
    decreases n,
{
    reveal_with_fuel(survivors, 2);
    if n > 1 {
        the_surest_face_is_kept(order, overlaps, threshold, n - 1);
    } else {
        assert(survivors(order, overlaps, threshold, 0).len() == 0);
    }
}

/// Faces that overlap no other by more than the threshold are all kept, in order.
pub proof fn faces_apart_are_all_kept(
    order: Seq<usize>,
    overlaps: Seq<Vec<Float32>>,
    threshold: Float32,
    n: int,
)
    requires
        0 <= n <= order.len(),
        forall|i: int, j: int| !threshold.is_below((#[trigger] overlaps[i]@[j])),
    ensures
        survivors(order, overlaps, threshold, n) == order.take(n),
    decreases n,
{
    if n > 0 {
        faces_apart_are_all_kept(order, overlaps, threshold, n - 1);
        let kept = survivors(order, overlaps, threshold, n - 1);
        assert(!suppressed(kept, overlaps, threshold, order[n - 1]));
        assert(order.take(n) =~= order.take(n - 1).push(order[n - 1]));
    } else {
        assert(order.take(0) =~= seq![]);
    }
}

/// Points on a line along one axis are apart by the root of the square of what they
/// differ in along it; it does not count along which.
pub proof fn distance_along_an_axis(a: Point, b: Point)
    requires
        a.x.bits % 0x8000_0000 < 0x7f80_0000,
        a.y.bits % 0x8000_0000 < 0x7f80_0000,
        square(apart(a.x, b.x)).bits < 0x7f80_0000,
        square(apart(a.y, b.y)).bits < 0x7f80_0000,
    ensures
        a.y == b.y ==> distance_between(a, b) == root(square(apart(a.x, b.x))),
        a.x == b.x ==> distance_between(a, b) == root(square(apart(a.y, b.y))),
        distance_between(Point { x: a.y, y: a.x }, Point { x: b.y, y: b.x }) == distance_between(
            a,
            b,
        ),
{
    reveal(distance_between);
    lemma_sum_both_ways(square(apart(a.x, b.x)), square(apart(a.y, b.y)));
    lemma_zero_square();
    if a.y == b.y {
        lemma_apart_from_itself(a.y);
        lemma_nothing_added(square(apart(a.x, b.x)));
    }
    if a.x == b.x {
        lemma_apart_from_itself(a.x);
        lemma_nothing_added(square(apart(a.y, b.y)));
    }
}

proof fn lemma_apart_from_itself(v: Float32)
    requires
        v.bits % 0x8000_0000 < 0x7f80_0000,
    ensures
        apart(v, v) == (Float32 { bits: 0 }),
{
    lemma_no_size(1);
}

proof fn lemma_nothing_added(v: Float32)
    requires
        v.bits < 0x7f80_0000,
    ensures
        sum(v, Float32 { bits: 0 }) == v,
        sum(Float32 { bits: 0 }, v) == v,
{
    zero_adds_nothing(v, Float32 { bits: (v.bits + 0x8000_0000) as u32 });
}

/// An eye whose two heights are as long as it is wide has a ratio of one.
pub proof fn round_eyes_have_a_ratio_of_one(eye: Seq<Point>)
    requires
        eye.len() == 6,
        distance_between(eye[1], eye[5]) == distance_between(eye[0], eye[3]),
        distance_between(eye[2], eye[4]) == distance_between(eye[0], eye[3]),
        0x3400_0000 < distance_between(eye[0], eye[3]).bits < 0x7f80_0000,
        sum(distance_between(eye[0], eye[3]), distance_between(eye[0], eye[3])).bits < 0x7f80_0000,
    ensures
        aspect_ratio(eye).bits == 0x3f80_0000,
{
    let width = distance_between(eye[0], eye[3]);
    doubles_are_positive(width);
    a_size_over_itself_is_one(sum(width, width));
}

/// The messages of too few landmarks and of too short an output tell how many there are.
pub proof fn messages_tell_the_count(found: nat)
    ensures
        too_few_landmarks(found).take(49) == "need at least 388 landmarks for eye indices, got "@,
        too_few_landmarks(found).skip(49) == decimal(found),
        short_mesh(found).take(18) == "FaceMesh returned "@,
        short_mesh(found).subrange(18, 18 + decimal(found).len() as int) == decimal(found),
        short_mesh(found).skip(18 + decimal(found).len() as int)
            == " values, expected 1404 (468 pts x 3)"@,
{
    reveal_strlit("need at least 388 landmarks for eye indices, got ");
    reveal_strlit("FaceMesh returned ");
    reveal_strlit(" values, expected 1404 (468 pts x 3)");
    assert(too_few_landmarks(found).take(49)
        =~= "need at least 388 landmarks for eye indices, got "@);
    assert(too_few_landmarks(found).skip(49) =~= decimal(found));
    assert(short_mesh(found).take(18) =~= "FaceMesh returned "@);
    assert(short_mesh(found).skip(18 + decimal(found).len() as int)
        =~= " values, expected 1404 (468 pts x 3)"@);
    assert(short_mesh(found).subrange(18, 18 + decimal(found).len() as int) =~= decimal(found));
}

} // verus!
