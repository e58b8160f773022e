//! Faces and eyes.

use image::RgbImage;
use photo_cull::face::{
    classify_eyes, detections, detector_input, eye_aspect_ratio, eye_contours, eyes_state,
    grid_columns, landmark_input, landmark_points, landmark_score, nms, primary_face, to_planes, Cell, EyesState, Planes, Point,
    DEFAULT_EAR_THRESHOLD, DEFAULT_NMS_THRESHOLD, DEFAULT_SCORE_THRESHOLD, LEFT_EYE_IDX,
    RIGHT_EYE_IDX,
};
use photo_cull::float_bits::Float32;
use photo_cull::raster::Image;
use photo_cull::sizes::{difference, quotient_of_sizes, square_root, squared_size, summed};

fn f(v: f32) -> Float32 {
    Float32 { bits: v.to_bits() }
}

fn point(x: f32, y: f32) -> Point {
    Point { x: f(x), y: f(y) }
}

fn landmarks_with_eyes(left: [Point; 6], right: [Point; 6]) -> Vec<Point> {
    let mut pts = vec![point(0.0, 0.0); 468];
    for (slot, &p) in LEFT_EYE_IDX.iter().zip(left.iter()) {
        pts[*slot] = p;
    }
    for (slot, &p) in RIGHT_EYE_IDX.iter().zip(right.iter()) {
        pts[*slot] = p;
    }
    pts
}

fn open_eye(cx: f32, cy: f32) -> [Point; 6] {
    [
        point(cx - 20.0, cy),
        point(cx - 7.0, cy - 8.0),
        point(cx + 7.0, cy - 8.0),
        point(cx + 20.0, cy),
        point(cx + 7.0, cy + 8.0),
        point(cx - 7.0, cy + 8.0),
    ]
}

fn closed_eye(cx: f32, cy: f32) -> [Point; 6] {
    [
        point(cx - 20.0, cy),
        point(cx - 7.0, cy - 0.4),
        point(cx + 7.0, cy - 0.4),
        point(cx + 20.0, cy),
        point(cx + 7.0, cy + 0.4),
        point(cx - 7.0, cy + 0.4),
    ]
}

/// The aspect ratio of an eye in floating point.
fn aspect(eye: &[Point; 6]) -> f32 {
    let dist = |a: Point, b: Point| {
        let dx = f32::from_bits(a.x.bits) - f32::from_bits(b.x.bits);
        let dy = f32::from_bits(a.y.bits) - f32::from_bits(b.y.bits);
        (dx * dx + dy * dy).sqrt()
    };
    let horizontal = dist(eye[0], eye[3]);
    if horizontal <= f32::EPSILON {
        return 0.0;
    }
    (dist(eye[1], eye[5]) + dist(eye[2], eye[4])) / (2.0 * horizontal)
}

fn classify(landmarks: &[Point]) -> Result<EyesState, String> {
    classify_eyes(landmarks, Float32 { bits: DEFAULT_EAR_THRESHOLD })
}

/// Whether a pattern is that of a number that floating point gives; any that is no
/// number stands for all of them.
fn agrees(found: Float32, expected: f32) -> bool {
    found.bits == expected.to_bits() || (found.nan() && expected.is_nan())
}

/// Numbers of all sizes and signs, at the edges of the format too.
fn samples() -> Vec<f32> {
    let mut all = vec![
        0.0, -0.0, 1.0, -1.0, 0.5, 3.0, 1e-45, -1e-45, 1e-38, 1.1754944e-38, 1.1754942e-38, 1e38,
        f32::MAX, f32::MIN, f32::INFINITY, f32::NEG_INFINITY, f32::NAN, f32::EPSILON, 1e-20, 1e20,
        16_777_215.0, 16_777_216.0, 33_554_430.0, 8_388_608.0, 8_388_607.5, 1.0000001, 0.99999994,
    ];
    let mut state = 99u64;
    for _ in 0..150 {
        state = state.wrapping_mul(6_364_136_223_846_793_005).wrapping_add(1_442_695_040_888_963_407);
        all.push(f32::from_bits((state >> 32) as u32));
        all.push(((state >> 40) % 4000) as f32 / 7.0);
    }
    all
}

#[test]
fn arithmetic_is_that_of_single_precision() {
    for a in samples() {
        let size = a.abs();
        assert!(agrees(squared_size(f(a)), a * a), "{a} squared");
        assert!(agrees(square_root(f(size)), size.sqrt()), "root of {size}");
        for b in samples() {
            assert!(agrees(difference(f(a), f(b)), (a - b).abs()), "{a} - {b}");
            assert!(agrees(summed(f(size), f(b.abs())), size + b.abs()), "{size} + {b}");
            assert!(agrees(quotient_of_sizes(f(size), f(b.abs())), size / b.abs()), "{size} / {b}");
        }
    }
}

#[test]
fn roots_are_those_of_single_precision() {
    for k in 0..40_000u32 {
        let v = f32::from_bits(k.wrapping_mul(0xd_1b55) & 0x7fff_ffff);
        assert!(agrees(square_root(f(v)), v.sqrt()), "root of {v}");
    }
    for k in 0..3000u32 {
        let v = (k * k) as f32;
        assert!(agrees(square_root(f(v)), k as f32), "root of {v}");
    }
}

#[test]
fn ratios_are_those_of_single_precision() {
    let values = samples();
    for shift in 0..values.len() {
        let at = |k: usize| values[(shift * 7 + k * 11) % values.len()];
        let mut eye = open_eye(at(0), at(1));
        assert!(agrees(eye_aspect_ratio(&eye), aspect(&eye)), "{eye:?}");
        for (k, p) in eye.iter_mut().enumerate() {
            *p = point(at(2 * k), at(2 * k + 1));
        }
        assert!(agrees(eye_aspect_ratio(&eye), aspect(&eye)), "{eye:?}");
    }
    let flat = [point(3.0, 4.0); 6];
    assert_eq!(eye_aspect_ratio(&flat), f(0.0));
    let open = open_eye(80.0, 100.0);
    assert_eq!(eye_aspect_ratio(&open), f(0.4));
}

#[test]
fn only_the_contours_count() {
    let lm = landmarks_with_eyes(open_eye(80.0, 100.0), closed_eye(160.0, 100.0));
    let mut other = vec![point(7.0, 9.0); 400];
    for i in LEFT_EYE_IDX.iter().chain(RIGHT_EYE_IDX.iter()) {
        other[*i] = lm[*i];
    }
    assert_eq!(classify(&lm).unwrap(), classify(&other).unwrap());
}

#[test]
fn ear_separates_open_from_closed() {
    let value = |eye: &[Point; 6]| f32::from_bits(eye_aspect_ratio(eye).bits);
    let open = value(&open_eye(100.0, 100.0));
    let closed = value(&closed_eye(100.0, 100.0));
    println!("EAR open={open:.3} closed={closed:.3}");
    assert!(open > 0.35 && closed < 0.1 && open > closed * 5.0);
}

#[test]
fn ear_degenerate_eye_is_zero() {
    assert_eq!(eye_aspect_ratio(&[point(0.0, 0.0); 6]), f(0.0));
}

#[test]
fn classify_both_open() {
    let lm = landmarks_with_eyes(open_eye(80.0, 100.0), open_eye(160.0, 100.0));
    assert!(!classify(&lm).unwrap().any_closed);
}

#[test]
fn classify_both_closed() {
    let lm = landmarks_with_eyes(closed_eye(80.0, 100.0), closed_eye(160.0, 100.0));
    assert!(classify(&lm).unwrap().both_closed);
}

#[test]
fn classify_one_closed_is_any_not_both() {
    let lm = landmarks_with_eyes(open_eye(80.0, 100.0), closed_eye(160.0, 100.0));
    let s = classify(&lm).unwrap();
    assert!(s.any_closed && !s.both_closed);
}

#[test]
fn classify_rejects_too_few_landmarks() {
    assert!(classify(&[point(0.0, 0.0); 10]).is_err());
    assert_eq!(
        eye_contours(&[point(0.0, 0.0); 387]).unwrap_err(),
        "need at least 388 landmarks for eye indices, got 387"
    );
    assert!(eye_contours(&[point(0.0, 0.0); 388]).is_ok());
}

#[test]
fn eyes_are_picked_in_order() {
    let pts: Vec<Point> = (0..468).map(|i| point(i as f32, 0.0)).collect();
    let (left, right) = eye_contours(&pts).unwrap();
    let places = |eye: [Point; 6]| eye.map(|p| f32::from_bits(p.x.bits) as usize);
    assert_eq!(places(left), [33, 160, 158, 133, 153, 144]);
    assert_eq!(places(right), [362, 385, 387, 263, 373, 380]);
}

#[test]
fn an_eye_at_the_threshold_is_closed() {
    let t = f(0.22);
    assert_eq!(t.bits, DEFAULT_EAR_THRESHOLD);
    let at = eyes_state(t, f(0.3), t);
    assert!(at.any_closed && !at.both_closed);
    assert_eq!((at.left_ear, at.right_ear), (t, f(0.3)));
    let above = eyes_state(f(0.2200001), f(0.3), t);
    assert!(!above.any_closed);
    let wider = eyes_state(f(0.2200001), f(0.3), f(0.3));
    assert!(wider.both_closed);
    assert!(!eyes_state(f(f32::NAN), f(0.1), t).both_closed);
}

#[test]
fn thresholds_are_the_documented_numbers() {
    assert_eq!(f32::from_bits(DEFAULT_EAR_THRESHOLD), 0.22);
    assert_eq!(f32::from_bits(DEFAULT_SCORE_THRESHOLD), 0.6);
    assert_eq!(f32::from_bits(DEFAULT_NMS_THRESHOLD), 0.3);
}

#[test]
fn planes_hold_one_channel_each() {
    let img = Image { width: 2, height: 2, data: (1..=12).collect() };
    assert_eq!(to_planes(&img, Planes::Rgb), vec![1, 4, 7, 10, 2, 5, 8, 11, 3, 6, 9, 12]);
    assert_eq!(to_planes(&img, Planes::Bgr), vec![3, 6, 9, 12, 2, 5, 8, 11, 1, 4, 7, 10]);
}

#[test]
fn model_inputs_are_resized_frames() {
    let rgb = RgbImage::from_fn(37, 21, |x, y| image::Rgb([x as u8, y as u8, (x * y) as u8]));
    let img = Image { width: 37, height: 21, data: rgb.clone().into_raw() };
    let full = image::DynamicImage::ImageRgb8(rgb);
    let triangle = image::imageops::FilterType::Triangle;
    let wide = full.resize_exact(640, 640, triangle).to_rgb8();
    let planes = detector_input(&img);
    assert_eq!(planes.len(), 3 * 640 * 640);
    for (x, y) in [(0u32, 0u32), (639, 639), (17, 400), (500, 3)] {
        let at = (y * 640 + x) as usize;
        let px = wide.get_pixel(x, y);
        assert_eq!(planes[at], px[2]);
        assert_eq!(planes[640 * 640 + at], px[1]);
        assert_eq!(planes[2 * 640 * 640 + at], px[0]);
    }
    let small = full.resize_exact(192, 192, triangle).to_rgb8();
    let mesh = landmark_input(&img);
    assert_eq!(mesh.len(), 3 * 192 * 192);
    for (x, y) in [(0u32, 0u32), (191, 191), (17, 100)] {
        let at = (y * 192 + x) as usize;
        let px = small.get_pixel(x, y);
        assert_eq!([mesh[at], mesh[192 * 192 + at], mesh[2 * 192 * 192 + at]], px.0);
    }
}

#[test]
fn findings_keep_their_cells() {
    assert_eq!([grid_columns(8), grid_columns(16), grid_columns(32)], [80, 40, 20]);
    let scores = [f(0.1), f(0.6), f(0.59), f(0.9), f(f32::NAN)];
    assert_eq!(
        detections(&scores, f(0.6), 2),
        vec![
            Cell { index: 1, col: 1, row: 0 },
            Cell { index: 3, col: 1, row: 1 },
            Cell { index: 4, col: 0, row: 2 },
        ]
    );
}

#[test]
fn overlapping_faces_are_dropped() {
    let scores = [f(0.7), f(0.9), f(0.8), f(0.9)];
    let table = |pairs: &[(usize, usize, f32)]| {
        let mut all = vec![vec![f(0.0); 4]; 4];
        for &(i, j, v) in pairs {
            all[i][j] = f(v);
            all[j][i] = f(v);
        }
        all
    };
    let t = f(0.3);
    assert_eq!(nms(&scores, &table(&[]), t), vec![1, 3, 2, 0]);
    assert_eq!(nms(&scores, &table(&[(1, 3, 0.5)]), t), vec![1, 2, 0]);
    // 2 falls to 1, so 0 is not measured against 2.
    assert_eq!(nms(&scores, &table(&[(1, 2, 0.5), (0, 2, 0.9)]), t), vec![1, 3, 0]);
    assert_eq!(nms(&scores, &table(&[(1, 2, 0.3)]), t), vec![1, 3, 2, 0]);
    assert_eq!(nms(&scores, &table(&[(1, 2, f32::NAN)]), t), vec![1, 3, 2, 0]);
    assert_eq!(nms(&[], &Vec::new(), t), Vec::<usize>::new());
}

#[test]
fn the_last_largest_face_is_primary() {
    assert_eq!(primary_face(&[]), None);
    assert_eq!(primary_face(&[f(3.0)]), Some(0));
    assert_eq!(primary_face(&[f(3.0), f(9.0), f(4.0)]), Some(1));
    assert_eq!(primary_face(&[f(9.0), f(9.0), f(4.0)]), Some(1));
    let areas = [5.0f32, f32::NAN, 2.0, 1.0];
    let expected = (0..4).max_by(|&a, &b| {
        areas[a].partial_cmp(&areas[b]).unwrap_or(std::cmp::Ordering::Equal)
    });
    assert_eq!(primary_face(&areas.map(f)), expected);
}

#[test]
fn landmarks_come_in_threes() {
    let values: Vec<Float32> = (0..1500).map(|i| f(i as f32)).collect();
    let points = landmark_points(&values).unwrap();
    assert_eq!(points.len(), 468);
    assert_eq!(points[0], point(0.0, 1.0));
    assert_eq!(points[467], point(1401.0, 1402.0));
    assert!(landmark_points(&values[..1404]).is_ok());
    assert_eq!(
        landmark_points(&values[..1403]).unwrap_err(),
        "FaceMesh returned 1403 values, expected 1404 (468 pts x 3)"
    );
}

#[test]
fn frames_without_pixels_become_black_input() {
    for (width, height) in [(0u32, 0u32), (0, 5), (5, 0)] {
        let empty = Image { width, height, data: Vec::new() };
        assert!(detector_input(&empty).iter().all(|&v| v == 0));
        assert!(landmark_input(&empty).iter().all(|&v| v == 0));
    }
}

#[test]
fn a_missing_score_counts_as_one() {
    assert_eq!(landmark_score(&[f(0.25), f(0.75)]), f(0.25));
    assert_eq!(landmark_score(&[]), f(1.0));
}
