//! Edit settings, geometry, tone statistics and noise.

use image::{Rgb, RgbImage};
use imageproc::geometric_transformations::{rotate_about_center, Border, Interpolation};
use photo_cull::edit::{
    contrast_range, crop, histogram, percentile, smoothed, straighten, EditParams,
};
use photo_cull::editing::{auto_edit, render_full, EditAction, EditStep};
use photo_cull::float_bits::{Float32, Float64};
use photo_cull::heal::{HealStamp, HealStroke, RetouchOps};
use photo_cull::raster::Image;
use photo_cull::singles::{place_pixels, round_pixels, whole_pixels};
use photo_cull::stages::{color_stages, needs_straightening, Stage};

fn f(v: f32) -> Float32 {
    Float32 { bits: v.to_bits() }
}

fn params() -> EditParams {
    EditParams::default()
}

fn library_image(rgb: RgbImage) -> Image {
    Image { width: rgb.width(), height: rgb.height(), data: rgb.into_raw() }
}

fn gradient_rgb() -> RgbImage {
    RgbImage::from_fn(96, 64, |x, _| {
        let v = (x * 255 / 95) as u8;
        Rgb([v, (v as u32 * 3 / 4) as u8, 255 - v])
    })
}

fn gradient() -> Image {
    library_image(gradient_rgb())
}

/// The frame turned by ten degrees, and the middle of it without blank corners.
fn straightened_by_ten_degrees(rgb: &RgbImage) -> Image {
    let theta = 10.0f32.to_radians();
    let black = Border::Constant(Rgb([0, 0, 0]));
    let rotated = rotate_about_center(rgb, theta, Interpolation::Bilinear, black);
    let (w, h) = (rgb.width() as f32, rgb.height() as f32);
    let (sin, cos) = (theta.sin().abs(), theta.cos().abs());
    let double = cos * cos - sin * sin;
    let (fw, fh) = ((w * cos - h * sin) / double, (h * cos - w * sin) / double);
    straighten(
        &library_image(rotated),
        (fw * 0.985).floor() as u32,
        (fh * 0.985).floor() as u32,
    )
}

#[test]
fn default_is_identity() {
    let img = gradient();
    assert!(params().is_noop());
    assert!(!needs_straightening(&params()));
    assert!(color_stages(&params()).is_empty());
    assert_eq!(crop(&img, &params()).data, img.data);
    let job = auto_edit(gradient(), params());
    assert!(matches!(job.next_action(), EditAction::Finish));
    assert_eq!(job.finish().data, img.data);
}

#[test]
fn settings_without_change_give_the_image_back() {
    let still = EditParams { exposure: f(-0.0), crop_w: f(1.0), crop_h: f(1.0), ..params() };
    assert!(still.is_noop());
    let job = auto_edit(gradient(), still);
    assert_eq!(job.step, EditStep::Crop);
    assert_eq!(job.finish().data, gradient().data);
}

#[test]
fn edits_go_step_by_step() {
    let p = EditParams {
        straighten: f(100.0),
        exposure: f(50.0),
        crop_w: f(0.5),
        crop_h: f(0.5),
        ..params()
    };
    let stamp = HealStamp { x: f(0.5), y: f(0.5), r: f(0.1) };
    let retouch = RetouchOps { heals: vec![HealStroke { stamps: vec![stamp] }] };
    let mut job = render_full(gradient(), p, retouch);
    match job.next_action() {
        EditAction::Straighten { slider } => assert_eq!(slider, f(100.0)),
        other => panic!("{other:?}"),
    }
    job.straightened(&gradient(), 50, 31);
    assert_eq!((job.img.width, job.img.height), (50, 31));
    match job.next_action() {
        EditAction::Color { stages } => assert_eq!(stages, vec![Stage::Exposure]),
        other => panic!("{other:?}"),
    }
    job.colored(Image { width: 4, height: 4, data: vec![7; 48] });
    match job.next_action() {
        EditAction::Retouch { stamps } => assert_eq!(stamps, vec![stamp]),
        other => panic!("{other:?}"),
    }
    job.retouched(Image { width: 4, height: 4, data: vec![8; 48] });
    assert!(matches!(job.next_action(), EditAction::Finish));
    let out = job.finish();
    assert_eq!((out.width, out.height, out.data), (2, 2, vec![8; 12]));
    // Without straightening and stamps only the colours are left.
    let bare = EditParams { straighten: f(0.0), ..p };
    let mut job = auto_edit(gradient(), bare);
    assert_eq!(job.step, EditStep::Color);
    job.colored(gradient());
    assert_eq!(job.step, EditStep::Crop);
}

#[test]
fn straighten_rotates_and_crops() {
    let p = EditParams { straighten: f(100.0), ..params() };
    assert!(needs_straightening(&p));
    let out = straightened_by_ten_degrees(&gradient_rgb());
    assert!(
        out.width < 96 && out.height < 64,
        "straighten should crop in: {}x{}",
        out.width,
        out.height
    );
    assert!(
        out.width > 40 && out.height > 25,
        "crop too aggressive: {}x{}",
        out.width,
        out.height
    );
}

#[test]
fn crop_reduces_to_rect() {
    let p = EditParams {
        crop_x: f(0.25),
        crop_y: f(0.25),
        crop_w: f(0.5),
        crop_h: f(0.5),
        ..params()
    };
    let out = crop(&gradient(), &p);
    assert!((out.width as i32 - 48).abs() <= 2, "w {}", out.width);
    assert!((out.height as i32 - 32).abs() <= 2, "h {}", out.height);
}

#[test]
fn crop_full_frame_is_noop() {
    let p = EditParams {
        crop_x: f(0.0),
        crop_y: f(0.0),
        crop_w: f(1.0),
        crop_h: f(1.0),
        ..params()
    };
    let out = crop(&gradient(), &p);
    assert_eq!(out.width, 96);
    assert_eq!(out.height, 64);
    assert!(p.is_noop());
}

#[test]
fn rotate_plus_crop_has_no_blank() {
    let p = EditParams {
        straighten: f(100.0),
        crop_x: f(0.1),
        crop_y: f(0.1),
        crop_w: f(0.8),
        crop_h: f(0.8),
        ..params()
    };
    assert!(needs_straightening(&p) && color_stages(&p).is_empty());
    let out = crop(&straightened_by_ten_degrees(&gradient_rgb()), &p);
    assert!(out.width > 10 && out.height > 10, "empty result");
    let black = out.data.chunks(3).filter(|c| c[0] < 3 && c[1] < 3 && c[2] < 3).count();
    let frac = black as f32 / (out.width * out.height) as f32;
    assert!(frac < 0.02, "rotate+crop left blank pixels: {frac}");
}

#[test]
fn denoise_reduces_variance() {
    let noisy = RgbImage::from_fn(48, 48, |x, y| {
        let n = (x * 31 + y * 17) % 11;
        let v = if n == 0 {
            255u8
        } else if n == 1 {
            0u8
        } else {
            128u8
        };
        Rgb([v, v, v])
    });
    let deviation = |img: &Image| {
        let n = (img.width * img.height) as f32;
        let (mut s, mut ss) = (0.0f32, 0.0f32);
        for p in img.data.chunks(3) {
            let l = p[0] as f32;
            s += l;
            ss += l * l;
        }
        let m = s / n;
        (ss / n - m * m).max(0.0).sqrt()
    };
    let p = EditParams { noise_reduction: f(100.0), ..params() };
    assert_eq!(color_stages(&p), vec![Stage::Denoise]);
    let img = library_image(noisy);
    let before = deviation(&img);
    // At full strength the smoothed image replaces the frame.
    let after = deviation(&smoothed(&img, p.noise_reduction));
    assert!(after < before * 0.85, "denoise should cut variance: {before} -> {after}");
}

#[test]
fn every_slider_counts() {
    assert!(EditParams { clarity: f(-0.0), ..params() }.is_noop());
    assert!(!EditParams { clarity: f(0.009), ..params() }.is_noop());
    assert!(!EditParams { clarity: f(1e-45), ..params() }.is_noop());
    assert!(!EditParams { clarity: f(0.01), ..params() }.is_noop());
    assert!(!EditParams { clarity: f(-0.01), ..params() }.is_noop());
    assert!(!EditParams { tint: f(f32::NAN), ..params() }.is_noop());
    assert!(!EditParams { straighten: f(5.0), ..params() }.is_noop());
    assert!(!EditParams { shadow_hue: f(200.0), ..params() }.is_noop());
    assert!(!EditParams { highlight_sat: f(1.0), ..params() }.is_noop());
    assert!(!EditParams { auto_exposure: f(50.0), ..params() }.is_noop());
    assert!(EditParams { crop_x: f(0.5), ..params() }.is_noop());
}

#[test]
fn settings_that_run_a_stage_are_no_noop() {
    let faint = EditParams { auto_contrast: f(0.0099), ..params() };
    assert_eq!(color_stages(&faint), vec![Stage::AutoContrast]);
    assert!(!faint.is_noop());
    let still = EditParams { exposure: f(-0.0), crop_w: f(1.0), crop_h: f(1.0), ..params() };
    assert!(still.is_noop() && color_stages(&still).is_empty());
    assert!(!needs_straightening(&still) && !still.crop_active());
}

#[test]
fn crop_needs_a_size_and_a_difference() {
    let rect = |x: f32, y: f32, w: f32, h: f32| EditParams {
        crop_x: f(x),
        crop_y: f(y),
        crop_w: f(w),
        crop_h: f(h),
        ..params()
    };
    assert!(rect(0.0, 0.0, 0.5, 1.0).crop_active());
    assert!(rect(0.0, 0.0, 1.0, 0.9989).crop_active());
    assert!(rect(0.002, 0.0, 1.0, 1.0).crop_active());
    assert!(rect(0.0, 0.002, 1.0, 1.0).crop_active());
    assert!(!rect(0.0, 0.0, 1.0, 1.0).crop_active());
    assert!(!rect(0.001, 0.001, 0.999, 0.999).crop_active());
    assert!(!rect(0.2, 0.2, 0.001, 0.5).crop_active());
    assert!(!rect(0.2, 0.2, 0.5, 0.0).crop_active());
    assert!(!rect(0.2, 0.2, f32::NAN, 0.5).crop_active());
    assert!(!rect(0.0, 0.0, 0.5, 0.5).is_noop());
}

#[test]
fn crop_is_held_inside_the_frame() {
    let img = gradient();
    let rect = |x: f32, y: f32, w: f32, h: f32| EditParams {
        crop_x: f(x),
        crop_y: f(y),
        crop_w: f(w),
        crop_h: f(h),
        ..params()
    };
    // 0.94 of 96 and of 64 pixels.
    let part = crop(&img, &rect(0.94, 0.94, 0.5, 0.5));
    assert_eq!((part.width, part.height), (6, 4));
    assert_eq!(part.get(0, 0, 0), img.get(90, 60, 0));
    assert_eq!(part.get(5, 3, 2), img.get(95, 63, 2));
    let dot = crop(&img, &rect(0.5, 0.5, 0.002, 0.002));
    assert_eq!((dot.width, dot.height), (1, 1));
    let past = crop(&img, &rect(7.0, 0.5, 0.5, 0.1));
    assert_eq!((past.width, past.height), (0, 6));
    let start = crop(&img, &rect(-3.0, f32::NAN, 0.5, 0.5));
    assert_eq!((start.width, start.height), (48, 32));
    assert_eq!(start.get(0, 0, 2), img.get(0, 0, 2));
}

#[test]
fn pixels_are_those_of_single_precision() {
    let mut values: Vec<f32> = vec![
        0.0, -0.0, 1.0, -1.0, 0.5, 0.25, 0.1, 0.3, 0.999, 1e-45, 1e-30, 3.4e38, -3.4e38, 1e10,
        16_777_217.0, 4_294_967_295.0, 0.49999997, 2.5, -2.5, -0.5, -0.3, 7.0e-3,
        f32::INFINITY, f32::NEG_INFINITY, f32::NAN,
    ];
    values.extend((0..400u32).map(|i| f32::from_bits(0x3c00_0000 + i * 0x0004_3a71)));
    for v in values {
        for n in [0u32, 1, 2, 3, 64, 96, 4000, 6000, 16_777_217, 33_554_435, u32::MAX] {
            let product = v * n as f32;
            assert_eq!(whole_pixels(f(v), n), product as u32, "{v} of {n}");
            assert_eq!(round_pixels(f(v), n), product.round() as u32, "{v} of {n}");
            assert_eq!(place_pixels(f(v), n), product.round() as i32, "{v} of {n}");
        }
    }
}

#[test]
fn contrast_range_leaves_out_a_hundredth() {
    let mut levels = vec![100u8; 980];
    levels.extend([5u8; 9]);
    levels.extend([240u8; 11]);
    // A hundredth of 1000 values is reached at level 100, nine hundred and ninety
    // of them at 240.
    assert_eq!(contrast_range(&levels), (100, 240));
    assert_eq!(contrast_range(&[]), (0, 0));
    let expected = |levels: &[u8]| {
        let n = levels.len();
        let mut hist = [0u32; 256];
        for &v in levels {
            hist[v as usize] += 1;
        }
        let reach = |pct: f32| {
            let target = (pct * n as f32) as u32;
            let mut sum = 0u32;
            for (v, &c) in hist.iter().enumerate() {
                sum += c;
                if sum >= target {
                    return v as u8;
                }
            }
            255
        };
        (reach(0.01), reach(0.99))
    };
    for n in 1..700usize {
        let some: Vec<u8> = (0..n).map(|i| (i * 37 % 251) as u8).collect();
        assert_eq!(contrast_range(&some), expected(&some), "{n}");
    }
}

#[test]
fn straightening_keeps_the_middle() {
    let img = gradient();
    let out = straighten(&img, 50, 31);
    assert_eq!((out.width, out.height), (50, 31));
    assert_eq!(out.get(0, 0, 0), img.get(23, 16, 0));
    let whole = straighten(&img, 500, 500);
    assert_eq!(whole.data, img.data);
    let dot = straighten(&img, 0, 0);
    assert_eq!((dot.width, dot.height), (1, 1));
    assert_eq!(dot.get(0, 0, 2), img.get(47, 31, 2));
}

#[test]
fn histogram_counts_levels() {
    let hist = histogram(&[3, 0, 255, 3, 3]);
    assert_eq!(hist.len(), 256);
    assert_eq!((hist[0], hist[3], hist[255], hist[4]), (1, 3, 1, 0));
}

#[test]
fn percentile_is_the_first_level_that_reaches() {
    let hist = histogram(&[10, 20, 20, 30]);
    assert_eq!(percentile(&hist, 0), 0);
    assert_eq!(percentile(&hist, 1), 10);
    assert_eq!(percentile(&hist, 2), 20);
    assert_eq!(percentile(&hist, 3), 20);
    assert_eq!(percentile(&hist, 4), 30);
    assert_eq!(percentile(&hist, 5), 255);
}

#[test]
fn noise_filter_takes_the_median() {
    // One bright pixel in a dark 3 by 3 field, and the other way round.
    let mut img = Image { width: 3, height: 3, data: vec![10; 27] };
    img.put_pixel(1, 1, 200, 10, 10);
    assert_eq!(smoothed(&img, f(10.0)).data, vec![10; 27]);
    let empty = Image { width: 0, height: 7, data: Vec::new() };
    assert_eq!(smoothed(&empty, f(80.0)).height, 7);
    let row = Image {
        width: 5,
        height: 1,
        data: [1u8, 9, 3, 7, 5].iter().flat_map(|&v| [v, v, v]).collect(),
    };
    // Radius one, edges repeated: (1,1,9) (1,9,3) (9,3,7) (3,7,5) (7,5,5).
    let near: Vec<u8> = smoothed(&row, f(59.9)).data.chunks(3).map(|c| c[0]).collect();
    assert_eq!(near, vec![1, 3, 7, 5, 5]);
    // Radius two: (1,1,1,9,3) (1,1,9,3,7) (1,9,3,7,5) (9,3,7,5,5) (3,7,5,5,5).
    let far: Vec<u8> = smoothed(&row, f(60.0)).data.chunks(3).map(|c| c[0]).collect();
    assert_eq!(far, vec![1, 3, 5, 5, 5]);
}

#[test]
fn stages_run_in_order() {
    let p = EditParams {
        auto_exposure: f(100.0),
        auto_white_balance: f(100.0),
        auto_contrast: f(1.0),
        exposure: f(70.0),
        shadows: f(80.0),
        vibrance: f(80.0),
        tint: f(-40.0),
        sharpening: f(100.0),
        noise_reduction: f(80.0),
        clarity: f(70.0),
        vignette_amount: f(-60.0),
        highlight_sat: f(60.0),
        ..params()
    };
    assert_eq!(
        color_stages(&p),
        vec![
            Stage::Denoise,
            Stage::AutoWhiteBalance,
            Stage::WhiteBalance,
            Stage::AutoExposure,
            Stage::Exposure,
            Stage::AutoContrast,
            Stage::Tone,
            Stage::SplitTone,
            Stage::Color,
            Stage::Vignette,
            Stage::Clarity,
            Stage::Sharpen,
        ]
    );
    let hues = EditParams { shadow_hue: f(220.0), vignette_midpoint: f(40.0), ..params() };
    assert!(color_stages(&hues).is_empty());
}

#[test]
fn negative_strengths_do_nothing() {
    let p = EditParams {
        auto_exposure: f(-5.0),
        sharpening: f(-0.0),
        noise_reduction: f(f32::NEG_INFINITY),
        shadow_sat: f(-30.0),
        ..params()
    };
    assert!(color_stages(&p).is_empty());
    let nan = EditParams { auto_exposure: f(f32::NAN), ..params() };
    assert_eq!(color_stages(&nan), vec![Stage::AutoExposure]);
}

#[test]
fn stage_limits_are_where_single_precision_rounds_to_zero() {
    for bits in 0..200u32 {
        let v = f32::from_bits(bits);
        let slider = EditParams { exposure: Float32 { bits }, ..params() };
        assert_eq!(color_stages(&slider).is_empty(), v / 100.0 == 0.0, "{bits}");
        let strength = EditParams { sharpening: Float32 { bits }, ..params() };
        assert_eq!(color_stages(&strength).is_empty(), v / 100.0 <= 0.0, "{bits}");
        let tint = EditParams { shadow_sat: Float32 { bits }, ..params() };
        assert_eq!(color_stages(&tint).is_empty(), v / 100.0 * 0.5 <= 0.0, "{bits}");
    }
}

#[test]
fn straightening_starts_at_a_hundredth_of_a_degree() {
    for bits in 0x3dcc_cc00..0x3dcc_cd80u32 {
        let v = f32::from_bits(bits);
        let level = ((v / 100.0).clamp(-1.0, 1.0) * 10.0).abs() < 0.01;
        for sign in [0u32, 0x8000_0000] {
            let p = EditParams { straighten: Float32 { bits: bits | sign }, ..params() };
            assert_eq!(needs_straightening(&p), !level, "{bits:x}");
        }
    }
    assert!(needs_straightening(&EditParams { straighten: f(f32::NAN), ..params() }));
}

#[test]
fn comparisons_are_those_of_the_numbers() {
    let values = [
        0.0f32,
        -0.0,
        1.0,
        -1.0,
        0.999,
        1e-45,
        -1e-45,
        f32::MAX,
        f32::MIN,
        f32::INFINITY,
        f32::NEG_INFINITY,
        f32::NAN,
        -f32::NAN,
    ];
    for a in values {
        for b in values {
            assert_eq!(f(a).below(f(b)), a < b, "{a} < {b}");
            assert_eq!(f(a).at_most(f(b)), a <= b, "{a} <= {b}");
            let wide = |v: f32| Float64 { bits: (v as f64).to_bits() };
            assert_eq!(wide(a).below(wide(b)), a < b, "{a} < {b}");
            assert_eq!(wide(a).at_most(wide(b)), a <= b, "{a} <= {b}");
        }
    }
}
