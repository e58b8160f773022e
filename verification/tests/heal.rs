//! Healing of spots.

use photo_cull::edit::EditParams;
use photo_cull::float_bits::Float32;
use photo_cull::heal::{
    apply_heal, best_source, disc_mask, plan_heal, spot_patch, HealStamp, HealStroke, RetouchOps,
};
use photo_cull::raster::Image;
use photo_cull::rounding::nearest;
use photo_cull::stages::color_stages;

fn f(v: f32) -> Float32 {
    Float32 { bits: v.to_bits() }
}

fn grey(width: u32, height: u32, v: u8) -> Image {
    Image { width, height, data: vec![v; (width * height * 3) as usize] }
}

/// The distances at which sources are looked for.
fn offsets(r: i32) -> Vec<(i32, i32)> {
    let mut all = Vec::new();
    for mult in [3.0f32, 5.0, 8.0] {
        let d = r as f32 * mult;
        for a in 0..12 {
            let angle = a as f32 / 12.0 * std::f32::consts::TAU;
            all.push(((d * angle.cos()) as i32, (d * angle.sin()) as i32));
        }
    }
    all
}

/// Carries the gradients of the source over to the spot.
fn relax(target: &Image, source: &Image, mask: &[bool]) -> Image {
    let side = target.width as usize;
    let tv: Vec<f32> = target.data.iter().map(|&v| v as f32).collect();
    let sv: Vec<f32> = source.data.iter().map(|&v| v as f32).collect();
    let mut cells = tv.clone();
    for _ in 0..180 {
        for i in (0..side * side).filter(|&i| mask[i]) {
            for c in 0..3 {
                let mut sum = 0.0;
                for n in [i - 1, i + 1, i - side, i + side] {
                    let near = if mask[n] { cells[3 * n + c] } else { tv[3 * n + c] };
                    sum += near + (sv[3 * i + c] - sv[3 * n + c]);
                }
                cells[3 * i + c] = sum / 4.0;
            }
        }
    }
    let data = cells.iter().map(|v| v.round().clamp(0.0, 255.0) as u8).collect();
    Image { width: target.width, height: target.height, data }
}

#[test]
fn heal_removes_a_spot() {
    let mut img = grey(80, 80, 130);
    for y in 34..47i32 {
        for x in 34..47i32 {
            if (x - 40).pow(2) + (y - 40).pow(2) <= 30 {
                img.put_pixel(x as u32, y as u32, 40, 40, 40);
            }
        }
    }
    let before = img.get(40, 40, 0);
    let retouch = RetouchOps {
        heals: vec![HealStroke {
            stamps: vec![HealStamp { x: f(0.5), y: f(0.5), r: f(6.0 / 80.0) }],
        }],
    };
    assert!(color_stages(&EditParams::default()).is_empty());
    for stamp in retouch.stamps() {
        let (cx, cy, r) = stamp.place(80, 80);
        assert_eq!((cx, cy, r), (40, 40, 6));
        let (sx, sy) = plan_heal(&img, cx, cy, r, &offsets(r)).unwrap();
        let target = spot_patch(&img, cx, cy, r);
        let source = spot_patch(&img, sx, sy, r);
        let healed = relax(&target, &source, &disc_mask(r));
        apply_heal(&mut img, cx, cy, r, &healed);
    }
    let after = img.get(40, 40, 0);
    assert!(before < 60, "test spot should start dark: {before}");
    assert!(after > 100, "spot should heal toward the gray field: {before} -> {after}");
}

#[test]
fn empty_retouch_has_no_stamps() {
    let stamp = |v: f32| HealStamp { x: f(v), y: f(v), r: f(v) };
    assert!(RetouchOps::default().is_empty());
    let blank = HealStroke { stamps: Vec::new() };
    assert!(RetouchOps { heals: vec![blank.clone(), blank.clone()] }.is_empty());
    let ops = RetouchOps {
        heals: vec![
            HealStroke { stamps: vec![stamp(1.0), stamp(2.0)] },
            blank,
            HealStroke { stamps: vec![stamp(3.0)] },
        ],
    };
    assert!(!ops.is_empty());
    assert_eq!(ops.stamps(), vec![stamp(1.0), stamp(2.0), stamp(3.0)]);
    let more = RetouchOps { heals: vec![HealStroke { stamps: vec![stamp(4.0)] }] };
    let both = RetouchOps { heals: [ops.heals.clone(), more.heals.clone()].concat() };
    assert_eq!(both.stamps(), [ops.stamps(), more.stamps()].concat());
}

#[test]
fn source_with_the_best_ring_is_taken() {
    let mut img = grey(60, 20, 100);
    // The left third is darker, the right third the same.
    for y in 0..20 {
        for x in 0..20 {
            img.put_pixel(x, y, 60, 60, 60);
        }
    }
    assert_eq!(best_source(&img, 30, 10, 2, &[(-20, 0), (12, 0), (20, 0)]), Some((42, 10)));
    assert_eq!(best_source(&img, 30, 10, 2, &[(-20, 0)]), Some((10, 10)));
    assert_eq!(best_source(&img, 30, 10, 2, &[(20, 0), (12, 0)]), Some((50, 10)));
    assert_eq!(best_source(&img, 30, 10, 2, &[(28, 0), (-28, 0), (0, 8)]), None);
    assert_eq!(best_source(&img, 30, 10, 2, &[]), None);
}

#[test]
fn spots_at_the_edge_are_left_alone() {
    let img = grey(60, 60, 100);
    assert_eq!(plan_heal(&img, 2, 30, 2, &offsets(2)), None);
    assert_eq!(plan_heal(&img, 30, 57, 2, &offsets(2)), None);
    assert!(plan_heal(&img, 3, 30, 2, &offsets(2)).is_some());
    assert!(plan_heal(&img, 30, 56, 2, &offsets(2)).is_some());
    assert_eq!(plan_heal(&img, 30, 30, 0, &offsets(2)), None);
    assert_eq!(plan_heal(&img, 30, 30, -4, &offsets(2)), None);
}

#[test]
fn spots_near_an_edge_are_healed() {
    // The spot with one pixel around it fits, the ring around it does not.
    let mut img = grey(80, 80, 130);
    let before = img.data.clone();
    let (sx, sy) = plan_heal(&img, 7, 40, 6, &offsets(6)).unwrap();
    let target = spot_patch(&img, 7, 40, 6);
    let source = spot_patch(&img, sx, sy, 6);
    let healed = relax(&target, &source, &disc_mask(6));
    apply_heal(&mut img, 7, 40, 6, &healed);
    assert_eq!(img.data, before);
    // The part of the ring that lies inside is darker like the source below it.
    let mut bands = grey(60, 60, 100);
    for y in 0..60 {
        for x in 0..9 {
            bands.put_pixel(x, y, 60, 60, 60);
        }
    }
    for y in 40..60 {
        for x in 12..33 {
            bands.put_pixel(x, y, 60, 60, 60);
        }
    }
    assert_eq!(plan_heal(&bands, 5, 30, 4, &[(35, 0), (17, 20)]), Some((22, 50)));
    assert_eq!(plan_heal(&bands, 5, 30, 4, &[(17, 20), (35, 0)]), Some((22, 50)));
    // In the corner, with a ring that leaves the image on two sides.
    assert!(plan_heal(&bands, 5, 5, 4, &offsets(4)).is_some());
}

#[test]
fn small_images_are_left_alone() {
    for (width, height) in [(0u32, 0u32), (1, 1), (5, 5), (6, 6), (5, 90), (90, 6)] {
        let img = grey(width, height, 9);
        let stamp = HealStamp { x: f(0.5), y: f(0.5), r: f(0.2) };
        let (cx, cy, r) = stamp.place(width, height);
        assert!(r >= 2, "{width}x{height}");
        assert_eq!(plan_heal(&img, cx, cy, r, &offsets(r)), None, "{width}x{height}");
    }
    let (_, _, r) = HealStamp { x: f(0.5), y: f(0.5), r: f(0.2) }.place(5, 5);
    assert_eq!(r, 2);
}

#[test]
fn only_the_spot_changes() {
    let mut img = grey(20, 20, 7);
    let patch = grey(2 * 3 + 3, 2 * 3 + 3, 200);
    apply_heal(&mut img, 9, 10, 3, &patch);
    for y in 0..20i32 {
        for x in 0..20i32 {
            let inside = (x - 9).pow(2) + (y - 10).pow(2) <= 9;
            let expected = if inside { 200 } else { 7 };
            assert_eq!(img.get(x as u32, y as u32, 1), expected, "{x} {y}");
        }
    }
}

#[test]
fn own_patch_changes_nothing() {
    let mut img = Image {
        width: 16,
        height: 12,
        data: (0..16 * 12 * 3).map(|v: u32| (v * 7 % 251) as u8).collect(),
    };
    let before = img.data.clone();
    let patch = spot_patch(&img, 7, 6, 3);
    assert_eq!((patch.width, patch.height), (9, 9));
    assert_eq!(patch.get(0, 0, 0), img.get(3, 2, 0));
    apply_heal(&mut img, 7, 6, 3, &patch);
    assert_eq!(img.data, before);
}

#[test]
fn mask_is_a_disc() {
    let mask = disc_mask(1);
    let rows: Vec<Vec<bool>> = mask.chunks(5).map(|row| row.to_vec()).collect();
    let (o, x) = (false, true);
    assert_eq!(
        rows,
        vec![
            vec![o, o, o, o, o],
            vec![o, o, x, o, o],
            vec![o, x, x, x, o],
            vec![o, o, x, o, o],
            vec![o, o, o, o, o],
        ]
    );
}

#[test]
fn rounding_is_that_of_single_precision() {
    let sums = [
        0u128,
        1,
        16_777_215,
        16_777_216,
        16_777_217,
        16_777_218,
        16_777_219,
        33_554_434,
        33_554_438,
        67_108_868,
        123_456_789_012,
        2_199_023_255_552,
        2_199_023_255_552 + 65_025,
    ];
    for p in sums {
        assert_eq!(nearest(p, 1), (p as f64 as f32) as u128, "{p}");
        for q in [3u128, 7, 30_000, 67_108_864] {
            let scaled = nearest(p << 64, q);
            let expected = (p as f64 as f32) as f64 / q as f64;
            let exact = (p as f64 as f32) as u128 == p;
            if exact {
                let rounded = (p as f32) / (q as f32);
                assert_eq!(scaled as f64 / 2f64.powi(64), rounded as f64, "{p} / {q}");
            }
            assert!((scaled as f64 / 2f64.powi(64) - expected).abs() <= expected * 1e-6);
        }
    }
}

#[test]
fn ring_error_is_summed_in_single_precision() {
    // Two sources whose exact errors differ, but by less than 24 bits can tell:
    // the first one is kept.
    let size = 400u32;
    let mut img = grey(3 * size, size, 0);
    for y in 0..size {
        for x in size..3 * size {
            img.put_pixel(x, y, 255, 255, 255);
        }
    }
    // The second source matches the spot's ring a little better in one place.
    img.put_pixel(1000 + 110, 200, 254, 255, 255);
    let r = 100;
    let single = |sx: i32| {
        let (mut sum, mut n) = (0.0f32, 0.0f32);
        for dy in -150..=150i32 {
            for dx in -150..=150i32 {
                let d = dx * dx + dy * dy;
                if d >= r * r && d <= 150 * 150 {
                    for c in 0..3 {
                        let t = img.get((200 + dx) as u32, (200 + dy) as u32, c) as f32;
                        let s = img.get((sx + dx) as u32, (200 + dy) as u32, c) as f32;
                        sum += (t - s) * (t - s);
                    }
                    n += 3.0;
                }
            }
        }
        sum / n
    };
    let (first, second) = (single(600), single(1000));
    let picked = best_source(&img, 200, 200, r, &[(400, 0), (800, 0)]);
    let expected = if second < first { Some((1000, 200)) } else { Some((600, 200)) };
    assert_eq!(picked, expected);
}

#[test]
fn stamps_are_placed_in_single_precision() {
    let sizes = [(6u32, 6u32), (80, 80), (6000, 4000), (7, 100), (65_537, 50_001)];
    let values = [0.5f32, 0.075, 0.0, -0.2, 1.0, 0.333, 1e-9, 17.0, f32::INFINITY, f32::NAN];
    for (w, h) in sizes {
        for a in values {
            for b in values {
                let stamp = HealStamp { x: f(a), y: f(b), r: f(b) };
                let r = (b * w as f32).round().clamp(2.0, (w.min(h) as f32) / 3.0) as i32;
                let cx = (a * w as f32).round() as i32;
                let cy = (b * h as f32).round() as i32;
                assert_eq!(stamp.place(w, h), (cx, cy, r), "{a} {b} on {w}x{h}");
            }
        }
    }
}
