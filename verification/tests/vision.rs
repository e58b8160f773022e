//! Sharpness, and which files are images.

use image::{Rgb, RgbImage};
use photo_cull::float_bits::Float64;
use photo_cull::formats::{
    is_image_name, is_raw_name, is_raw_path, is_supported, supported_files,
};
use photo_cull::precision::{keep, number, plus, squared, Significant};
use photo_cull::raster::{cut, Image};
use photo_cull::vision::{
    analyze_image, assess_blur, blur_score, blur_score_of_luma, blur_score_region,
    assess_blur_region_normalized, blur_score_region_normalized, clamp_crop, decode_raw,
    normalize_for_blur, variance, BLUR_NORM_LONG_EDGE, DEFAULT_BLUR_THRESHOLD,
};

fn library_image(rgb: RgbImage) -> Image {
    Image { width: rgb.width(), height: rgb.height(), data: rgb.into_raw() }
}

/// A checkerboard of single pixels: all the detail that an image can have.
fn sharp_checkerboard(size: u32) -> RgbImage {
    RgbImage::from_fn(size, size, |x, y| {
        if (x + y) % 2 == 0 {
            Rgb([255, 255, 255])
        } else {
            Rgb([0, 0, 0])
        }
    })
}

fn sharp() -> Image {
    library_image(sharp_checkerboard(128))
}

fn blurred() -> Image {
    library_image(imageproc::filter::gaussian_blur_f32(&sharp_checkerboard(128), 4.0))
}

fn value(v: Float64) -> f64 {
    f64::from_bits(v.bits)
}

fn bits(v: f64) -> Float64 {
    Float64 { bits: v.to_bits() }
}

#[test]
fn blur_pipeline_ranks_sharp_above_blurred() {
    let sharp_score = value(blur_score(&sharp()));
    let blurred_score = value(blur_score(&blurred()));
    println!("sharp blur_score   = {sharp_score:.2}");
    println!("blurred blur_score = {blurred_score:.2}");
    assert!(sharp_score > 0.0, "sharp image should have signal");
    assert!(
        sharp_score > blurred_score * 5.0,
        "expected sharp ({sharp_score:.2}) >> blurred ({blurred_score:.2})"
    );
}

#[test]
fn assess_blur_flags_blurred_not_sharp() {
    let sharp_a = assess_blur(&sharp(), bits(100.0));
    let blurred_a = assess_blur(&blurred(), bits(100.0));
    println!("sharp={sharp_a:?} blurred={blurred_a:?}");
    assert!(!sharp_a.is_blurry, "sharp should not be flagged blurry");
    assert!(blurred_a.is_blurry, "blurred should be flagged blurry");
}

#[test]
fn raw_extension_detection() {
    assert!(is_raw_path("DSC_0001.NEF"));
    assert!(is_raw_path("IMG.cr3"));
    assert!(is_raw_path("photo.dng"));
    assert!(!is_raw_path("photo.jpg"));
    assert!(!is_raw_path("photo.png"));
    assert!(!is_raw_path("noext"));
}

#[test]
fn every_raw_extension_is_known() {
    for ext in [
        "cr2", "cr3", "crw", "nef", "nrw", "arw", "srf", "sr2", "dng", "raf", "rw2", "orf", "pef",
        "srw", "raw", "mrw",
    ] {
        let name = format!("photo.{ext}");
        assert!(is_raw_name(&name), "{name}");
        assert!(is_image_name(&name), "{name}");
        assert!(is_raw_name(&name.to_uppercase()), "{name}");
    }
    for ext in ["jpg", "jpeg", "png", "tif", "tiff", "webp", "bmp"] {
        let name = format!("photo.{ext}");
        assert!(!is_raw_name(&name), "{name}");
        assert!(is_image_name(&name), "{name}");
    }
    for name in ["photo.gif", "photo", ".jpg", "photo.", "photo.jpgx", "photo.jpg.txt", "jpg"] {
        assert!(!is_image_name(name), "{name}");
    }
}

#[test]
fn the_last_component_decides() {
    assert!(is_supported("/a/b.d/c.jpg"));
    assert!(is_supported("a.tar.JPeG"));
    assert!(is_supported("a.jpg/"));
    assert!(is_supported("a.jpg/./"));
    assert!(!is_supported("a.jpg/b"));
    assert!(!is_supported("a.jpg/.."));
    assert!(!is_supported("/"));
    assert!(!is_supported(""));
    assert!(!is_raw_path("raw.nef/photo.jpg"));
}

#[test]
fn paths_with_drives_and_backslashes_show_their_extension() {
    assert!(is_raw_path("C:\\Photos\\DSC_0001.NEF"));
    assert!(is_raw_path("C:photo.dng"));
    assert!(!is_raw_path("C:\\Photos\\DSC_0001.JPG"));
    assert!(is_supported("D:\\2024\\trip.d\\A.jpeg"));
    assert!(is_supported("a\\b/c.png"));
    assert!(!is_supported("C:\\Photos.jpg\\notes"));
    assert!(!is_supported("C:\\Photos\\noext"));
    assert!(!is_supported("C:\\Photos\\a.jpg.txt"));
    assert!(!is_supported("C:\\Photos/.jpg"));
    let small = Image { width: 1, height: 1, data: vec![1, 2, 3] };
    assert!(analyze_image("C:\\Photos\\a.NEF", &small).is_raw);
    assert!(!analyze_image("C:\\Photos.nef\\a.png", &small).is_raw);
}

#[test]
fn paths_into_shares_show_their_extension() {
    assert!(is_raw_path("\\\\server\\share\\DSC_0001.NEF"));
    assert!(is_raw_path("//server/share/a/DSC_0001.nef"));
    assert!(is_raw_path("\\\\?\\C:\\Photos\\a.cr2"));
    assert!(!is_raw_path("\\\\server\\share.nef\\a.jpg"));
    assert!(is_supported("\\\\server\\share.nef\\a.jpg"));
    assert!(!is_supported("//server/share/notes"));
}

#[test]
fn supported_files_keep_their_order() {
    let paths: Vec<String> = ["/p/b.jpg", "/p/notes.txt", "C:\\p\\a.NEF", "/p/", "x.png", ".jpg"]
        .iter()
        .map(|p| p.to_string())
        .collect();
    assert_eq!(supported_files(&paths), vec!["/p/b.jpg", "C:\\p\\a.NEF", "x.png"]);
    assert!(supported_files(&Vec::new()).is_empty());
}

#[test]
fn laplacian_variance_of_small_images() {
    // 2 by 1: the Laplacian is 10 and -10.
    assert_eq!(value(blur_score_of_luma(&vec![0, 10], 2, 1)), 100.0);
    // 3 by 3 with one bright pixel in the middle: -40 there, 10 beside it.
    let luma = vec![0, 0, 0, 0, 10, 0, 0, 0, 0];
    assert_eq!(value(blur_score_of_luma(&luma, 3, 3)), 2000.0 / 9.0);
}

#[test]
fn flat_images_have_no_variance() {
    let grey = library_image(RgbImage::from_pixel(16, 9, Rgb([90, 90, 90])));
    assert_eq!(value(blur_score(&grey)), 0.0);
    for (width, height) in [(0u32, 0u32), (0, 5), (5, 0)] {
        let empty = Image { width, height, data: Vec::new() };
        assert_eq!(value(blur_score(&empty)), 0.0);
    }
}

#[test]
fn score_is_that_of_the_laplacian() {
    let img = blurred();
    let gray = image::DynamicImage::ImageRgb8(
        RgbImage::from_raw(img.width, img.height, img.data.clone()).unwrap(),
    )
    .to_luma8();
    let laplacian = imageproc::filter::laplacian_filter(&gray);
    let n = laplacian.as_raw().len() as f64;
    let mean = laplacian.as_raw().iter().map(|&v| v as f64).sum::<f64>() / n;
    let expected =
        laplacian.as_raw().iter().map(|&v| (v as f64 - mean) * (v as f64 - mean)).sum::<f64>() / n;
    assert_eq!(value(blur_score(&img)), expected);
}

/// The variance in two passes of floating point.
fn two_passes(data: &[i16]) -> f64 {
    let n = data.len() as f64;
    let mean = data.iter().map(|&v| v as f64).sum::<f64>() / n;
    data.iter().map(|&v| (v as f64 - mean) * (v as f64 - mean)).sum::<f64>() / n
}

#[test]
fn variance_is_that_of_double_precision() {
    assert_eq!(value(variance(&[1, 2, 3, 4])), 1.25);
    assert_eq!(value(variance(&[])), 0.0);
    assert_eq!(value(variance(&[-32768, 32767])), 65535.0 * 65535.0 / 4.0);
    assert_eq!(value(variance(&[7, 7, 7])), 0.0);
    let mut state = 12_345u64;
    let mut next = |range: u64| {
        state = state.wrapping_mul(6_364_136_223_846_793_005).wrapping_add(1_442_695_040_888_963_407);
        (state >> 33) % range
    };
    for round in 0..3000 {
        let len = 1 + next(if round % 10 == 0 { 5000 } else { 60 }) as usize;
        let spread = [2u64, 3, 7, 2041, 65536][next(5) as usize];
        let shift = next(65536) as i64 - 32768;
        let data: Vec<i16> = (0..len)
            .map(|_| (next(spread) as i64 + shift).clamp(-32768, 32767) as i16)
            .collect();
        assert_eq!(variance(&data).bits, two_passes(&data).to_bits(), "{data:?}");
    }
    // A mean of many places, and distances that are small beside the sum.
    for len in [3usize, 7, 1_000_003] {
        for data in [vec![1i16; len], vec![-32767; len]] {
            let mut data = data;
            data[len / 2] = 32767;
            assert_eq!(variance(&data).bits, two_passes(&data).to_bits(), "{len}");
            data[0] = -32768;
            assert_eq!(variance(&data).bits, two_passes(&data).to_bits(), "{len}");
        }
    }
}

#[test]
fn rounding_is_that_of_double_precision() {
    let numbers = [
        0u64,
        1,
        3,
        9_007_199_254_740_991,
        4_503_599_627_370_497,
        6_004_799_503_160_661,
    ];
    for a in numbers {
        for b in numbers {
            let (x, y) = (keep(a as u128, 0, 1), keep(b as u128, 0, 1));
            assert_eq!(number(plus(x, y)) as f64, a as f64 + b as f64, "{a} + {b}");
            for zeros in [1u32, 20, 53, 60, 64, 70] {
                if b >= 4_503_599_627_370_496 {
                    let far = Significant { bits: b, zeros };
                    let sum = plus(x, far);
                    let wide = b as f64 * 2f64.powi(zeros as i32);
                    let found = sum.bits as f64 * 2f64.powi(sum.zeros as i32);
                    assert_eq!(found, a as f64 + wide, "{a} + {b} and {zeros} zeros");
                }
            }
        }
        let square = squared(keep(a as u128, 0, 1));
        let found = square.bits as f64 * 2f64.powi(square.zeros as i32);
        assert_eq!(found, a as f64 * a as f64, "{a}");
    }
}

#[test]
fn quotients_are_those_of_double_precision() {
    let numbers =
        [1u128, 2, 3, 7, 10, 255, 1_000_003, 4_503_599_627_370_497, 9_007_199_254_740_991];
    for p in numbers {
        for q in numbers {
            let found = value(photo_cull::doubles::quotient(p, q));
            assert_eq!(found, p as f64 / q as f64, "{p} / {q}");
        }
    }
    assert_eq!(value(photo_cull::doubles::quotient(0, 5)), 0.0);
    let tiny = value(photo_cull::doubles::quotient(1, 1 << 96));
    assert_eq!(tiny, 2f64.powi(-96));
}

#[test]
fn threshold_is_strict() {
    let limit = Float64 { bits: DEFAULT_BLUR_THRESHOLD };
    assert_eq!(limit, bits(100.0));
    // A brightness of 0 and 10 scores 100.
    let img = Image { width: 2, height: 1, data: vec![0, 0, 0, 10, 10, 10] };
    assert_eq!(value(blur_score(&img)), 100.0);
    assert!(!assess_blur(&img, limit).is_blurry);
    assert!(assess_blur(&img, bits(100.001)).is_blurry);
    assert!(!assess_blur(&img, bits(f64::NAN)).is_blurry);
    assert_eq!(assess_blur(&img, limit).score, bits(100.0));
    let part = assess_blur_region_normalized(&img, 0, 0, 9, 9, bits(100.001));
    assert!(part.is_blurry);
    assert_eq!(part.score, bits(100.0));
}

#[test]
fn region_is_clamped_to_the_image() {
    let img = sharp();
    let inner = clamp_crop(&img, 10, 20, 30, 40).unwrap();
    assert_eq!((inner.width, inner.height), (30, 40));
    assert_eq!(inner.get(0, 0, 1), img.get(10, 20, 1));
    assert_eq!(inner.get(29, 39, 2), img.get(39, 59, 2));
    let corner = clamp_crop(&img, 120, 500, 30, 40).unwrap();
    assert_eq!((corner.width, corner.height), (8, 1));
    assert_eq!(corner.get(7, 0, 0), img.get(127, 127, 0));
    let dot = clamp_crop(&img, 5, 5, 0, 0).unwrap();
    assert_eq!((dot.width, dot.height), (1, 1));
    assert!(clamp_crop(&Image { width: 0, height: 4, data: Vec::new() }, 0, 0, 1, 1).is_none());
}

#[test]
fn region_score_is_that_of_the_cut() {
    let img = blurred();
    let part = clamp_crop(&img, 30, 40, 50, 60).unwrap();
    assert_eq!(blur_score_region(&img, 30, 40, 50, 60), blur_score(&part));
    assert_eq!(blur_score_region_normalized(&img, 30, 40, 50, 60), blur_score(&part));
    let empty = Image { width: 3, height: 0, data: Vec::new() };
    assert_eq!(value(blur_score_region(&empty, 0, 0, 1, 1)), 0.0);
    assert_eq!(value(blur_score_region_normalized(&empty, 0, 0, 1, 1)), 0.0);
}

#[test]
fn large_images_are_brought_down() {
    let wide = library_image(RgbImage::from_fn(1000, 300, |x, y| {
        Rgb([(x % 256) as u8, (y % 256) as u8, 77])
    }));
    let small = normalize_for_blur(&wide);
    assert_eq!((small.width, small.height), (BLUR_NORM_LONG_EDGE, 120));
    let expected = image::DynamicImage::ImageRgb8(
        RgbImage::from_raw(1000, 300, wide.data.clone()).unwrap(),
    )
    .resize(400, 400, image::imageops::FilterType::Lanczos3)
    .to_rgb8();
    assert_eq!(small.data, expected.into_raw());
    assert_eq!(blur_score_region_normalized(&wide, 0, 0, 1000, 300), blur_score(&small));
    let kept = normalize_for_blur(&small);
    assert_eq!((kept.width, kept.height, kept.data), (small.width, small.height, small.data));
}

#[test]
fn cut_outside_is_empty() {
    let img = sharp();
    let none = cut(&img, 200, 0, 5, 5);
    assert_eq!((none.width, none.height, none.data.len()), (0, 5, 0));
}

#[test]
fn raw_frames_must_have_their_size() {
    let img = decode_raw(2, 1, vec![1, 2, 3, 4, 5, 6]).unwrap();
    assert_eq!((img.width, img.height), (2, 1));
    assert_eq!(img.data, vec![1, 2, 3, 4, 5, 6]);
    assert_eq!(
        decode_raw(2, 3, vec![0; 17]).unwrap_err(),
        "RAW decode produced 17 bytes, expected 18 for 2x3 RGB"
    );
}

#[test]
fn single_image_is_analyzed() {
    let img = sharp();
    let found = analyze_image("/photos/a.NEF", &img);
    assert_eq!((found.width, found.height), (128, 128));
    assert_eq!(found.blur_score, blur_score(&img));
    assert!(!found.is_blurry);
    assert!(found.is_raw);
    assert_eq!(found.perceptual_hash, photo_cull::dedup::perceptual_hash(&img));
    assert!(analyze_image("/photos/a.jpg", &blurred()).is_blurry);
    assert!(!analyze_image("/photos/a.jpg", &img).is_raw);
}
