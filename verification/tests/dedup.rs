//! Perceptual hashes, clusters and bursts.

use image::{DynamicImage, ImageFormat, Rgb, RgbImage};
use photo_cull::bursts::{fingerprint, group_bursts, Fingerprint, DEFAULT_BURST_GAP_SECS};
use photo_cull::capture::{exif_timestamp, Timestamp};
use photo_cull::dedup::{
    cluster_by_similarity, cluster_hashes, find_duplicate_clusters, hash_distance,
    hash_distance_images, perceptual_hash, DEFAULT_DUP_DISTANCE,
};
use photo_cull::raster::Image;

fn library_image(rgb: RgbImage) -> Image {
    Image { width: rgb.width(), height: rgb.height(), data: rgb.into_raw() }
}

/// A broadband grey texture; `seed` shifts its phase.
fn pattern(seed: u32) -> RgbImage {
    let s = seed as f32;
    let pi = std::f32::consts::PI;
    RgbImage::from_fn(128, 128, |x, y| {
        let fx = x as f32 / 128.0;
        let fy = y as f32 / 128.0;
        let mut v = 0.0f32;
        for k in 1..=6 {
            let kf = k as f32;
            v += (2.0 * pi * kf * fx + s).sin() / kf;
            v += (2.0 * pi * kf * fy + s * 0.7).cos() / kf;
        }
        let lum = (128.0 + 40.0 * v).clamp(0.0, 255.0) as u8;
        Rgb([lum, lum, lum])
    })
}

fn pattern_image(seed: u32) -> Image {
    library_image(pattern(seed))
}

fn blurred_image(seed: u32) -> Image {
    library_image(imageproc::filter::gaussian_blur_f32(&pattern(seed), 1.0))
}

fn at(text: &str) -> Timestamp {
    let t = chrono::NaiveDateTime::parse_from_str(text, "%Y:%m:%d %H:%M:%S").unwrap();
    Timestamp { seconds: t.and_utc().timestamp(), nanos: 0 }
}

fn frame(id: usize, timestamp: Option<Timestamp>) -> Fingerprint {
    Fingerprint { id, phash: String::new(), timestamp }
}

#[test]
fn phash_is_deterministic() {
    let img = pattern_image(0);
    assert_eq!(perceptual_hash(&img), perceptual_hash(&img));
    assert_eq!(hash_distance(&perceptual_hash(&img), &perceptual_hash(&img)).unwrap(), 0);
}

#[test]
fn near_duplicate_has_small_distance() {
    let d = hash_distance_images(&pattern_image(0), &blurred_image(0));
    println!("near-dup distance = {d}");
    assert!(d <= DEFAULT_DUP_DISTANCE, "near-dup distance {d} should be small");
}

#[test]
fn different_images_have_large_distance() {
    let d = hash_distance_images(&pattern_image(0), &pattern_image(1));
    println!("different-image distance = {d}");
    assert!(d > DEFAULT_DUP_DISTANCE, "distinct images distance {d} should be large");
}

#[test]
fn clustering_groups_near_dups_and_separates_different() {
    let hashes = vec![
        perceptual_hash(&pattern_image(0)),
        perceptual_hash(&pattern_image(1)),
        perceptual_hash(&blurred_image(0)),
    ];
    let clusters = cluster_by_similarity(&hashes, DEFAULT_DUP_DISTANCE).unwrap();
    println!("clusters = {clusters:?}");
    assert!(clusters.contains(&vec![0, 2]), "a and a_blur should cluster: {clusters:?}");
    assert!(clusters.contains(&vec![1]), "b should be its own cluster: {clusters:?}");
}

#[test]
fn bursts_split_on_time_gap() {
    let items = vec![
        frame(0, Some(at("2024:01:15 14:30:00"))),
        frame(1, Some(at("2024:01:15 14:30:01"))),
        frame(2, Some(at("2024:01:15 14:30:11"))),
        frame(3, None),
    ];
    let bursts = group_bursts(&items, DEFAULT_BURST_GAP_SECS);
    println!("bursts = {bursts:?}");
    assert!(bursts.contains(&vec![0, 1]), "0 and 1 are one burst: {bursts:?}");
    assert!(bursts.contains(&vec![2]), "2 starts a new burst: {bursts:?}");
    assert!(bursts.contains(&vec![3]), "untimed frame is a singleton: {bursts:?}");
}

#[test]
fn no_exif_returns_none() {
    let mut file = std::io::Cursor::new(Vec::new());
    DynamicImage::ImageRgb8(pattern(0)).write_to(&mut file, ImageFormat::Png).unwrap();
    assert!(exif_timestamp(file.get_ref()).is_none());
}

#[test]
fn hash_text_is_that_of_the_hasher() {
    let hasher = image_hasher::HasherConfig::new()
        .hash_alg(image_hasher::HashAlg::Median)
        .preproc_dct()
        .hash_size(8, 8)
        .to_hasher();
    let img = DynamicImage::ImageRgb8(pattern(3));
    let expected = hasher.hash_image(&img);
    assert_eq!(perceptual_hash(&pattern_image(3)), expected.to_base64());
    assert_eq!(expected.as_bytes().len(), 8);
    assert_eq!(perceptual_hash(&pattern_image(3)).len(), 11);
}

#[test]
fn distance_counts_differing_bits() {
    // AA is one zero byte, /w one byte of ones, AQ the byte one.
    assert_eq!(hash_distance("AA", "/w"), Ok(8));
    assert_eq!(hash_distance("AA", "AQ"), Ok(1));
    assert_eq!(hash_distance("/w", "AQ"), Ok(7));
    assert_eq!(hash_distance("AQ", "/w"), Ok(7));
}

#[test]
fn distance_stops_at_the_shorter_hash() {
    // AAAA is three zero bytes.
    assert_eq!(hash_distance("/w", "AAAA"), Ok(8));
}

#[test]
fn unreadable_hash_is_an_error() {
    let first = hash_distance("!", "AA").unwrap_err();
    assert!(first.starts_with("invalid hash: "), "{first}");
    let second = hash_distance("AA", "").unwrap_err();
    assert!(second.starts_with("invalid hash: "), "{second}");
    let padded = hash_distance("AA==", "AA").unwrap_err();
    assert!(padded.starts_with("invalid hash: "), "{padded}");
}

#[test]
fn unreadable_hash_stops_clustering() {
    let hashes = vec!["AA".to_string(), "A".to_string(), "*".to_string()];
    let expected = hash_distance("A", "AA").unwrap_err();
    assert_eq!(cluster_by_similarity(&hashes, 10), Err(expected.clone()));
    assert_eq!(find_duplicate_clusters(&hashes, None), Err(expected));
}

#[test]
fn chains_of_near_hashes_cluster() {
    // Each is one bit from the next; the ends are three bits apart.
    let hashes = vec![vec![0u8], vec![0b111], vec![0b1], vec![0b11], vec![0xf8]];
    assert_eq!(cluster_hashes(&hashes, 1), vec![vec![0, 1, 2, 3], vec![4]]);
    assert_eq!(
        cluster_hashes(&hashes, 0),
        vec![vec![0], vec![1], vec![2], vec![3], vec![4]]
    );
    assert_eq!(cluster_hashes(&hashes, 8), vec![vec![0, 1, 2, 3, 4]]);
    assert_eq!(cluster_hashes(&Vec::new(), 8), Vec::<Vec<usize>>::new());
}

#[test]
fn clusters_are_in_ascending_order() {
    let hashes = vec![vec![0xffu8], vec![0], vec![0xfe], vec![1], vec![0x0f]];
    assert_eq!(cluster_hashes(&hashes, 1), vec![vec![0, 2], vec![1, 3], vec![4]]);
}

#[test]
fn duplicates_are_found_at_the_default_distance() {
    // Twelve bits apart, and two bits apart.
    let hashes: Vec<String> =
        vec!["AAA".to_string(), "//8".to_string(), "AAM".to_string()];
    let two = hash_distance("AAA", "AAM").unwrap();
    assert_eq!(two, hash_distance("AAM", "AAA").unwrap());
    assert!(two <= DEFAULT_DUP_DISTANCE);
    assert_eq!(find_duplicate_clusters(&hashes, None), Ok(vec![vec![0, 2], vec![1]]));
    assert_eq!(find_duplicate_clusters(&hashes, Some(16)), Ok(vec![vec![0, 1, 2]]));
    assert_eq!(
        find_duplicate_clusters(&hashes, Some(0)),
        Ok(vec![vec![0], vec![1], vec![2]])
    );
}

#[test]
fn same_pixels_give_distance_zero() {
    assert_eq!(hash_distance_images(&pattern_image(2), &pattern_image(2)), 0);
}

#[test]
fn fingerprint_holds_hash_and_time() {
    let t = at("2024:01:15 14:30:00");
    let f = fingerprint(7, &pattern_image(0), Some(t));
    assert_eq!(f.id, 7);
    assert_eq!(f.timestamp, Some(t));
    assert_eq!(f.phash, perceptual_hash(&pattern_image(0)));
}

#[test]
fn bursts_are_sorted_by_time_and_keep_every_frame() {
    let items = vec![
        frame(10, Some(at("2024:01:15 14:30:05"))),
        frame(11, None),
        frame(12, Some(at("2024:01:15 14:30:00"))),
        frame(13, Some(at("2024:01:15 14:30:02"))),
        frame(14, None),
        frame(15, Some(at("2024:01:15 14:30:02"))),
    ];
    assert_eq!(
        group_bursts(&items, 2),
        vec![vec![12, 13, 15], vec![10], vec![11], vec![14]]
    );
    assert_eq!(group_bursts(&items, 3), vec![vec![12, 13, 15, 10], vec![11], vec![14]]);
    assert_eq!(
        group_bursts(&items, -1),
        vec![vec![12], vec![13], vec![15], vec![10], vec![11], vec![14]]
    );
    assert_eq!(group_bursts(&[], 2), Vec::<Vec<usize>>::new());
}

#[test]
fn gaps_count_fractions_of_a_second() {
    let items = vec![
        frame(0, Some(Timestamp { nanos: 0, ..at("2024:01:15 14:30:00") })),
        frame(1, Some(Timestamp { nanos: 500_000_000, ..at("2024:01:15 14:30:02") })),
    ];
    assert_eq!(group_bursts(&items, 2), vec![vec![0], vec![1]]);
    assert_eq!(group_bursts(&items, 3), vec![vec![0, 1]]);
    let near = vec![
        frame(0, Some(Timestamp { seconds: 100, nanos: 999_999_999 })),
        frame(1, Some(Timestamp { seconds: 102, nanos: 999_999_999 })),
        frame(2, Some(Timestamp { seconds: 105, nanos: 0 })),
        frame(3, Some(Timestamp { seconds: 107, nanos: 1 })),
    ];
    assert_eq!(group_bursts(&near, 2), vec![vec![0, 1], vec![2], vec![3]]);
    let same = vec![
        frame(0, Some(Timestamp { seconds: 100, nanos: 7 })),
        frame(1, Some(Timestamp { seconds: 100, nanos: 7 })),
        frame(2, Some(Timestamp { seconds: 100, nanos: 8 })),
    ];
    assert_eq!(group_bursts(&same, 0), vec![vec![0, 1], vec![2]]);
    assert_eq!(group_bursts(&same, -1), vec![vec![0], vec![1], vec![2]]);
}

#[test]
fn leap_seconds_count_as_chrono_counts_them() {
    // 1 ns into the leap second that follows second 59, and the next minute.
    let leap = Timestamp { seconds: 59, nanos: 1_000_000_001 };
    let next = Timestamp { seconds: 61, nanos: 0 };
    let items = vec![frame(0, Some(leap)), frame(1, Some(next))];
    let plain = chrono::DateTime::from_timestamp(59, 1_000_000_001).unwrap().naive_utc();
    let later = chrono::DateTime::from_timestamp(61, 0).unwrap().naive_utc();
    assert_eq!((later - plain).num_nanoseconds(), Some(1_999_999_999));
    assert_eq!(group_bursts(&items, 2), vec![vec![0, 1]]);
    assert_eq!(group_bursts(&items, 1), vec![vec![0], vec![1]]);
    // Across midnight a leap second is not counted, and the gap is negative.
    let eve = Timestamp { seconds: 86_399, nanos: 1_900_000_000 };
    let day = Timestamp { seconds: 86_400, nanos: 0 };
    let items = vec![frame(0, Some(day)), frame(1, Some(eve))];
    assert_eq!(group_bursts(&items, 0), vec![vec![1, 0]]);
    assert_eq!(group_bursts(&items, -1), vec![vec![1], vec![0]]);
}

#[test]
fn images_without_pixels_have_hashes() {
    for (width, height) in [(0u32, 0u32), (0, 5), (5, 0)] {
        let empty = Image { width, height, data: Vec::new() };
        assert_eq!(perceptual_hash(&empty).len(), 11);
    }
    let dot = Image { width: 1, height: 1, data: vec![1, 2, 3] };
    assert_eq!(perceptual_hash(&dot).len(), 11);
}

#[test]
fn distances_add_up() {
    let text = |bytes: [u8; 2]| {
        image_hasher::ImageHash::<Box<[u8]>>::from_bytes(&bytes).unwrap().to_base64()
    };
    let dist = |a: [u8; 2], b: [u8; 2]| hash_distance(&text(a), &text(b)).unwrap();
    let samples = [[0u8, 0], [0xff, 0xff], [0x0f, 1], [0xf0, 0x80], [0x55, 0xaa]];
    for a in samples {
        for b in samples {
            assert!(dist(a, b) <= 16);
            for c in samples {
                assert!(dist(a, c) <= dist(a, b) + dist(b, c));
            }
        }
    }
    assert_eq!(dist([0, 0], [0xff, 0xff]), 16);
}

#[test]
fn higher_limits_only_merge() {
    let hashes = vec![vec![0b0000u8], vec![0b0001], vec![0b0111], vec![0b1111_0000]];
    assert_eq!(cluster_hashes(&hashes, 0), vec![vec![0], vec![1], vec![2], vec![3]]);
    assert_eq!(cluster_hashes(&hashes, 1), vec![vec![0, 1], vec![2], vec![3]]);
    assert_eq!(cluster_hashes(&hashes, 2), vec![vec![0, 1, 2], vec![3]]);
    assert_eq!(cluster_hashes(&hashes, 4), vec![vec![0, 1, 2, 3]]);
    let counts: Vec<usize> = (0..9).map(|d| cluster_hashes(&hashes, d).len()).collect();
    assert!(counts.windows(2).all(|pair| pair[1] <= pair[0]), "{counts:?}");
}
