//! Reports on folders, exports, and the texts they are made of.

use base64::Engine;
use image::{DynamicImage, ImageFormat, Rgb, RgbImage};
use photo_cull::capture::Timestamp;
use photo_cull::dedup::perceptual_hash;
use photo_cull::export::{candidate_name, export_kept, ExportAction, ExportJob, ExportResult};
use photo_cull::face::{EyesState, FaceAnalysis, FaceBox};
use photo_cull::float_bits::{Float32, Float64};
use photo_cull::library::{
    jpeg_data_uri, photo_report, thumbnail_data_uri, thumbnail_fits, LibraryScan,
};
use photo_cull::numbering::number_groups;
use photo_cull::order::stable_order;
use photo_cull::raster::Image;
use photo_cull::text::{append_decimal, greet, split_name, trim, Trimmed};
use photo_cull::union_find::UnionFind;
use photo_cull::vision::{blur_score, BlurAssessment};

fn rgb(seed: u32) -> RgbImage {
    RgbImage::from_fn(64, 48, |x, y| {
        let v = (x * (seed * 13 + 3) + y * y * (seed + 1)) as u8;
        Rgb([v, v.wrapping_mul(3), 255 - v])
    })
}

fn picture(seed: u32) -> Image {
    Image { width: 64, height: 48, data: rgb(seed).into_raw() }
}

fn number(v: f64) -> Float64 {
    Float64 { bits: v.to_bits() }
}

fn blur(score: f64, is_blurry: bool) -> BlurAssessment {
    BlurAssessment { score: number(score), is_blurry }
}

fn short(v: f32) -> Float32 {
    Float32 { bits: v.to_bits() }
}

fn text(v: &str) -> String {
    v.to_string()
}

fn expected_uri(full: RgbImage) -> String {
    let thumb = DynamicImage::ImageRgb8(full).thumbnail(320, 320).to_rgb8();
    let mut file = std::io::Cursor::new(Vec::new());
    DynamicImage::ImageRgb8(thumb).write_to(&mut file, ImageFormat::Jpeg).unwrap();
    format!(
        "data:image/jpeg;base64,{}",
        base64::engine::general_purpose::STANDARD.encode(file.get_ref())
    )
}

#[test]
fn thumbnail_is_a_jpeg_data_uri() {
    assert_eq!(thumbnail_data_uri(&picture(1)), expected_uri(rgb(1)));
    let wide = RgbImage::from_fn(1000, 200, |x, y| Rgb([x as u8, y as u8, 9]));
    let img = Image { width: 1000, height: 200, data: wide.clone().into_raw() };
    assert_eq!(thumbnail_data_uri(&img), expected_uri(wide));
}

#[test]
fn odd_shapes_have_thumbnails() {
    for (width, height) in [(0u32, 0u32), (0, 5), (5, 0), (1, 1), (3000, 1), (1, 3000)] {
        let img =
            Image { width, height, data: vec![77; (width * height * 3) as usize] };
        let full = RgbImage::from_raw(width, height, img.data.clone()).unwrap();
        assert_eq!(thumbnail_data_uri(&img), expected_uri(full));
    }
}

#[test]
fn long_images_have_thumbnails() {
    assert!(thumbnail_fits(1_048_576, 1_048_576));
    assert!(thumbnail_fits(u32::MAX, 1));
    assert!(!thumbnail_fits(1_048_577, 1_048_576));
    assert!(!thumbnail_fits(u32::MAX, u32::MAX));
    let long = RgbImage::from_pixel(1_048_576, 2, Rgb([255, 255, 255]));
    let img = Image { width: 1_048_576, height: 2, data: long.clone().into_raw() };
    assert_eq!(thumbnail_data_uri(&img), expected_uri(long));
}

#[test]
fn data_uri_is_padded_base64() {
    assert_eq!(jpeg_data_uri(&[]), "data:image/jpeg;base64,");
    assert_eq!(jpeg_data_uri(&[0xff]), "data:image/jpeg;base64,/w==");
    assert_eq!(jpeg_data_uri(&[0xff, 0xd8]), "data:image/jpeg;base64,/9g=");
    assert_eq!(jpeg_data_uri(&[0xff, 0xd8, 0xff]), "data:image/jpeg;base64,/9j/");
    assert_eq!(jpeg_data_uri(b"light wo"), "data:image/jpeg;base64,bGlnaHQgd28=");
}

#[test]
fn a_photo_without_a_face_is_judged_by_its_frame() {
    let img = picture(2);
    let report = photo_report(text("/p/a.jpg"), text("a.jpg"), &img, None, None);
    assert_eq!((report.path.as_str(), report.name.as_str()), ("/p/a.jpg", "a.jpg"));
    assert_eq!((report.width, report.height), (64, 48));
    assert_eq!(report.frame_blur, blur_score(&img));
    assert_eq!(report.subject_blur, None);
    assert!(!report.is_blurry && !report.has_face);
    let flat = Image { width: 8, height: 8, data: vec![9; 192] };
    assert!(photo_report(text("f"), text("f"), &flat, None, None).is_blurry);
    assert!(report.eyes.is_none() && report.timestamp.is_none() && report.error.is_none());
    assert_eq!(report.phash, perceptual_hash(&img));
    assert_eq!(report.thumbnail, thumbnail_data_uri(&img));
}

#[test]
fn a_photo_with_a_face_is_judged_by_the_face() {
    let face = FaceBox {
        x: short(1.0),
        y: short(2.0),
        w: short(30.0),
        h: short(40.0),
        score: short(0.9),
    };
    let eyes = EyesState {
        left_ear: short(0.1),
        right_ear: short(0.3),
        both_closed: false,
        any_closed: true,
    };
    let analysis =
        FaceAnalysis { face: Some(face), face_blur: Some(blur(20.0, true)), eyes: Some(eyes) };
    let taken = Timestamp { seconds: 1_705_329_007, nanos: 250_000_000 };
    let report = photo_report(
        text("b.jpg"),
        text("b.jpg"),
        &picture(3),
        Some(analysis),
        Some(taken),
    );
    assert!(report.has_face && report.is_blurry);
    assert_eq!(report.frame_blur, blur_score(&picture(3)));
    assert_eq!(report.subject_blur, Some(number(20.0)));
    let told = report.eyes.unwrap();
    assert_eq!((told.left_ear, told.right_ear), (short(0.1), short(0.3)));
    assert!(told.any_closed && !told.both_closed);
    assert_eq!(report.timestamp.as_deref(), Some("2024-01-15 14:30:07"));
}

#[test]
fn a_scan_groups_duplicates_and_bursts() {
    let mut scan = LibraryScan::new();
    let at = |seconds: i64| Some(Timestamp { seconds, nanos: 0 });
    scan.add_photo(text("a"), text("a"), &picture(1), None, at(100));
    scan.add_failed(text("b"), text("b"), text("failed to decode b"));
    scan.add_photo(text("c"), text("c"), &picture(7), None, at(101));
    scan.add_photo(text("d"), text("d"), &picture(1), None, at(500));
    scan.add_photo(text("e"), text("e"), &picture(1), None, None);
    scan.add_photo(text("f"), text("f"), &picture(7), None, at(502));
    let report = scan.finish(text("/photos")).unwrap();
    assert_eq!(report.folder, "/photos");
    let clusters: Vec<Option<usize>> = report.photos.iter().map(|p| p.cluster).collect();
    let bursts: Vec<Option<usize>> = report.photos.iter().map(|p| p.burst).collect();
    assert_eq!(clusters, vec![Some(1), None, Some(2), Some(1), Some(1), Some(2)]);
    assert_eq!(bursts, vec![Some(1), None, Some(1), Some(2), None, Some(2)]);
    assert_eq!((report.duplicate_groups, report.burst_groups), (2, 2));
    let failed = &report.photos[1];
    assert_eq!(failed.error.as_deref(), Some("failed to decode b"));
    assert_eq!((failed.width, failed.height, failed.frame_blur), (0, 0, number(0.0)));
    assert!(failed.thumbnail.is_empty() && failed.phash.is_empty());
    assert!(!failed.is_blurry && !failed.has_face);
    let names: Vec<&str> = report.photos.iter().map(|p| p.name.as_str()).collect();
    assert_eq!(names, vec!["a", "b", "c", "d", "e", "f"]);
}

#[test]
fn single_photos_have_no_number() {
    let mut scan = LibraryScan::new();
    scan.add_photo(text("a"), text("a"), &picture(1), None, None);
    let report = scan.finish(String::new()).unwrap();
    assert_eq!((report.photos[0].cluster, report.photos[0].burst), (None, None));
    assert_eq!((report.duplicate_groups, report.burst_groups), (0, 0));
    let none = LibraryScan::new().finish(text("x")).unwrap();
    assert!(none.photos.is_empty());
}

#[test]
fn numbers_run_from_one_to_the_count() {
    let mut scan = LibraryScan::new();
    let at = |seconds: i64| Some(Timestamp { seconds, nanos: 0 });
    for (i, (seed, taken)) in
        [(1, at(10)), (5, None), (1, at(500)), (5, at(11)), (9, at(501)), (1, at(12))]
            .into_iter()
            .enumerate()
    {
        scan.add_photo(format!("/p/{i}"), format!("{i}"), &picture(seed), None, taken);
        scan.add_failed(format!("/f/{i}"), format!("f{i}"), text("broken"));
    }
    for (i, photo) in scan.photos.iter().enumerate() {
        assert_eq!(photo.error.is_none(), scan.hash_photo.contains(&i), "{i}");
    }
    let report = scan.finish(text("/p")).unwrap();
    assert!(report.duplicate_groups >= 2 && report.burst_groups == 2);
    let count = |pick: &dyn Fn(usize) -> Option<usize>, n: usize| {
        (0..report.photos.len()).filter(|&i| pick(i) == Some(n)).count()
    };
    let cluster = |i: usize| report.photos[i].cluster;
    let burst = |i: usize| report.photos[i].burst;
    for n in 0..10 {
        assert_eq!(count(&cluster, n) >= 2, (1..=report.duplicate_groups).contains(&n), "{n}");
        assert_eq!(count(&burst, n) >= 2, (1..=report.burst_groups).contains(&n), "{n}");
        assert!(count(&cluster, n) != 1 && count(&burst, n) != 1);
    }
}

#[test]
fn groups_of_more_than_one_are_numbered() {
    let groups = vec![vec![4], vec![0, 2], vec![], vec![1], vec![3, 5]];
    let (numbers, count) = number_groups(&groups, 7);
    assert_eq!(numbers, vec![Some(1), None, Some(1), Some(2), None, Some(2), None]);
    assert_eq!(count, 2);
}

// --- export ---------------------------------------------------------------

/// Runs an export against a folder that holds `taken`; copies of paths that end
/// in `bad` fail.
fn run(mut job: ExportJob, taken: &mut Vec<String>) -> ExportResult {
    loop {
        match job.next_action() {
            ExportAction::Probe { name } => job.probed(taken.contains(&name)),
            ExportAction::Copy { source, name } => {
                assert!(!taken.contains(&name), "{name} would be overwritten");
                if source.ends_with("bad") {
                    job.copy_done(Err(text("no such file")));
                } else {
                    taken.push(name);
                    job.copy_done(Ok(()));
                }
            }
            ExportAction::Finish => return job.finish(),
        }
    }
}

#[test]
fn export_numbers_colliding_names() {
    let paths = vec![text("/a/x.jpg"), text("/b/x.jpg"), text("/c/x.jpg"), text("/d/y")];
    let mut taken = vec![text("x.jpg"), text("y"), text("y (1)")];
    let job = export_kept(paths, text("/out"), true).unwrap();
    let result = run(job, &mut taken);
    assert_eq!(result.copied, 4);
    assert_eq!(result.dest, "/out");
    assert!(result.errors.is_empty());
    assert_eq!(taken[3..], ["x (1).jpg", "x (2).jpg", "x (3).jpg", "y (2)"]);
}

#[test]
fn export_notes_what_went_wrong() {
    let paths = vec![text(".."), text("/a/bad"), text("/"), text("/a/z.png"), text("")];
    let mut taken = Vec::new();
    let result = run(export_kept(paths, text("/out"), true).unwrap(), &mut taken);
    assert_eq!(result.copied, 1);
    assert_eq!(
        result.errors,
        vec![
            "skipped (no file name): ..",
            "/a/bad: no such file",
            "skipped (no file name): /",
            "skipped (no file name): ",
        ]
    );
    assert_eq!(taken, vec!["z.png"]);
}

#[test]
fn export_keeps_the_end_of_a_path_with_backslashes() {
    let paths = vec![text("C:\\Photos\\x.jpg"), text("D:y.png"), text("a\\b/z.png")];
    let mut taken = Vec::new();
    let result = run(export_kept(paths, text("/out"), true).unwrap(), &mut taken);
    assert_eq!((result.copied, result.errors.len()), (3, 0));
    assert!(taken[0].ends_with("x.jpg") && taken[1].ends_with("y.png"));
    assert_eq!(taken[2], "z.png");
}

#[test]
fn export_needs_a_folder() {
    assert_eq!(
        export_kept(vec![text("a")], text("/nowhere"), false).unwrap_err(),
        "destination is not a folder: /nowhere"
    );
    let none = run(export_kept(Vec::new(), text("/out"), true).unwrap(), &mut Vec::new());
    assert_eq!((none.copied, none.errors.len()), (0, 0));
}

#[test]
fn numbers_stand_before_the_extension() {
    assert_eq!(candidate_name("a.b.jpg", 0), "a.b.jpg");
    assert_eq!(candidate_name("a.b.jpg", 12), "a.b (12).jpg");
    assert_eq!(candidate_name(".hidden", 1), ".hidden (1)");
    assert_eq!(candidate_name("dot.", 3), "dot (3).");
}

// --- texts and small structures ---------------------------------------------

#[test]
fn names_split_at_the_last_dot() {
    let split = |name: &str| {
        let path = std::path::Path::new(name);
        (
            path.file_stem().unwrap().to_str().unwrap().to_string(),
            path.extension().map(|e| e.to_str().unwrap().to_string()),
        )
    };
    for name in ["a.jpg", "a.b.c", ".a", ".a.b", "a.", "a..b", "...", "a"] {
        assert_eq!(split_name(name), split(name), "{name}");
    }
}

#[test]
fn trimming_is_that_of_str() {
    for sample in ["", " a b ", "\t\u{a0}x\u{3000}\n", "\u{200b}x", "\u{85}\u{2029}", "\0 x \0"] {
        assert_eq!(trim(sample, Trimmed::WhiteSpace), sample.trim(), "{sample:?}");
        assert_eq!(trim(sample, Trimmed::Nul), sample.trim_matches('\0'), "{sample:?}");
    }
}

#[test]
fn white_space_is_that_of_char() {
    let mut buffer = [0u8; 4];
    for c in '\0'..=char::MAX {
        let kept = trim(c.encode_utf8(&mut buffer), Trimmed::WhiteSpace);
        assert_eq!(kept.is_empty(), c.is_whitespace(), "{c:?}");
    }
}

#[test]
fn decimals_are_written_out() {
    for n in [0u64, 7, 10, 1404, u64::MAX] {
        let mut out = text("n=");
        append_decimal(&mut out, n);
        assert_eq!(out, format!("n={n}"));
    }
}

#[test]
fn greeting_names_the_user() {
    assert_eq!(greet("Ada"), "Hello, Ada! You've been greeted from Rust!");
}

#[test]
fn sorting_is_stable() {
    assert_eq!(stable_order(&vec![3, 1, 2, 1, 3, -5]), vec![5, 1, 3, 2, 0, 4]);
    assert_eq!(stable_order(&Vec::new()), Vec::<usize>::new());
}

#[test]
fn unions_form_groups() {
    let mut uf = UnionFind::new(6);
    uf.union(4, 1);
    uf.union(5, 2);
    uf.union(1, 5);
    assert_eq!(uf.find(4), uf.find(2));
    assert_ne!(uf.find(0), uf.find(2));
    assert_eq!(uf.groups(), vec![vec![0], vec![1, 2, 4, 5], vec![3]]);
}
