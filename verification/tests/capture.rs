//! Capture times.

use photo_cull::bursts::{group_bursts, Fingerprint};
use photo_cull::capture::{
    ascii_field, capture_time, exif_timestamp, CaptureTime, Timestamp, MAX_SECONDS, MIN_SECONDS,
};

/// A little-endian TIFF file with an EXIF directory that holds the two texts.
fn tiff_with_times(date: &[u8], subsec: Option<&[u8]>) -> Vec<u8> {
    let fields = if subsec.is_some() { 2u16 } else { 1u16 };
    let exif_at = 8 + 2 + 12 + 4u32;
    let texts_at = exif_at + 2 + 12 * fields as u32 + 4;
    let mut file = b"II*\0\x08\0\0\0".to_vec();
    file.extend(1u16.to_le_bytes());
    file.extend(0x8769u16.to_le_bytes());
    file.extend(4u16.to_le_bytes());
    file.extend(1u32.to_le_bytes());
    file.extend(exif_at.to_le_bytes());
    file.extend(0u32.to_le_bytes());
    file.extend(fields.to_le_bytes());
    let mut texts = Vec::new();
    for (tag, text) in [(0x9003u16, Some(date)), (0x9291u16, subsec)] {
        if let Some(text) = text {
            file.extend(tag.to_le_bytes());
            file.extend(2u16.to_le_bytes());
            file.extend((text.len() as u32).to_le_bytes());
            if text.len() > 4 {
                file.extend((texts_at + texts.len() as u32).to_le_bytes());
                texts.extend_from_slice(text);
            } else {
                let mut short = text.to_vec();
                short.resize(4, 0);
                file.extend(short);
            }
        }
    }
    file.extend(0u32.to_le_bytes());
    file.extend(texts);
    file
}

fn seconds(text: &str) -> i64 {
    chrono::NaiveDateTime::parse_from_str(text, "%Y:%m:%d %H:%M:%S")
        .unwrap()
        .and_utc()
        .timestamp()
}

#[test]
fn exif_date_is_read() {
    let file = tiff_with_times(b"2024:01:15 14:30:07\0", None);
    let taken = exif_timestamp(&file).unwrap();
    assert_eq!(taken.taken, Timestamp { seconds: seconds("2024:01:15 14:30:07"), nanos: 0 });
    assert_eq!(taken.subsec, None);
}

#[test]
fn exif_fraction_is_read() {
    let file = tiff_with_times(b"2024:01:15 14:30:07\0", Some(b"25\0"));
    let taken = exif_timestamp(&file).unwrap();
    assert_eq!(taken.subsec.as_deref(), Some("25"));
    assert_eq!(taken.with_nanos(Some(250_000_000)).nanos, 250_000_000);
    assert_eq!(taken.with_nanos(None).nanos, 0);
}

#[test]
fn exif_without_a_readable_date_is_none() {
    assert!(exif_timestamp(&tiff_with_times(b"0000:00:00 00:00:00\0", None)).is_none());
    assert!(exif_timestamp(&tiff_with_times(b"yesterday, at noon.\0", Some(b"25\0"))).is_none());
    assert!(exif_timestamp(b"").is_none());
    assert!(exif_timestamp(b"not a picture").is_none());
}

#[test]
fn field_text_is_trimmed() {
    let field = |text: &[u8]| ascii_field(Some(vec![text.to_vec()]));
    assert_eq!(field(b" 12 \0\0").as_deref(), Some("12"));
    assert_eq!(field(b"\0 12\t").as_deref(), Some("12"));
    assert_eq!(field(b"\0\0").as_deref(), Some(""));
    assert_eq!(field(&[0xff, 0xfe]), None);
    assert_eq!(field("gr\u{fc}n".as_bytes()).as_deref(), Some("gr\u{fc}n"));
    assert_eq!(ascii_field(None), None);
}

#[test]
fn the_first_component_counts() {
    let first = vec![b"12".to_vec(), b"34".to_vec()];
    assert_eq!(ascii_field(Some(first)).as_deref(), Some("12"));
    assert_eq!(ascii_field(Some(vec![vec![0xff], b"34".to_vec()])), None);
    assert_eq!(ascii_field(Some(Vec::new())), None);
    let two = tiff_with_times(b"2024:01:15 14:30:00\x002025:01:15 14:30:00\0", None);
    assert_eq!(exif_timestamp(&two).unwrap().taken.seconds, 1_705_329_000);
}

#[test]
fn date_text_decides() {
    let date = |s: &str| Some(s.to_string());
    let taken = capture_time(date("1970:01:01 00:00:10"), date(" 5 ")).unwrap();
    assert_eq!(taken.taken, Timestamp { seconds: 10, nanos: 0 });
    assert_eq!(taken.subsec.as_deref(), Some("5"));
    assert!(capture_time(date("1970-01-01 00:00:10"), None).is_none());
    assert!(capture_time(None, date("5")).is_none());
    assert_eq!(
        capture_time(date("1969:12:31 23:59:59"), None).unwrap().taken.seconds,
        -1
    );
}

#[test]
fn leap_second_text_is_read() {
    let taken = capture_time(Some("1970:01:01 00:00:60".to_string()), None).unwrap();
    assert_eq!(taken.taken, Timestamp { seconds: 59, nanos: 1_000_000_000 });
}

#[test]
fn nanoseconds_out_of_range_are_dropped() {
    let taken = CaptureTime { taken: Timestamp { seconds: 10, nanos: 0 }, subsec: None };
    assert_eq!(taken.with_nanos(Some(1_999_999_999)).nanos, 1_999_999_999);
    assert_eq!(taken.with_nanos(Some(2_000_000_000)).nanos, 0);
    assert_eq!(taken.with_nanos(Some(u32::MAX)).seconds, 10);
}

#[test]
fn calendar_ends_where_chrono_ends() {
    assert_eq!(chrono::NaiveDateTime::MIN.and_utc().timestamp(), MIN_SECONDS);
    assert_eq!(chrono::NaiveDateTime::MAX.and_utc().timestamp(), MAX_SECONDS);
    assert!(chrono::DateTime::from_timestamp(MIN_SECONDS, 0).is_some());
    assert!(chrono::DateTime::from_timestamp(MAX_SECONDS, 0).is_some());
    assert!(chrono::DateTime::from_timestamp(MIN_SECONDS - 1, 0).is_none());
    assert!(chrono::DateTime::from_timestamp(MAX_SECONDS + 1, 0).is_none());
    let frame = |id: usize, seconds: i64| Fingerprint {
        id,
        phash: String::new(),
        timestamp: Some(Timestamp { seconds, nanos: 1_999_999_999 }),
    };
    let ends = vec![frame(0, MAX_SECONDS), frame(1, MIN_SECONDS)];
    assert_eq!(group_bursts(&ends, 2), vec![vec![1], vec![0]]);
    assert_eq!(group_bursts(&ends, i64::MAX), vec![vec![1, 0]]);
}
