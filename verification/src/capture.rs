//! When a photo was taken: capture times, their gaps, and the EXIF fields they
//! are read from.
use chrono::Timelike;
use vstd::prelude::*;
use vstd::utf8::{decode_utf8, encode_utf8, valid_utf8};
use crate::text::{
    is_white_space, text_view, trim, trimmed, trimming_takes_off_the_ends, Trimmed,
};

verus! {

/// First second of the calendar, counted from the start of 1970.
pub const MIN_SECONDS: i64 = -8_334_601_228_800;

/// Last second of the calendar.
pub const MAX_SECONDS: i64 = 8_210_266_876_799;

/// EXIF tag number of `DateTimeOriginal`.
pub const DATE_TIME_ORIGINAL: u16 = 0x9003;

/// EXIF tag number of `SubSecTimeOriginal`.
pub const SUB_SEC_TIME_ORIGINAL: u16 = 0x9291;

/// A date and time without a time zone: seconds since the start of 1970, leap
/// seconds not counted, and nanoseconds. Nanoseconds from one billion on stand
/// for a leap second that follows the second.
#[derive(Clone, Copy, PartialEq, Eq, Structural, Debug)]
pub struct Timestamp {
    pub seconds: i64,
    pub nanos: u32,
}

impl Timestamp {
    /// A time that the calendar has.
    pub open spec fn wf(self) -> bool {
        MIN_SECONDS <= self.seconds <= MAX_SECONDS && self.nanos < 2_000_000_000
    }

    /// A number that orders times: by seconds, then by nanoseconds.
    pub open spec fn key(self) -> int {
        self.seconds * 2_000_000_000 + self.nanos
    }

    /// The second of the day.
    pub open spec fn second_of_day(self) -> int {
        self.seconds as int % 86_400
    }

    /// The number that orders this time.
    pub fn order_key(self) -> (r: i128)
        requires
            self.wf(),
        ensures
            r == self.key(),
    {
        self.seconds as i128 * 2_000_000_000 + self.nanos as i128
    }
}

/// Nanoseconds from `earlier` to `later`. A leap second that one of the two
/// lies in counts where the other lies on its far side in the day.
pub open spec fn gap_nanos(later: Timestamp, earlier: Timestamp) -> int {
    let leap: int = if later.second_of_day() > earlier.second_of_day() && earlier.nanos
        >= 1_000_000_000 {
        1
    } else if later.second_of_day() < earlier.second_of_day() && later.nanos >= 1_000_000_000 {
        -1
    } else {
        0
    };
    (later.seconds - earlier.seconds + leap) * 1_000_000_000 + later.nanos - earlier.nanos
}

/// `chrono`'s difference of two `NaiveDateTime`s, in the seconds and nanoseconds
/// that `TimeDelta::num_seconds` and `TimeDelta::subsec_nanos` give: together they
/// are the whole gap, and the nanoseconds are less than a second either way.
#[verifier::external_body]
pub(crate) fn time_between(later: Timestamp, earlier: Timestamp) -> (r: (i64, i32))
    requires
        later.wf(),
        earlier.wf(),
    ensures
        r.0 * 1_000_000_000 + r.1 == gap_nanos(later, earlier),
        -1_000_000_000 < r.1 < 1_000_000_000,
{
    let at = |t: Timestamp| chrono::DateTime::from_timestamp(t.seconds, 0).unwrap().naive_utc();
    let end = at(later).with_nanosecond(later.nanos).unwrap();
    let start = at(earlier).with_nanosecond(earlier.nanos).unwrap();
    let gap = end - start;
    (gap.num_seconds(), gap.subsec_nanos())
}

/// What `chrono` writes for a time in the form `%Y-%m-%d %H:%M:%S`.
pub uninterp spec fn time_text(seconds: i64, nanos: u32) -> Seq<char>;

/// `chrono`'s `NaiveDateTime::format` with the form `%Y-%m-%d %H:%M:%S`.
#[verifier::external_body]
pub(crate) fn format_time(t: Timestamp) -> (r: String)
    requires
        t.wf(),
    ensures
        r@ == time_text(t.seconds, t.nanos),
{
    let at = chrono::DateTime::from_timestamp(t.seconds, 0).unwrap().naive_utc();
    at.with_nanosecond(t.nanos).unwrap().format("%Y-%m-%d %H:%M:%S").to_string()
}

/// The seconds and nanoseconds that `chrono` reads from a text of a given form,
/// if it can.
pub uninterp spec fn parsed_time(text: Seq<char>, form: Seq<char>) -> Option<(i64, u32)>;

/// `chrono`'s `NaiveDateTime::parse_from_str`.
#[verifier::external_body]
fn parse_time(text: &str, form: &str) -> (r: Option<Timestamp>)
    ensures
        r is Some <==> parsed_time(text@, form@) is Some,
        r matches Some(t) ==> t.wf() && parsed_time(text@, form@) == Some((t.seconds, t.nanos)),
{
    let at = chrono::NaiveDateTime::parse_from_str(text, form).ok()?.and_utc();
    Some(Timestamp { seconds: at.timestamp(), nanos: at.timestamp_subsec_nanos() })
}

// ---------------------------------------------------------------------------
// EXIF
// ---------------------------------------------------------------------------

/// The ASCII components of an EXIF field of the primary image in a file with these
/// bytes: `None` where the file holds no readable EXIF data, no such field, or one
/// of another type.
pub uninterp spec fn exif_ascii(container: Seq<u8>, tag: u16) -> Option<Seq<Seq<u8>>>;

/// `exif`'s `Reader::read_from_container` on the bytes of a file, and
/// `Exif::get_field` for the tag number `tag` of the EXIF context in the
/// primary image: all the components of the field, where it is an ASCII one.
#[verifier::external_body]
fn read_exif_ascii(container: &[u8], tag: u16) -> (r: Option<Vec<Vec<u8>>>)
    ensures
        components_view(r) == exif_ascii(container@, tag),
{
    let mut reader = std::io::Cursor::new(container);
    let exif = exif::Reader::new().read_from_container(&mut reader).ok()?;
    let field = exif.get_field(exif::Tag(exif::Context::Exif, tag), exif::In::PRIMARY)?;
    match field.value {
        exif::Value::Ascii(ref texts) => Some(texts.clone()),
        _ => None,
    }
}

/// The bytes of the components of an optional field.
pub open spec fn components_view(field: Option<Vec<Vec<u8>>>) -> Option<Seq<Seq<u8>>> {
    match field {
        Some(texts) => Some(texts@.map_values(|bytes: Vec<u8>| bytes@)),
        None => None,
    }
}

/// `std`'s `str::from_utf8`: the text that bytes encode, where they are UTF-8.
#[verifier::external_body]
fn utf8_text(bytes: &[u8]) -> (r: Option<&str>)
    ensures
        r is Some <==> valid_utf8(bytes@),
        r matches Some(text) ==> encode_utf8(text@) == bytes@,
{
    std::str::from_utf8(bytes).ok()
}

/// The text of a field: the bytes of its first component as UTF-8, without NUL
/// characters and then without white space at the ends.
pub open spec fn field_text(components: Option<Seq<Seq<u8>>>) -> Option<Seq<char>> {
    match components {
        Some(texts) => if texts.len() > 0 && valid_utf8(texts[0]) {
            Some(trimmed(trimmed(decode_utf8(texts[0]), Trimmed::Nul), Trimmed::WhiteSpace))
        } else {
            None
        },
        None => None,
    }
}

/// The text of a field with these components.
pub fn ascii_field(components: Option<Vec<Vec<u8>>>) -> (r: Option<String>)
    ensures
        text_view(r) == field_text(components_view(components)),
{
    match components {
        Some(texts) => {
            if texts.len() == 0 {
                return None;
            }
            match utf8_text(texts[0].as_slice()) {
                Some(text) => {
                    proof {
                        vstd::utf8::encode_utf8_decode_utf8(text@);
                    }
                    let bare: String = trim(text, Trimmed::Nul);
                    Some(trim(bare.as_str(), Trimmed::WhiteSpace))
                },
                None => None,
            }
        },
        None => None,
    }
}

/// A capture time as EXIF records it: the whole second, and the digits of its
/// fraction as a text where the camera wrote them.
#[derive(Debug)]
pub struct CaptureTime {
    pub taken: Timestamp,
    pub subsec: Option<String>,
}

/// The second that a date text stands for, and the digits beside it.
pub open spec fn is_capture_time(
    r: Option<CaptureTime>,
    date: Option<Seq<char>>,
    subsec: Option<Seq<char>>,
) -> bool {
    match date {
        Some(text) => {
            let second = parsed_time(
                trimmed(text, Trimmed::WhiteSpace),
                "%Y:%m:%d %H:%M:%S"@,
            );
            &&& r is Some <==> second is Some
            &&& r matches Some(t) ==> {
                &&& t.taken.wf()
                &&& second == Some((t.taken.seconds, t.taken.nanos))
                &&& text_view(t.subsec) == (match subsec {
                    Some(digits) => Some(trimmed(digits, Trimmed::WhiteSpace)),
                    None => None,
                })
            }
        },
        None => r is None,
    }
}

/// The capture time that the texts of two fields give: `None` without a date,
/// or with one that cannot be read.
pub fn capture_time(date: Option<String>, subsec: Option<String>) -> (r: Option<CaptureTime>)
    ensures
        is_capture_time(r, text_view(date), text_view(subsec)),
{
    match date {
        Some(text) => {
            let bare: String = trim(text.as_str(), Trimmed::WhiteSpace);
            match parse_time(bare.as_str(), "%Y:%m:%d %H:%M:%S") {
                Some(taken) => {
                    let digits: Option<String> = match subsec {
                        Some(s) => Some(trim(s.as_str(), Trimmed::WhiteSpace)),
                        None => None,
                    };
                    Some(CaptureTime { taken, subsec: digits })
                },
                None => None,
            }
        },
        None => None,
    }
}

/// EXIF capture time (`DateTimeOriginal`, and the text of `SubSecTimeOriginal`)
/// of a file with these bytes. `None` where there is no readable time.
pub fn exif_timestamp(container: &[u8]) -> (r: Option<CaptureTime>)
    ensures
        is_capture_time(
            r,
            field_text(exif_ascii(container@, DATE_TIME_ORIGINAL)),
            field_text(exif_ascii(container@, SUB_SEC_TIME_ORIGINAL)),
        ),
{
    let date: Option<String> = ascii_field(read_exif_ascii(container, DATE_TIME_ORIGINAL));
    let subsec: Option<String> = ascii_field(read_exif_ascii(container, SUB_SEC_TIME_ORIGINAL));
    capture_time(date, subsec)
}

impl CaptureTime {
    /// The time with its nanoseconds set, where they are given and are fewer
    /// than two billion; the whole second otherwise.
    pub fn with_nanos(&self, nanos: Option<u32>) -> (r: Timestamp)
        ensures
            r.seconds == self.taken.seconds,
            r.nanos == (match nanos {
                Some(n) => if n < 2_000_000_000 {
                    n
                } else {
                    self.taken.nanos
                },
                None => self.taken.nanos,
            }),
            self.taken.wf() ==> r.wf(),
    {
        match nanos {
            Some(n) => {
                if n < 2_000_000_000 {
                    Timestamp { seconds: self.taken.seconds, nanos: n }
                } else {
                    self.taken
                }
            },
            None => self.taken,
        }
    }
}

/// Away from leap seconds the gap is the plain difference, and later times have
/// no negative one.
pub proof fn gap_without_leap_seconds(later: Timestamp, earlier: Timestamp)
    requires
        later.nanos < 1_000_000_000,
        earlier.nanos < 1_000_000_000,
    ensures
        gap_nanos(later, earlier) == (later.seconds - earlier.seconds) * 1_000_000_000 + later.nanos
            - earlier.nanos,
        later.key() >= earlier.key() ==> gap_nanos(later, earlier) >= 0,
{
}

// ---------------------------------------------------------------------------
// What a capture time is made of
// ---------------------------------------------------------------------------

/// Times order as their seconds do, and in one second as their nanoseconds do.
pub proof fn times_order_by_seconds_first(a: Timestamp, b: Timestamp)
    requires
        a.nanos < 2_000_000_000,
        b.nanos < 2_000_000_000,
    ensures
        a.key() < b.key() <==> a.seconds < b.seconds || (a.seconds == b.seconds && a.nanos
            < b.nanos),
        a.key() == b.key() <==> a == b,
{
}

/// The text of a field comes from its first component alone.
pub proof fn only_the_first_component_counts(a: Seq<Seq<u8>>, b: Seq<Seq<u8>>)
    requires
        a.len() > 0,
        b.len() > 0,
        a[0] == b[0],
    ensures
        field_text(Some(a)) == field_text(Some(b)),
        field_text(Some(a)) is Some <==> valid_utf8(a[0]),
        field_text(Some(Seq::<Seq<u8>>::empty())) is None,
        field_text(None) is None,
{
}

/// The text of a field that is bare already, with neither white space nor NUL
/// characters at its ends, is what its bytes encode; no text of a field opens or ends
/// in white space.
pub proof fn field_texts_are_bare(components: Seq<Seq<u8>>)
    requires
        components.len() > 0,
        valid_utf8(components[0]),
    ensures
        field_text(Some(components)) is Some,
        ({
            let all = decode_utf8(components[0]);
            let text = field_text(Some(components))->Some_0;
            &&& text.len() <= all.len()
            &&& text.len() > 0 ==> !is_white_space(text[0]) && !is_white_space(text.last())
            &&& all.len() > 0 && all[0] != '\0' && !is_white_space(all[0]) && all.last() != '\0'
                && !is_white_space(all.last()) ==> text == all
        }),
{
    let all = decode_utf8(components[0]);
    let inner = trimmed(all, Trimmed::Nul);
    let (a, b) = trimming_takes_off_the_ends(all, Trimmed::Nul);
    let (c, d) = trimming_takes_off_the_ends(inner, Trimmed::WhiteSpace);
    let text = trimmed(inner, Trimmed::WhiteSpace);
    if all.len() > 0 && all[0] != '\0' && !is_white_space(all[0]) && all.last() != '\0'
        && !is_white_space(all.last()) {
        if a > 0 {
            assert(Trimmed::Nul.takes(all[0]));
        }
        if b < all.len() {
            assert(Trimmed::Nul.takes(all[all.len() - 1]));
        }
        assert(inner =~= all);
        if c > 0 {
            assert(Trimmed::WhiteSpace.takes(inner[0]));
        }
        if d < all.len() {
            assert(Trimmed::WhiteSpace.takes(inner[all.len() - 1]));
        }
        assert(text =~= all);
    }
}

/// Without a date there is no capture time, whatever the fraction says; with one there
/// is a time exactly where the date reads as year, month, day, hour, minute and second,
/// and it is that second. The fraction is handed on, without the white space around it.
pub proof fn the_date_makes_the_time(
    r: Option<CaptureTime>,
    date: Option<Seq<char>>,
    subsec: Option<Seq<char>>,
)
    requires
        is_capture_time(r, date, subsec),
    ensures
        date is None ==> r is None,
        date is Some ==> (r is Some <==> parsed_time(
            trimmed(date->Some_0, Trimmed::WhiteSpace),
            "%Y:%m:%d %H:%M:%S"@,
        ) is Some),
        r is Some ==> parsed_time(
            trimmed(date->Some_0, Trimmed::WhiteSpace),
            "%Y:%m:%d %H:%M:%S"@,
        ) == Some((r->Some_0.taken.seconds, r->Some_0.taken.nanos)),
        r is Some ==> (r->Some_0.subsec is Some <==> subsec is Some),
        r is Some && subsec is Some ==> r->Some_0.subsec->Some_0@ == trimmed(
            subsec->Some_0,
            Trimmed::WhiteSpace,
        ),
{
}

/// The capture time of a file comes from its fields 0x9003, the date and time, and
/// 0x9291, the fraction of the second.
pub proof fn times_come_from_two_fields(r: Option<CaptureTime>, container: Seq<u8>)
    requires
        is_capture_time(
            r,
            field_text(exif_ascii(container, DATE_TIME_ORIGINAL)),
            field_text(exif_ascii(container, SUB_SEC_TIME_ORIGINAL)),
        ),
    ensures
        exif_ascii(container, 0x9003) is None ==> r is None,
        r is Some ==> field_text(exif_ascii(container, 0x9003)) is Some,
        r is Some ==> (r->Some_0.subsec is Some <==> field_text(exif_ascii(container, 0x9291))
            is Some),
{
}

} // verus!
