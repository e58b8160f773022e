//! Analysis of a whole folder: what is reported of each photo, and which photos
//! are duplicates or belong to one burst.
use image::{DynamicImage, ImageFormat, RgbImage};
use std::io::Cursor;
use vstd::prelude::*;
use crate::base64_text::{base64_padded, base64_unpadded_length, encode_padded};
use crate::bursts::{
    are_bursts, bursts_are_disjoint, bursts_hold_frames, bursts_hold_frames_once, distinct_ids,
    group_bursts, neighbours_in_time, runs, Fingerprint, DEFAULT_BURST_GAP_SECS,
};
use crate::capture::{format_time, gap_nanos, time_text, Timestamp};
use crate::dedup::{
    are_clusters, cluster_by_similarity, decoded, decoded_all, far_hashes_stand_alone, hamming,
    near, perceptual_hash, phash_of, similar, DEFAULT_DUP_DISTANCE,
};
use crate::face::{EyesState, FaceAnalysis};
use crate::float_bits::{Float32, Float64};
use crate::links::{connected_is_reflexive, link_connects};
use crate::numbering::{
    disjoint, every_number_is_shared, lists, multiples, number_groups, number_is_that_of_the_group,
    number_of, numbers_are_within_the_count, numbers_tell_groups_apart,
    unlisted_items_have_no_number,
};
use crate::raster::{least, Image};
use crate::text::text_view;
use crate::union_find::{grouped, groups_are_no_more_than_indices, member};
use crate::vision::{
    assess_blur, greatest, score_of, BlurAssessment, DEFAULT_BLUR_THRESHOLD,
};

verus! {

/// Longest edge in pixels of the thumbnails.
pub const THUMB_MAX: u32 = 320;

/// Whether the sums of a thumbnail of an image of this size fit in 32 bits: neither
/// edge is longer than 2^20 pixels, or there are no more than 2^32 pixels. Each pixel
/// of the thumbnail is then the mean of fewer than 2^24 pixels of the image.
pub open spec fn fits_thumbnail(width: u32, height: u32) -> bool {
    (width <= 0x10_0000 && height <= 0x10_0000) || width * height <= 0x1_0000_0000
}

/// Whether the sums of a thumbnail of an image of this size fit in 32 bits.
pub fn thumbnail_fits(width: u32, height: u32) -> (r: bool)
    ensures
        r == fits_thumbnail(width, height),
{
    assert(width * height <= 0xffff_ffff * 0xffff_ffff) by (nonlinear_arith)
        requires
            0 <= width <= 0xffff_ffff,
            0 <= height <= 0xffff_ffff,
    ;
    (width <= 0x10_0000 && height <= 0x10_0000) || width as u64 * height as u64 <= 0x1_0000_0000
}

// ---------------------------------------------------------------------------
// Thumbnails
// ---------------------------------------------------------------------------

/// An image brought to the largest size of its shape that fits within bounds, by
/// averaging: its width, its height and its bytes.
pub uninterp spec fn thumbnail_of(
    width: u32,
    height: u32,
    rgb: Seq<u8>,
    nwidth: u32,
    nheight: u32,
) -> (u32, u32, Seq<u8>);

/// `image`'s `DynamicImage::thumbnail`: a function of the pixels and the bounds,
/// at least one pixel either way and no larger than the bounds. Its sums are of 32
/// bits, for which larger images can be too large.
#[verifier::external_body]
fn thumbnail(img: &Image, nwidth: u32, nheight: u32) -> (r: Image)
    requires
        img.wf(),
        fits_thumbnail(img.width, img.height),
        nwidth == THUMB_MAX,
        nheight == THUMB_MAX,
    ensures
        (r.width, r.height, r.data@) == thumbnail_of(
            img.width,
            img.height,
            img.data@,
            nwidth,
            nheight,
        ),
        r.wf(),
        1 <= r.width <= nwidth,
        1 <= r.height <= nheight,
{
    let rgb = RgbImage::from_raw(img.width, img.height, img.data.clone()).unwrap();
    let out = DynamicImage::ImageRgb8(rgb).thumbnail(nwidth, nheight).into_rgb8();
    Image { width: out.width(), height: out.height(), data: out.into_raw() }
}

/// The JPEG file of an image.
pub uninterp spec fn jpeg_of(width: u32, height: u32, rgb: Seq<u8>) -> Seq<u8>;

/// `image`'s `DynamicImage::write_to` with the JPEG format, into memory: a
/// function of the pixels. The encoder takes every image of 1 to 65535 pixels
/// either way.
#[verifier::external_body]
fn encode_jpeg(img: &Image) -> (r: Vec<u8>)
    requires
        img.wf(),
        1 <= img.width <= 65535,
        1 <= img.height <= 65535,
    ensures
        r@ == jpeg_of(img.width, img.height, img.data@),
{
    let rgb = RgbImage::from_raw(img.width, img.height, img.data.clone()).unwrap();
    let mut file = Vec::new();
    DynamicImage::ImageRgb8(rgb).write_to(&mut Cursor::new(&mut file), ImageFormat::Jpeg).unwrap();
    file
}

/// The thumbnail of an image as a data URI.
pub open spec fn thumbnail_uri_of(width: u32, height: u32, rgb: Seq<u8>) -> Seq<char> {
    let thumb = thumbnail_of(width, height, rgb, THUMB_MAX, THUMB_MAX);
    data_uri(jpeg_of(thumb.0, thumb.1, thumb.2))
}

/// The bytes of a JPEG file as a data URI.
pub open spec fn data_uri(jpeg: Seq<u8>) -> Seq<char> {
    "data:image/jpeg;base64,"@ + base64_padded(jpeg)
}

/// Writes the bytes of a JPEG file as a data URI.
pub fn jpeg_data_uri(jpeg: &[u8]) -> (r: String)
    ensures
        r@ == data_uri(jpeg@),
{
    let mut uri: String = "data:image/jpeg;base64,".to_owned();
    let text: String = encode_padded(jpeg);
    uri.append(text.as_str());
    uri
}

/// Encodes a thumbnail of an image as a data URI.
pub fn thumbnail_data_uri(img: &Image) -> (r: String)
    requires
        img.wf(),
        fits_thumbnail(img.width, img.height),
    ensures
        r@ == thumbnail_uri_of(img.width, img.height, img.data@),
{
    let thumb: Image = thumbnail(img, THUMB_MAX, THUMB_MAX);
    let jpeg: Vec<u8> = encode_jpeg(&thumb);
    jpeg_data_uri(jpeg.as_slice())
}

// ---------------------------------------------------------------------------
// Reports
// ---------------------------------------------------------------------------

/// What is reported of the eyes of a face.
#[derive(Clone, Copy, PartialEq, Eq, Structural, Debug)]
pub struct EyesInfo {
    pub left_ear: Float32,
    pub right_ear: Float32,
    pub both_closed: bool,
    pub any_closed: bool,
}

/// What is reported of a photo.
#[derive(Debug)]
pub struct PhotoReport {
    pub path: String,
    pub name: String,
    pub width: u32,
    pub height: u32,
    /// A data URI; empty where the photo could not be read.
    pub thumbnail: String,
    pub frame_blur: Float64,
    pub subject_blur: Option<Float64>,
    /// Whether the face is blurred where there is one, else the frame.
    pub is_blurry: bool,
    pub has_face: bool,
    pub eyes: Option<EyesInfo>,
    pub phash: String,
    pub timestamp: Option<String>,
    /// Number of the duplicate group, from one; only in a group of more than one.
    pub cluster: Option<usize>,
    /// Number of the burst, from one; only in a burst of more than one.
    pub burst: Option<usize>,
    pub error: Option<String>,
}

/// What is reported of a folder.
#[derive(Debug)]
pub struct FolderReport {
    pub folder: String,
    pub photos: Vec<PhotoReport>,
    pub duplicate_groups: usize,
    pub burst_groups: usize,
}

/// What is reported of eyes.
pub open spec fn eyes_info(state: Option<EyesState>) -> Option<EyesInfo> {
    match state {
        Some(e) => Some(
            EyesInfo {
                left_ear: e.left_ear,
                right_ear: e.right_ear,
                both_closed: e.both_closed,
                any_closed: e.any_closed,
            },
        ),
        None => None,
    }
}

impl PhotoReport {
    /// The report of a photo that could not be read.
    pub open spec fn tells_failure(&self, path: Seq<char>, name: Seq<char>, error: Seq<char>) -> bool {
        &&& self.path@ == path
        &&& self.name@ == name
        &&& self.width == 0
        &&& self.height == 0
        &&& self.thumbnail@.len() == 0
        &&& self.frame_blur.bits == 0
        &&& self.subject_blur is None
        &&& !self.is_blurry
        &&& !self.has_face
        &&& self.eyes is None
        &&& self.phash@.len() == 0
        &&& self.timestamp is None
        &&& self.cluster is None
        &&& self.burst is None
        &&& text_view(self.error) == Some(error)
    }

    /// The report of a photo that was read, before it is grouped with others.
    pub open spec fn tells_photo(
        &self,
        path: Seq<char>,
        name: Seq<char>,
        img: &Image,
        analysis: Option<FaceAnalysis>,
        taken: Option<Timestamp>,
    ) -> bool {
        let face = match analysis {
            Some(a) => a.face,
            None => None,
        };
        let face_blur = match analysis {
            Some(a) => a.face_blur,
            None => None,
        };
        let eyes = match analysis {
            Some(a) => a.eyes,
            None => None,
        };
        &&& self.path@ == path
        &&& self.name@ == name
        &&& self.width == img.width
        &&& self.height == img.height
        &&& self.thumbnail@ == thumbnail_uri_of(img.width, img.height, img.data@)
        &&& self.frame_blur == score_of(img)
        &&& self.subject_blur == (match face_blur {
            Some(b) => Some(b.score),
            None => None,
        })
        &&& self.is_blurry == (match face_blur {
            Some(b) => b.is_blurry,
            None => score_of(img).is_below(Float64 { bits: DEFAULT_BLUR_THRESHOLD }),
        })
        &&& self.has_face == (face is Some)
        &&& self.eyes == eyes_info(eyes)
        &&& decoded(self.phash@) == Some(phash_of(img))
        &&& text_view(self.timestamp) == (match taken {
            Some(t) => Some(time_text(t.seconds, t.nanos)),
            None => None,
        })
        &&& self.cluster is None
        &&& self.burst is None
        &&& self.error is None
    }
}

/// The report of a photo that could not be read.
pub fn failed_photo(path: String, name: String, error: String) -> (r: PhotoReport)
    ensures
        r.tells_failure(path@, name@, error@),
{
    proof {
        reveal_strlit("");
    }
    PhotoReport {
        path,
        name,
        width: 0,
        height: 0,
        thumbnail: "".to_owned(),
        frame_blur: Float64 { bits: 0 },
        subject_blur: None,
        is_blurry: false,
        has_face: false,
        eyes: None,
        phash: "".to_owned(),
        timestamp: None,
        cluster: None,
        burst: None,
        error: Some(error),
    }
}

/// The report of a photo that was read: `analysis` is what was found of its primary
/// face, if that was looked for, and `taken` its capture time, if that is known.
pub fn photo_report(
    path: String,
    name: String,
    img: &Image,
    analysis: Option<FaceAnalysis>,
    taken: Option<Timestamp>,
) -> (r: PhotoReport)
    requires
        img.wf(),
        fits_thumbnail(img.width, img.height),
        taken matches Some(t) ==> t.wf(),
    ensures
        r.tells_photo(path@, name@, img, analysis, taken),
        r.phash@.len() == 11,
{
    assert(img.width * img.height <= 0x100_0000_0000) by (nonlinear_arith)
        requires
            (0 <= img.width <= 0x10_0000 && 0 <= img.height <= 0x10_0000) || img.width * img.height
                <= 0x1_0000_0000,
    ;
    let frame: BlurAssessment = assess_blur(img, Float64 { bits: DEFAULT_BLUR_THRESHOLD });
    let (has_face, face_blur, state) = match analysis {
        Some(a) => (a.face.is_some(), a.face_blur, a.eyes),
        None => (false, None, None),
    };
    let (subject_blur, is_blurry) = match face_blur {
        Some(b) => (Some(b.score), b.is_blurry),
        None => (None, frame.is_blurry),
    };
    let eyes: Option<EyesInfo> = match state {
        Some(e) => Some(
            EyesInfo {
                left_ear: e.left_ear,
                right_ear: e.right_ear,
                both_closed: e.both_closed,
                any_closed: e.any_closed,
            },
        ),
        None => None,
    };
    let timestamp: Option<String> = match taken {
        Some(t) => Some(format_time(t)),
        None => None,
    };
    proof {
        base64_unpadded_length(phash_of(img));
    }
    PhotoReport {
        path,
        name,
        width: img.width,
        height: img.height,
        thumbnail: thumbnail_data_uri(img),
        frame_blur: frame.score,
        subject_blur,
        is_blurry,
        has_face,
        eyes,
        phash: perceptual_hash(img),
        timestamp,
        cluster: None,
        burst: None,
        error: None,
    }
}

// ---------------------------------------------------------------------------
// A scan of a folder
// ---------------------------------------------------------------------------

/// A scan of photos under way: a report of each photo so far, and for those that
/// could be read the hash, the place among the reports and the fingerprint.
#[derive(Debug)]
pub struct LibraryScan {
    pub photos: Vec<PhotoReport>,
    pub hashes: Vec<String>,
    pub hash_photo: Vec<usize>,
    pub fingerprints: Vec<Fingerprint>,
}

impl LibraryScan {
    /// What every step of a scan keeps.
    pub open spec fn wf(&self) -> bool {
        &&& self.hashes@.len() == self.hash_photo@.len()
        &&& self.fingerprints@.len() == self.hash_photo@.len()
        &&& forall|i: int|
            0 <= i < self.photos@.len() ==> (#[trigger] self.photos@[i]).cluster is None
                && self.photos@[i].burst is None
        &&& forall|k: int|
            0 <= k < self.hash_photo@.len() ==> self.tells_read(k, #[trigger] self.hash_photo@[k])
        &&& forall|j: int, k: int|
            0 <= j < k < self.hash_photo@.len() ==> #[trigger] self.hash_photo@[j]
                < #[trigger] self.hash_photo@[k]
        &&& forall|i: int|
            0 <= i < self.photos@.len() && (#[trigger] self.photos@[i]).error is None
                ==> self.hash_photo@.contains(i as usize)
    }

    /// The `k`-th photo that could be read is the one at place `at`.
    pub open spec fn tells_read(&self, k: int, at: usize) -> bool {
        &&& at < self.photos@.len()
        &&& self.photos@[at as int].error is None
        &&& self.photos@[at as int].phash@ == self.hashes@[k]@
        &&& self.hashes@[k]@.len() == 11
        &&& decoded(self.hashes@[k]@) is Some
        &&& self.fingerprints@[k].id == at
        &&& self.fingerprints@[k].phash@ == self.hashes@[k]@
        &&& self.fingerprints@[k].wf()
    }

    /// A scan that has not seen a photo.
    pub fn new() -> (r: LibraryScan)
        ensures
            r.wf(),
            r.photos@.len() == 0,
            r.hash_photo@.len() == 0,
    {
        LibraryScan {
            photos: Vec::new(),
            hashes: Vec::new(),
            hash_photo: Vec::new(),
            fingerprints: Vec::new(),
        }
    }

    /// Adds a photo that could not be read.
    pub fn add_failed(&mut self, path: String, name: String, error: String)
        requires
            old(self).wf(),
        ensures
            final(self).wf(),
            final(self).photos@.len() == old(self).photos@.len() + 1,
            final(self).photos@.drop_last() == old(self).photos@,
            final(self).photos@.last().tells_failure(path@, name@, error@),
            final(self).hashes@ == old(self).hashes@,
            final(self).hash_photo@ == old(self).hash_photo@,
            final(self).fingerprints@ == old(self).fingerprints@,
    {
        let ghost before: LibraryScan = *self;
        self.photos.push(failed_photo(path, name, error));
        proof {
            assert(self.photos@.drop_last() =~= before.photos@);
            assert forall|k: int| 0 <= k < self.hash_photo@.len() implies self.tells_read(
                k,
                #[trigger] self.hash_photo@[k],
            ) by {
                assert(before.tells_read(k, before.hash_photo@[k]));
            }
            assert forall|i: int|
                0 <= i < self.photos@.len() && (#[trigger] self.photos@[i]).error
                    is None implies self.hash_photo@.contains(i as usize) by {
                assert(before.photos@[i].error is None);
            }
        }
    }

    /// Adds a photo that was read.
    pub fn add_photo(
        &mut self,
        path: String,
        name: String,
        img: &Image,
        analysis: Option<FaceAnalysis>,
        taken: Option<Timestamp>,
    )
        requires
            old(self).wf(),
            img.wf(),
            fits_thumbnail(img.width, img.height),
            taken matches Some(t) ==> t.wf(),
        ensures
            final(self).wf(),
            final(self).photos@.len() == old(self).photos@.len() + 1,
            final(self).photos@.drop_last() == old(self).photos@,
            final(self).photos@.last().tells_photo(path@, name@, img, analysis, taken),
            final(self).hashes@.drop_last() == old(self).hashes@,
            decoded(final(self).hashes@.last()@) == Some(phash_of(img)),
            final(self).hash_photo@ == old(self).hash_photo@.push(old(self).photos@.len() as usize),
            final(self).fingerprints@.drop_last() == old(self).fingerprints@,
            final(self).fingerprints@.last().timestamp == taken,
    {
        let ghost before: LibraryScan = *self;
        let idx: usize = self.photos.len();
        let report: PhotoReport = photo_report(path, name, img, analysis, taken);
        let hash: String = report.phash.as_str().to_owned();
        let phash: String = report.phash.as_str().to_owned();
        self.hashes.push(hash);
        self.hash_photo.push(idx);
        self.fingerprints.push(Fingerprint { id: idx, phash, timestamp: taken });
        self.photos.push(report);
        proof {
            assert(self.photos@.drop_last() =~= before.photos@);
            assert(self.hashes@.drop_last() =~= before.hashes@);
            assert(self.fingerprints@.drop_last() =~= before.fingerprints@);
            assert forall|k: int| 0 <= k < self.hash_photo@.len() implies self.tells_read(
                k,
                #[trigger] self.hash_photo@[k],
            ) by {
                if k < before.hash_photo@.len() {
                    assert(before.tells_read(k, before.hash_photo@[k]));
                }
            }
            assert forall|i: int|
                0 <= i < self.photos@.len() && (#[trigger] self.photos@[i]).error
                    is None implies self.hash_photo@.contains(i as usize) by {
                if i < before.photos@.len() {
                    assert(before.photos@[i].error is None);
                    let k = before.hash_photo@.index_of(i as usize);
                    assert(self.hash_photo@[k] == i as usize);
                } else {
                    assert(self.hash_photo@[before.hash_photo@.len() as int] == i as usize);
                }
            }
        }
    }
}

/// The items of groups, each replaced by what `to` holds in its place.
pub open spec fn through(groups: Seq<Seq<usize>>, to: Seq<usize>) -> Seq<Seq<usize>> {
    groups.map_values(|g: Seq<usize>| g.map_values(|k: usize| to[k as int]))
}

/// Replaces the items of groups by what `to` holds in their places.
fn map_groups(groups: &Vec<Vec<usize>>, to: &Vec<usize>) -> (r: Vec<Vec<usize>>)
    requires
        forall|g: int, a: int|
            0 <= g < groups@.len() && 0 <= a < groups@[g]@.len() ==> #[trigger] groups@[g]@[a]
                < to@.len(),
    ensures
        lists(r@) == through(lists(groups@), to@),
{
    let mut mapped: Vec<Vec<usize>> = Vec::new();
    let mut g: usize = 0;
    while g < groups.len()
        invariant
            forall|h: int, a: int|
                0 <= h < groups@.len() && 0 <= a < groups@[h]@.len() ==> #[trigger] groups@[h]@[a]
                    < to@.len(),
            g <= groups@.len(),
            mapped@.len() == g,
            forall|h: int| 0 <= h < g ==> (#[trigger] mapped@[h])@ == through(lists(groups@), to@)[h],
        decreases groups@.len() - g,
    {
        let group: &Vec<usize> = &groups[g];
        let mut one: Vec<usize> = Vec::new();
        let mut a: usize = 0;
        while a < group.len()
            invariant
                forall|b: int| 0 <= b < group@.len() ==> #[trigger] group@[b] < to@.len(),
                a <= group@.len(),
                one@.len() == a,
                forall|b: int| 0 <= b < a ==> #[trigger] one@[b] == to@[group@[b] as int],
            decreases group@.len() - a,
        {
            one.push(to[group[a]]);
            a = a + 1;
        }
        assert(one@ =~= through(lists(groups@), to@)[g as int]);
        mapped.push(one);
        g = g + 1;
    }
    assert(lists(mapped@) =~= through(lists(groups@), to@));
    mapped
}

/// The report of a scan whose duplicates are `clusters`, groups of places among
/// the photos that were read, and whose bursts are `bursts`, groups of places
/// among all photos.
pub open spec fn is_report(
    report: &FolderReport,
    folder: Seq<char>,
    scan: &LibraryScan,
    clusters: Seq<Seq<usize>>,
    bursts: Seq<Seq<usize>>,
) -> bool {
    let duplicates = through(clusters, scan.hash_photo@);
    &&& report.folder@ == folder
    &&& report.duplicate_groups == multiples(duplicates, duplicates.len() as int)
    &&& report.burst_groups == multiples(bursts, bursts.len() as int)
    &&& report.photos@.len() == scan.photos@.len()
    &&& forall|i: int|
        0 <= i < scan.photos@.len() ==> #[trigger] report.photos@[i] == (PhotoReport {
            cluster: number_of(duplicates, duplicates.len() as int, i),
            burst: number_of(bursts, bursts.len() as int, i),
            ..scan.photos@[i]
        })
}

impl LibraryScan {
    /// Groups the photos of the scan: near-duplicates by their hashes, bursts by
    /// their capture times.
    pub fn finish(self, folder: String) -> (r: Result<FolderReport, String>)
        requires
            self.wf(),
        ensures
            r matches Ok(report) && exists|clusters: Seq<Vec<usize>>, bursts: Seq<Seq<usize>>, order:
                Seq<int>|
                {
                    &&& #[trigger] are_clusters(
                        clusters,
                        decoded_all(self.hashes@),
                        DEFAULT_DUP_DISTANCE,
                    )
                    &&& #[trigger] are_bursts(
                        bursts,
                        self.fingerprints@,
                        order,
                        DEFAULT_BURST_GAP_SECS,
                    )
                    &&& is_report(&report, folder@, &self, lists(clusters), bursts)
                },
    {
        let LibraryScan { mut photos, hashes, hash_photo, fingerprints } = self;
        let n: usize = photos.len();
        proof {
            assert forall|k: int| 0 <= k < hashes@.len() implies (#[trigger] hashes@[k])@.len() == 11
                && decoded(hashes@[k]@) is Some by {
                assert(self.tells_read(k, self.hash_photo@[k]));
            }
            assert forall|k: int| 0 <= k < fingerprints@.len() implies (
            #[trigger] fingerprints@[k]).wf() && fingerprints@[k].id < n by {
                assert(self.tells_read(k, self.hash_photo@[k]));
            }
        }
        let clusters: Vec<Vec<usize>> = match cluster_by_similarity(
            hashes.as_slice(),
            DEFAULT_DUP_DISTANCE,
        ) {
            Ok(groups) => groups,
            Err(e) => {
                return Err(e);
            },
        };
        let bursts: Vec<Vec<usize>> = group_bursts(fingerprints.as_slice(), DEFAULT_BURST_GAP_SECS);
        let ghost order: Seq<int> = choose|order: Seq<int>| #[trigger]
            are_bursts(lists(bursts@), fingerprints@, order, DEFAULT_BURST_GAP_SECS);
        let duplicates: Vec<Vec<usize>> = map_groups(&clusters, &hash_photo);
        proof {
            assert forall|g: int, a: int|
                0 <= g < duplicates@.len() && 0 <= a
                    < duplicates@[g]@.len() implies #[trigger] duplicates@[g]@[a] < n by {
                assert(lists(duplicates@).len() == duplicates@.len());
                assert(through(lists(clusters@), hash_photo@).len() == clusters@.len());
                assert(lists(duplicates@)[g] == duplicates@[g]@);
                assert(lists(clusters@)[g] == clusters@[g]@);
                let k = clusters@[g]@[a] as int;
                assert(k < hash_photo@.len());
                assert(duplicates@[g]@[a] == hash_photo@[k]);
                assert(self.tells_read(k, self.hash_photo@[k]));
            }
            assert forall|g: int, a: int|
                0 <= g < bursts@.len() && 0 <= a
                    < bursts@[g]@.len() implies #[trigger] bursts@[g]@[a] < n by {
                assert(lists(bursts@)[g] == bursts@[g]@);
                bursts_hold_frames(
                    lists(bursts@),
                    fingerprints@,
                    order,
                    DEFAULT_BURST_GAP_SECS,
                    g,
                    a,
                );
            }
        }
        let (cluster_numbers, duplicate_groups) = number_groups(&duplicates, n);
        let (burst_numbers, burst_groups) = number_groups(&bursts, n);
        let mut i: usize = 0;
        while i < n
            invariant
                n == self.photos@.len(),
                photos@.len() == n,
                cluster_numbers@.len() == n,
                burst_numbers@.len() == n,
                i <= n,
                forall|k: int|
                    0 <= k < i ==> #[trigger] photos@[k] == (PhotoReport {
                        cluster: cluster_numbers@[k],
                        burst: burst_numbers@[k],
                        ..self.photos@[k]
                    }),
                forall|k: int| i <= k < n ==> #[trigger] photos@[k] == self.photos@[k],
            decreases n - i,
        {
            photos[i].cluster = cluster_numbers[i];
            photos[i].burst = burst_numbers[i];
            i = i + 1;
        }
        let report: FolderReport = FolderReport { folder, photos, duplicate_groups, burst_groups };
        proof {
            assert(lists(duplicates@).len() == duplicates@.len());
            assert(lists(bursts@).len() == bursts@.len());
            assert(is_report(&report, folder@, &self, lists(clusters@), lists(bursts@)));
        }
        Ok(report)
    }
}

// ---------------------------------------------------------------------------
// Laws of reports
// ---------------------------------------------------------------------------

/// No photo is in two groups of duplicates.
proof fn lemma_duplicates_disjoint(scan: &LibraryScan, clusters: Seq<Vec<usize>>)
    requires
        scan.wf(),
        are_clusters(clusters, decoded_all(scan.hashes@), DEFAULT_DUP_DISTANCE),
    ensures
        disjoint(through(lists(clusters), scan.hash_photo@)),
{
    let hashes = decoded_all(scan.hashes@);
    let duplicates = through(lists(clusters), scan.hash_photo@);
    let link = |p: int, q: int| near(hashes, DEFAULT_DUP_DISTANCE, p, q);
    assert forall|g: int, h: int, a: int, b: int|
        0 <= g < duplicates.len() && 0 <= h < duplicates.len() && 0 <= a < duplicates[g].len() && 0
            <= b < duplicates[h].len() && #[trigger] duplicates[g][a]
            == #[trigger] duplicates[h][b] implies g == h by {
        let (i, j) = (clusters[g]@[a], clusters[h]@[b]);
        assert(lists(clusters)[g] == clusters[g]@ && lists(clusters)[h] == clusters[h]@);
        assert(duplicates[g][a] == scan.hash_photo@[i as int]);
        assert(duplicates[h][b] == scan.hash_photo@[j as int]);
        assert(i < hashes.len() && j < hashes.len());
        assert(i == j);
        assert(member(clusters, g, i as int) && member(clusters, h, i as int));
        connected_is_reflexive(link, hashes.len(), i as int);
        assert(similar(hashes, DEFAULT_DUP_DISTANCE, i as int, i as int));
    }
}

/// There are no more groups of duplicates than a machine can count.
proof fn lemma_clusters_counted(scan: &LibraryScan, clusters: Seq<Vec<usize>>)
    requires
        scan.wf(),
        are_clusters(clusters, decoded_all(scan.hashes@), DEFAULT_DUP_DISTANCE),
    ensures
        clusters.len() <= usize::MAX,
{
    groups_are_no_more_than_indices(clusters, decoded_all(scan.hashes@).len());
    assert(scan.hashes.len() == scan.hashes@.len());
}

/// Two photos that were read carry the same duplicate number exactly where a chain
/// of near-duplicates joins them.
pub proof fn near_duplicates_share_a_number(
    report: &FolderReport,
    folder: Seq<char>,
    scan: &LibraryScan,
    clusters: Seq<Vec<usize>>,
    bursts: Seq<Seq<usize>>,
    j: int,
    k: int,
)
    requires
        scan.wf(),
        are_clusters(clusters, decoded_all(scan.hashes@), DEFAULT_DUP_DISTANCE),
        is_report(report, folder, scan, lists(clusters), bursts),
        0 <= j < scan.hash_photo@.len(),
        0 <= k < scan.hash_photo@.len(),
        j != k,
    ensures
        ({
            let one = report.photos@[scan.hash_photo@[j] as int].cluster;
            let other = report.photos@[scan.hash_photo@[k] as int].cluster;
            (one is Some && one == other) <==> similar(
                decoded_all(scan.hashes@),
                DEFAULT_DUP_DISTANCE,
                j,
                k,
            )
        }),
{
    let hashes = decoded_all(scan.hashes@);
    let duplicates = through(lists(clusters), scan.hash_photo@);
    lemma_duplicates_disjoint(scan, clusters);
    assert(grouped(clusters, j) && grouped(clusters, k));
    let g = choose|g: int| #[trigger] member(clusters, g, j);
    let h = choose|h: int| #[trigger] member(clusters, h, k);
    let a = choose|a: int| 0 <= a < clusters[g]@.len() && #[trigger] clusters[g]@[a] == j;
    let b = choose|b: int| 0 <= b < clusters[h]@.len() && #[trigger] clusters[h]@[b] == k;
    assert(lists(clusters)[g] == clusters[g]@ && lists(clusters)[h] == clusters[h]@);
    assert(duplicates[g][a] == scan.hash_photo@[j]);
    assert(duplicates[h][b] == scan.hash_photo@[k]);
    assert(scan.tells_read(j, scan.hash_photo@[j]));
    assert(scan.tells_read(k, scan.hash_photo@[k]));
    lemma_clusters_counted(scan, clusters);
    numbers_tell_groups_apart(duplicates, g, a, h, b);
    assert(g == h <==> similar(hashes, DEFAULT_DUP_DISTANCE, j, k));
}

/// Two photos that were read and whose hashes are near carry the same duplicate
/// number.
pub proof fn near_photos_share_a_number(
    report: &FolderReport,
    folder: Seq<char>,
    scan: &LibraryScan,
    clusters: Seq<Vec<usize>>,
    bursts: Seq<Seq<usize>>,
    j: int,
    k: int,
)
    requires
        scan.wf(),
        are_clusters(clusters, decoded_all(scan.hashes@), DEFAULT_DUP_DISTANCE),
        is_report(report, folder, scan, lists(clusters), bursts),
        0 <= j < scan.hash_photo@.len(),
        0 <= k < scan.hash_photo@.len(),
        j != k,
        near(decoded_all(scan.hashes@), DEFAULT_DUP_DISTANCE, j, k),
    ensures
        report.photos@[scan.hash_photo@[j] as int].cluster is Some,
        report.photos@[scan.hash_photo@[j] as int].cluster
            == report.photos@[scan.hash_photo@[k] as int].cluster,
{
    let hashes = decoded_all(scan.hashes@);
    link_connects(
        |p: int, q: int| near(hashes, DEFAULT_DUP_DISTANCE, p, q),
        hashes.len(),
        j,
        k,
    );
    near_duplicates_share_a_number(report, folder, scan, clusters, bursts, j, k);
}

/// A photo that no chain of near-duplicates joins to another carries no duplicate
/// number.
pub proof fn unlike_photos_carry_no_number(
    report: &FolderReport,
    folder: Seq<char>,
    scan: &LibraryScan,
    clusters: Seq<Vec<usize>>,
    bursts: Seq<Seq<usize>>,
    j: int,
)
    requires
        scan.wf(),
        are_clusters(clusters, decoded_all(scan.hashes@), DEFAULT_DUP_DISTANCE),
        is_report(report, folder, scan, lists(clusters), bursts),
        0 <= j < scan.hash_photo@.len(),
        forall|k: int|
            0 <= k < scan.hash_photo@.len() && k != j ==> !#[trigger] similar(
                decoded_all(scan.hashes@),
                DEFAULT_DUP_DISTANCE,
                j,
                k,
            ),
    ensures
        report.photos@[scan.hash_photo@[j] as int].cluster is None,
{
    let hashes = decoded_all(scan.hashes@);
    let duplicates = through(lists(clusters), scan.hash_photo@);
    lemma_duplicates_disjoint(scan, clusters);
    assert(grouped(clusters, j));
    let g = choose|g: int| #[trigger] member(clusters, g, j);
    let a = choose|a: int| 0 <= a < clusters[g]@.len() && #[trigger] clusters[g]@[a] == j;
    assert(lists(clusters)[g] == clusters[g]@);
    assert(duplicates[g][a] == scan.hash_photo@[j]);
    assert(scan.tells_read(j, scan.hash_photo@[j]));
    if clusters[g]@.len() > 1 {
        let b: int = if a == 0 {
            1
        } else {
            0
        };
        let k = clusters[g]@[b] as int;
        assert(member(clusters, g, k));
        assert(g == g <==> similar(hashes, DEFAULT_DUP_DISTANCE, j, k));
        assert(k != j) by {
            if a < b {
                assert(clusters[g]@[a] < clusters[g]@[b]);
            } else {
                assert(clusters[g]@[b] < clusters[g]@[a]);
            }
        }
    }
    number_is_that_of_the_group(duplicates, duplicates.len() as int, g, a);
}

/// Two places in bursts carry the same burst number exactly where they are in the
/// same burst of more than one photo.
pub proof fn photos_of_a_burst_share_a_number(
    report: &FolderReport,
    folder: Seq<char>,
    scan: &LibraryScan,
    clusters: Seq<Seq<usize>>,
    bursts: Seq<Seq<usize>>,
    order: Seq<int>,
    g: int,
    a: int,
    h: int,
    b: int,
)
    requires
        scan.wf(),
        are_bursts(bursts, scan.fingerprints@, order, DEFAULT_BURST_GAP_SECS),
        is_report(report, folder, scan, clusters, bursts),
        0 <= g < bursts.len(),
        0 <= h < bursts.len(),
        0 <= a < bursts[g].len(),
        0 <= b < bursts[h].len(),
    ensures
        ({
            let one = report.photos@[bursts[g][a] as int].burst;
            let other = report.photos@[bursts[h][b] as int].burst;
            (one is Some && one == other) <==> (g == h && bursts[g].len() > 1)
        }),
{
    lemma_distinct_ids(scan);
    bursts_are_disjoint(bursts, scan.fingerprints@, order, DEFAULT_BURST_GAP_SECS);
    bursts_hold_frames_once(bursts, scan.fingerprints@, order, DEFAULT_BURST_GAP_SECS);
    assert(scan.fingerprints.len() == scan.fingerprints@.len());
    numbers_tell_groups_apart(bursts, g, a, h, b);
    bursts_hold_frames(bursts, scan.fingerprints@, order, DEFAULT_BURST_GAP_SECS, g, a);
    bursts_hold_frames(bursts, scan.fingerprints@, order, DEFAULT_BURST_GAP_SECS, h, b);
    let p = choose|p: int|
        0 <= p < scan.fingerprints@.len() && (#[trigger] scan.fingerprints@[p]).id == bursts[g][a];
    let q = choose|q: int|
        0 <= q < scan.fingerprints@.len() && (#[trigger] scan.fingerprints@[q]).id == bursts[h][b];
    assert(scan.tells_read(p, scan.hash_photo@[p]));
    assert(scan.tells_read(q, scan.hash_photo@[q]));
}

/// The identifiers of the fingerprints of a scan are distinct.
proof fn lemma_distinct_ids(scan: &LibraryScan)
    requires
        scan.wf(),
    ensures
        distinct_ids(scan.fingerprints@),
{
    let items = scan.fingerprints@;
    assert forall|i: int, j: int|
        0 <= i < items.len() && 0 <= j < items.len() && (#[trigger] items[i]).id == (
        #[trigger] items[j]).id implies i == j by {
        assert(scan.tells_read(i, scan.hash_photo@[i]));
        assert(scan.tells_read(j, scan.hash_photo@[j]));
    }
}

/// Whether two different photos of a report carry this duplicate number.
pub open spec fn share_cluster(report: &FolderReport, i: int, j: int, c: usize) -> bool {
    &&& 0 <= i < j < report.photos@.len()
    &&& report.photos@[i].cluster == Some(c)
    &&& report.photos@[j].cluster == Some(c)
}

/// Whether two different photos of a report carry this burst number.
pub open spec fn share_burst(report: &FolderReport, i: int, j: int, c: usize) -> bool {
    &&& 0 <= i < j < report.photos@.len()
    &&& report.photos@[i].burst == Some(c)
    &&& report.photos@[j].burst == Some(c)
}

/// The duplicate numbers of a report are exactly those from one up to the count of the
/// groups, and each is on two photos or more.
pub proof fn duplicate_numbers_run_from_one_to_the_count(
    report: &FolderReport,
    folder: Seq<char>,
    scan: &LibraryScan,
    clusters: Seq<Vec<usize>>,
    bursts: Seq<Seq<usize>>,
    c: usize,
)
    requires
        scan.wf(),
        are_clusters(clusters, decoded_all(scan.hashes@), DEFAULT_DUP_DISTANCE),
        is_report(report, folder, scan, lists(clusters), bursts),
    ensures
        1 <= c <= report.duplicate_groups <==> exists|i: int|
            0 <= i < report.photos@.len() && (#[trigger] report.photos@[i]).cluster == Some(c),
        1 <= c <= report.duplicate_groups ==> exists|i: int, j: int| #[trigger]
            share_cluster(report, i, j, c),
{
    let duplicates = through(lists(clusters), scan.hash_photo@);
    let n = duplicates.len() as int;
    lemma_duplicates_disjoint(scan, clusters);
    lemma_clusters_counted(scan, clusters);
    assert forall|g: int, a: int, b: int|
        0 <= g < duplicates.len() && 0 <= a < b
            < duplicates[g].len() implies #[trigger] duplicates[g][a]
        != #[trigger] duplicates[g][b] by {
        assert(lists(clusters)[g] == clusters[g]@);
        assert(clusters[g]@[a] < clusters[g]@[b]);
        assert(scan.hash_photo@[clusters[g]@[a] as int] < scan.hash_photo@[clusters[g]@[b] as int]);
    }
    if 1 <= c <= report.duplicate_groups {
        let (x, y) = every_number_is_shared(duplicates, c);
        let g = choose|g: int|
            0 <= g < duplicates.len() && #[trigger] duplicates[g].len() > 1 && x == duplicates[g][0]
                && y == duplicates[g][1];
        assert(lists(clusters)[g] == clusters[g]@);
        let (p, q) = (clusters[g]@[0] as int, clusters[g]@[1] as int);
        assert(scan.tells_read(p, scan.hash_photo@[p]));
        assert(scan.tells_read(q, scan.hash_photo@[q]));
        assert(report.photos@[x].cluster == Some(c) && report.photos@[y].cluster == Some(c));
        assert(share_cluster(report, least(x, y), greatest(x, y), c));
    }
    assert forall|i: int|
        0 <= i < report.photos@.len() && (#[trigger] report.photos@[i]).cluster == Some(c) implies 1
        <= c <= report.duplicate_groups by {
        numbers_are_within_the_count(duplicates, n, i);
    }
}

/// The burst numbers of a report are exactly those from one up to the count of the
/// bursts, and each is on two photos or more.
pub proof fn burst_numbers_run_from_one_to_the_count(
    report: &FolderReport,
    folder: Seq<char>,
    scan: &LibraryScan,
    clusters: Seq<Seq<usize>>,
    bursts: Seq<Seq<usize>>,
    order: Seq<int>,
    c: usize,
)
    requires
        scan.wf(),
        are_bursts(bursts, scan.fingerprints@, order, DEFAULT_BURST_GAP_SECS),
        is_report(report, folder, scan, clusters, bursts),
    ensures
        1 <= c <= report.burst_groups <==> exists|i: int|
            0 <= i < report.photos@.len() && (#[trigger] report.photos@[i]).burst == Some(c),
        1 <= c <= report.burst_groups ==> exists|i: int, j: int| #[trigger]
            share_burst(report, i, j, c),
{
    let n = bursts.len() as int;
    lemma_distinct_ids(scan);
    bursts_are_disjoint(bursts, scan.fingerprints@, order, DEFAULT_BURST_GAP_SECS);
    bursts_hold_frames_once(bursts, scan.fingerprints@, order, DEFAULT_BURST_GAP_SECS);
    assert(scan.fingerprints.len() == scan.fingerprints@.len());
    if 1 <= c <= report.burst_groups {
        let (x, y) = every_number_is_shared(bursts, c);
        let g = choose|g: int|
            0 <= g < bursts.len() && #[trigger] bursts[g].len() > 1 && x == bursts[g][0] && y
                == bursts[g][1];
        bursts_hold_frames(bursts, scan.fingerprints@, order, DEFAULT_BURST_GAP_SECS, g, 0);
        bursts_hold_frames(bursts, scan.fingerprints@, order, DEFAULT_BURST_GAP_SECS, g, 1);
        let p = choose|p: int|
            0 <= p < scan.fingerprints@.len() && (#[trigger] scan.fingerprints@[p]).id
                == bursts[g][0];
        let q = choose|q: int|
            0 <= q < scan.fingerprints@.len() && (#[trigger] scan.fingerprints@[q]).id
                == bursts[g][1];
        assert(scan.tells_read(p, scan.hash_photo@[p]));
        assert(scan.tells_read(q, scan.hash_photo@[q]));
        assert(report.photos@[x].burst == Some(c) && report.photos@[y].burst == Some(c));
        assert(share_burst(report, least(x, y), greatest(x, y), c));
    }
    assert forall|i: int|
        0 <= i < report.photos@.len() && (#[trigger] report.photos@[i]).burst == Some(c) implies 1
        <= c <= report.burst_groups by {
        numbers_are_within_the_count(bursts, n, i);
    }
}

/// A photo that could not be read is in no group.
pub proof fn failed_photos_are_in_no_group(
    report: &FolderReport,
    folder: Seq<char>,
    scan: &LibraryScan,
    clusters: Seq<Vec<usize>>,
    bursts: Seq<Seq<usize>>,
    order: Seq<int>,
    i: int,
)
    requires
        scan.wf(),
        are_clusters(clusters, decoded_all(scan.hashes@), DEFAULT_DUP_DISTANCE),
        are_bursts(bursts, scan.fingerprints@, order, DEFAULT_BURST_GAP_SECS),
        is_report(report, folder, scan, lists(clusters), bursts),
        0 <= i < scan.photos@.len(),
        scan.photos@[i].error is Some,
    ensures
        report.photos@[i].cluster is None,
        report.photos@[i].burst is None,
{
    let duplicates = through(lists(clusters), scan.hash_photo@);
    assert forall|g: int, a: int|
        0 <= g < duplicates.len() && 0 <= a
            < duplicates[g].len() implies #[trigger] duplicates[g][a] != i by {
        assert(lists(clusters)[g] == clusters[g]@);
        let k = clusters[g]@[a] as int;
        assert(duplicates[g][a] == scan.hash_photo@[k]);
        assert(scan.tells_read(k, scan.hash_photo@[k]));
    }
    assert forall|g: int, a: int|
        0 <= g < bursts.len() && 0 <= a < bursts[g].len() implies #[trigger] bursts[g][a] != i by {
        bursts_hold_frames(bursts, scan.fingerprints@, order, DEFAULT_BURST_GAP_SECS, g, a);
        let p = choose|p: int|
            0 <= p < scan.fingerprints@.len() && (#[trigger] scan.fingerprints@[p]).id
                == bursts[g][a];
        assert(scan.tells_read(p, scan.hash_photo@[p]));
    }
    unlisted_items_have_no_number(duplicates, duplicates.len() as int, i);
    unlisted_items_have_no_number(bursts, bursts.len() as int, i);
}

// ---------------------------------------------------------------------------
// What the report of a photo says
// ---------------------------------------------------------------------------

/// Where the sharpness of a face is known, it decides: the photo is blurred exactly
/// where the face is, however its frame scores, and the face's score is reported beside
/// that of the frame.
pub proof fn the_face_decides_the_verdict(
    r: &PhotoReport,
    path: Seq<char>,
    name: Seq<char>,
    img: &Image,
    analysis: FaceAnalysis,
    taken: Option<Timestamp>,
    b: BlurAssessment,
)
    requires
        r.tells_photo(path, name, img, Some(analysis), taken),
        analysis.face_blur == Some(b),
    ensures
        r.is_blurry == b.is_blurry,
        r.subject_blur == Some(b.score),
        r.frame_blur == score_of(img),
{
}

/// Reports of two photos whose faces are equally sharp carry the same verdict and the
/// same score of the subject, whatever their frames score and whatever else was found.
pub proof fn equal_faces_carry_equal_verdicts(
    r: &PhotoReport,
    s: &PhotoReport,
    path: Seq<char>,
    name: Seq<char>,
    img: &Image,
    analysis: FaceAnalysis,
    taken: Option<Timestamp>,
    path2: Seq<char>,
    name2: Seq<char>,
    img2: &Image,
    analysis2: FaceAnalysis,
    taken2: Option<Timestamp>,
)
    requires
        r.tells_photo(path, name, img, Some(analysis), taken),
        s.tells_photo(path2, name2, img2, Some(analysis2), taken2),
        analysis.face_blur is Some,
        analysis.face_blur == analysis2.face_blur,
    ensures
        r.is_blurry == s.is_blurry,
        r.subject_blur == s.subject_blur,
{
}

/// Where no face's sharpness is known, the frame decides: the photo is blurred exactly
/// where the frame's score is below 100, and no score of a subject is reported.
pub proof fn the_frame_decides_without_a_face(
    r: &PhotoReport,
    path: Seq<char>,
    name: Seq<char>,
    img: &Image,
    analysis: Option<FaceAnalysis>,
    taken: Option<Timestamp>,
)
    requires
        r.tells_photo(path, name, img, analysis, taken),
        analysis matches Some(a) ==> a.face_blur is None,
    ensures
        r.subject_blur is None,
        r.frame_blur == score_of(img),
        r.frame_blur.bits <= 0x7ff0_0000_0000_0000 ==> (r.is_blurry <==> r.frame_blur.bits
            < 0x4059_0000_0000_0000),
{
}

/// A report tells of a face exactly where one was found, and of the eyes what was found
/// of them: both ratios, and which of them are closed.
pub proof fn reports_tell_of_the_face(
    r: &PhotoReport,
    path: Seq<char>,
    name: Seq<char>,
    img: &Image,
    analysis: Option<FaceAnalysis>,
    taken: Option<Timestamp>,
)
    requires
        r.tells_photo(path, name, img, analysis, taken),
    ensures
        r.has_face <==> (analysis matches Some(a) && a.face is Some),
        r.eyes is Some <==> (analysis matches Some(a) && a.eyes is Some),
        analysis is Some && analysis->Some_0.eyes is Some ==> ({
            let e = analysis->Some_0.eyes->Some_0;
            let told = r.eyes->Some_0;
            &&& told.left_ear == e.left_ear
            &&& told.right_ear == e.right_ear
            &&& told.both_closed == e.both_closed
            &&& told.any_closed == e.any_closed
        }),
{
}

/// A report of a photo that was read tells its path, its name, its size, its thumbnail,
/// its hash and the score of its frame, carries no error and no number of a group, and
/// tells a time exactly where one is known: that time.
pub proof fn reports_tell_of_the_photo(
    r: &PhotoReport,
    path: Seq<char>,
    name: Seq<char>,
    img: &Image,
    analysis: Option<FaceAnalysis>,
    taken: Option<Timestamp>,
)
    requires
        r.tells_photo(path, name, img, analysis, taken),
    ensures
        r.path@ == path,
        r.name@ == name,
        r.width == img.width,
        r.height == img.height,
        r.thumbnail@ == thumbnail_uri_of(img.width, img.height, img.data@),
        decoded(r.phash@) == Some(phash_of(img)),
        r.frame_blur == score_of(img),
        r.error is None && r.cluster is None && r.burst is None,
        r.timestamp is Some <==> taken is Some,
        taken matches Some(t) ==> r.timestamp->Some_0@ == time_text(t.seconds, t.nanos),
{
}

/// A report of a photo that could not be read tells its path, its name and the error,
/// and of the photo nothing: no size, no verdict, no face, no hash and no time.
pub proof fn failures_tell_the_error(
    r: &PhotoReport,
    path: Seq<char>,
    name: Seq<char>,
    error: Seq<char>,
)
    requires
        r.tells_failure(path, name, error),
    ensures
        r.path@ == path,
        r.name@ == name,
        r.error is Some && r.error->Some_0@ == error,
        r.width == 0 && r.height == 0 && r.frame_blur.bits == 0,
        !r.is_blurry && !r.has_face,
        r.subject_blur is None && r.eyes is None && r.timestamp is None,
        r.thumbnail@.len() == 0 && r.phash@.len() == 0,
{
}

/// Grouping leaves photos as they are: the report of a folder lists them in the order
/// of the scan, each with the same size, scores, face, hash, time and error.
pub proof fn grouping_leaves_photos_as_they_are(
    report: &FolderReport,
    folder: Seq<char>,
    scan: &LibraryScan,
    clusters: Seq<Seq<usize>>,
    bursts: Seq<Seq<usize>>,
    i: int,
)
    requires
        is_report(report, folder, scan, clusters, bursts),
        0 <= i < scan.photos@.len(),
    ensures
        report.folder@ == folder,
        report.photos@.len() == scan.photos@.len(),
        report.photos@[i].path == scan.photos@[i].path,
        report.photos@[i].name == scan.photos@[i].name,
        report.photos@[i].width == scan.photos@[i].width,
        report.photos@[i].height == scan.photos@[i].height,
        report.photos@[i].thumbnail == scan.photos@[i].thumbnail,
        report.photos@[i].frame_blur == scan.photos@[i].frame_blur,
        report.photos@[i].subject_blur == scan.photos@[i].subject_blur,
        report.photos@[i].is_blurry == scan.photos@[i].is_blurry,
        report.photos@[i].has_face == scan.photos@[i].has_face,
        report.photos@[i].eyes == scan.photos@[i].eyes,
        report.photos@[i].phash == scan.photos@[i].phash,
        report.photos@[i].timestamp == scan.photos@[i].timestamp,
        report.photos@[i].error == scan.photos@[i].error,
{
}

/// A data URI opens with the type of the file and goes on with its text in base 64.
pub proof fn data_uris_open_with_the_type(jpeg: Seq<u8>)
    ensures
        data_uri(jpeg).len() == 23 + base64_padded(jpeg).len(),
        data_uri(jpeg).take(23) == "data:image/jpeg;base64,"@,
        data_uri(jpeg).skip(23) == base64_padded(jpeg),
{
    reveal_strlit("data:image/jpeg;base64,");
    assert(data_uri(jpeg).take(23) =~= "data:image/jpeg;base64,"@);
    assert(data_uri(jpeg).skip(23) =~= base64_padded(jpeg));
}

/// A thumbnail is taken of the whole image, within 320 pixels either way.
pub proof fn thumbnails_are_within_320(width: u32, height: u32, rgb: Seq<u8>)
    ensures
        thumbnail_uri_of(width, height, rgb) == data_uri(
            jpeg_of(
                thumbnail_of(width, height, rgb, 320, 320).0,
                thumbnail_of(width, height, rgb, 320, 320).1,
                thumbnail_of(width, height, rgb, 320, 320).2,
            ),
        ),
{
}

/// Photos whose hashes differ in at most ten bits carry the same duplicate number.
pub proof fn photos_within_ten_bits_share_a_number(
    report: &FolderReport,
    folder: Seq<char>,
    scan: &LibraryScan,
    clusters: Seq<Vec<usize>>,
    bursts: Seq<Seq<usize>>,
    j: int,
    k: int,
)
    requires
        scan.wf(),
        are_clusters(clusters, decoded_all(scan.hashes@), DEFAULT_DUP_DISTANCE),
        is_report(report, folder, scan, lists(clusters), bursts),
        0 <= j < scan.hash_photo@.len(),
        0 <= k < scan.hash_photo@.len(),
        j != k,
        hamming(decoded_all(scan.hashes@)[j], decoded_all(scan.hashes@)[k]) <= 10,
    ensures
        report.photos@[scan.hash_photo@[j] as int].cluster is Some,
        report.photos@[scan.hash_photo@[j] as int].cluster
            == report.photos@[scan.hash_photo@[k] as int].cluster,
{
    near_photos_share_a_number(report, folder, scan, clusters, bursts, j, k);
}

/// A photo whose hash differs from that of every other in more than ten bits carries no
/// duplicate number.
pub proof fn photos_beyond_ten_bits_carry_no_number(
    report: &FolderReport,
    folder: Seq<char>,
    scan: &LibraryScan,
    clusters: Seq<Vec<usize>>,
    bursts: Seq<Seq<usize>>,
    j: int,
)
    requires
        scan.wf(),
        are_clusters(clusters, decoded_all(scan.hashes@), DEFAULT_DUP_DISTANCE),
        is_report(report, folder, scan, lists(clusters), bursts),
        0 <= j < scan.hash_photo@.len(),
        forall|k: int|
            0 <= k < scan.hash_photo@.len() && k != j ==> hamming(
                decoded_all(scan.hashes@)[j],
                #[trigger] decoded_all(scan.hashes@)[k],
            ) > 10,
    ensures
        report.photos@[scan.hash_photo@[j] as int].cluster is None,
{
    let hashes = decoded_all(scan.hashes@);
    assert forall|k: int| 0 <= k < scan.hash_photo@.len() && k != j implies !#[trigger] similar(
        hashes,
        DEFAULT_DUP_DISTANCE,
        j,
        k,
    ) by {
        if similar(hashes, DEFAULT_DUP_DISTANCE, j, k) {
            assert(grouped(clusters, j) && grouped(clusters, k));
            let g = choose|g: int| #[trigger] member(clusters, g, j);
            let h = choose|h: int| #[trigger] member(clusters, h, k);
            assert(g == h);
            far_hashes_stand_alone(clusters, hashes, DEFAULT_DUP_DISTANCE, g, j, k);
        }
    }
    unlike_photos_carry_no_number(report, folder, scan, clusters, bursts, j);
}

/// Photos that follow one another in time carry the same burst number exactly where no
/// more than two seconds lie between them.
pub proof fn photos_within_two_seconds_share_a_burst(
    report: &FolderReport,
    folder: Seq<char>,
    scan: &LibraryScan,
    clusters: Seq<Seq<usize>>,
    bursts: Seq<Seq<usize>>,
    order: Seq<int>,
    a: int,
)
    requires
        scan.wf(),
        are_bursts(bursts, scan.fingerprints@, order, DEFAULT_BURST_GAP_SECS),
        is_report(report, folder, scan, clusters, bursts),
        0 <= a,
        a + 1 < order.len(),
    ensures
        ({
            let first = scan.fingerprints@[order[a]];
            let second = scan.fingerprints@[order[a + 1]];
            let one = report.photos@[first.id as int].burst;
            let other = report.photos@[second.id as int].burst;
            (one is Some && one == other) <==> gap_nanos(
                second.timestamp->Some_0,
                first.timestamp->Some_0,
            ) <= 2_000_000_000
        }),
{
    let items = scan.fingerprints@;
    let timed = runs(items, order, DEFAULT_BURST_GAP_SECS);
    let (g, b) = neighbours_in_time(items, order, DEFAULT_BURST_GAP_SECS, a);
    assert(bursts[g] == timed[g]);
    let gap = gap_nanos(items[order[a + 1]].timestamp->Some_0, items[order[a]].timestamp->Some_0);
    if gap <= 2_000_000_000 {
        photos_of_a_burst_share_a_number(
            report,
            folder,
            scan,
            clusters,
            bursts,
            order,
            g,
            b,
            g,
            b + 1,
        );
    } else {
        assert(bursts[g + 1] == timed[g + 1]);
        photos_of_a_burst_share_a_number(
            report,
            folder,
            scan,
            clusters,
            bursts,
            order,
            g,
            b,
            g + 1,
            0,
        );
    }
}

/// A thumbnail fits of every image of at most 2^20 pixels either way, and of every one
/// of at most 2^32 pixels in all; it fits of no other.
pub proof fn thumbnails_fit_by_size(width: u32, height: u32)
    ensures
        width <= 1048576 && height <= 1048576 ==> fits_thumbnail(width, height),
        width * height <= 4294967296 ==> fits_thumbnail(width, height),
        (width > 1048576 || height > 1048576) && width * height > 4294967296 ==> !fits_thumbnail(
            width,
            height,
        ),
{
}

} // verus!
