//! Duplicate and near-duplicate detection: perceptual hashes, their distance,
//! and single-linkage clusters.
use image::{DynamicImage, RgbImage};
use image_hasher::{HashAlg, HasherConfig, ImageHash};
use vstd::prelude::*;
use crate::base64_text::{base64_unpadded, base64_unpadded_is_injective};
use crate::links::{
    chain_stays_in_class, connected, connected_is_reflexive, connected_is_symmetric,
    connected_is_transitive, is_chain, joined, link_connects,
};
use crate::raster::{least, Image};
use crate::union_find::{grouped, member, partition_is_unique, partitions, UnionFind};

verus! {

/// Side of the perceptual hash: eight gives the classic 64-bit pHash.
pub const PHASH_SIZE: u32 = 8;

/// Hamming distance up to which two hashes count as near-duplicates.
pub const DEFAULT_DUP_DISTANCE: u32 = 10;

// ---------------------------------------------------------------------------
// Distance
// ---------------------------------------------------------------------------

/// How many bits of `b` are set.
pub open spec fn ones(b: u8) -> nat
    decreases b,
{
    if b == 0 {
        0
    } else {
        (b % 2) as nat + ones(b / 2)
    }
}

/// How many bits differ between two hashes, over the bytes that both have.
pub open spec fn hamming(a: Seq<u8>, b: Seq<u8>) -> nat
    decreases a.len(),
{
    if a.len() == 0 || b.len() == 0 {
        0
    } else {
        ones(a[0] ^ b[0]) + hamming(a.skip(1), b.skip(1))
    }
}

/// The distance is the same both ways.
pub proof fn hamming_is_symmetric(a: Seq<u8>, b: Seq<u8>)
    ensures
        hamming(a, b) == hamming(b, a),
    decreases a.len(),
{
    if a.len() > 0 && b.len() > 0 {
        let (x, y) = (a[0], b[0]);
        assert(x ^ y == y ^ x) by (bit_vector);
        hamming_is_symmetric(a.skip(1), b.skip(1));
    }
}

/// A hash is at distance zero from itself.
pub proof fn hamming_of_equals_is_zero(a: Seq<u8>)
    ensures
        hamming(a, a) == 0,
    decreases a.len(),
{
    if a.len() > 0 {
        let x = a[0];
        assert(x ^ x == 0) by (bit_vector);
        hamming_of_equals_is_zero(a.skip(1));
    }
}

/// Hashes of one length at distance zero are identical.
pub proof fn hamming_zero_means_identical(a: Seq<u8>, b: Seq<u8>)
    requires
        a.len() == b.len(),
        hamming(a, b) == 0,
    ensures
        a == b,
    decreases a.len(),
{
    if a.len() > 0 {
        let (x, y) = (a[0], b[0]);
        lemma_no_ones(x ^ y);
        assert(x ^ y == 0 ==> x == y) by (bit_vector);
        hamming_zero_means_identical(a.skip(1), b.skip(1));
        assert forall|i: int| 0 <= i < a.len() implies a[i] == b[i] by {
            if i > 0 {
                assert(a.skip(1)[i - 1] == b.skip(1)[i - 1]);
            }
        }
    }
    assert(a =~= b);
}

/// A byte without set bits is zero.
proof fn lemma_no_ones(b: u8)
    requires
        ones(b) == 0,
    ensures
        b == 0,
    decreases b,
{
    if b != 0 {
        lemma_no_ones(b / 2);
    }
}

/// A byte has at most eight set bits.
proof fn lemma_ones_bounded(b: u8)
    ensures
        ones(b) <= 8,
{
    reveal_with_fuel(ones, 9);
}

/// Bits that differ are set on one side or the other.
proof fn lemma_ones_of_difference(u: u8, v: u8)
    ensures
        ones(u ^ v) <= ones(u) + ones(v),
    decreases u,
{
    if u == 0 {
        assert(0u8 ^ v == v) by (bit_vector);
    } else if v == 0 {
        assert(u ^ 0u8 == u) by (bit_vector);
    } else {
        assert((u ^ v) / 2 == (u / 2) ^ (v / 2)) by (bit_vector);
        assert((u ^ v) % 2 <= u % 2 + v % 2) by (bit_vector);
        lemma_ones_of_difference(u / 2, v / 2);
    }
}

/// The distance is at most eight for each byte that both hashes have.
pub proof fn hamming_is_bounded(a: Seq<u8>, b: Seq<u8>)
    ensures
        hamming(a, b) <= 8 * least(a.len() as int, b.len() as int),
    decreases a.len(),
{
    if a.len() > 0 && b.len() > 0 {
        lemma_ones_bounded(a[0] ^ b[0]);
        hamming_is_bounded(a.skip(1), b.skip(1));
    }
}

/// The way over a third hash is no shorter, where that has every byte that both
/// others have.
pub proof fn hamming_over_a_third_is_no_shorter(a: Seq<u8>, b: Seq<u8>, c: Seq<u8>)
    requires
        least(a.len() as int, c.len() as int) <= b.len(),
    ensures
        hamming(a, c) <= hamming(a, b) + hamming(b, c),
    decreases a.len(),
{
    if a.len() > 0 && c.len() > 0 {
        let (x, y, z) = (a[0], b[0], c[0]);
        assert(x ^ z == (x ^ y) ^ (y ^ z)) by (bit_vector);
        lemma_ones_of_difference(x ^ y, y ^ z);
        hamming_over_a_third_is_no_shorter(a.skip(1), b.skip(1), c.skip(1));
    }
}

// ---------------------------------------------------------------------------
// Hashes and their texts
// ---------------------------------------------------------------------------

/// The median DCT hash of an image, `side` by `side` bits, least significant
/// bit first.
pub uninterp spec fn image_phash(side: u32, width: u32, height: u32, rgb: Seq<u8>) -> Seq<u8>;

/// What `image_hasher` says is wrong with a text that is no hash.
pub uninterp spec fn hash_error_text(text: Seq<char>) -> Seq<char>;

/// The hash of an image at the size the library uses.
pub open spec fn phash_of(img: &Image) -> Seq<u8> {
    image_phash(PHASH_SIZE, img.width, img.height, img.data@)
}

/// `image_hasher`'s `Hasher::hash_image` with the `Median` algorithm, DCT
/// preprocessing and a hash of `side` by `side` bits: a function of the pixels,
/// eight bits to a byte.
#[verifier::external_body]
fn hash_image(img: &Image, side: u32) -> (r: Vec<u8>)
    requires
        img.wf(),
        side == PHASH_SIZE,
    ensures
        r@ == image_phash(side, img.width, img.height, img.data@),
        r@.len() == (side * side + 7) / 8,
{
    let rgb = RgbImage::from_raw(img.width, img.height, img.data.clone()).unwrap();
    HasherConfig::new()
        .hash_alg(HashAlg::Median)
        .preproc_dct()
        .hash_size(side, side)
        .to_hasher()
        .hash_image(&DynamicImage::ImageRgb8(rgb))
        .as_bytes()
        .to_vec()
}

/// `image_hasher`'s `ImageHash::to_base64`: the unpadded base64 text of the
/// hash's bytes.
#[verifier::external_body]
fn hash_to_text(bytes: &[u8]) -> (r: String)
    requires
        0 < bytes@.len() <= usize::MAX / 8,
    ensures
        r@ == base64_unpadded(bytes@),
{
    ImageHash::<Box<[u8]>>::from_bytes(bytes).unwrap().to_base64()
}

/// `image_hasher`'s `ImageHash::from_base64`: the bytes, of which there is at
/// least one, whose unpadded base64 text this is; an error, given in its debug
/// form, where there are none.
#[verifier::external_body]
fn hash_from_text(text: &str) -> (r: Result<Vec<u8>, String>)
    requires
        text@.len() <= usize::MAX / 8,
    ensures
        r matches Ok(bytes) ==> bytes@.len() > 0 && base64_unpadded(bytes@) == text@,
        r matches Err(e) ==> e@ == hash_error_text(text@) && forall|bytes: Seq<u8>|
            bytes.len() > 0 ==> #[trigger] base64_unpadded(bytes) != text@,
{
    ImageHash::<Box<[u8]>>::from_base64(text)
        .map(|hash| hash.as_bytes().to_vec())
        .map_err(|e| format!("{e:?}"))
}

/// `image_hasher`'s `ImageHash::dist`: the number of bits in which two hashes
/// differ.
#[verifier::external_body]
fn hash_dist(a: &[u8], b: &[u8]) -> (r: u32)
    requires
        0 < a@.len() <= usize::MAX / 8,
        0 < b@.len() <= usize::MAX / 8,
        least(a@.len() as int, b@.len() as int) * 8 <= u32::MAX,
    ensures
        r == hamming(a@, b@),
{
    let hash = ImageHash::<Box<[u8]>>::from_bytes(a).unwrap();
    hash.dist(&ImageHash::<Box<[u8]>>::from_bytes(b).unwrap())
}

/// The bytes that a hash text stands for, if it stands for any.
pub open spec fn decoded(text: Seq<char>) -> Option<Seq<u8>> {
    if exists|b: Seq<u8>| b.len() > 0 && #[trigger] base64_unpadded(b) == text {
        Some(choose|b: Seq<u8>| b.len() > 0 && #[trigger] base64_unpadded(b) == text)
    } else {
        None
    }
}

/// The text of a hash stands for that hash.
pub proof fn decoded_text_is_the_hash(bytes: Seq<u8>)
    requires
        bytes.len() > 0,
    ensures
        decoded(base64_unpadded(bytes)) == Some(bytes),
{
    let text = base64_unpadded(bytes);
    let other = choose|b: Seq<u8>| b.len() > 0 && #[trigger] base64_unpadded(b) == text;
    base64_unpadded_is_injective(bytes, other);
}

/// Text of the error for a hash that cannot be read.
pub open spec fn invalid_hash_message(text: Seq<char>) -> Seq<char> {
    "invalid hash: "@ + hash_error_text(text)
}

/// Reads a hash text.
fn read_hash(text: &str) -> (r: Result<Vec<u8>, String>)
    requires
        text@.len() <= usize::MAX / 8,
    ensures
        r is Ok <==> decoded(text@) is Some,
        r matches Ok(bytes) ==> decoded(text@) == Some(bytes@) && bytes@.len() > 0
            && bytes@.len() <= text@.len() && 8 * bytes@.len() <= 6 * text@.len(),
        r matches Err(e) ==> e@ == invalid_hash_message(text@),
{
    match hash_from_text(text) {
        Ok(bytes) => {
            proof {
                decoded_text_is_the_hash(bytes@);
                crate::base64_text::base64_unpadded_length(bytes@);
            }
            Ok(bytes)
        },
        Err(e) => {
            let mut message: String = "invalid hash: ".to_owned();
            message.append(e.as_str());
            Err(message)
        },
    }
}

/// Perceptual hash of an image as a base64 text. Similar images have hashes at
/// a small distance.
pub fn perceptual_hash(img: &Image) -> (r: String)
    requires
        img.wf(),
    ensures
        r@ == base64_unpadded(phash_of(img)),
        decoded(r@) == Some(phash_of(img)),
        phash_of(img).len() == 8,
{
    let bytes: Vec<u8> = hash_image(img, PHASH_SIZE);
    proof {
        decoded_text_is_the_hash(bytes@);
    }
    hash_to_text(bytes.as_slice())
}

/// Hamming distance of two hash texts; zero means identical.
pub fn hash_distance(a: &str, b: &str) -> (r: Result<u32, String>)
    requires
        a@.len() <= usize::MAX / 8,
        b@.len() <= usize::MAX / 8,
        least(a@.len() as int, b@.len() as int) * 6 <= u32::MAX,
    ensures
        match (decoded(a@), decoded(b@)) {
            (Some(x), Some(y)) => r matches Ok(d) && d == hamming(x, y),
            (None, _) => r matches Err(e) && e@ == invalid_hash_message(a@),
            (Some(_), None) => r matches Err(e) && e@ == invalid_hash_message(b@),
        },
{
    let ha: Vec<u8> = match read_hash(a) {
        Ok(bytes) => bytes,
        Err(e) => {
            return Err(e);
        },
    };
    let hb: Vec<u8> = match read_hash(b) {
        Ok(bytes) => bytes,
        Err(e) => {
            return Err(e);
        },
    };
    Ok(hash_dist(ha.as_slice(), hb.as_slice()))
}

/// Hamming distance of the hashes of two images.
pub fn hash_distance_images(a: &Image, b: &Image) -> (r: u32)
    requires
        a.wf(),
        b.wf(),
    ensures
        r == hamming(phash_of(a), phash_of(b)),
{
    let ha: Vec<u8> = hash_image(a, PHASH_SIZE);
    let hb: Vec<u8> = hash_image(b, PHASH_SIZE);
    hash_dist(ha.as_slice(), hb.as_slice())
}

// ---------------------------------------------------------------------------
// Clusters
// ---------------------------------------------------------------------------

/// Whether two of the hashes are at most `max_distance` apart.
pub open spec fn near(hashes: Seq<Seq<u8>>, max_distance: u32, i: int, j: int) -> bool {
    hamming(hashes[i], hashes[j]) <= max_distance
}

/// Whether a chain of near hashes leads from one to the other.
pub open spec fn similar(hashes: Seq<Seq<u8>>, max_distance: u32, i: int, j: int) -> bool {
    connected(|a: int, b: int| near(hashes, max_distance, a, b), hashes.len(), i, j)
}

/// The groups are the single-linkage clusters of the hashes: two indices share
/// one exactly where a chain of near hashes joins them.
pub open spec fn are_clusters(
    groups: Seq<Vec<usize>>,
    hashes: Seq<Seq<u8>>,
    max_distance: u32,
) -> bool {
    partitions(groups, hashes.len(), |i: int, j: int| similar(hashes, max_distance, i, j))
}

/// The bytes that the hash texts stand for.
pub open spec fn decoded_all(texts: Seq<String>) -> Seq<Seq<u8>> {
    texts.map_values(|t: String| decoded(t@)->Some_0)
}

/// Whether the `k`-th text is the first that is no hash.
pub open spec fn first_invalid(texts: Seq<String>, k: int) -> bool {
    &&& 0 <= k < texts.len()
    &&& decoded(texts[k]@) is None
    &&& forall|i: int| 0 <= i < k ==> decoded((#[trigger] texts[i])@) is Some
}

/// Whether the texts are short enough for their distances to fit in 32 bits.
pub open spec fn distances_fit(texts: Seq<String>) -> bool {
    &&& forall|i: int| 0 <= i < texts.len() ==> (#[trigger] texts[i])@.len() <= usize::MAX / 8
    &&& forall|i: int, j: int|
        0 <= i < j < texts.len() ==> least(
            (#[trigger] texts[i])@.len() as int,
            (#[trigger] texts[j])@.len() as int,
        ) * 6 <= u32::MAX
}

/// The bytes of hashes that have been read.
pub open spec fn bytes_of(parsed: Seq<Vec<u8>>) -> Seq<Seq<u8>> {
    parsed.map_values(|v: Vec<u8>| v@)
}

/// Hashes that are not empty and whose distances fit in 32 bits.
pub open spec fn hashes_fit(parsed: Seq<Vec<u8>>) -> bool {
    &&& forall|i: int|
        0 <= i < parsed.len() ==> 0 < (#[trigger] parsed[i])@.len() <= usize::MAX / 8
    &&& forall|i: int, j: int|
        0 <= i < j < parsed.len() ==> least(
            (#[trigger] parsed[i])@.len() as int,
            (#[trigger] parsed[j])@.len() as int,
        ) * 8 <= u32::MAX
}

/// Clusters hashes by single linkage: any two within `max_distance` land in the
/// same cluster, and so do whole chains of near-duplicates. Returns clusters of
/// indices into `hashes`, singletons among them, in ascending order.
pub fn cluster_by_similarity(hashes: &[String], max_distance: u32) -> (r: Result<
    Vec<Vec<usize>>,
    String,
>)
    requires
        distances_fit(hashes@),
    ensures
        r is Ok <==> forall|i: int|
            0 <= i < hashes@.len() ==> decoded((#[trigger] hashes@[i])@) is Some,
        r matches Ok(groups) ==> are_clusters(groups@, decoded_all(hashes@), max_distance),
        r matches Err(e) ==> exists|k: int| #[trigger]
            first_invalid(hashes@, k) && e@ == invalid_hash_message(hashes@[k]@),
{
    let n: usize = hashes.len();
    let mut parsed: Vec<Vec<u8>> = Vec::new();
    let mut k: usize = 0;
    while k < n
        invariant
            n == hashes@.len(),
            k <= n,
            distances_fit(hashes@),
            parsed@.len() == k,
            forall|i: int|
                0 <= i < k ==> decoded((#[trigger] hashes@[i])@) == Some(parsed@[i]@)
                    && parsed@[i]@.len() > 0 && 8 * parsed@[i]@.len() <= 6 * hashes@[i]@.len(),
        decreases n - k,
    {
        match read_hash(hashes[k].as_str()) {
            Ok(bytes) => {
                parsed.push(bytes);
            },
            Err(e) => {
                assert(first_invalid(hashes@, k as int));
                return Err(e);
            },
        }
        k = k + 1;
    }
    proof {
        assert(decoded_all(hashes@) =~= bytes_of(parsed@));
        assert forall|i: int| 0 <= i < parsed@.len() implies 0 < (#[trigger] parsed@[i])@.len()
            <= usize::MAX / 8 by {
            assert(hashes@[i]@.len() <= usize::MAX / 8);
        }
        assert forall|i: int, j: int| 0 <= i < j < parsed@.len() implies least(
            (#[trigger] parsed@[i])@.len() as int,
            (#[trigger] parsed@[j])@.len() as int,
        ) * 8 <= u32::MAX by {
            assert(least(hashes@[i]@.len() as int, hashes@[j]@.len() as int) * 6 <= u32::MAX);
        }
    }
    Ok(cluster_hashes(&parsed, max_distance))
}

/// Clusters hashes that have been read.
pub fn cluster_hashes(parsed: &Vec<Vec<u8>>, max_distance: u32) -> (r: Vec<Vec<usize>>)
    requires
        hashes_fit(parsed@),
    ensures
        are_clusters(r@, bytes_of(parsed@), max_distance),
{
    let n: usize = parsed.len();
    let ghost all: Seq<Seq<u8>> = bytes_of(parsed@);
    let ghost link = |a: int, b: int| near(all, max_distance, a, b);
    let mut uf: UnionFind = UnionFind::new(n);
    proof {
        assert forall|p: int, q: int|
            0 <= p < n && 0 <= q < n && #[trigger] uf.same(p, q) implies connected(
            link,
            n as nat,
            p,
            q,
        ) by {
            connected_is_reflexive(link, n as nat, p);
        }
    }
    let mut i: usize = 0;
    while i < n
        invariant
            n == parsed@.len(),
            all == bytes_of(parsed@),
            link == (|a: int, b: int| near(all, max_distance, a, b)),
            hashes_fit(parsed@),
            i <= n,
            uf.wf(),
            uf.size() == n,
            forall|p: int, q: int|
                0 <= p < n && 0 <= q < n && #[trigger] uf.same(p, q) ==> connected(
                    link,
                    n as nat,
                    p,
                    q,
                ),
            forall|p: int, q: int|
                0 <= p < i && p < q < n && near(all, max_distance, p, q) ==> #[trigger] uf.same(
                    p,
                    q,
                ),
        decreases n - i,
    {
        let mut j: usize = i + 1;
        while j < n
            invariant
                n == parsed@.len(),
                all == bytes_of(parsed@),
                link == (|a: int, b: int| near(all, max_distance, a, b)),
                hashes_fit(parsed@),
                i < n,
                i < j <= n,
                uf.wf(),
                uf.size() == n,
                forall|p: int, q: int|
                    0 <= p < n && 0 <= q < n && #[trigger] uf.same(p, q) ==> connected(
                        link,
                        n as nat,
                        p,
                        q,
                    ),
                forall|p: int, q: int|
                    0 <= p < i && p < q < n && near(all, max_distance, p, q)
                        ==> #[trigger] uf.same(p, q),
                forall|q: int|
                    i < q < j && near(all, max_distance, i as int, q) ==> #[trigger] uf.same(
                        i as int,
                        q,
                    ),
            decreases n - j,
        {
            proof {
                assert(all[i as int] == parsed@[i as int]@);
                assert(all[j as int] == parsed@[j as int]@);
            }
            let d: u32 = hash_dist(parsed[i].as_slice(), parsed[j].as_slice());
            if d <= max_distance {
                let ghost before: UnionFind = uf;
                uf.union(i, j);
                proof {
                    link_connects(link, n as nat, i as int, j as int);
                    connected_is_symmetric(link, n as nat, i as int, j as int);
                    assert forall|p: int, q: int|
                        0 <= p < n && 0 <= q < n && #[trigger] uf.same(p, q) implies connected(
                        link,
                        n as nat,
                        p,
                        q,
                    ) by {
                        if before.same(p, q) {
                        } else if before.same(p, i as int) && before.same(j as int, q) {
                            connected_is_transitive(link, n as nat, p, i as int, j as int);
                            connected_is_transitive(link, n as nat, p, j as int, q);
                        } else {
                            assert(before.same(p, j as int) && before.same(i as int, q));
                            connected_is_transitive(link, n as nat, p, j as int, i as int);
                            connected_is_transitive(link, n as nat, p, i as int, q);
                        }
                    }
                    assert forall|p: int, q: int|
                        0 <= p < i && p < q < n && near(all, max_distance, p, q) implies #[trigger] uf.same(
                        p, q) by {
                        assert(before.same(p, q));
                    }
                    assert forall|q: int|
                        i < q < j + 1 && near(all, max_distance, i as int, q) implies #[trigger] uf.same(
                        i as int, q) by {
                        if q < j {
                            assert(before.same(i as int, q));
                        } else {
                            assert(before.same(i as int, i as int));
                            assert(before.same(j as int, j as int));
                        }
                    }
                }
            }
            j = j + 1;
        }
        i = i + 1;
    }
    let ghost linked: UnionFind = uf;
    let groups: Vec<Vec<usize>> = uf.groups();
    proof {
        let class = |p: int| linked.root_of(p) as int;
        assert forall|p: int, q: int|
            0 <= p < n && 0 <= q < n && #[trigger] joined(link, p, q) implies class(p) == class(
            q,
        ) by {
            hamming_is_symmetric(all[p], all[q]);
            if p < q {
                assert(near(all, max_distance, p, q));
                assert(linked.same(p, q));
            } else if q < p {
                assert(near(all, max_distance, q, p));
                assert(linked.same(q, p));
            }
        }
        assert forall|g: int, h: int, p: int, q: int|
            #[trigger] member(groups@, g, p) && #[trigger] member(groups@, h, q) implies (g == h
            <==> similar(all, max_distance, p, q)) by {
            assert(0 <= p < n && 0 <= q < n);
            if similar(all, max_distance, p, q) {
                let path = choose|path: Seq<int>| #[trigger]
                    is_chain(link, n as nat, path) && path[0] == p && path.last() == q;
                chain_stays_in_class(link, n as nat, class, path);
                assert(linked.same(p, q));
            }
            assert(linked.same(p, q) <==> similar(all, max_distance, p, q));
        }
    }
    groups
}

/// Clusters hash texts, by default at the distance of near-duplicates.
pub fn find_duplicate_clusters(hashes: &[String], max_distance: Option<u32>) -> (r: Result<
    Vec<Vec<usize>>,
    String,
>)
    requires
        distances_fit(hashes@),
    ensures
        r is Ok <==> forall|i: int|
            0 <= i < hashes@.len() ==> decoded((#[trigger] hashes@[i])@) is Some,
        r matches Ok(groups) ==> are_clusters(
            groups@,
            decoded_all(hashes@),
            match max_distance {
                Some(d) => d,
                None => DEFAULT_DUP_DISTANCE,
            },
        ),
        r matches Err(e) ==> exists|k: int| #[trigger]
            first_invalid(hashes@, k) && e@ == invalid_hash_message(hashes@[k]@),
{
    match max_distance {
        Some(d) => cluster_by_similarity(hashes, d),
        None => cluster_by_similarity(hashes, DEFAULT_DUP_DISTANCE),
    }
}

// ---------------------------------------------------------------------------
// Laws of clusters
// ---------------------------------------------------------------------------

/// Any two hashes within the distance land in the same cluster.
pub proof fn near_hashes_share_a_cluster(
    groups: Seq<Vec<usize>>,
    hashes: Seq<Seq<u8>>,
    max_distance: u32,
    g: int,
    h: int,
    i: int,
    j: int,
)
    requires
        are_clusters(groups, hashes, max_distance),
        member(groups, g, i),
        member(groups, h, j),
        hamming(hashes[i], hashes[j]) <= max_distance,
    ensures
        g == h,
{
    link_connects(
        |a: int, b: int| near(hashes, max_distance, a, b),
        hashes.len(),
        i,
        j,
    );
    assert(similar(hashes, max_distance, i, j));
}

/// A higher limit only merges clusters: what shares a cluster at one limit shares one
/// at every higher limit.
pub proof fn higher_limits_merge_clusters(
    fine: Seq<Vec<usize>>,
    coarse: Seq<Vec<usize>>,
    hashes: Seq<Seq<u8>>,
    low: u32,
    high: u32,
    g: int,
    i: int,
    j: int,
)
    requires
        are_clusters(fine, hashes, low),
        are_clusters(coarse, hashes, high),
        low <= high,
        member(fine, g, i),
        member(fine, g, j),
    ensures
        exists|h: int| #[trigger] member(coarse, h, i) && member(coarse, h, j),
{
    let near_low = |a: int, b: int| near(hashes, low, a, b);
    let near_high = |a: int, b: int| near(hashes, high, a, b);
    assert(similar(hashes, low, i, j));
    let path = choose|path: Seq<int>| #[trigger]
        is_chain(near_low, hashes.len(), path) && path[0] == i && path.last() == j;
    assert forall|k: int, l: int| 0 <= k && l == k + 1 && l < path.len() implies joined(
        near_high,
        #[trigger] path[k],
        #[trigger] path[l],
    ) by {
        assert(joined(near_low, path[k], path[l]));
    }
    assert(is_chain(near_high, hashes.len(), path));
    assert(similar(hashes, high, i, j));
    assert(0 <= path[0] < hashes.len() && 0 <= path[path.len() - 1] < hashes.len());
    assert(grouped(coarse, i) && grouped(coarse, j));
    let h = choose|h: int| #[trigger] member(coarse, h, i);
    let k = choose|k: int| #[trigger] member(coarse, k, j);
    assert(h == k);
}

/// A higher limit gives no more clusters.
pub proof fn higher_limits_give_no_more_clusters(
    fine: Seq<Vec<usize>>,
    coarse: Seq<Vec<usize>>,
    hashes: Seq<Seq<u8>>,
    low: u32,
    high: u32,
)
    requires
        are_clusters(fine, hashes, low),
        are_clusters(coarse, hashes, high),
        low <= high,
    ensures
        coarse.len() <= fine.len(),
{
    let n = fine.len() as int;
    let at = |h: int| choose|g: int| #[trigger] member(fine, g, coarse[h]@[0] as int);
    let places = Seq::new(coarse.len(), at);
    assert forall|h: int| 0 <= h < coarse.len() implies member(
        fine,
        #[trigger] places[h],
        coarse[h]@[0] as int,
    ) && member(coarse, h, coarse[h]@[0] as int) by {
        assert(coarse[h]@[0] < hashes.len());
        assert(grouped(fine, coarse[h]@[0] as int));
    }
    assert forall|h: int, k: int| 0 <= h < k < places.len() implies places[h] != places[k] by {
        let (i, j) = (coarse[h]@[0] as int, coarse[k]@[0] as int);
        if places[h] == places[k] {
            higher_limits_merge_clusters(fine, coarse, hashes, low, high, places[h], i, j);
            let m = choose|m: int| #[trigger] member(coarse, m, i) && member(coarse, m, j);
            assert(similar(hashes, high, i, j));
            assert(member(coarse, h, i) && member(coarse, k, j));
        }
    }
    places.unique_seq_to_set();
    vstd::set_lib::lemma_int_range(0, n);
    assert(places.to_set().subset_of(vstd::set_lib::set_int_range(0, n)));
    vstd::set_lib::lemma_len_subset(places.to_set(), vstd::set_lib::set_int_range(0, n));
}

/// The clusters of given hashes come out the same every time.
pub proof fn clusters_are_deterministic(
    a: Seq<Vec<usize>>,
    b: Seq<Vec<usize>>,
    hashes: Seq<Seq<u8>>,
    max_distance: u32,
)
    requires
        are_clusters(a, hashes, max_distance),
        are_clusters(b, hashes, max_distance),
    ensures
        a.len() == b.len(),
        forall|g: int| 0 <= g < a.len() ==> (#[trigger] a[g])@ == b[g]@,
{
    partition_is_unique(
        a,
        b,
        hashes.len(),
        |i: int, j: int| similar(hashes, max_distance, i, j),
    );
}

/// Images of the same pixels have the same hash, at distance zero.
pub proof fn same_pixels_have_the_same_hash(a: &Image, b: &Image)
    requires
        a.same_as(b),
    ensures
        phash_of(a) == phash_of(b),
        hamming(phash_of(a), phash_of(b)) == 0,
{
    hamming_of_equals_is_zero(phash_of(a));
}

/// A hash that is further from every other than the limit is in a cluster of its own.
pub proof fn far_hashes_stand_alone(
    groups: Seq<Vec<usize>>,
    hashes: Seq<Seq<u8>>,
    max_distance: u32,
    g: int,
    i: int,
    j: int,
)
    requires
        are_clusters(groups, hashes, max_distance),
        member(groups, g, i),
        member(groups, g, j),
        forall|k: int|
            0 <= k < hashes.len() && k != i ==> hamming(hashes[i], #[trigger] hashes[k])
                > max_distance,
    ensures
        i == j,
{
    let link = |a: int, b: int| near(hashes, max_distance, a, b);
    assert(similar(hashes, max_distance, i, j));
    let path = choose|path: Seq<int>| #[trigger]
        is_chain(link, hashes.len(), path) && path[0] == i && path.last() == j;
    let class = |k: int|
        if k == i {
            1int
        } else {
            0
        };
    assert forall|a: int, b: int|
        0 <= a < hashes.len() && 0 <= b < hashes.len() && #[trigger] joined(
            link,
            a,
            b,
        ) implies class(a) == class(b) by {
        hamming_is_symmetric(hashes[a], hashes[b]);
        if a == i && b != i {
            assert(hamming(hashes[i], hashes[b]) > max_distance);
        }
        if b == i && a != i {
            assert(hamming(hashes[i], hashes[a]) > max_distance);
        }
    }
    chain_stays_in_class(link, hashes.len(), class, path);
}

/// Clusters list every hash once, each in ascending order, and open with ascending
/// hashes.
pub proof fn clusters_list_every_hash_once(
    groups: Seq<Vec<usize>>,
    hashes: Seq<Seq<u8>>,
    max_distance: u32,
    g: int,
    h: int,
    a: int,
    b: int,
)
    requires
        are_clusters(groups, hashes, max_distance),
        0 <= g < groups.len(),
        0 <= h < groups.len(),
        0 <= a < groups[g]@.len(),
        0 <= b < groups[h]@.len(),
    ensures
        groups[g]@[a] < hashes.len(),
        g == h && a < b ==> groups[g]@[a] < groups[h]@[b],
        g < h ==> groups[g]@[0] < groups[h]@[0],
        groups[g]@[a] == groups[h]@[b] ==> g == h && a == b,
        forall|i: int| 0 <= i < hashes.len() ==> #[trigger] grouped(groups, i),
{
    if groups[g]@[a] == groups[h]@[b] {
        let i = groups[g]@[a] as int;
        assert(member(groups, g, i) && member(groups, h, i));
        connected_is_reflexive(
            |p: int, q: int| near(hashes, max_distance, p, q),
            hashes.len(),
            i,
        );
        assert(similar(hashes, max_distance, i, i));
        if a < b {
            assert(groups[g]@[a] < groups[g]@[b]);
        }
        if b < a {
            assert(groups[g]@[b] < groups[g]@[a]);
        }
    }
}

/// Each bit counts for one: hashes that differ in one bit of one byte and in nothing
/// else are at distance one.
pub proof fn one_bit_counts_for_one(a: Seq<u8>, k: int, bit: u8)
    requires
        0 <= k < a.len(),
        bit < 8,
    ensures
        hamming(a, a.update(k, a[k] ^ (1u8 << bit))) == 1,
    decreases a.len(),
{
    let b = a.update(k, a[k] ^ (1u8 << bit));
    let x = a[0];
    if k == 0 {
        assert(x ^ (x ^ (1u8 << bit)) == 1u8 << bit) by (bit_vector);
        lemma_one_bit(bit);
        assert(a.skip(1) =~= b.skip(1));
        hamming_of_equals_is_zero(a.skip(1));
    } else {
        assert(x ^ x == 0) by (bit_vector);
        assert(b.skip(1) =~= a.skip(1).update(k - 1, a.skip(1)[k - 1] ^ (1u8 << bit)));
        one_bit_counts_for_one(a.skip(1), k - 1, bit);
    }
}

proof fn lemma_one_bit(bit: u8)
    requires
        bit < 8,
    ensures
        ones(1u8 << bit) == 1,
{
    assert(1u8 << bit == 1 || 1u8 << bit == 2 || 1u8 << bit == 4 || 1u8 << bit == 8 || 1u8 << bit
        == 16 || 1u8 << bit == 32 || 1u8 << bit == 64 || 1u8 << bit == 128) by (bit_vector)
        requires
            bit < 8,
    ;
    reveal_with_fuel(ones, 9);
}

/// The error of texts that are not all hashes is about the first that is none: every
/// text before it is a hash.
pub proof fn errors_are_about_the_first_text_that_is_none(texts: Seq<String>, k: int, i: int)
    requires
        first_invalid(texts, k),
        0 <= i < texts.len(),
    ensures
        decoded(texts[k]@) is None,
        i < k ==> decoded(texts[i]@) is Some,
        invalid_hash_message(texts[k]@).take(14) == "invalid hash: "@,
        invalid_hash_message(texts[k]@).skip(14) == hash_error_text(texts[k]@),
{
    reveal_strlit("invalid hash: ");
    let message = invalid_hash_message(texts[k]@);
    assert(message.take(14) =~= "invalid hash: "@);
    assert(message.skip(14) =~= hash_error_text(texts[k]@));
}

/// The hash of an image is that of eight by eight bits, of its width, its height and its
/// bytes.
pub proof fn hashes_are_of_the_whole_image(img: &Image)
    ensures
        phash_of(img) == image_phash(8, img.width, img.height, img.data@),
{
}

} // verus!
