//! Bursts: runs of frames taken in quick succession.
use vstd::prelude::*;
use crate::capture::{gap_nanos, time_between, Timestamp};
use crate::dedup::{decoded, perceptual_hash, phash_of};
use crate::numbering::{disjoint, distinct_members, lists};
use crate::order::{ascends, is_stable_order, listed, precedes, stable_order};
use crate::raster::Image;

verus! {

/// Gap in seconds up to which consecutive frames belong to one burst.
pub const DEFAULT_BURST_GAP_SECS: i64 = 2;

/// What dedup and burst analysis keep of an image.
#[derive(Debug)]
pub struct Fingerprint {
    /// Identifier that the caller chose, such as an index into a list of files.
    pub id: usize,
    pub phash: String,
    pub timestamp: Option<Timestamp>,
}

impl Fingerprint {
    /// The capture time, where there is one, is one that the calendar has.
    pub open spec fn wf(&self) -> bool {
        self.timestamp matches Some(t) ==> t.wf()
    }
}

/// The fingerprint of an image that was taken at a given time, if it is known.
pub fn fingerprint(id: usize, img: &Image, timestamp: Option<Timestamp>) -> (r: Fingerprint)
    requires
        img.wf(),
        timestamp matches Some(t) ==> t.wf(),
    ensures
        r.wf(),
        r.id == id,
        r.timestamp == timestamp,
        decoded(r.phash@) == Some(phash_of(img)),
{
    Fingerprint { id, phash: perceptual_hash(img), timestamp }
}

/// The time of the `i`-th frame.
pub open spec fn time_of(items: Seq<Fingerprint>, i: int) -> Timestamp {
    items[i].timestamp->Some_0
}

/// Whether the `i`-th frame has a time.
pub open spec fn is_timed(items: Seq<Fingerprint>, i: int) -> bool {
    items[i].timestamp is Some
}

/// Whether frame `i` was taken before frame `j`, or at the same time and stands
/// before it.
pub open spec fn earlier(items: Seq<Fingerprint>, i: int, j: int) -> bool {
    let (a, b) = (time_of(items, i).key(), time_of(items, j).key());
    a < b || (a == b && i < j)
}

/// `order` lists the frames that have a time, each once, in the order in which
/// they were taken; frames of one time keep their order.
pub open spec fn is_time_order(items: Seq<Fingerprint>, order: Seq<int>) -> bool {
    &&& forall|a: int|
        0 <= a < order.len() ==> 0 <= #[trigger] order[a] < items.len() && is_timed(
            items,
            order[a],
        )
    &&& forall|i: int| 0 <= i < items.len() && is_timed(items, i) ==> #[trigger] order.contains(i)
    &&& forall|a: int, b: int|
        0 <= a < b < order.len() ==> earlier(items, #[trigger] order[a], #[trigger] order[b])
}

/// Whether a frame at `t` belongs to the burst of the frame before it, at `prev`:
/// the gap between them, fractions of a second counted, is within the limit.
pub open spec fn continues(prev: Timestamp, t: Timestamp, max_gap_secs: i64) -> bool {
    gap_nanos(t, prev) <= max_gap_secs * 1_000_000_000
}

/// The bursts of frames in time order: a frame opens a new burst where its gap
/// to the frame before it is too long.
pub open spec fn runs(items: Seq<Fingerprint>, order: Seq<int>, max_gap_secs: i64) -> Seq<
    Seq<usize>,
>
    decreases order.len(),
{
    if order.len() == 0 {
        seq![]
    } else {
        let before = runs(items, order.drop_last(), max_gap_secs);
        let id = items[order.last()].id;
        if order.len() > 1 && continues(
            time_of(items, order[order.len() - 2]),
            time_of(items, order.last()),
            max_gap_secs,
        ) {
            before.drop_last().push(before.last().push(id))
        } else {
            before.push(seq![id])
        }
    }
}

/// One burst for each of the first `n` frames that has no time.
pub open spec fn singles(items: Seq<Fingerprint>, n: int) -> Seq<Seq<usize>>
    decreases n,
{
    if n <= 0 {
        seq![]
    } else if is_timed(items, n - 1) {
        singles(items, n - 1)
    } else {
        singles(items, n - 1).push(seq![items[n - 1].id])
    }
}

/// The bursts of the timed frames in the order of time, and behind them the
/// frames without a time.
pub open spec fn are_bursts(
    bursts: Seq<Seq<usize>>,
    items: Seq<Fingerprint>,
    order: Seq<int>,
    max_gap_secs: i64,
) -> bool {
    &&& is_time_order(items, order)
    &&& bursts == runs(items, order, max_gap_secs) + singles(items, items.len() as int)
}

// ---------------------------------------------------------------------------
// Laws of bursts
// ---------------------------------------------------------------------------

/// The identifiers of the frames without a time among the first `n`.
pub open spec fn untimed_ids(items: Seq<Fingerprint>, n: int) -> Seq<usize>
    decreases n,
{
    if n <= 0 {
        seq![]
    } else if is_timed(items, n - 1) {
        untimed_ids(items, n - 1)
    } else {
        untimed_ids(items, n - 1).push(items[n - 1].id)
    }
}

/// The identifiers of frames in a given order.
pub open spec fn ids_in(items: Seq<Fingerprint>, order: Seq<int>) -> Seq<usize> {
    order.map_values(|i: int| items[i].id)
}

/// There is a run where there is a frame.
proof fn lemma_runs_not_empty(items: Seq<Fingerprint>, order: Seq<int>, max_gap_secs: i64)
    requires
        order.len() > 0,
    ensures
        runs(items, order, max_gap_secs).len() > 0,
    decreases order.len(),
{
    if order.len() > 1 {
        lemma_runs_not_empty(items, order.drop_last(), max_gap_secs);
    }
}

/// Flattening lists with one more list behind them.
proof fn lemma_flatten_push(v: Seq<Seq<usize>>, x: Seq<usize>)
    ensures
        v.push(x).flatten() == v.flatten() + x,
{
    v.lemma_flatten_push(x);
}

/// The runs, one behind the other, are the frames in the order of time.
proof fn lemma_runs_flatten(items: Seq<Fingerprint>, order: Seq<int>, max_gap_secs: i64)
    ensures
        runs(items, order, max_gap_secs).flatten() == ids_in(items, order),
    decreases order.len(),
{
    if order.len() == 0 {
        assert(runs(items, order, max_gap_secs).flatten() =~= ids_in(items, order));
    } else {
        let front = order.drop_last();
        let before = runs(items, front, max_gap_secs);
        let id = items[order.last()].id;
        lemma_runs_flatten(items, front, max_gap_secs);
        assert(ids_in(items, order) =~= ids_in(items, front).push(id));
        if order.len() > 1 && continues(
            time_of(items, order[order.len() - 2]),
            time_of(items, order.last()),
            max_gap_secs,
        ) {
            lemma_runs_not_empty(items, front, max_gap_secs);
            assert(before =~= before.drop_last().push(before.last()));
            lemma_flatten_push(before.drop_last(), before.last());
            lemma_flatten_push(before.drop_last(), before.last().push(id));
            assert(before.drop_last().flatten() + before.last().push(id) =~= ids_in(
                items,
                order,
            ));
        } else {
            lemma_flatten_push(before, seq![id]);
            assert(before.flatten() + seq![id] =~= ids_in(items, order));
        }
    }
}

/// The singles, one behind the other, are the frames without a time.
proof fn lemma_singles_flatten(items: Seq<Fingerprint>, n: int)
    ensures
        singles(items, n).flatten() == untimed_ids(items, n),
        forall|g: int| 0 <= g < singles(items, n).len() ==> (#[trigger] singles(items, n)[g]).len()
            == 1,
    decreases n,
{
    if n <= 0 {
        assert(singles(items, n).flatten() =~= untimed_ids(items, n));
    } else {
        lemma_singles_flatten(items, n - 1);
        if !is_timed(items, n - 1) {
            let id = items[n - 1].id;
            lemma_flatten_push(singles(items, n - 1), seq![id]);
            assert(singles(items, n).flatten() =~= untimed_ids(items, n));
        }
    }
}

/// No frame is lost, none is doubled and none moves: the bursts, one behind the
/// other, are the timed frames in the order of time, and then the frames
/// without a time in the order in which they were given.
pub proof fn bursts_keep_every_frame(
    bursts: Seq<Seq<usize>>,
    items: Seq<Fingerprint>,
    order: Seq<int>,
    max_gap_secs: i64,
)
    requires
        are_bursts(bursts, items, order, max_gap_secs),
    ensures
        bursts.flatten() == ids_in(items, order) + untimed_ids(items, items.len() as int),
{
    lemma_runs_flatten(items, order, max_gap_secs);
    lemma_singles_flatten(items, items.len() as int);
    vstd::seq_lib::lemma_flatten_concat(
        runs(items, order, max_gap_secs),
        singles(items, items.len() as int),
    );
}

/// The order of time is one: two of them are the same, so the bursts of given
/// frames are too.
pub proof fn time_order_is_unique(items: Seq<Fingerprint>, a: Seq<int>, b: Seq<int>)
    requires
        is_time_order(items, a),
        is_time_order(items, b),
    ensures
        a == b,
{
    lemma_same_time_prefix(items, a, b, a.len() as int);
    if b.len() > a.len() {
        let extra = b[a.len() as int];
        assert(a.contains(extra));
        let p = a.index_of(extra);
        assert(earlier(items, b[p], b[a.len() as int]));
    }
    assert(a =~= b);
}

/// Two orders of time agree on their first `n` places.
proof fn lemma_same_time_prefix(items: Seq<Fingerprint>, a: Seq<int>, b: Seq<int>, n: int)
    requires
        is_time_order(items, a),
        is_time_order(items, b),
        0 <= n <= a.len(),
    ensures
        n <= b.len(),
        forall|k: int| 0 <= k < n ==> a[k] == b[k],
    decreases n,
{
    if n > 0 {
        lemma_same_time_prefix(items, a, b, n - 1);
        let k = n - 1;
        assert(b.contains(a[k]));
        let p = b.index_of(a[k]);
        if p < k {
            assert(earlier(items, a[p], a[k]));
        }
        assert(a.contains(b[k]));
        let q = a.index_of(b[k]);
        if q < k {
            assert(earlier(items, b[q], b[k]));
        }
        if p > k && q > k {
            assert(earlier(items, b[k], b[p]));
            assert(earlier(items, a[k], a[q]));
        }
    }
}

/// A frame opens a burst of its own exactly where its gap to the frame before
/// it in time is over the limit; otherwise it joins the last burst.
pub proof fn gap_decides_the_burst(
    items: Seq<Fingerprint>,
    order: Seq<int>,
    next: int,
    max_gap_secs: i64,
)
    requires
        order.len() > 0,
    ensures
        ({
            let before = runs(items, order, max_gap_secs);
            let after = runs(items, order.push(next), max_gap_secs);
            let id = items[next].id;
            if gap_nanos(time_of(items, next), time_of(items, order.last())) <= max_gap_secs
                * 1_000_000_000 {
                after == before.drop_last().push(before.last().push(id))
            } else {
                after == before.push(seq![id])
            }
        }),
{
    assert(order.push(next).drop_last() =~= order);
}

/// Every item of a run is the identifier of one of the frames.
proof fn lemma_runs_hold_frames(
    items: Seq<Fingerprint>,
    order: Seq<int>,
    max_gap_secs: i64,
    g: int,
    a: int,
)
    requires
        0 <= g < runs(items, order, max_gap_secs).len(),
        0 <= a < runs(items, order, max_gap_secs)[g].len(),
    ensures
        exists|p: int|
            0 <= p < order.len() && items[#[trigger] order[p]].id == runs(
                items,
                order,
                max_gap_secs,
            )[g][a],
    decreases order.len(),
{
    let front = order.drop_last();
    let before = runs(items, front, max_gap_secs);
    let all = runs(items, order, max_gap_secs);
    if order.len() > 1 {
        lemma_runs_not_empty(items, front, max_gap_secs);
    }
    if g < before.len() && a < before[g].len() {
        lemma_runs_hold_frames(items, front, max_gap_secs, g, a);
        let p = choose|p: int|
            0 <= p < front.len() && items[#[trigger] front[p]].id == before[g][a];
        assert(before[g][a] == all[g][a]);
        assert(items[order[p]].id == all[g][a]);
    } else {
        assert(items[order[order.len() - 1]].id == all[g][a]);
    }
}

/// Every item of a single is the identifier of a frame without a time.
proof fn lemma_singles_hold_frames(items: Seq<Fingerprint>, n: int, g: int)
    requires
        0 <= n <= items.len(),
        0 <= g < singles(items, n).len(),
    ensures
        singles(items, n)[g].len() == 1,
        exists|k: int|
            0 <= k < n && !#[trigger] is_timed(items, k) && items[k].id == singles(items, n)[g][0],
    decreases n,
{
    if n > 0 {
        if g < singles(items, n - 1).len() {
            lemma_singles_hold_frames(items, n - 1, g);
            let k = choose|k: int|
                0 <= k < n - 1 && !#[trigger] is_timed(items, k) && items[k].id == singles(
                    items,
                    n - 1,
                )[g][0];
            assert(!is_timed(items, k));
        } else {
            assert(!is_timed(items, n - 1));
        }
    }
}

/// Every item of a burst is the identifier of a frame.
pub proof fn bursts_hold_frames(
    bursts: Seq<Seq<usize>>,
    items: Seq<Fingerprint>,
    order: Seq<int>,
    max_gap_secs: i64,
    g: int,
    a: int,
)
    requires
        are_bursts(bursts, items, order, max_gap_secs),
        0 <= g < bursts.len(),
        0 <= a < bursts[g].len(),
    ensures
        exists|k: int| 0 <= k < items.len() && (#[trigger] items[k]).id == bursts[g][a],
{
    let timed = runs(items, order, max_gap_secs);
    if g < timed.len() {
        lemma_runs_hold_frames(items, order, max_gap_secs, g, a);
        let p = choose|p: int|
            0 <= p < order.len() && items[#[trigger] order[p]].id == timed[g][a];
        assert(items[order[p]].id == bursts[g][a]);
    } else {
        lemma_singles_hold_frames(items, items.len() as int, g - timed.len());
        let k = choose|k: int|
            0 <= k < items.len() && !#[trigger] is_timed(items, k) && items[k].id == singles(
                items,
                items.len() as int,
            )[g - timed.len()][0];
        assert(items[k].id == bursts[g][a]);
    }
}

/// Whether no two frames have the same identifier.
pub open spec fn distinct_ids(items: Seq<Fingerprint>) -> bool {
    forall|i: int, j: int|
        0 <= i < items.len() && 0 <= j < items.len() && (#[trigger] items[i]).id == (
        #[trigger] items[j]).id ==> i == j
}

/// Runs of frames of which no two share an identifier share no item.
proof fn lemma_runs_disjoint(items: Seq<Fingerprint>, order: Seq<int>, max_gap_secs: i64)
    requires
        distinct_ids(items),
        forall|a: int| 0 <= a < order.len() ==> 0 <= #[trigger] order[a] < items.len(),
        forall|a: int, b: int|
            0 <= a < b < order.len() ==> #[trigger] order[a] != #[trigger] order[b],
    ensures
        disjoint(runs(items, order, max_gap_secs)),
    decreases order.len(),
{
    if order.len() > 0 {
        let front = order.drop_last();
        let before = runs(items, front, max_gap_secs);
        let all = runs(items, order, max_gap_secs);
        let id = items[order.last()].id;
        lemma_runs_disjoint(items, front, max_gap_secs);
        if order.len() > 1 {
            lemma_runs_not_empty(items, front, max_gap_secs);
        }
        assert forall|g: int, h: int, a: int, b: int|
            0 <= g < all.len() && 0 <= h < all.len() && 0 <= a < all[g].len() && 0 <= b
                < all[h].len() && #[trigger] all[g][a] == #[trigger] all[h][b] implies g == h by {
            let g_old = g < before.len() && a < before[g].len();
            let h_old = h < before.len() && b < before[h].len();
            if g_old && h_old {
                assert(before[g][a] == before[h][b]);
            } else if g_old {
                lemma_runs_hold_frames(items, front, max_gap_secs, g, a);
                let p = choose|p: int|
                    0 <= p < front.len() && items[#[trigger] front[p]].id == before[g][a];
                assert(items[order[p]].id == items[order[order.len() - 1]].id);
            } else if h_old {
                lemma_runs_hold_frames(items, front, max_gap_secs, h, b);
                let p = choose|p: int|
                    0 <= p < front.len() && items[#[trigger] front[p]].id == before[h][b];
                assert(items[order[p]].id == items[order[order.len() - 1]].id);
            }
        }
    }
}

/// Singles of frames of which no two share an identifier share no item.
proof fn lemma_singles_disjoint(items: Seq<Fingerprint>, n: int)
    requires
        distinct_ids(items),
        0 <= n <= items.len(),
    ensures
        disjoint(singles(items, n)),
    decreases n,
{
    if n > 0 {
        lemma_singles_disjoint(items, n - 1);
        let before = singles(items, n - 1);
        let all = singles(items, n);
        assert forall|g: int, h: int, a: int, b: int|
            0 <= g < all.len() && 0 <= h < all.len() && 0 <= a < all[g].len() && 0 <= b
                < all[h].len() && #[trigger] all[g][a] == #[trigger] all[h][b] implies g == h by {
            lemma_singles_hold_frames(items, n, g);
            lemma_singles_hold_frames(items, n, h);
            if g < before.len() && h < before.len() {
                assert(before[g][a] == before[h][b]);
            } else if g < before.len() {
                lemma_singles_hold_frames(items, n - 1, g);
            } else if h < before.len() {
                lemma_singles_hold_frames(items, n - 1, h);
            }
        }
    }
}

/// Where no two frames share an identifier, no two bursts share a frame.
pub proof fn bursts_are_disjoint(
    bursts: Seq<Seq<usize>>,
    items: Seq<Fingerprint>,
    order: Seq<int>,
    max_gap_secs: i64,
)
    requires
        are_bursts(bursts, items, order, max_gap_secs),
        distinct_ids(items),
    ensures
        disjoint(bursts),
{
    let timed = runs(items, order, max_gap_secs);
    let rest = singles(items, items.len() as int);
    assert forall|a: int, b: int| 0 <= a < b < order.len() implies #[trigger] order[a]
        != #[trigger] order[b] by {
        assert(earlier(items, order[a], order[b]));
    }
    lemma_runs_disjoint(items, order, max_gap_secs);
    lemma_singles_disjoint(items, items.len() as int);
    assert forall|g: int, h: int, a: int, b: int|
        0 <= g < bursts.len() && 0 <= h < bursts.len() && 0 <= a < bursts[g].len() && 0 <= b
            < bursts[h].len() && #[trigger] bursts[g][a] == #[trigger] bursts[h][b] implies g
        == h by {
        let m = timed.len();
        if g < m && h < m {
            assert(timed[g][a] == timed[h][b]);
        } else if g >= m && h >= m {
            assert(rest[g - m][a] == rest[h - m][b]);
        } else if g < m {
            lemma_runs_hold_frames(items, order, max_gap_secs, g, a);
            lemma_singles_hold_frames(items, items.len() as int, h - m);
        } else {
            lemma_runs_hold_frames(items, order, max_gap_secs, h, b);
            lemma_singles_hold_frames(items, items.len() as int, g - m);
        }
    }
}

/// Runs of frames of which no two share an identifier hold none twice.
proof fn lemma_runs_distinct(items: Seq<Fingerprint>, order: Seq<int>, max_gap_secs: i64)
    requires
        distinct_ids(items),
        forall|a: int| 0 <= a < order.len() ==> 0 <= #[trigger] order[a] < items.len(),
        forall|a: int, b: int|
            0 <= a < b < order.len() ==> #[trigger] order[a] != #[trigger] order[b],
    ensures
        distinct_members(runs(items, order, max_gap_secs)),
        runs(items, order, max_gap_secs).len() <= order.len(),
    decreases order.len(),
{
    if order.len() > 0 {
        let front = order.drop_last();
        let before = runs(items, front, max_gap_secs);
        let all = runs(items, order, max_gap_secs);
        lemma_runs_distinct(items, front, max_gap_secs);
        if order.len() > 1 {
            lemma_runs_not_empty(items, front, max_gap_secs);
        }
        assert forall|g: int, a: int, b: int|
            0 <= g < all.len() && 0 <= a < b < all[g].len() implies #[trigger] all[g][a]
            != #[trigger] all[g][b] by {
            if g < before.len() && b < before[g].len() {
                assert(before[g][a] != before[g][b]);
            } else {
                lemma_runs_hold_frames(items, front, max_gap_secs, g, a);
                let p = choose|p: int|
                    0 <= p < front.len() && items[#[trigger] front[p]].id == before[g][a];
                assert(order[p] != order[order.len() - 1]);
            }
        }
    }
}

/// The places of the frames without a time among the first `n`.
pub open spec fn untimed_places(items: Seq<Fingerprint>, n: int) -> Seq<int>
    decreases n,
{
    if n <= 0 {
        seq![]
    } else if is_timed(items, n - 1) {
        untimed_places(items, n - 1)
    } else {
        untimed_places(items, n - 1).push(n - 1)
    }
}

proof fn lemma_untimed_places(items: Seq<Fingerprint>, n: int)
    requires
        0 <= n <= items.len(),
    ensures
        untimed_places(items, n).len() == singles(items, n).len(),
        untimed_places(items, n).no_duplicates(),
        forall|k: int|
            0 <= k < untimed_places(items, n).len() ==> 0 <= #[trigger] untimed_places(items, n)[k]
                < n && !is_timed(items, untimed_places(items, n)[k]),
    decreases n,
{
    if n > 0 {
        lemma_untimed_places(items, n - 1);
    }
}

/// Where no two frames share an identifier, no burst holds a frame twice, and there
/// are no more bursts than frames.
pub proof fn bursts_hold_frames_once(
    bursts: Seq<Seq<usize>>,
    items: Seq<Fingerprint>,
    order: Seq<int>,
    max_gap_secs: i64,
)
    requires
        are_bursts(bursts, items, order, max_gap_secs),
        distinct_ids(items),
    ensures
        distinct_members(bursts),
        bursts.len() <= items.len(),
{
    let n = items.len() as int;
    let timed = runs(items, order, max_gap_secs);
    let rest = singles(items, n);
    assert forall|a: int, b: int| 0 <= a < b < order.len() implies #[trigger] order[a]
        != #[trigger] order[b] by {
        assert(earlier(items, order[a], order[b]));
    }
    lemma_runs_distinct(items, order, max_gap_secs);
    lemma_singles_flatten(items, n);
    lemma_untimed_places(items, n);
    assert forall|g: int, a: int, b: int|
        0 <= g < bursts.len() && 0 <= a < b < bursts[g].len() implies #[trigger] bursts[g][a]
        != #[trigger] bursts[g][b] by {
        if g < timed.len() {
            assert(timed[g][a] != timed[g][b]);
        } else {
            assert(rest[g - timed.len()].len() == 1);
        }
    }
    let places = order + untimed_places(items, n);
    assert(places.no_duplicates());
    places.unique_seq_to_set();
    vstd::set_lib::lemma_int_range(0, n);
    assert(places.to_set().subset_of(vstd::set_lib::set_int_range(0, n)));
    vstd::set_lib::lemma_len_subset(places.to_set(), vstd::set_lib::set_int_range(0, n));
}

/// The indices of the frames that have a time, and the keys of their times.
fn timed_frames(items: &[Fingerprint]) -> (r: (Vec<usize>, Vec<i128>))
    requires
        forall|i: int| 0 <= i < items@.len() ==> (#[trigger] items@[i]).wf(),
    ensures
        r.0@.len() == r.1@.len(),
        forall|k: int|
            0 <= k < r.0@.len() ==> #[trigger] r.0@[k] < items@.len() && is_timed(
                items@,
                r.0@[k] as int,
            ) && r.1@[k] == time_of(items@, r.0@[k] as int).key(),
        forall|k: int, l: int| 0 <= k < l < r.0@.len() ==> #[trigger] r.0@[k] < #[trigger] r.0@[l],
        forall|i: int|
            0 <= i < items@.len() && is_timed(items@, i) ==> #[trigger] r.0@.contains(i as usize),
{
    let mut which: Vec<usize> = Vec::new();
    let mut keys: Vec<i128> = Vec::new();
    let mut i: usize = 0;
    while i < items.len()
        invariant
            i <= items@.len(),
            forall|k: int| 0 <= k < items@.len() ==> (#[trigger] items@[k]).wf(),
            which@.len() == keys@.len(),
            forall|k: int|
                0 <= k < which@.len() ==> #[trigger] which@[k] < i && is_timed(
                    items@,
                    which@[k] as int,
                ) && keys@[k] == time_of(items@, which@[k] as int).key(),
            forall|k: int, l: int|
                0 <= k < l < which@.len() ==> #[trigger] which@[k] < #[trigger] which@[l],
            forall|k: int|
                0 <= k < i && is_timed(items@, k) ==> #[trigger] which@.contains(k as usize),
        decreases items@.len() - i,
    {
        let ghost held: Seq<usize> = which@;
        match items[i].timestamp {
            Some(t) => {
                assert(items@[i as int].wf());
                which.push(i);
                keys.push(t.order_key());
                proof {
                    assert(which@[held.len() as int] == i);
                    assert forall|k: int| 0 <= k < i + 1 && is_timed(
                        items@,
                        k,
                    ) implies #[trigger] which@.contains(k as usize) by {
                        if k < i {
                            assert(held.contains(k as usize));
                            let p = held.index_of(k as usize);
                            assert(which@[p] == k as usize);
                        }
                    }
                }
            },
            None => {},
        }
        i = i + 1;
    }
    (which, keys)
}

/// The frames that have a time, in the order in which they were taken.
fn frames_in_time(items: &[Fingerprint]) -> (r: Vec<usize>)
    requires
        forall|i: int| 0 <= i < items@.len() ==> (#[trigger] items@[i]).wf(),
    ensures
        is_time_order(items@, r@.map_values(|i: usize| i as int)),
{
    let n: usize = items.len();
    let (which, keys) = timed_frames(items);
    let sorted: Vec<usize> = stable_order(&keys);
    let mut order: Vec<usize> = Vec::new();
    let mut k: usize = 0;
    while k < sorted.len()
        invariant
            is_stable_order(sorted@, keys@),
            which@.len() == keys@.len(),
            k <= sorted@.len(),
            order@.len() == k,
            forall|a: int| 0 <= a < k ==> #[trigger] order@[a] == which@[sorted@[a] as int],
        decreases sorted@.len() - k,
    {
        assert(0 <= sorted@[k as int] < which@.len());
        order.push(which[sorted[k]]);
        k = k + 1;
    }
    proof {
        lemma_time_order(
            items@,
            which@,
            keys@,
            sorted@,
            order@.map_values(|i: usize| i as int),
        );
    }
    order
}

/// The bursts of frames that are in the order of time.
fn bursts_in_time(items: &[Fingerprint], order: &Vec<usize>, max_gap_secs: i64) -> (r: Vec<
    Vec<usize>,
>)
    requires
        forall|i: int| 0 <= i < items@.len() ==> (#[trigger] items@[i]).wf(),
        is_time_order(items@, order@.map_values(|i: usize| i as int)),
    ensures
        lists(r@) == runs(items@, order@.map_values(|i: usize| i as int), max_gap_secs),
{
    let ghost path: Seq<int> = order@.map_values(|i: usize| i as int);
    let mut bursts: Vec<Vec<usize>> = Vec::new();
    let mut current: Vec<usize> = Vec::new();
    let mut last: Option<Timestamp> = None;
    let mut k: usize = 0;
    while k < order.len()
        invariant
            forall|i: int| 0 <= i < items@.len() ==> (#[trigger] items@[i]).wf(),
            path == order@.map_values(|i: usize| i as int),
            is_time_order(items@, path),
            k <= order@.len(),
            k == 0 ==> current@.len() == 0 && bursts@.len() == 0 && last is None,
            k > 0 ==> current@.len() > 0 && last == Some(time_of(items@, path[k - 1])) && lists(
                bursts@,
            ).push(current@) == runs(items@, path.take(k as int), max_gap_secs),
        decreases order@.len() - k,
    {
        assert(0 <= path[k as int] < items@.len() && is_timed(items@, path[k as int]));
        let i: usize = order[k];
        let t: Timestamp = match items[i].timestamp {
            Some(t) => t,
            None => Timestamp { seconds: 0, nanos: 0 },
        };
        assert(items@[i as int].wf());
        proof {
            if k > 0 {
                assert(0 <= path[k - 1] < items@.len());
                assert(items@[path[k - 1]].wf());
            }
        }
        let joins: bool = match last {
            Some(prev) => {
                let (secs, nanos): (i64, i32) = time_between(t, prev);
                secs < max_gap_secs || (secs == max_gap_secs && nanos <= 0)
            },
            None => false,
        };
        let ghost before: Seq<Seq<usize>> = lists(bursts@);
        let ghost run: Seq<usize> = current@;
        if !joins && current.len() > 0 {
            let mut done: Vec<usize> = Vec::new();
            std::mem::swap(&mut done, &mut current);
            bursts.push(done);
            assert(lists(bursts@) =~= before.push(run));
        }
        current.push(items[i].id);
        last = Some(t);
        proof {
            assert(path.take(k + 1) =~= path.take(k as int).push(i as int));
            if k > 0 {
                assert(path.take(k as int).last() == path[k - 1]);
                gap_decides_the_burst(items@, path.take(k as int), i as int, max_gap_secs);
                assert(before.push(run).drop_last() =~= before);
            } else {
                assert(path.take(k + 1).drop_last() =~= seq![]);
                assert(runs(items@, path.take(k + 1).drop_last(), max_gap_secs) =~= seq![]);
                assert(lists(bursts@) =~= seq![]);
            }
            if joins {
                assert(current@ =~= run.push(items@[i as int].id));
                assert(lists(bursts@) =~= before);
            } else {
                assert(current@ =~= seq![items@[i as int].id]);
            }
            assert(lists(bursts@).push(current@) =~= runs(items@, path.take(k + 1), max_gap_secs));
        }
        k = k + 1;
    }
    assert(path.take(order@.len() as int) =~= path);
    if current.len() > 0 {
        let ghost before: Seq<Seq<usize>> = lists(bursts@);
        let ghost run: Seq<usize> = current@;
        bursts.push(current);
        assert(lists(bursts@) =~= before.push(run));
    } else {
        assert(lists(bursts@) =~= seq![]);
    }
    bursts
}

/// Groups frames into bursts by capture time: in the order of time, a frame
/// opens a new burst where its gap to the frame before it is over
/// `max_gap_secs`. Each frame without a time is a burst of its own. Returns
/// lists of `Fingerprint::id`.
pub fn group_bursts(items: &[Fingerprint], max_gap_secs: i64) -> (r: Vec<Vec<usize>>)
    requires
        forall|i: int| 0 <= i < items@.len() ==> (#[trigger] items@[i]).wf(),
    ensures
        exists|order: Seq<int>| #[trigger]
            are_bursts(lists(r@), items@, order, max_gap_secs),
{
    let n: usize = items.len();
    let order: Vec<usize> = frames_in_time(items);
    let ghost path: Seq<int> = order@.map_values(|i: usize| i as int);
    let mut bursts: Vec<Vec<usize>> = bursts_in_time(items, &order, max_gap_secs);
    let mut j: usize = 0;
    assert(lists(bursts@) =~= runs(items@, path, max_gap_secs) + singles(items@, 0));
    while j < n
        invariant
            n == items@.len(),
            j <= n,
            lists(bursts@) == runs(items@, path, max_gap_secs) + singles(items@, j as int),
        decreases n - j,
    {
        let ghost before: Seq<Seq<usize>> = lists(bursts@);
        if items[j].timestamp.is_none() {
            let mut one: Vec<usize> = Vec::new();
            one.push(items[j].id);
            let ghost single: Seq<usize> = one@;
            bursts.push(one);
            proof {
                assert(single =~= seq![items@[j as int].id]);
                assert(lists(bursts@) =~= before.push(single));
                assert(lists(bursts@) =~= runs(items@, path, max_gap_secs) + singles(
                    items@,
                    j + 1,
                ));
            }
        }
        j = j + 1;
    }
    assert(are_bursts(lists(bursts@), items@, path, max_gap_secs));
    bursts
}

/// The stable order of the keys gives the order of time of the frames.
proof fn lemma_time_order(
    items: Seq<Fingerprint>,
    which: Seq<usize>,
    keys: Seq<i128>,
    sorted: Seq<usize>,
    order: Seq<int>,
)
    requires
        which.len() == keys.len(),
        forall|k: int|
            0 <= k < which.len() ==> #[trigger] which[k] < items.len() && is_timed(
                items,
                which[k] as int,
            ) && keys[k] == time_of(items, which[k] as int).key(),
        forall|k: int, l: int| 0 <= k < l < which.len() ==> #[trigger] which[k] < #[trigger] which[l],
        forall|i: int|
            0 <= i < items.len() && is_timed(items, i) ==> #[trigger] which.contains(i as usize),
        is_stable_order(sorted, keys),
        order.len() == sorted.len(),
        forall|a: int|
            0 <= a < order.len() ==> #[trigger] order[a] == which[sorted[a] as int] as int,
        items.len() <= usize::MAX,
    ensures
        is_time_order(items, order),
{
    assert forall|i: int| 0 <= i < items.len() && is_timed(
        items,
        i,
    ) implies #[trigger] order.contains(i) by {
        assert(which.contains(i as usize));
        let k = which.index_of(i as usize);
        assert(listed(sorted, k));
        let a = choose|a: int| 0 <= a < sorted.len() && #[trigger] sorted[a] == k;
        assert(order[a] == i);
    }
    assert forall|a: int, b: int| 0 <= a < b < order.len() implies earlier(
        items,
        #[trigger] order[a],
        #[trigger] order[b],
    ) by {
        assert(precedes(keys, sorted[a] as int, sorted[b] as int));
    }
}

// ---------------------------------------------------------------------------
// What a burst is made of
// ---------------------------------------------------------------------------

/// Frames go by their seconds, in one second by their nanoseconds, and where both are
/// the same as they were given.
pub proof fn frames_go_by_their_times(items: Seq<Fingerprint>, order: Seq<int>, a: int, b: int)
    requires
        is_time_order(items, order),
        0 <= a < b < order.len(),
        forall|i: int| 0 <= i < items.len() ==> (#[trigger] items[i]).wf(),
    ensures
        items[order[a]].timestamp is Some,
        items[order[b]].timestamp is Some,
        ({
            let s = items[order[a]].timestamp->Some_0;
            let t = items[order[b]].timestamp->Some_0;
            ||| s.seconds < t.seconds
            ||| s.seconds == t.seconds && s.nanos < t.nanos
            ||| s.seconds == t.seconds && s.nanos == t.nanos && order[a] < order[b]
        }),
{
    assert(earlier(items, order[a], order[b]));
    assert(items[order[a]].wf() && items[order[b]].wf());
}

/// Every frame with a time is in the order of time, and no other.
pub proof fn frames_with_a_time_are_ordered(items: Seq<Fingerprint>, order: Seq<int>, i: int)
    requires
        is_time_order(items, order),
        0 <= i < items.len(),
    ensures
        order.contains(i) <==> items[i].timestamp is Some,
{
    if order.contains(i) {
        let a = order.index_of(i);
        assert(is_timed(items, order[a]));
    } else {
        assert(!is_timed(items, i));
    }
}

/// The first frame in time opens the first burst; it is a burst of one where it stands
/// alone.
pub proof fn the_first_frame_opens_a_burst(
    items: Seq<Fingerprint>,
    first: int,
    max_gap_secs: i64,
)
    ensures
        runs(items, seq![], max_gap_secs).len() == 0,
        runs(items, seq![first], max_gap_secs) == seq![seq![items[first].id]],
{
    assert(seq![first].drop_last() =~= seq![]);
    assert(runs(items, seq![first].drop_last(), max_gap_secs) =~= seq![]);
    assert(runs(items, seq![first], max_gap_secs) =~= seq![seq![items[first].id]]);
}

/// A frame without a time is a burst of its own, behind those before it; one with a
/// time adds nothing to these.
pub proof fn frames_without_a_time_stand_alone(items: Seq<Fingerprint>, n: int)
    requires
        0 <= n < items.len(),
    ensures
        singles(items, 0).len() == 0,
        items[n].timestamp is None ==> singles(items, n + 1) == singles(items, n).push(
            seq![items[n].id],
        ),
        items[n].timestamp is Some ==> singles(items, n + 1) == singles(items, n),
{
}

/// The bursts are those of the frames with a time, and behind them the frames without
/// one.
pub proof fn untimed_frames_come_last(
    bursts: Seq<Seq<usize>>,
    items: Seq<Fingerprint>,
    order: Seq<int>,
    max_gap_secs: i64,
)
    requires
        are_bursts(bursts, items, order, max_gap_secs),
    ensures
        ({
            let timed = runs(items, order, max_gap_secs).len() as int;
            &&& bursts.len() == timed + singles(items, items.len() as int).len()
            &&& bursts.take(timed) == runs(items, order, max_gap_secs)
            &&& bursts.skip(timed) == singles(items, items.len() as int)
        }),
{
    let timed = runs(items, order, max_gap_secs);
    assert(bursts.take(timed.len() as int) =~= timed);
    assert(bursts.skip(timed.len() as int) =~= singles(items, items.len() as int));
}

/// The last run in time ends with the last frame in time.
proof fn lemma_last_run(items: Seq<Fingerprint>, order: Seq<int>, max_gap_secs: i64)
    requires
        order.len() > 0,
    ensures
        runs(items, order, max_gap_secs).len() > 0,
        runs(items, order, max_gap_secs).last().len() > 0,
        runs(items, order, max_gap_secs).last().last() == items[order.last()].id,
{
}

/// Frames that follow one another in time are next to each other in one burst where the
/// gap between them is within the limit; else one ends a burst and the other opens the
/// next.
pub proof fn neighbours_in_time(
    items: Seq<Fingerprint>,
    order: Seq<int>,
    max_gap_secs: i64,
    a: int,
) -> (r: (int, int))
    requires
        0 <= a,
        a + 1 < order.len(),
    ensures
        ({
            let all = runs(items, order, max_gap_secs);
            let (g, b) = r;
            let gap = gap_nanos(
                items[order[a + 1]].timestamp->Some_0,
                items[order[a]].timestamp->Some_0,
            );
            &&& 0 <= g < all.len()
            &&& 0 <= b < all[g].len()
            &&& all[g][b] == items[order[a]].id
            &&& gap <= max_gap_secs * 1_000_000_000 ==> b + 1 < all[g].len() && all[g][b + 1]
                == items[order[a + 1]].id
            &&& gap > max_gap_secs * 1_000_000_000 ==> b + 1 == all[g].len() && g + 1 < all.len()
                && all[g + 1].len() > 0 && all[g + 1][0] == items[order[a + 1]].id
        }),
    decreases order.len(),
{
    let front = order.drop_last();
    let before = runs(items, front, max_gap_secs);
    let all = runs(items, order, max_gap_secs);
    lemma_last_run(items, front, max_gap_secs);
    if a + 2 == order.len() {
        (before.len() - 1, before.last().len() - 1)
    } else {
        let (g, b) = neighbours_in_time(items, front, max_gap_secs, a);
        if g < before.len() - 1 {
            assert(all[g] == before[g]);
        }
        assert(forall|k: int| 0 <= k < before[g].len() ==> all[g][k] == before[g][k]);
        if g + 1 < before.len() {
            assert(all[g + 1][0] == before[g + 1][0] || before[g + 1].len() == 0);
        }
        (g, b)
    }
}

} // verus!
