//! Stable sorting of indices by integer keys.
use vstd::prelude::*;

verus! {

/// Whether index `i` comes before index `j`: by key, and by index where the keys
/// are equal.
pub open spec fn precedes(keys: Seq<i128>, i: int, j: int) -> bool {
    keys[i] < keys[j] || (keys[i] == keys[j] && i < j)
}

/// `order` ascends by `precedes`.
pub open spec fn ascends(order: Seq<usize>, keys: Seq<i128>) -> bool {
    forall|a: int, b: int|
        0 <= a < b < order.len() ==> precedes(
            keys,
            #[trigger] order[a] as int,
            #[trigger] order[b] as int,
        )
}

/// `order` holds the indices from `lo` up to, and not with, `hi`, each once, in
/// ascending order.
pub open spec fn orders_range(order: Seq<usize>, keys: Seq<i128>, lo: int, hi: int) -> bool {
    &&& order.len() == hi - lo
    &&& forall|a: int| 0 <= a < order.len() ==> lo <= #[trigger] order[a] < hi
    &&& forall|i: int| lo <= i < hi ==> #[trigger] listed(order, i)
    &&& ascends(order, keys)
}

/// Whether `order` holds `i`.
pub open spec fn listed(order: Seq<usize>, i: int) -> bool {
    exists|a: int| 0 <= a < order.len() && #[trigger] order[a] == i
}

/// `order` is the stable ascending order of all indices into `keys`.
pub open spec fn is_stable_order(order: Seq<usize>, keys: Seq<i128>) -> bool {
    orders_range(order, keys, 0, keys.len() as int)
}

/// There is one stable order: two of them are the same.
pub proof fn stable_order_is_unique(a: Seq<usize>, b: Seq<usize>, keys: Seq<i128>)
    requires
        is_stable_order(a, keys),
        is_stable_order(b, keys),
    ensures
        a == b,
{
    assert forall|k: int| 0 <= k < a.len() implies a[k] == b[k] by {
        lemma_same_prefix(a, b, keys, k + 1);
    }
    assert(a =~= b);
}

/// Two stable orders agree on their first `n` places.
proof fn lemma_same_prefix(a: Seq<usize>, b: Seq<usize>, keys: Seq<i128>, n: int)
    requires
        is_stable_order(a, keys),
        is_stable_order(b, keys),
        0 <= n <= a.len(),
    ensures
        forall|k: int| 0 <= k < n ==> a[k] == b[k],
    decreases n,
{
    if n > 0 {
        lemma_same_prefix(a, b, keys, n - 1);
        let k = n - 1;
        // `a[k]` stands somewhere in `b`, and `b[k]` somewhere in `a`; neither
        // among the first `k` places, which agree.
        assert(listed(b, a[k] as int));
        let p = choose|p: int| 0 <= p < b.len() && #[trigger] b[p] == a[k];
        assert(listed(a, b[k] as int));
        let q = choose|q: int| 0 <= q < a.len() && #[trigger] a[q] == b[k];
        if p < k {
            assert(a[p] == b[p]);
            assert(precedes(keys, a[p] as int, a[k] as int));
        }
        if q < k {
            assert(a[q] == b[q]);
            assert(precedes(keys, b[q] as int, b[k] as int));
        }
        if p > k && q > k {
            assert(precedes(keys, b[k] as int, b[p] as int));
            assert(precedes(keys, a[k] as int, a[q] as int));
        }
    }
}

/// Merges the orders of two neighbouring ranges.
fn merge(
    keys: &Vec<i128>,
    left: &Vec<usize>,
    right: &Vec<usize>,
    Ghost(lo): Ghost<int>,
    Ghost(mid): Ghost<int>,
    Ghost(hi): Ghost<int>,
) -> (r: Vec<usize>)
    requires
        0 <= lo <= mid <= hi <= keys@.len(),
        orders_range(left@, keys@, lo, mid),
        orders_range(right@, keys@, mid, hi),
    ensures
        orders_range(r@, keys@, lo, hi),
{
    let mut out: Vec<usize> = Vec::new();
    let mut a: usize = 0;
    let mut b: usize = 0;
    while a < left.len() || b < right.len()
        invariant
            0 <= lo <= mid <= hi <= keys@.len(),
            orders_range(left@, keys@, lo, mid),
            orders_range(right@, keys@, mid, hi),
            a <= left@.len(),
            b <= right@.len(),
            out@.len() == a + b,
            forall|k: int| 0 <= k < out@.len() ==> lo <= #[trigger] out@[k] < hi,
            ascends(out@, keys@),
            forall|k: int, q: int|
                0 <= k < out@.len() && a <= q < left@.len() ==> precedes(
                    keys@,
                    #[trigger] out@[k] as int,
                    #[trigger] left@[q] as int,
                ),
            forall|k: int, q: int|
                0 <= k < out@.len() && b <= q < right@.len() ==> precedes(
                    keys@,
                    #[trigger] out@[k] as int,
                    #[trigger] right@[q] as int,
                ),
            forall|q: int| 0 <= q < a ==> #[trigger] listed(out@, left@[q] as int),
            forall|q: int| 0 <= q < b ==> #[trigger] listed(out@, right@[q] as int),
        decreases left@.len() - a + right@.len() - b,
    {
        let ghost held: Seq<usize> = out@;
        let take_left: bool = if a >= left.len() {
            false
        } else if b >= right.len() {
            true
        } else {
            keys[left[a]] <= keys[right[b]]
        };
        let next: usize = if take_left {
            left[a]
        } else {
            right[b]
        };
        proof {
            if a < left@.len() {
                assert(lo <= left@[a as int] < mid);
            }
            if b < right@.len() {
                assert(mid <= right@[b as int] < hi);
            }
        }
        out.push(next);
        proof {
            assert(out@[held.len() as int] == next);
            assert forall|i: int| listed(held, i) implies #[trigger] listed(out@, i) by {
                let k = choose|k: int| 0 <= k < held.len() && #[trigger] held[k] == i;
                assert(out@[k] == i);
            }
            assert(listed(out@, next as int));
            if take_left {
                assert forall|q: int| b <= q < right@.len() implies precedes(
                    keys@,
                    next as int,
                    #[trigger] right@[q] as int,
                ) by {
                    assert(mid <= right@[q] < hi);
                    if q > b {
                        assert(precedes(keys@, right@[b as int] as int, right@[q] as int));
                    }
                }
            } else {
                assert forall|q: int| a <= q < left@.len() implies precedes(
                    keys@,
                    next as int,
                    #[trigger] left@[q] as int,
                ) by {
                    if q > a {
                        assert(precedes(keys@, left@[a as int] as int, left@[q] as int));
                    }
                }
            }
        }
        if take_left {
            a = a + 1;
        } else {
            b = b + 1;
        }
    }
    proof {
        assert forall|i: int| lo <= i < hi implies #[trigger] listed(out@, i) by {
            if i < mid {
                assert(listed(left@, i));
                let q = choose|q: int| 0 <= q < left@.len() && #[trigger] left@[q] == i;
                assert(listed(out@, left@[q] as int));
            } else {
                assert(listed(right@, i));
                let q = choose|q: int| 0 <= q < right@.len() && #[trigger] right@[q] == i;
                assert(listed(out@, right@[q] as int));
            }
        }
    }
    out
}

/// The order of the indices from `lo` up to, and not with, `hi`.
fn order_range(keys: &Vec<i128>, lo: usize, hi: usize) -> (r: Vec<usize>)
    requires
        lo <= hi <= keys@.len(),
    ensures
        orders_range(r@, keys@, lo as int, hi as int),
    decreases hi - lo,
{
    if hi - lo <= 1 {
        let mut one: Vec<usize> = Vec::new();
        if lo < hi {
            one.push(lo);
            assert(one@[0] == lo);
            assert(listed(one@, lo as int));
        }
        one
    } else {
        let mid: usize = lo + (hi - lo) / 2;
        let left: Vec<usize> = order_range(keys, lo, mid);
        let right: Vec<usize> = order_range(keys, mid, hi);
        merge(keys, &left, &right, Ghost(lo as int), Ghost(mid as int), Ghost(hi as int))
    }
}

/// The indices into `keys` in ascending order of their keys; indices with equal
/// keys keep their order.
pub fn stable_order(keys: &Vec<i128>) -> (r: Vec<usize>)
    ensures
        is_stable_order(r@, keys@),
{
    order_range(keys, 0, keys.len())
}

/// A stable order lists every index once, keys ascending, and indices of one key
/// ascending.
pub proof fn stable_orders_ascend(order: Seq<usize>, keys: Seq<i128>, a: int, b: int)
    requires
        is_stable_order(order, keys),
        0 <= a < b < order.len(),
    ensures
        order.len() == keys.len(),
        0 <= order[a] < keys.len(),
        keys[order[a] as int] <= keys[order[b] as int],
        keys[order[a] as int] == keys[order[b] as int] ==> order[a] < order[b],
        order[a] != order[b],
        forall|i: int| 0 <= i < keys.len() ==> #[trigger] order.contains(i as usize),
{
    assert(precedes(keys, order[a] as int, order[b] as int));
    assert forall|i: int| 0 <= i < keys.len() implies #[trigger] order.contains(i as usize) by {
        assert(listed(order, i));
        let k = choose|k: int| 0 <= k < order.len() && #[trigger] order[k] == i;
        assert(order[k] == i as usize);
    }
}

} // verus!
