//! Chains of links between indices, and the classes they form.
use vstd::prelude::*;

verus! {

/// Whether `i` and `j` are linked, in either direction.
pub open spec fn joined(link: spec_fn(int, int) -> bool, i: int, j: int) -> bool {
    link(i, j) || link(j, i)
}

/// A chain of indices below `n`, each joined to the next.
pub open spec fn is_chain(link: spec_fn(int, int) -> bool, n: nat, path: Seq<int>) -> bool {
    &&& path.len() > 0
    &&& forall|k: int| 0 <= k < path.len() ==> 0 <= #[trigger] path[k] < n
    &&& forall|k: int, l: int|
        0 <= k && l == k + 1 && l < path.len() ==> joined(
            link,
            #[trigger] path[k],
            #[trigger] path[l],
        )
}

/// Whether a chain leads from `i` to `j`.
pub open spec fn connected(link: spec_fn(int, int) -> bool, n: nat, i: int, j: int) -> bool {
    exists|path: Seq<int>| #[trigger]
        is_chain(link, n, path) && path[0] == i && path.last() == j
}

/// Every index is connected to itself.
pub proof fn connected_is_reflexive(link: spec_fn(int, int) -> bool, n: nat, i: int)
    requires
        0 <= i < n,
    ensures
        connected(link, n, i, i),
{
    let path = seq![i];
    assert(is_chain(link, n, path));
}

/// A chain leads both ways.
pub proof fn connected_is_symmetric(link: spec_fn(int, int) -> bool, n: nat, i: int, j: int)
    requires
        connected(link, n, i, j),
    ensures
        connected(link, n, j, i),
{
    let path = choose|path: Seq<int>| #[trigger]
        is_chain(link, n, path) && path[0] == i && path.last() == j;
    let back = path.reverse();
    assert forall|k: int, l: int| 0 <= k && l == k + 1 && l < back.len() implies joined(
        link,
        #[trigger] back[k],
        #[trigger] back[l],
    ) by {
        assert(joined(link, path[path.len() - 1 - l], path[path.len() - 1 - k]));
    }
    assert(is_chain(link, n, back));
}

/// Chains follow one another.
pub proof fn connected_is_transitive(
    link: spec_fn(int, int) -> bool,
    n: nat,
    i: int,
    j: int,
    k: int,
)
    requires
        connected(link, n, i, j),
        connected(link, n, j, k),
    ensures
        connected(link, n, i, k),
{
    let first = choose|path: Seq<int>| #[trigger]
        is_chain(link, n, path) && path[0] == i && path.last() == j;
    let second = choose|path: Seq<int>| #[trigger]
        is_chain(link, n, path) && path[0] == j && path.last() == k;
    let path = first + second.drop_first();
    assert forall|a: int, b: int| 0 <= a && b == a + 1 && b < path.len() implies joined(
        link,
        #[trigger] path[a],
        #[trigger] path[b],
    ) by {
        let m = first.len();
        if b < m {
            assert(joined(link, first[a], first[b]));
        } else {
            assert(joined(link, second[a - m + 1], second[b - m + 1]));
        }
    }
    assert(is_chain(link, n, path));
    assert(path.last() == k) by {
        if second.len() == 1 {
            assert(path =~= first);
        } else {
            assert(path.last() == second.last());
        }
    }
}

/// A link connects.
pub proof fn link_connects(link: spec_fn(int, int) -> bool, n: nat, i: int, j: int)
    requires
        0 <= i < n,
        0 <= j < n,
        joined(link, i, j),
    ensures
        connected(link, n, i, j),
{
    let path = seq![i, j];
    assert(is_chain(link, n, path));
}

/// An equivalence that holds along every link holds along every chain.
pub proof fn chain_stays_in_class(
    link: spec_fn(int, int) -> bool,
    n: nat,
    class: spec_fn(int) -> int,
    path: Seq<int>,
)
    requires
        is_chain(link, n, path),
        forall|i: int, j: int|
            0 <= i < n && 0 <= j < n && #[trigger] joined(link, i, j) ==> class(i) == class(j),
    ensures
        class(path[0]) == class(path.last()),
    decreases path.len(),
{
    if path.len() > 1 {
        let front = path.drop_last();
        assert forall|k: int, l: int| 0 <= k && l == k + 1 && l < front.len() implies joined(
            link,
            #[trigger] front[k],
            #[trigger] front[l],
        ) by {
            assert(joined(link, path[k], path[l]));
        }
        assert(is_chain(link, n, front));
        chain_stays_in_class(link, n, class, front);
        assert(joined(link, path[path.len() - 2], path[path.len() - 1]));
    }
}

} // verus!
