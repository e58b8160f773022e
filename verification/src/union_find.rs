//! Disjoint sets of the numbers below a bound, with union by rank and path
//! compression.
use vstd::prelude::*;

verus! {

/// Disjoint sets of the indices `0..n`.
///
/// `parent` is a forest whose roots stand for the sets; `rank` grows strictly
/// from a node to its parent. The ghost sequence holds the root of each index.
pub struct UnionFind {
    parent: Vec<usize>,
    rank: Vec<usize>,
    root: Ghost<Seq<usize>>,
}

/// The roots of a parent sequence.
spec fn roots(parent: Seq<usize>) -> Set<int> {
    Set::range(0, parent.len() as int).filter(|i: int| parent[i] == i)
}

impl UnionFind {
    /// How many indices the sets are made of.
    pub closed spec fn size(self) -> nat {
        self.parent@.len()
    }

    /// The index that stands for the set of `i`.
    pub closed spec fn root_of(self, i: int) -> usize {
        self.root@[i]
    }

    /// Whether `i` and `j` are in one set.
    pub open spec fn same(self, i: int, j: int) -> bool {
        self.root_of(i) == self.root_of(j)
    }

    /// What every operation keeps.
    pub closed spec fn wf(self) -> bool {
        &&& self.rank@.len() == self.parent@.len()
        &&& self.root@.len() == self.parent@.len()
        &&& forall|i: int|
            0 <= i < self.parent@.len() ==> #[trigger] self.parent@[i] < self.parent@.len()
        &&& forall|i: int|
            0 <= i < self.parent@.len() ==> #[trigger] self.root@[i] < self.parent@.len()
        &&& forall|i: int|
            0 <= i < self.parent@.len() ==> self.parent@[(#[trigger] self.root@[i]) as int]
                == self.root@[i]
        &&& forall|i: int|
            0 <= i < self.parent@.len() ==> self.root@[(#[trigger] self.parent@[i]) as int]
                == self.root@[i]
        &&& forall|i: int|
            0 <= i < self.parent@.len() && #[trigger] self.parent@[i] == i ==> self.root@[i] == i
        &&& forall|i: int|
            0 <= i < self.parent@.len() && #[trigger] self.parent@[i] != i ==> self.rank@[i]
                < self.rank@[self.parent@[i] as int]
        &&& forall|i: int|
            0 <= i < self.parent@.len() ==> (#[trigger] self.rank@[i]) + roots(self.parent@).len()
                <= self.parent@.len()
    }

    /// `n` sets of one index each.
    pub fn new(n: usize) -> (r: UnionFind)
        ensures
            r.wf(),
            r.size() == n,
            forall|i: int| 0 <= i < n ==> #[trigger] r.root_of(i) == i,
    {
        let mut parent: Vec<usize> = Vec::new();
        let mut rank: Vec<usize> = Vec::new();
        let mut i: usize = 0;
        while i < n
            invariant
                i <= n,
                parent@.len() == i,
                rank@.len() == i,
                forall|k: int| 0 <= k < i ==> #[trigger] parent@[k] == k,
                forall|k: int| 0 <= k < i ==> #[trigger] rank@[k] == 0,
            decreases n - i,
        {
            parent.push(i);
            rank.push(0);
            i = i + 1;
        }
        proof {
            assert(roots(parent@) =~= Set::range(0, n as int));
            vstd::set_lib::range_set_properties::<int>(0, n as int);
        }
        let ghost root: Seq<usize> = parent@;
        UnionFind { parent, rank, root: Ghost(root) }
    }

    /// The root of the set of `i`. The sets stay as they are.
    pub fn find(&mut self, i: usize) -> (r: usize)
        requires
            old(self).wf(),
            i < old(self).size(),
        ensures
            final(self).wf(),
            final(self).size() == old(self).size(),
            forall|k: int| #[trigger] final(self).root_of(k) == old(self).root_of(k),
            r == old(self).root_of(i as int),
            r < old(self).size(),
            old(self).root_of(r as int) == r,
    {
        let ghost before: UnionFind = *self;
        let mut root: usize = i;
        while self.parent[root] != root
            invariant
                *self == before,
                before.wf(),
                root < before.parent@.len(),
                before.root@[root as int] == before.root@[i as int],
            decreases before.parent@.len() - before.rank@[root as int],
        {
            let next: usize = self.parent[root];
            assert(before.rank@[next as int] + roots(before.parent@).len()
                <= before.parent@.len());
            root = next;
        }
        let mut cur: usize = i;
        while self.parent[cur] != root
            invariant
                self.wf(),
                before.wf(),
                self.size() == before.size(),
                self.root@ == before.root@,
                self.rank@ == before.rank@,
                root < self.parent@.len(),
                cur < self.parent@.len(),
                self.root@[cur as int] == root,
                self.parent@[root as int] == root,
            decreases self.parent@.len() - self.rank@[cur as int],
        {
            let next: usize = self.parent[cur];
            let ghost held: Seq<usize> = self.parent@;
            proof {
                assert(next != cur) by {
                    if next == cur {
                        assert(self.root@[cur as int] == cur);
                    }
                }
                lemma_rank_below_root(*self, cur);
            }
            self.parent.set(cur, root);
            proof {
                assert(roots(self.parent@) =~= roots(held));
                assert(self.rank@[next as int] + roots(self.parent@).len() <= self.parent@.len());
            }
            cur = next;
        }
        root
    }

    /// Joins the sets of `a` and `b`.
    pub fn union(&mut self, a: usize, b: usize)
        requires
            old(self).wf(),
            a < old(self).size(),
            b < old(self).size(),
        ensures
            final(self).wf(),
            final(self).size() == old(self).size(),
            forall|i: int, j: int|
                0 <= i < old(self).size() && 0 <= j < old(self).size() ==> (#[trigger] final(self).same(i, j) <==> {
                    ||| old(self).same(i, j)
                    ||| old(self).same(i, a as int) && old(self).same(b as int, j)
                    ||| old(self).same(i, b as int) && old(self).same(a as int, j)
                }),
    {
        let ra: usize = self.find(a);
        let rb: usize = self.find(b);
        if ra == rb {
            return;
        }
        let ghost before: UnionFind = *self;
        proof {
            assert(self.parent@[ra as int] == ra) by {
                assert(self.root_of(ra as int) == ra);
            }
            assert(self.parent@[rb as int] == rb) by {
                assert(self.root_of(rb as int) == rb);
            }
        }
        let ghost (child, top) = if self.rank@[ra as int] < self.rank@[rb as int] {
            (ra, rb)
        } else {
            (rb, ra)
        };
        if self.rank[ra] < self.rank[rb] {
            self.attach(ra, rb);
        } else if self.rank[ra] > self.rank[rb] {
            self.attach(rb, ra);
        } else {
            let raised: usize = self.rank[ra];
            proof {
                lemma_two_roots(self.parent@, ra, rb);
            }
            self.raise_and_attach(rb, ra, raised);
        }
        proof {
            assert forall|i: int| 0 <= i < self.size() implies #[trigger] self.root_of(i) == (if old(self).root_of(i)
                == child {
                top
            } else {
                old(self).root_of(i)
            }) by {
                assert(before.root_of(i) == old(self).root_of(i));
            }
        }
    }

    /// Hangs the root `child` below the root `top`, whose rank is higher.
    fn attach(&mut self, child: usize, top: usize)
        requires
            old(self).wf(),
            child < old(self).size(),
            top < old(self).size(),
            child != top,
            old(self).parent@[child as int] == child,
            old(self).parent@[top as int] == top,
            old(self).rank@[child as int] < old(self).rank@[top as int],
        ensures
            final(self).wf(),
            final(self).size() == old(self).size(),
            final(self).root@ == hung(old(self).root@, child, top),
    {
        let ghost before: UnionFind = *self;
        self.parent.set(child, top);
        proof {
            self.root@ = hung(before.root@, child, top);
            lemma_roots_shrink(before.parent@, child, top);
        }
    }

    /// Hangs the root `child` below the root `top` of the same rank, which grows by one.
    fn raise_and_attach(&mut self, child: usize, top: usize, raised: usize)
        requires
            old(self).wf(),
            child < old(self).size(),
            top < old(self).size(),
            child != top,
            old(self).parent@[child as int] == child,
            old(self).parent@[top as int] == top,
            old(self).rank@[child as int] == raised,
            old(self).rank@[top as int] == raised,
            roots(old(self).parent@).len() >= 2,
        ensures
            final(self).wf(),
            final(self).size() == old(self).size(),
            final(self).root@ == hung(old(self).root@, child, top),
    {
        let ghost before: UnionFind = *self;
        let n: usize = self.parent.len();
        assert(raised + roots(before.parent@).len() <= n);
        self.parent.set(child, top);
        self.rank.set(top, raised + 1);
        proof {
            self.root@ = hung(before.root@, child, top);
            lemma_roots_shrink(before.parent@, child, top);
            assert forall|i: int| 0 <= i < self.parent@.len() && #[trigger] self.parent@[i]
                != i implies self.rank@[i] < self.rank@[self.parent@[i] as int] by {
                if i == child {
                } else {
                    assert(before.parent@[i] != i);
                    assert(before.rank@[i] < before.rank@[before.parent@[i] as int]);
                }
            }
            assert forall|i: int| 0 <= i < self.parent@.len() implies (#[trigger] self.rank@[i])
                + roots(self.parent@).len() <= self.parent@.len() by {
                assert(before.rank@[i] + roots(before.parent@).len() <= before.parent@.len());
            }
        }
    }

    /// The sets, each in ascending order, in the order of their least indices.
    pub fn groups(&mut self) -> (r: Vec<Vec<usize>>)
        requires
            old(self).wf(),
        ensures
            final(self).wf(),
            final(self).size() == old(self).size(),
            forall|k: int| #[trigger] final(self).root_of(k) == old(self).root_of(k),
            partitions(r@, old(self).size(), |i: int, j: int| old(self).same(i, j)),
    {
        let ghost before: UnionFind = *self;
        let n: usize = self.parent.len();
        let mut slot: Vec<Option<usize>> = Vec::new();
        let mut k: usize = 0;
        while k < n
            invariant
                k <= n,
                slot@.len() == k,
                forall|q: int| 0 <= q < k ==> #[trigger] slot@[q] == None::<usize>,
            decreases n - k,
        {
            slot.push(None);
            k = k + 1;
        }
        let mut clusters: Vec<Vec<usize>> = Vec::new();
        let mut i: usize = 0;
        while i < n
            invariant
                self.wf(),
                before.wf(),
                self.size() == before.size() == n,
                forall|q: int| #[trigger] self.root_of(q) == before.root_of(q),
                i <= n,
                slot@.len() == n,
                forall|r: int|
                    0 <= r < n ==> (#[trigger] slot@[r] matches Some(c) ==> c < clusters@.len()
                        && before.root_of(clusters@[c as int]@[0] as int) == r),
                forall|r: int|
                    0 <= r < n && (#[trigger] slot@[r]) is None ==> forall|q: int|
                        0 <= q < i ==> #[trigger] before.root_of(q) != r,
                forall|g: int|
                    0 <= g < clusters@.len() ==> (slot@[before.root_of(
                        (#[trigger] clusters@[g])@[0] as int,
                    ) as int] matches Some(c) && c == g),
                sorted_groups(clusters@, i as nat),
                forall|g: int, a: int|
                    0 <= g < clusters@.len() && 0 <= a < clusters@[g]@.len() ==> before.root_of(
                        #[trigger] clusters@[g]@[a] as int,
                    ) == before.root_of(clusters@[g]@[0] as int),
                forall|q: int| 0 <= q < i ==> #[trigger] grouped(clusters@, q),
            decreases n - i,
        {
            let root: usize = self.find(i);
            let ghost held: Seq<Vec<usize>> = clusters@;
            match slot[root] {
                Some(c) => {
                    let ghost was: Seq<usize> = clusters@[c as int]@;
                    clusters[c].push(i);
                    proof {
                        assert(clusters@[c as int]@ == was.push(i));
                        assert forall|q: int| 0 <= q < i + 1 implies #[trigger] grouped(
                            clusters@,
                            q,
                        ) by {
                            if q == i {
                                assert(clusters@[c as int]@[was.len() as int] == i);
                                assert(member(clusters@, c as int, i as int));
                            } else {
                                assert(grouped(held, q));
                                let g = choose|g: int| #[trigger] member(held, g, q);
                                let a = choose|a: int|
                                    0 <= a < held[g]@.len() && held[g]@[a] == q;
                                assert(clusters@[g]@[a] == q);
                                assert(member(clusters@, g, q));
                            }
                        }
                    }
                },
                None => {
                    let mut one: Vec<usize> = Vec::new();
                    one.push(i);
                    slot.set(root, Some(clusters.len()));
                    clusters.push(one);
                    proof {
                        let last = held.len() as int;
                        assert(clusters@[last]@[0] == i);
                        assert forall|q: int| 0 <= q < i + 1 implies #[trigger] grouped(
                            clusters@,
                            q,
                        ) by {
                            if q == i {
                                assert(member(clusters@, last, i as int));
                            } else {
                                assert(grouped(held, q));
                                let g = choose|g: int| #[trigger] member(held, g, q);
                                assert(clusters@[g] == held[g]);
                                assert(member(clusters@, g, q));
                            }
                        }
                    }
                },
            }
            i = i + 1;
        }
        proof {
            assert forall|g: int, h: int, p: int, q: int|
                member(clusters@, g, p) && member(clusters@, h, q) implies (g == h <==> before.same(
                p,
                q,
            )) by {
                let a = choose|a: int|
                    0 <= a < clusters@[g]@.len() && clusters@[g]@[a] == p;
                let b = choose|b: int|
                    0 <= b < clusters@[h]@.len() && clusters@[h]@[b] == q;
                assert(before.root_of(clusters@[g]@[a] as int) == before.root_of(
                    clusters@[g]@[0] as int,
                ));
                assert(before.root_of(clusters@[h]@[b] as int) == before.root_of(
                    clusters@[h]@[0] as int,
                ));
            }
        }
        clusters
    }
}

/// `root` with every `child` in it replaced by `top`.
spec fn hung(root: Seq<usize>, child: usize, top: usize) -> Seq<usize> {
    root.map_values(|r: usize| if r == child { top } else { r })
}

/// Below a root, ranks are lower than the root's.
proof fn lemma_rank_below_root(u: UnionFind, i: usize)
    requires
        u.wf(),
        i < u.parent@.len(),
        u.parent@[i as int] != i,
    ensures
        u.rank@[i as int] < u.rank@[u.root@[i as int] as int],
    decreases u.parent@.len() - u.rank@[i as int],
{
    let up = u.parent@[i as int];
    assert(u.root@[up as int] == u.root@[i as int]);
    assert(u.rank@[up as int] + roots(u.parent@).len() <= u.parent@.len());
    if u.parent@[up as int] == up {
        assert(u.root@[up as int] == up);
    } else {
        lemma_rank_below_root(u, up);
    }
}

/// Hanging a root below another leaves one root fewer.
proof fn lemma_roots_shrink(parent: Seq<usize>, child: usize, top: usize)
    requires
        child < parent.len(),
        child != top,
        parent[child as int] == child,
    ensures
        roots(parent.update(child as int, top)).len() == roots(parent).len() - 1,
{
    let after = parent.update(child as int, top);
    assert(roots(after) =~= roots(parent).remove(child as int));
    vstd::set_lib::range_set_properties::<int>(0, parent.len() as int);
    assert(roots(parent).contains(child as int));
}

/// Two distinct roots are at least two.
proof fn lemma_two_roots(parent: Seq<usize>, a: usize, b: usize)
    requires
        a < parent.len(),
        b < parent.len(),
        a != b,
        parent[a as int] == a,
        parent[b as int] == b,
    ensures
        roots(parent).len() >= 2,
{
    vstd::set_lib::range_set_properties::<int>(0, parent.len() as int);
    assert(roots(parent).contains(a as int));
    assert(roots(parent).remove(a as int).contains(b as int));
    assert(roots(parent).remove(a as int).remove(b as int).len() >= 0);
}

// ---------------------------------------------------------------------------
// Groups of indices
// ---------------------------------------------------------------------------

/// Whether group `g` holds the index `i`.
pub open spec fn member(groups: Seq<Vec<usize>>, g: int, i: int) -> bool {
    &&& 0 <= g < groups.len()
    &&& exists|a: int| 0 <= a < groups[g]@.len() && #[trigger] groups[g]@[a] == i
}

/// Whether some group holds the index `i`.
pub open spec fn grouped(groups: Seq<Vec<usize>>, i: int) -> bool {
    exists|g: int| #[trigger] member(groups, g, i)
}

/// Groups of indices below `n`: none is empty, each ascends, and their least
/// indices ascend.
pub open spec fn sorted_groups(groups: Seq<Vec<usize>>, n: nat) -> bool {
    &&& forall|g: int| 0 <= g < groups.len() ==> (#[trigger] groups[g])@.len() > 0
    &&& forall|g: int, a: int|
        0 <= g < groups.len() && 0 <= a < groups[g]@.len() ==> #[trigger] groups[g]@[a] < n
    &&& forall|g: int, a: int, b: int|
        0 <= g < groups.len() && 0 <= a < b < groups[g]@.len() ==> #[trigger] groups[g]@[a]
            < #[trigger] groups[g]@[b]
    &&& forall|g: int, h: int|
        0 <= g < h < groups.len() ==> (#[trigger] groups[g])@[0] < (#[trigger] groups[h])@[0]
}

/// The groups are the classes of `same` on the indices below `n`, in ascending
/// order.
pub open spec fn partitions(
    groups: Seq<Vec<usize>>,
    n: nat,
    same: spec_fn(int, int) -> bool,
) -> bool {
    &&& sorted_groups(groups, n)
    &&& forall|i: int| 0 <= i < n ==> #[trigger] grouped(groups, i)
    &&& forall|g: int, h: int, i: int, j: int|
        #[trigger] member(groups, g, i) && #[trigger] member(groups, h, j) ==> (g == h <==> same(
            i,
            j,
        ))
}

/// Ascending lists with the same items are the same.
proof fn lemma_ascending_is_unique(s: Seq<usize>, t: Seq<usize>, k: int)
    requires
        forall|a: int, b: int| 0 <= a < b < s.len() ==> #[trigger] s[a] < #[trigger] s[b],
        forall|a: int, b: int| 0 <= a < b < t.len() ==> #[trigger] t[a] < #[trigger] t[b],
        forall|i: usize| #[trigger] s.contains(i) <==> t.contains(i),
        0 <= k <= s.len(),
    ensures
        k <= t.len(),
        forall|a: int| 0 <= a < k ==> s[a] == t[a],
    decreases k,
{
    if k > 0 {
        lemma_ascending_is_unique(s, t, k - 1);
        let x = s[k - 1];
        assert(s.contains(x));
        let p = t.index_of(x);
        assert(t[p] == x);
        if p < k - 1 {
            assert(s[p] == t[p]);
        }
        let y = t[k - 1];
        assert(t.contains(y));
        assert(s.contains(y));
        let q = s.index_of(y);
        assert(s[q] == y);
        if q < k - 1 {
            assert(s[q] == t[q]);
        }
    }
}

/// The members of a group are the indices in one class with its first.
proof fn lemma_members(
    groups: Seq<Vec<usize>>,
    n: nat,
    same: spec_fn(int, int) -> bool,
    g: int,
    i: int,
)
    requires
        partitions(groups, n, same),
        0 <= g < groups.len(),
    ensures
        member(groups, g, i) <==> 0 <= i < n && same(groups[g]@[0] as int, i),
{
    let first = groups[g]@[0];
    assert(groups[g]@.len() > 0);
    assert(member(groups, g, first as int));
    if 0 <= i < n && same(first as int, i) {
        assert(grouped(groups, i));
        let h = choose|h: int| #[trigger] member(groups, h, i);
        assert(g == h);
    }
    if member(groups, g, i) {
        assert(g == g <==> same(first as int, i));
    }
}

/// The first of a group stands, in any other partition by the same classes that
/// agrees on the groups before it, in no earlier group.
proof fn lemma_first_is_no_earlier(
    a: Seq<Vec<usize>>,
    b: Seq<Vec<usize>>,
    n: nat,
    same: spec_fn(int, int) -> bool,
    g: int,
)
    requires
        partitions(a, n, same),
        partitions(b, n, same),
        0 <= g < a.len(),
        g <= b.len(),
        forall|h: int| 0 <= h < g ==> (#[trigger] a[h])@ == b[h]@,
    ensures
        g < b.len(),
        b[g]@[0] <= a[g]@[0],
{
    let f = a[g]@[0] as int;
    assert(a[g]@.len() > 0);
    assert(member(a, g, f));
    assert(grouped(b, f));
    let h = choose|h: int| #[trigger] member(b, h, f);
    if h < g {
        assert(a[h]@ == b[h]@);
        let p = choose|p: int| 0 <= p < b[h]@.len() && #[trigger] b[h]@[p] == f;
        assert(a[h]@[p] == f);
        assert(member(a, h, f));
        assert(g == g <==> same(f, f));
    }
    let p = choose|p: int| 0 <= p < b[h]@.len() && #[trigger] b[h]@[p] == f;
    assert(b[h]@[0] <= b[h]@[p]);
    if g < h {
        assert(b[g]@[0] < b[h]@[0]);
    }
}

/// Two partitions by the same classes agree on their first `k` groups.
proof fn lemma_same_groups(
    a: Seq<Vec<usize>>,
    b: Seq<Vec<usize>>,
    n: nat,
    same: spec_fn(int, int) -> bool,
    k: int,
)
    requires
        partitions(a, n, same),
        partitions(b, n, same),
        0 <= k <= a.len(),
    ensures
        k <= b.len(),
        forall|h: int| 0 <= h < k ==> (#[trigger] a[h])@ == b[h]@,
    decreases k,
{
    if k > 0 {
        let g = k - 1;
        lemma_same_groups(a, b, n, same, g);
        lemma_first_is_no_earlier(a, b, n, same, g);
        lemma_first_is_no_earlier(b, a, n, same, g);
        let (s, t) = (a[g]@, b[g]@);
        assert forall|i: usize| #[trigger] s.contains(i) <==> t.contains(i) by {
            lemma_members(a, n, same, g, i as int);
            lemma_members(b, n, same, g, i as int);
            if s.contains(i) {
                assert(a[g]@[s.index_of(i)] == i as int);
                assert(member(b, g, i as int));
            }
            if t.contains(i) {
                assert(b[g]@[t.index_of(i)] == i as int);
                assert(member(a, g, i as int));
            }
        }
        lemma_ascending_is_unique(s, t, s.len() as int);
        lemma_ascending_is_unique(t, s, t.len() as int);
        assert(s =~= t);
    }
}

/// There is one partition: the groups of given classes come out the same every
/// time.
pub proof fn partition_is_unique(
    a: Seq<Vec<usize>>,
    b: Seq<Vec<usize>>,
    n: nat,
    same: spec_fn(int, int) -> bool,
)
    requires
        partitions(a, n, same),
        partitions(b, n, same),
    ensures
        a.len() == b.len(),
        forall|g: int| 0 <= g < a.len() ==> (#[trigger] a[g])@ == b[g]@,
{
    lemma_same_groups(a, b, n, same, a.len() as int);
    lemma_same_groups(b, a, n, same, b.len() as int);
}

/// There are no more groups than indices.
pub proof fn groups_are_no_more_than_indices(groups: Seq<Vec<usize>>, n: nat)
    requires
        sorted_groups(groups, n),
    ensures
        groups.len() <= n,
{
    if groups.len() > 0 {
        let g = groups.len() - 1;
        lemma_least_index(groups, n, g);
        assert(groups[g]@[0] < n);
    }
}

/// The least index of a group is no less than the group's place.
proof fn lemma_least_index(groups: Seq<Vec<usize>>, n: nat, g: int)
    requires
        sorted_groups(groups, n),
        0 <= g < groups.len(),
    ensures
        groups[g]@[0] >= g,
    decreases g,
{
    if g > 0 {
        lemma_least_index(groups, n, g - 1);
        assert(groups[g - 1]@[0] < groups[g]@[0]);
    }
}

} // verus!
