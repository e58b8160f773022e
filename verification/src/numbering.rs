//! Numbers for groups: those of more than one item are counted from one.
use vstd::prelude::*;

verus! {

/// The lists that a vector of vectors holds.
pub open spec fn lists(v: Seq<Vec<usize>>) -> Seq<Seq<usize>> {
    v.map_values(|x: Vec<usize>| x@)
}

/// How many of the first `n` groups hold more than one item.
pub open spec fn multiples(groups: Seq<Seq<usize>>, n: int) -> nat
    decreases n,
{
    if n <= 0 {
        0
    } else {
        multiples(groups, n - 1) + if groups[n - 1].len() > 1 {
            1nat
        } else {
            0
        }
    }
}

/// The number of the group that item `i` is in, among the first `n`: groups of
/// more than one item are counted from one, items of no such group have none.
pub open spec fn number_of(groups: Seq<Seq<usize>>, n: int, i: int) -> Option<usize>
    decreases n,
{
    if n <= 0 {
        None
    } else if groups[n - 1].len() > 1 && 0 <= i <= usize::MAX && groups[n - 1].contains(i as usize) {
        Some(multiples(groups, n) as usize)
    } else {
        number_of(groups, n - 1, i)
    }
}

/// Numbers the groups of more than one item, and tells how many there are.
pub fn number_groups(groups: &Vec<Vec<usize>>, n: usize) -> (r: (Vec<Option<usize>>, usize))
    requires
        forall|g: int, a: int|
            0 <= g < groups@.len() && 0 <= a < groups@[g]@.len() ==> #[trigger] groups@[g]@[a] < n,
    ensures
        r.0@.len() == n,
        forall|i: int|
            0 <= i < n ==> #[trigger] r.0@[i] == number_of(
                lists(groups@),
                groups@.len() as int,
                i,
            ),
        r.1 == multiples(lists(groups@), groups@.len() as int),
{
    let ghost all: Seq<Seq<usize>> = lists(groups@);
    let mut numbers: Vec<Option<usize>> = Vec::new();
    let mut i: usize = 0;
    while i < n
        invariant
            i <= n,
            numbers@.len() == i,
            forall|k: int| 0 <= k < i ==> #[trigger] numbers@[k] == number_of(all, 0, k),
        decreases n - i,
    {
        numbers.push(None);
        i = i + 1;
    }
    let mut count: usize = 0;
    let mut g: usize = 0;
    while g < groups.len()
        invariant
            all == lists(groups@),
            forall|h: int, a: int|
                0 <= h < groups@.len() && 0 <= a < groups@[h]@.len() ==> #[trigger] groups@[h]@[a]
                    < n,
            g <= groups@.len(),
            numbers@.len() == n,
            count == multiples(all, g as int),
            count <= g,
            forall|k: int| 0 <= k < n ==> #[trigger] numbers@[k] == number_of(all, g as int, k),
        decreases groups@.len() - g,
    {
        let group: &Vec<usize> = &groups[g];
        assert(all[g as int] == group@);
        if group.len() > 1 {
            count = count + 1;
            let mut a: usize = 0;
            while a < group.len()
                invariant
                    g < groups@.len(),
                    group@ == groups@[g as int]@,
                    all[g as int] == group@,
                    group@.len() > 1,
                    forall|b: int| 0 <= b < group@.len() ==> #[trigger] group@[b] < n,
                    numbers@.len() == n,
                    count == multiples(all, g + 1),
                    a <= group@.len(),
                    forall|k: int|
                        0 <= k < n ==> #[trigger] numbers@[k] == if group@.take(a as int).contains(
                            k as usize,
                        ) {
                            Some(count)
                        } else {
                            number_of(all, g as int, k)
                        },
                decreases group@.len() - a,
            {
                let at: usize = group[a];
                let ghost before: Seq<usize> = group@.take(a as int);
                numbers.set(at, Some(count));
                a = a + 1;
                proof {
                    let after = group@.take(a as int);
                    assert(after =~= before.push(at));
                    assert forall|k: int| 0 <= k < n implies #[trigger] numbers@[k] == if after.contains(
                        k as usize,
                    ) {
                        Some(count)
                    } else {
                        number_of(all, g as int, k)
                    } by {
                        if k == at {
                            assert(after[a - 1] == at);
                        } else if before.contains(k as usize) {
                            let p = before.index_of(k as usize);
                            assert(after[p] == k as usize);
                        } else if after.contains(k as usize) {
                            let p = after.index_of(k as usize);
                            assert(before[p] == k as usize);
                        }
                    }
                }
            }
            assert(group@.take(group@.len() as int) =~= group@);
        }
        g = g + 1;
    }
    (numbers, count)
}

/// Whether no item is in two groups.
pub open spec fn disjoint(groups: Seq<Seq<usize>>) -> bool {
    forall|g: int, h: int, a: int, b: int|
        0 <= g < groups.len() && 0 <= h < groups.len() && 0 <= a < groups[g].len() && 0 <= b
            < groups[h].len() && #[trigger] groups[g][a] == #[trigger] groups[h][b] ==> g == h
}

/// Where no item is in two groups, the items of a group of more than one have the
/// number of that group, and the item of a group of one has none.
pub proof fn number_is_that_of_the_group(groups: Seq<Seq<usize>>, n: int, g: int, a: int)
    requires
        disjoint(groups),
        0 <= g < n <= groups.len(),
        0 <= a < groups[g].len(),
    ensures
        number_of(groups, n, groups[g][a] as int) == (if groups[g].len() > 1 {
            Some(multiples(groups, g + 1) as usize)
        } else {
            None
        }),
    decreases n,
{
    let item = groups[g][a];
    if n - 1 == g {
        assert(groups[g].contains(item));
        lemma_not_before(groups, g, item as int);
    } else {
        if groups[n - 1].contains(item) {
            let b = groups[n - 1].index_of(item);
            assert(groups[n - 1][b] == groups[g][a]);
        }
        number_is_that_of_the_group(groups, n - 1, g, a);
    }
}

/// An item of group `g` has no number among the groups before it.
proof fn lemma_not_before(groups: Seq<Seq<usize>>, g: int, item: int)
    requires
        disjoint(groups),
        0 <= g < groups.len(),
        0 <= item <= usize::MAX,
        groups[g].contains(item as usize),
    ensures
        forall|n: int| 0 <= n <= g ==> #[trigger] number_of(groups, n, item) is None,
{
    assert forall|n: int| 0 <= n <= g implies #[trigger] number_of(groups, n, item) is None by {
        lemma_not_before_up_to(groups, g, item, n);
    }
}

proof fn lemma_not_before_up_to(groups: Seq<Seq<usize>>, g: int, item: int, n: int)
    requires
        disjoint(groups),
        0 <= n <= g < groups.len(),
        0 <= item <= usize::MAX,
        groups[g].contains(item as usize),
    ensures
        number_of(groups, n, item) is None,
    decreases n,
{
    if n > 0 {
        lemma_not_before_up_to(groups, g, item, n - 1);
        if groups[n - 1].contains(item as usize) {
            let (a, b) = (
                groups[n - 1].index_of(item as usize),
                groups[g].index_of(item as usize),
            );
            assert(groups[n - 1][a] == groups[g][b]);
        }
    }
}

/// An item of no group has no number.
pub proof fn unlisted_items_have_no_number(groups: Seq<Seq<usize>>, n: int, i: int)
    requires
        0 <= n <= groups.len(),
        forall|g: int, a: int|
            0 <= g < groups.len() && 0 <= a < groups[g].len() ==> #[trigger] groups[g][a] != i,
    ensures
        number_of(groups, n, i) is None,
    decreases n,
{
    if n > 0 {
        unlisted_items_have_no_number(groups, n - 1, i);
    }
}

/// Later groups of more than one item have higher numbers.
pub proof fn numbers_ascend(groups: Seq<Seq<usize>>, g: int, h: int)
    requires
        0 <= g < h < groups.len(),
        groups[h].len() > 1,
    ensures
        multiples(groups, g + 1) < multiples(groups, h + 1),
        multiples(groups, h + 1) <= h + 1,
    decreases h,
{
    lemma_multiples_grow(groups, g + 1, h);
    lemma_multiples_bounded(groups, h + 1);
}

proof fn lemma_multiples_grow(groups: Seq<Seq<usize>>, m: int, n: int)
    requires
        m <= n,
    ensures
        multiples(groups, m) <= multiples(groups, n),
    decreases n - m,
{
    if m < n {
        lemma_multiples_grow(groups, m, n - 1);
    }
}

proof fn lemma_multiples_bounded(groups: Seq<Seq<usize>>, n: int)
    requires
        0 <= n,
    ensures
        multiples(groups, n) <= n,
    decreases n,
{
    if n > 0 {
        lemma_multiples_bounded(groups, n - 1);
    }
}

/// Two items have the same number exactly where they are in the same group of more
/// than one.
pub proof fn numbers_tell_groups_apart(
    groups: Seq<Seq<usize>>,
    g: int,
    a: int,
    h: int,
    b: int,
)
    requires
        disjoint(groups),
        groups.len() <= usize::MAX,
        0 <= g < groups.len(),
        0 <= h < groups.len(),
        0 <= a < groups[g].len(),
        0 <= b < groups[h].len(),
    ensures
        ({
            let n = groups.len() as int;
            let (one, other) = (
                number_of(groups, n, groups[g][a] as int),
                number_of(groups, n, groups[h][b] as int),
            );
            (one is Some && one == other) <==> (g == h && groups[g].len() > 1)
        }),
{
    let n = groups.len() as int;
    number_is_that_of_the_group(groups, n, g, a);
    number_is_that_of_the_group(groups, n, h, b);
    lemma_multiples_bounded(groups, g + 1);
    lemma_multiples_bounded(groups, h + 1);
    if g < h && groups[h].len() > 1 {
        numbers_ascend(groups, g, h);
    }
    if h < g && groups[g].len() > 1 {
        numbers_ascend(groups, h, g);
    }
}

/// Whether no group holds an item twice.
pub open spec fn distinct_members(groups: Seq<Seq<usize>>) -> bool {
    forall|g: int, a: int, b: int|
        0 <= g < groups.len() && 0 <= a < b < groups[g].len() ==> #[trigger] groups[g][a]
            != #[trigger] groups[g][b]
}

/// Whether two different items have this number.
pub open spec fn is_shared(groups: Seq<Seq<usize>>, i: int, j: int, c: usize) -> bool {
    &&& i != j
    &&& number_of(groups, groups.len() as int, i) == Some(c)
    &&& number_of(groups, groups.len() as int, j) == Some(c)
}

/// No number is beyond the count of the groups of more than one item.
pub proof fn numbers_are_within_the_count(groups: Seq<Seq<usize>>, n: int, i: int)
    requires
        0 <= n <= groups.len() <= usize::MAX,
    ensures
        number_of(groups, n, i) matches Some(c) ==> 1 <= c <= multiples(groups, n),
    decreases n,
{
    if n > 0 {
        numbers_are_within_the_count(groups, n - 1, i);
        lemma_multiples_bounded(groups, n);
    }
}

/// Every number from one up to the count is that of two items or more.
pub proof fn every_number_is_shared(groups: Seq<Seq<usize>>, c: usize) -> (r: (int, int))
    requires
        disjoint(groups),
        distinct_members(groups),
        groups.len() <= usize::MAX,
        1 <= c <= multiples(groups, groups.len() as int),
    ensures
        is_shared(groups, r.0, r.1, c),
        exists|g: int|
            0 <= g < groups.len() && #[trigger] groups[g].len() > 1 && r.0 == groups[g][0] && r.1
                == groups[g][1],
{
    let g = lemma_group_of_number(groups, groups.len() as int, c as nat);
    number_is_that_of_the_group(groups, groups.len() as int, g, 0);
    number_is_that_of_the_group(groups, groups.len() as int, g, 1);
    assert(groups[g][0] != groups[g][1]);
    assert(groups[g].len() > 1);
    (groups[g][0] as int, groups[g][1] as int)
}

/// The group of more than one item that brings the count to `c`.
proof fn lemma_group_of_number(groups: Seq<Seq<usize>>, n: int, c: nat) -> (g: int)
    requires
        0 <= n <= groups.len(),
        1 <= c <= multiples(groups, n),
    ensures
        0 <= g < n,
        groups[g].len() > 1,
        multiples(groups, g + 1) == c,
    decreases n,
{
    if c <= multiples(groups, n - 1) {
        lemma_group_of_number(groups, n - 1, c)
    } else {
        n - 1
    }
}

} // verus!
