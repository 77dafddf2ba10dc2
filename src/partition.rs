//! Splitting one flat node array into contiguous, disjoint per-instance ranges.
use vstd::prelude::*;

verus! {

/// Sum of the first `n` counts.
pub open spec fn prefix_sum(counts: Seq<int>, n: int) -> int
    decreases n,
{
    if n <= 0 {
        0
    } else {
        prefix_sum(counts, n - 1) + counts[n - 1]
    }
}

/// The counts of a `Vec<usize>`, as mathematical integers.
pub open spec fn as_ints(counts: Seq<usize>) -> Seq<int> {
    counts.map_values(|c: usize| c as int)
}

/// The half-open range `[start, end)` that the `i`-th instance owns.
pub open spec fn range_of(counts: Seq<int>, i: int) -> (int, int) {
    (prefix_sum(counts, i), prefix_sum(counts, i + 1))
}

/// Some instance's range holds index `n`.
pub open spec fn owned(counts: Seq<int>, n: int) -> bool {
    exists|i: int| 0 <= i < counts.len() && range_of(counts, i).0 <= n < #[trigger] range_of(counts, i).1
}

/// Some range of `ranges` holds index `n`.
pub open spec fn covers(ranges: Seq<(usize, usize)>, n: int) -> bool {
    exists|i: int| 0 <= i < ranges.len() && ranges[i].0 <= n < #[trigger] ranges[i].1
}

/// Prefix sums never decrease when every count is non-negative.
pub proof fn lemma_prefix_monotone(counts: Seq<int>, i: int, j: int)
    requires
        0 <= i <= j <= counts.len(),
        forall|k: int| 0 <= k < counts.len() ==> counts[k] >= 0,
    ensures
        prefix_sum(counts, i) <= prefix_sum(counts, j),
    decreases j - i,
{
    if i < j {
        lemma_prefix_monotone(counts, i, j - 1);
    }
}

/// The ranges computed from non-negative counts are pairwise disjoint (each ends before any later one starts), laid
/// end to end from zero, and together cover exactly `[0, total)`.
pub proof fn lemma_partition_exact(counts: Seq<int>)
    requires
        forall|k: int| 0 <= k < counts.len() ==> counts[k] >= 0,
    ensures
        range_of(counts, 0).0 == 0,
        forall|i: int| 0 <= i < counts.len() ==> range_of(counts, i).1 - range_of(counts, i).0 == counts[i],
        forall|i: int| 0 <= i < counts.len() - 1 ==> range_of(counts, i).1 == #[trigger] range_of(counts, i + 1).0,
        forall|i: int, j: int|
            0 <= i < j < counts.len() ==> #[trigger] range_of(counts, i).1 <= #[trigger] range_of(counts, j).0,
        forall|n: int| 0 <= n < prefix_sum(counts, counts.len() as int) ==> #[trigger] owned(counts, n),
{
    assert forall|i: int, j: int|
        0 <= i < j < counts.len() implies #[trigger] range_of(counts, i).1 <= #[trigger] range_of(counts, j).0 by {
        lemma_prefix_monotone(counts, i + 1, j);
    }
    assert forall|n: int| 0 <= n < prefix_sum(counts, counts.len() as int) implies #[trigger] owned(counts, n) by {
        lemma_cover(counts, counts.len() as int, n);
    }
}

proof fn lemma_cover(counts: Seq<int>, m: int, n: int)
    requires
        0 <= m <= counts.len(),
        forall|k: int| 0 <= k < counts.len() ==> counts[k] >= 0,
        0 <= n < prefix_sum(counts, m),
    ensures
        exists|i: int| 0 <= i < m && range_of(counts, i).0 <= n < #[trigger] range_of(counts, i).1,
    decreases m,
{
    if n >= prefix_sum(counts, m - 1) {
        assert(range_of(counts, m - 1).0 <= n < range_of(counts, m - 1).1);
    } else {
        lemma_cover(counts, m - 1, n);
    }
}

/// The range of each instance, from its particle count: `r[i]` is
/// `(start, end)` with `start` the sum of the counts before `i`.
pub fn partition_ranges(counts: &Vec<usize>) -> (r: Vec<(usize, usize)>)
    requires
        prefix_sum(as_ints(counts@), counts.len() as int) <= usize::MAX,
    ensures
        r.len() == counts.len(),
        forall|i: int| 0 <= i < r.len() ==>
            #[trigger] r[i].0 == range_of(as_ints(counts@), i).0 && r[i].1 == range_of(as_ints(counts@), i).1,
{
    let ghost c = as_ints(counts@);
    proof {
        assert forall|k: int| 0 <= k < c.len() implies c[k] >= 0 by {}
    }
    let mut r: Vec<(usize, usize)> = Vec::new();
    let mut acc: usize = 0;
    let mut i: usize = 0;
    while i < counts.len()
        invariant
            c == as_ints(counts@),
            forall|k: int| 0 <= k < c.len() ==> c[k] >= 0,
            prefix_sum(c, c.len() as int) <= usize::MAX,
            i <= counts.len(),
            r.len() == i,
            acc == prefix_sum(c, i as int),
            forall|k: int| 0 <= k < i ==>
                #[trigger] r[k].0 == range_of(c, k).0 && r[k].1 == range_of(c, k).1,
        decreases counts.len() - i,
    {
        proof {
            lemma_prefix_monotone(c, i as int + 1, c.len() as int);
        }
        let next: usize = acc + counts[i];
        r.push((acc, next));
        acc = next;
        i = i + 1;
    }
    r
}

} // verus!
