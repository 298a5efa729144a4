use vstd::prelude::*;

verus! {

/// How many samples one centroid received.
#[derive(Clone, Copy, Debug, PartialEq, Eq, Structural)]
pub struct ClusterShare {
    /// Index of the centroid in the clustering result.
    pub centroid: usize,
    /// Number of samples assigned to it.
    pub count: usize,
}

/// Number of entries of `s` equal to `c`.
pub open spec fn count_of(s: Seq<u8>, c: int) -> nat
    decreases s.len(),
{
    if s.len() == 0 {
        0
    } else {
        count_of(s.drop_last(), c) + if s.last() as int == c { 1nat } else { 0nat }
    }
}

/// Sum of `count_of(s, c)` over the centroids `c` below `j`.
pub open spec fn total_below(s: Seq<u8>, j: int) -> nat
    decreases j,
{
    if j <= 0 {
        0
    } else {
        total_below(s, j - 1) + count_of(s, j - 1)
    }
}

/// Sum of the counts of a list of shares.
pub open spec fn share_total(r: Seq<ClusterShare>) -> int
    decreases r.len(),
{
    if r.len() == 0 {
        0
    } else {
        share_total(r.drop_last()) + r.last().count
    }
}

/// Every assignment names one of the `k` centroids.
pub open spec fn assignments_in_range(s: Seq<u8>, k: int) -> bool {
    forall|i: int| 0 <= i < s.len() ==> (#[trigger] s[i] as int) < k
}

/// `r` holds one share for each centroid below `k` that received at least one
/// of the assignments `s`, in increasing centroid order, with its count.
pub open spec fn shares_of(s: Seq<u8>, k: int, r: Seq<ClusterShare>) -> bool {
    &&& forall|j: int| 0 <= j < r.len() ==> {
        &&& (#[trigger] r[j]).centroid < k
        &&& r[j].count == count_of(s, r[j].centroid as int)
        &&& r[j].count > 0
    }
    &&& forall|a: int, b: int| 0 <= a < b < r.len() ==> #[trigger] r[a].centroid < #[trigger] r[b].centroid
    &&& forall|c: int| 0 <= c < k && count_of(s, c) > 0 ==> exists|j: int| 0 <= j < r.len() && (#[trigger] r[j]).centroid == c
}

proof fn lemma_count_le_len(s: Seq<u8>, c: int)
    ensures
        count_of(s, c) <= s.len(),
    decreases s.len(),
{
    if s.len() > 0 {
        lemma_count_le_len(s.drop_last(), c);
    }
}

proof fn lemma_total_below_step(s: Seq<u8>, j: int)
    requires
        s.len() > 0,
        0 <= j,
    ensures
        total_below(s, j) == total_below(s.drop_last(), j) + if (s.last() as int) < j { 1nat } else { 0nat },
    decreases j,
{
    if j > 0 {
        lemma_total_below_step(s, j - 1);
    }
}

proof fn lemma_total_is_len(s: Seq<u8>, k: int)
    requires
        0 <= k,
        assignments_in_range(s, k),
    ensures
        total_below(s, k) == s.len(),
    decreases s.len(),
{
    if s.len() > 0 {
        assert(assignments_in_range(s.drop_last(), k)) by {
            assert forall|i: int| 0 <= i < s.drop_last().len() implies (#[trigger] s.drop_last()[i] as int) < k by {
                assert(s.drop_last()[i] == s[i]);
            }
        }
        lemma_total_is_len(s.drop_last(), k);
        lemma_total_below_step(s, k);
        assert((s.last() as int) < k);
    } else {
        lemma_total_of_empty(s, k);
    }
}

proof fn lemma_total_of_empty(s: Seq<u8>, j: int)
    requires
        s.len() == 0,
    ensures
        total_below(s, j) == 0,
    decreases j,
{
    if j > 0 {
        lemma_total_of_empty(s, j - 1);
    }
}

proof fn lemma_total_bounds(s: Seq<u8>, j: int, c: int)
    requires
        0 <= c < j,
    ensures
        total_below(s, j) >= count_of(s, c),
        (forall|d: int| 0 <= d < j ==> count_of(s, d) > 0) ==> total_below(s, j) >= j - 1 + count_of(s, c),
    decreases j,
{
    if c < j - 1 {
        lemma_total_bounds(s, j - 1, c);
        if forall|d: int| 0 <= d < j ==> count_of(s, d) > 0 {
            assert(count_of(s, j - 1) > 0);
        }
    } else if j > 1 {
        lemma_total_bounds(s, j - 1, 0);
        if forall|d: int| 0 <= d < j ==> count_of(s, d) > 0 {
            lemma_total_at_least(s, j - 1);
        }
    }
}

proof fn lemma_total_at_least(s: Seq<u8>, j: int)
    requires
        0 <= j,
        forall|d: int| 0 <= d < j ==> count_of(s, d) > 0,
    ensures
        total_below(s, j) >= j,
    decreases j,
{
    if j > 0 {
        lemma_total_at_least(s, j - 1);
        assert(count_of(s, j - 1) > 0);
    }
}

/// The shares of an assignment vector add up to the number of samples, so
/// their percentages add up to one; no share exceeds the number of samples.
pub proof fn lemma_shares_cover_samples(s: Seq<u8>, k: int, r: Seq<ClusterShare>)
    requires
        0 <= k,
        assignments_in_range(s, k),
        shares_of(s, k, r),
    ensures
        share_total(r) == s.len(),
        forall|j: int| 0 <= j < r.len() ==> (#[trigger] r[j]).count <= s.len(),
{
    assert forall|j: int| 0 <= j < r.len() implies (#[trigger] r[j]).count <= s.len() by {
        lemma_count_le_len(s, r[j].centroid as int);
    }
    lemma_prefix_total(s, k, r, r.len() as int);
    assert(r.take(r.len() as int) =~= r);
    lemma_total_is_len(s, k);
}

/// The shares in `r[..m]` add up to the counts of all centroids below the
/// first centroid after them.
proof fn lemma_prefix_total(s: Seq<u8>, k: int, r: Seq<ClusterShare>, m: int)
    requires
        0 <= k,
        shares_of(s, k, r),
        0 <= m <= r.len(),
    ensures
        share_total(r.take(m)) == total_below(s, if m < r.len() { r[m].centroid as int } else { k }),
    decreases m,
{
    let bound = if m < r.len() { r[m].centroid as int } else { k };
    if m == 0 {
        lemma_zero_below(s, k, r, bound);
        assert(r.take(0).len() == 0);
    } else {
        lemma_prefix_total(s, k, r, m - 1);
        assert(r.take(m).drop_last() =~= r.take(m - 1));
        let lo = r[m - 1].centroid as int;
        lemma_zero_range(s, k, r, m, lo + 1, bound);
    }
}

/// No centroid below `bound` has samples when `bound` is at most the first
/// centroid of `r`.
proof fn lemma_zero_below(s: Seq<u8>, k: int, r: Seq<ClusterShare>, bound: int)
    requires
        0 <= k,
        shares_of(s, k, r),
        bound <= k,
        r.len() > 0 ==> bound <= r[0].centroid,
        0 <= bound,
    ensures
        total_below(s, bound) == 0,
    decreases bound,
{
    if bound > 0 {
        lemma_zero_below(s, k, r, bound - 1);
        if count_of(s, bound - 1) > 0 {
            let j = choose|j: int| 0 <= j < r.len() && (#[trigger] r[j]).centroid == bound - 1;
            if j > 0 {
                assert(r[0].centroid < r[j].centroid);
            }
        }
    }
}

/// Centroids strictly between two consecutive shares received no samples.
proof fn lemma_zero_range(s: Seq<u8>, k: int, r: Seq<ClusterShare>, m: int, lo: int, x: int)
    requires
        0 <= k,
        shares_of(s, k, r),
        0 < m <= r.len(),
        lo == r[m - 1].centroid + 1,
        lo <= x,
        x <= if m < r.len() { r[m].centroid as int } else { k },
    ensures
        total_below(s, x) == total_below(s, lo),
    decreases x - lo,
{
    if x > lo {
        lemma_zero_range(s, k, r, m, lo, x - 1);
        if count_of(s, x - 1) > 0 {
            let j = choose|j: int| 0 <= j < r.len() && (#[trigger] r[j]).centroid == x - 1;
            if j < m {
                if j < m - 1 {
                    assert(r[j].centroid < r[m - 1].centroid);
                }
            } else if j > m {
                assert(r[m].centroid < r[j].centroid);
            }
        }
    }
}

/// Counts the samples assigned to each of `k` centroids and lists, in
/// increasing centroid order, one share for every centroid that received at
/// least one sample; centroids left empty are dropped.
pub fn count_assignments(indices: &Vec<u8>, k: usize) -> (r: Vec<ClusterShare>)
    requires
        assignments_in_range(indices@, k as int),
    ensures
        shares_of(indices@, k as int, r@),
        share_total(r@) == indices@.len(),
{
    let n = indices.len();
    let mut counts: Vec<usize> = Vec::new();
    let mut c: usize = 0;
    while c < k
        invariant
            c <= k,
            counts@.len() == c,
            forall|d: int| 0 <= d < c ==> #[trigger] counts@[d] == 0,
        decreases k - c,
    {
        counts.push(0);
        c = c + 1;
    }
    let mut i: usize = 0;
    while i < n
        invariant
            n == indices@.len(),
            i <= n,
            counts@.len() == k,
            assignments_in_range(indices@, k as int),
            forall|d: int| 0 <= d < k ==> #[trigger] counts@[d] == count_of(indices@.take(i as int), d),
        decreases n - i,
    {
        let x = indices[i] as usize;
        proof {
            assert(indices@.take(i as int + 1).drop_last() =~= indices@.take(i as int));
            lemma_count_le_len(indices@.take(i as int), x as int);
        }
        counts.set(x, counts[x] + 1);
        i = i + 1;
    }
    proof {
        assert(indices@.take(n as int) =~= indices@);
    }
    let mut r: Vec<ClusterShare> = Vec::new();
    let mut j: usize = 0;
    while j < k
        invariant
            j <= k,
            counts@.len() == k,
            forall|d: int| 0 <= d < k ==> #[trigger] counts@[d] == count_of(indices@, d),
            forall|a: int| 0 <= a < r@.len() ==> {
                &&& (#[trigger] r@[a]).centroid < j
                &&& r@[a].count == count_of(indices@, r@[a].centroid as int)
                &&& r@[a].count > 0
            },
            forall|a: int, b: int| 0 <= a < b < r@.len() ==> #[trigger] r@[a].centroid < #[trigger] r@[b].centroid,
            forall|d: int| 0 <= d < j && count_of(indices@, d) > 0 ==> exists|a: int| 0 <= a < r@.len() && (#[trigger] r@[a]).centroid == d,
        decreases k - j,
    {
        if counts[j] > 0 {
            let ghost before = r@;
            r.push(ClusterShare { centroid: j, count: counts[j] });
            proof {
                assert forall|d: int| 0 <= d < j + 1 && count_of(indices@, d) > 0 implies exists|a: int| 0 <= a < r@.len() && (#[trigger] r@[a]).centroid == d by {
                    if d < j {
                        let a = choose|a: int| 0 <= a < before.len() && (#[trigger] before[a]).centroid == d;
                        assert(r@[a] == before[a]);
                    } else {
                        assert(r@[r@.len() - 1].centroid == d);
                    }
                }
            }
        }
        j = j + 1;
    }
    proof {
        lemma_shares_cover_samples(indices@, k as int, r@);
    }
    r
}

/// Some sample is assigned to centroid `c`.
pub open spec fn is_assigned(s: Seq<u8>, c: int) -> bool {
    exists|i: int| 0 <= i < s.len() && #[trigger] s[i] as int == c
}

/// When there are exactly as many samples as centroids and every centroid
/// received one of them, there is one share per centroid, in centroid order,
/// each holding a single sample.
pub proof fn lemma_onto_assignment_gives_unit_shares(s: Seq<u8>, k: int, r: Seq<ClusterShare>)
    requires
        s.len() == k,
        assignments_in_range(s, k),
        forall|c: int| 0 <= c < k ==> #[trigger] is_assigned(s, c),
        shares_of(s, k, r),
    ensures
        r.len() == k,
        forall|j: int| 0 <= j < r.len() ==> (#[trigger] r[j]).centroid == j && r[j].count == 1,
{
    assert forall|c: int| 0 <= c < k implies count_of(s, c) > 0 by {
        assert(is_assigned(s, c));
        let i = choose|i: int| 0 <= i < s.len() && #[trigger] s[i] as int == c;
        lemma_count_positive(s, c, i);
    }
    lemma_total_is_len(s, k);
    assert forall|c: int| 0 <= c < k implies count_of(s, c) == 1 by {
        lemma_total_bounds(s, k, c);
    }
    lemma_shares_are_identity(s, k, r, k);
    if r.len() > k {
        assert(r[k - 1].centroid < r[k].centroid);
    }
}

proof fn lemma_count_positive(s: Seq<u8>, c: int, i: int)
    requires
        0 <= i < s.len(),
        s[i] as int == c,
    ensures
        count_of(s, c) > 0,
    decreases s.len(),
{
    if i < s.len() - 1 {
        assert(s.drop_last()[i] == s[i]);
        lemma_count_positive(s.drop_last(), c, i);
    }
}

proof fn lemma_shares_are_identity(s: Seq<u8>, k: int, r: Seq<ClusterShare>, m: int)
    requires
        0 <= m <= k,
        forall|c: int| 0 <= c < k ==> count_of(s, c) > 0,
        shares_of(s, k, r),
    ensures
        r.len() >= m,
        forall|j: int| 0 <= j < m ==> (#[trigger] r[j]).centroid == j,
    decreases m,
{
    if m > 0 {
        lemma_shares_are_identity(s, k, r, m - 1);
        let c = m - 1;
        assert(count_of(s, c) > 0);
        assert(exists|j: int| 0 <= j < r.len() && (#[trigger] r[j]).centroid == c);
        let j = choose|j: int| 0 <= j < r.len() && (#[trigger] r[j]).centroid == c;
        if j < c {
            assert(r[j].centroid == j);
        } else if j > c {
            if c > 0 {
                assert(r[c - 1].centroid < r[c].centroid);
            }
            assert(r[c].centroid < r[j].centroid);
        }
    }
}

} // verus!
