use vstd::prelude::*;
use crate::extract::{assignments_in_range, lemma_shares_cover_samples, share_total, shares_of, ClusterShare};
use crate::options::CentroidSort;

verus! {

/// `perm` lists each index below `n` exactly once.
pub open spec fn is_permutation(perm: Seq<usize>, n: nat) -> bool {
    &&& perm.len() == n
    &&& forall|a: int| 0 <= a < perm.len() ==> (#[trigger] perm[a] as int) < n
    &&& forall|a: int, b: int|
        0 <= a < b < perm.len() ==> #[trigger] perm[a] != #[trigger] perm[b]
}

/// Index `j` occurs in `perm`.
pub open spec fn occurs(perm: Seq<usize>, j: int) -> bool {
    exists|a: int| 0 <= a < perm.len() && #[trigger] perm[a] as int == j
}

/// Every index below `n` occurs in `perm`.
pub open spec fn covers(perm: Seq<usize>, n: nat) -> bool {
    forall|j: int| 0 <= j < n ==> #[trigger] occurs(perm, j)
}

/// Visiting `keys` in the order `perm` gives non-decreasing keys, and indices
/// of equal keys keep their input order.
pub open spec fn is_stably_sorted(perm: Seq<usize>, keys: Seq<u64>) -> bool {
    forall|a: int, b: int|
        0 <= a < b < perm.len() ==> {
            let ka = keys[#[trigger] perm[a] as int];
            let kb = keys[#[trigger] perm[b] as int];
            ka < kb || (ka == kb && perm[a] < perm[b])
        }
}

/// The order in which the entries of `keys` are visited by a stable ascending
/// sort: the result is a permutation of the indices of `keys`, sorted by key,
/// with ties in index order.
pub fn stable_order(keys: &Vec<u64>) -> (perm: Vec<usize>)
    ensures
        is_permutation(perm@, keys@.len()),
        covers(perm@, keys@.len()),
        is_stably_sorted(perm@, keys@),
{
    let n = keys.len();
    let mut perm: Vec<usize> = Vec::new();
    let mut i: usize = 0;
    while i < n
        invariant
            n == keys@.len(),
            i <= n,
            is_permutation(perm@, i as nat),
            covers(perm@, i as nat),
            is_stably_sorted(perm@, keys@),
        decreases n - i,
    {
        let ki = keys[i];
        let mut p: usize = i;
        while p > 0 && keys[perm[p - 1]] > ki
            invariant
                n == keys@.len(),
                i < n,
                p <= i,
                ki == keys@[i as int],
                is_permutation(perm@, i as nat),
                covers(perm@, i as nat),
                is_stably_sorted(perm@, keys@),
                forall|q: int| p <= q < i ==> keys@[#[trigger] perm@[q] as int] > ki,
            decreases p,
        {
            p = p - 1;
        }
        proof {
            if p > 0 {
                assert(keys@[perm@[p - 1] as int] <= ki);
                assert forall|q: int| 0 <= q < p implies keys@[#[trigger] perm@[q] as int] <= ki by {
                    if q < p - 1 {
                        assert(keys@[perm@[q] as int] <= keys@[perm@[p - 1] as int]);
                    }
                }
            }
        }
        let ghost old_perm = perm@;
        perm.insert(p, i);
        proof {
            old_perm.insert_ensures(p as int, i);
            assert forall|a: int| 0 <= a < perm@.len() implies (#[trigger] perm@[a] as int) < i + 1 by {
                if a < p {
                } else if a > p {
                    assert(perm@[a] == old_perm[a - 1]);
                }
            }
            assert forall|a: int, b: int|
                0 <= a < b < perm@.len() implies #[trigger] perm@[a] != #[trigger] perm@[b] by {
                if b < p {
                } else if a > p {
                    assert(perm@[a] == old_perm[a - 1]);
                    assert(perm@[b] == old_perm[b - 1]);
                } else if a == p {
                    assert(perm@[b] == old_perm[b - 1]);
                } else if b == p {
                } else {
                    assert(perm@[b] == old_perm[b - 1]);
                }
            }
            assert forall|j: int| 0 <= j < i + 1 implies #[trigger] occurs(perm@, j) by {
                if j < i {
                    assert(occurs(old_perm, j));
                    let a = choose|a: int| 0 <= a < old_perm.len() && #[trigger] old_perm[a] as int == j;
                    if a < p {
                        assert(perm@[a] as int == j);
                    } else {
                        assert(perm@[a + 1] as int == j);
                    }
                } else {
                    assert(perm@[p as int] as int == j);
                }
            }
            assert forall|a: int, b: int| 0 <= a < b < perm@.len() implies {
                let ka = keys@[#[trigger] perm@[a] as int];
                let kb = keys@[#[trigger] perm@[b] as int];
                ka < kb || (ka == kb && perm@[a] < perm@[b])
            } by {
                if b < p {
                } else if a > p {
                    assert(perm@[a] == old_perm[a - 1]);
                    assert(perm@[b] == old_perm[b - 1]);
                } else if a == p {
                    assert(perm@[b] == old_perm[b - 1]);
                } else if b == p {
                    assert(perm@[a] == old_perm[a]);
                } else {
                    assert(perm@[b] == old_perm[b - 1]);
                }
            }
        }
        i = i + 1;
    }
    perm
}

/// Sign bit of a double-precision bit pattern.
pub const SIGN_BIT: u64 = 0x8000_0000_0000_0000;

/// Maps the bit pattern of a double to an integer whose order is the total
/// order of doubles that `f64::total_cmp` documents: negative values
/// (sign bit set) reversed below the non-negative ones, which keep the order
/// of their bits.
pub open spec fn total_order_key(bits: u64) -> u64 {
    if bits >= SIGN_BIT {
        (u64::MAX - bits) as u64
    } else {
        (bits + SIGN_BIT) as u64
    }
}

/// The sort key of the lightness whose double bit pattern is `bits`.
pub fn lightness_key(bits: u64) -> (r: u64)
    ensures
        r == total_order_key(bits),
{
    if bits >= SIGN_BIT {
        u64::MAX - bits
    } else {
        bits + SIGN_BIT
    }
}

/// Among non-negative doubles the key keeps the order of the bit patterns,
/// every negative double comes before every non-negative one, and among
/// negative doubles the order of the bit patterns is reversed.
pub proof fn lemma_lightness_key_order(a: u64, b: u64)
    ensures
        a < SIGN_BIT && b < SIGN_BIT ==> (total_order_key(a) < total_order_key(b) <==> a < b),
        a >= SIGN_BIT && b < SIGN_BIT ==> total_order_key(a) < total_order_key(b),
        a >= SIGN_BIT && b >= SIGN_BIT ==> (total_order_key(a) < total_order_key(b) <==> b < a),
{
}

/// The key by which a share is ordered: its sample count, or the lightness
/// key of its centroid.
pub open spec fn share_key(s: ClusterShare, lightness: Seq<u64>, sort: CentroidSort) -> u64 {
    match sort {
        CentroidSort::Percentage => s.count as u64,
        CentroidSort::Luminosity => lightness[s.centroid as int],
    }
}

/// The keys of a list of shares.
pub open spec fn share_keys(shares: Seq<ClusterShare>, lightness: Seq<u64>, sort: CentroidSort) -> Seq<u64> {
    shares.map_values(|s: ClusterShare| share_key(s, lightness, sort))
}

/// `r` is `s` rearranged by a stable ascending sort on `keys`.
pub open spec fn is_stable_sort_of<T>(r: Seq<T>, s: Seq<T>, keys: Seq<u64>) -> bool {
    exists|perm: Seq<usize>| {
        &&& #[trigger] is_permutation(perm, s.len())
        &&& covers(perm, s.len())
        &&& is_stably_sorted(perm, keys)
        &&& r.len() == s.len()
        &&& forall|i: int| 0 <= i < r.len() ==> r[i] == s[perm[i] as int]
    }
}

/// Orders shares ascending by sample count (and so by percentage) or by the
/// lightness of their centroids, `lightness[c]` being the key of centroid
/// `c`. The sort is stable: shares with equal keys keep their input order.
pub fn order_shares(shares: &Vec<ClusterShare>, lightness: &Vec<u64>, sort: CentroidSort) -> (r: Vec<ClusterShare>)
    requires
        forall|j: int| 0 <= j < shares@.len() ==> (#[trigger] shares@[j]).centroid < lightness@.len(),
    ensures
        is_stable_sort_of(r@, shares@, share_keys(shares@, lightness@, sort)),
        share_total(r@) == share_total(shares@),
{
    let ghost keys_spec = share_keys(shares@, lightness@, sort);
    let mut keys: Vec<u64> = Vec::new();
    let mut i: usize = 0;
    while i < shares.len()
        invariant
            i <= shares@.len(),
            keys_spec == share_keys(shares@, lightness@, sort),
            forall|j: int| 0 <= j < shares@.len() ==> (#[trigger] shares@[j]).centroid < lightness@.len(),
            keys@.len() == i,
            forall|j: int| 0 <= j < i ==> #[trigger] keys@[j] == keys_spec[j],
        decreases shares@.len() - i,
    {
        let s = shares[i];
        let key = match sort {
            CentroidSort::Percentage => s.count as u64,
            CentroidSort::Luminosity => lightness[s.centroid],
        };
        keys.push(key);
        i = i + 1;
    }
    proof {
        assert(keys@ =~= keys_spec);
    }
    let perm = stable_order(&keys);
    let mut r: Vec<ClusterShare> = Vec::new();
    let mut j: usize = 0;
    while j < perm.len()
        invariant
            j <= perm@.len(),
            is_permutation(perm@, shares@.len()),
            r@.len() == j,
            forall|a: int| 0 <= a < j ==> #[trigger] r@[a] == shares@[perm@[a] as int],
        decreases perm@.len() - j,
    {
        r.push(shares[perm[j]]);
        j = j + 1;
    }
    proof {
        assert(is_permutation(perm@, shares@.len()));
        lemma_total_of_rearrangement(r@, shares@, perm@);
    }
    r
}

proof fn lemma_total_remove(r: Seq<ClusterShare>, p: int)
    requires
        0 <= p < r.len(),
    ensures
        share_total(r.remove(p)) == share_total(r) - r[p].count,
    decreases r.len(),
{
    if p == r.len() - 1 {
        assert(r.remove(p) =~= r.drop_last());
    } else {
        lemma_total_remove(r.drop_last(), p);
        assert(r.remove(p).drop_last() =~= r.drop_last().remove(p));
        assert(r.remove(p).last() == r.last());
    }
}

/// Rearranging shares by a permutation keeps their total.
proof fn lemma_total_of_rearrangement(r: Seq<ClusterShare>, s: Seq<ClusterShare>, perm: Seq<usize>)
    requires
        is_permutation(perm, s.len()),
        covers(perm, s.len()),
        r.len() == s.len(),
        forall|i: int| 0 <= i < r.len() ==> r[i] == s[perm[i] as int],
    ensures
        share_total(r) == share_total(s),
    decreases s.len(),
{
    let n = s.len() as int;
    if n > 0 {
        assert(occurs(perm, n - 1));
        let p = choose|a: int| 0 <= a < perm.len() && #[trigger] perm[a] as int == n - 1;
        let r2 = r.remove(p);
        let perm2 = perm.remove(p);
        let s2 = s.drop_last();
        assert forall|a: int| 0 <= a < perm2.len() implies (#[trigger] perm2[a] as int) < s2.len() by {
            if a < p {
                assert(perm2[a] == perm[a]);
            } else {
                assert(perm2[a] == perm[a + 1]);
            }
        }
        assert forall|a: int, b: int| 0 <= a < b < perm2.len() implies #[trigger] perm2[a] != #[trigger] perm2[b] by {
            let a1 = if a < p { a } else { a + 1 };
            let b1 = if b < p { b } else { b + 1 };
            assert(perm2[a] == perm[a1]);
            assert(perm2[b] == perm[b1]);
        }
        assert forall|j: int| 0 <= j < s2.len() implies #[trigger] occurs(perm2, j) by {
            assert(occurs(perm, j));
            let a = choose|a: int| 0 <= a < perm.len() && #[trigger] perm[a] as int == j;
            if a < p {
                assert(perm2[a] as int == j);
            } else {
                assert(perm2[a - 1] as int == j);
            }
        }
        assert forall|i: int| 0 <= i < r2.len() implies r2[i] == s2[perm2[i] as int] by {
            let i1 = if i < p { i } else { i + 1 };
            assert(r2[i] == r[i1]);
            assert(perm2[i] == perm[i1]);
        }
        lemma_total_of_rearrangement(r2, s2, perm2);
        lemma_total_remove(r, p);
    }
}

/// Whatever the ordering, the reported shares of an assignment vector add up
/// to the number of samples, so their percentages add up to one, and no
/// share exceeds the number of samples, so each percentage lies in [0, 1].
pub proof fn lemma_ordered_shares_cover_samples(
    s: Seq<u8>,
    k: int,
    shares: Seq<ClusterShare>,
    lightness: Seq<u64>,
    sort: CentroidSort,
    r: Seq<ClusterShare>,
)
    requires
        0 <= k,
        assignments_in_range(s, k),
        shares_of(s, k, shares),
        is_stable_sort_of(r, shares, share_keys(shares, lightness, sort)),
    ensures
        share_total(r) == s.len(),
        forall|j: int| 0 <= j < r.len() ==> (#[trigger] r[j]).count <= s.len(),
{
    let keys = share_keys(shares, lightness, sort);
    let perm = choose|perm: Seq<usize>| {
        &&& #[trigger] is_permutation(perm, shares.len())
        &&& covers(perm, shares.len())
        &&& is_stably_sorted(perm, keys)
        &&& r.len() == shares.len()
        &&& forall|i: int| 0 <= i < r.len() ==> r[i] == shares[perm[i] as int]
    };
    lemma_shares_cover_samples(s, k, shares);
    lemma_total_of_rearrangement(r, shares, perm);
    assert forall|j: int| 0 <= j < r.len() implies (#[trigger] r[j]).count <= s.len() by {
        assert(r[j] == shares[perm[j] as int]);
    }
}

} // verus!
