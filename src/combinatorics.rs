//! Pairs and permutations of state indices, drawn from itertools.
use itertools::Itertools;
use vstd::prelude::*;

verus! {

/// The unordered pairs `(i, j)` with `lo <= i <= j < hi`, in lexicographic order.
pub open spec fn pairs_from(lo: int, hi: int) -> Seq<(usize, usize)>
    decreases hi - lo,
{
    if lo >= hi {
        Seq::empty()
    } else {
        Seq::new((hi - lo) as nat, |k: int| (lo as usize, (lo + k) as usize)) + pairs_from(
            lo + 1,
            hi,
        )
    }
}

/// `p` lists each of `0..n` exactly once.
pub open spec fn is_permutation(p: Seq<usize>, n: nat) -> bool {
    &&& p.len() == n
    &&& forall|i: int| 0 <= i < n ==> (#[trigger] p[i]) < n
    &&& forall|i: int, j: int| 0 <= i < j < n ==> p[i] != p[j]
}

/// Relies on itertools' `combinations_with_replacement(2)` over `lo..hi`: it
/// yields every pair `[i, j]` with `lo <= i <= j < hi`, in lexicographic order.
#[verifier::external_body]
pub(crate) fn pairs_with_replacement(lo: usize, hi: usize) -> (r: Vec<(usize, usize)>)
    ensures
        r@ == pairs_from(lo as int, hi as int),
{
    (lo..hi).combinations_with_replacement(2).map(|v| (v[0], v[1])).collect()
}

/// Relies on itertools' `permutations(n)` over `0..n`: it yields every
/// ordering of `0..n`, each one a `Vec` of length `n`.
#[verifier::external_body]
pub(crate) fn all_permutations(n: usize) -> (r: Vec<Vec<usize>>)
    ensures
        forall|k: int| 0 <= k < r@.len() ==> is_permutation(#[trigger] r@[k]@, n as nat),
        forall|p: Seq<usize>|
            is_permutation(p, n as nat) ==> exists|k: int| 0 <= k < r@.len() && #[trigger] r@[k]@ == p,
{
    (0..n).permutations(n).collect()
}

/// Every pair of `pairs_from(lo, hi)` lies in `lo..hi` and is ordered.
pub proof fn lemma_pairs_bounds(lo: int, hi: int)
    requires
        0 <= lo,
        hi <= usize::MAX,
    ensures
        forall|k: int|
            0 <= k < pairs_from(lo, hi).len() ==> {
                let p = #[trigger] pairs_from(lo, hi)[k];
                lo <= p.0 <= p.1 < hi
            },
    decreases hi - lo,
{
    if lo < hi {
        lemma_pairs_bounds(lo + 1, hi);
        let head = Seq::new((hi - lo) as nat, |k: int| (lo as usize, (lo + k) as usize));
        assert(pairs_from(lo, hi) == head + pairs_from(lo + 1, hi));
        assert forall|k: int| 0 <= k < pairs_from(lo, hi).len() implies {
            let p = #[trigger] pairs_from(lo, hi)[k];
            lo <= p.0 <= p.1 < hi
        } by {
            if k >= head.len() {
                assert(pairs_from(lo, hi)[k] == pairs_from(lo + 1, hi)[k - head.len()]);
            }
        }
    }
}

/// `p` comes before `q` in lexicographic order.
pub open spec fn pair_lt(p: (usize, usize), q: (usize, usize)) -> bool {
    p.0 < q.0 || (p.0 == q.0 && p.1 < q.1)
}

/// The pairs are in strictly increasing lexicographic order.
pub open spec fn strictly_sorted(s: Seq<(usize, usize)>) -> bool {
    forall|i: int, j: int| 0 <= i < j < s.len() ==> pair_lt(#[trigger] s[i], #[trigger] s[j])
}

/// `pairs_from(lo, hi)` is strictly increasing, so it lists no pair twice.
pub proof fn lemma_pairs_sorted(lo: int, hi: int)
    requires
        0 <= lo,
        hi <= usize::MAX,
    ensures
        strictly_sorted(pairs_from(lo, hi)),
    decreases hi - lo,
{
    if lo < hi {
        lemma_pairs_sorted(lo + 1, hi);
        lemma_pairs_bounds(lo + 1, hi);
        let head = Seq::new((hi - lo) as nat, |k: int| (lo as usize, (lo + k) as usize));
        let tail = pairs_from(lo + 1, hi);
        assert(pairs_from(lo, hi) == head + tail);
        assert forall|i: int, j: int| 0 <= i < j < pairs_from(lo, hi).len() implies pair_lt(
            #[trigger] pairs_from(lo, hi)[i],
            #[trigger] pairs_from(lo, hi)[j],
        ) by {
            if j >= head.len() {
                assert(pairs_from(lo, hi)[j] == tail[j - head.len()]);
                if i >= head.len() {
                    assert(pairs_from(lo, hi)[i] == tail[i - head.len()]);
                }
            }
        }
    }
}

} // verus!
