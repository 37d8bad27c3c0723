//! One interaction structure: its conserved quantities and the edge classes
//! they induce.
use crate::combinatorics::{lemma_pairs_bounds, lemma_pairs_sorted, pair_lt, strictly_sorted, pairs_from, pairs_with_replacement};
use vstd::prelude::*;

verus! {

/// An unordered pair of states, smaller index first.
pub type StatePair = (usize, usize);

/// The entries of each quantity, read as mathematical integers.
pub open spec fn rows_of(consv: Seq<Vec<i64>>) -> Seq<Seq<int>> {
    Seq::new(consv.len(), |k: int| Seq::new(consv[k]@.len(), |i: int| consv[k]@[i] as int))
}

/// Edge classes as sequences of pairs.
pub open spec fn classes_of(edges: Seq<Vec<StatePair>>) -> Seq<Seq<StatePair>> {
    Seq::new(edges.len(), |g: int| edges[g]@)
}

/// Every quantity is a vector over the `n` states.
pub open spec fn rows_over(n: nat, rows: Seq<Seq<int>>) -> bool {
    forall|k: int| 0 <= k < rows.len() ==> (#[trigger] rows[k]).len() == n
}

/// The value that quantity `q` gives to the pair `p`.
pub open spec fn pair_sum(q: Seq<int>, p: StatePair) -> int {
    q[p.0 as int] + q[p.1 as int]
}

/// Every quantity gives the pairs `p` and `q` the same summed value.
pub open spec fn same_channel(rows: Seq<Seq<int>>, p: StatePair, q: StatePair) -> bool {
    forall|k: int| 0 <= k < rows.len() ==> pair_sum(#[trigger] rows[k], p) == pair_sum(rows[k], q)
}

pub open spec fn channel_pred(rows: Seq<Seq<int>>, p: StatePair) -> spec_fn(StatePair) -> bool {
    |q: StatePair| same_channel(rows, p, q)
}

/// The pairs of `ps` that share a channel with `p`, in the order of `ps`.
pub open spec fn channel_of(rows: Seq<Seq<int>>, ps: Seq<StatePair>, p: StatePair) -> Seq<StatePair> {
    ps.filter(channel_pred(rows, p))
}

/// No pair before position `i` of `ps` shares a channel with `ps[i]`.
pub open spec fn is_leader(rows: Seq<Seq<int>>, ps: Seq<StatePair>, i: int) -> bool {
    forall|j: int| 0 <= j < i ==> !same_channel(rows, #[trigger] ps[j], ps[i])
}

/// Some other position of `ps` shares a channel with `ps[i]`.
pub open spec fn has_partner(rows: Seq<Seq<int>>, ps: Seq<StatePair>, i: int) -> bool {
    exists|j: int| 0 <= j < ps.len() && j != i && same_channel(rows, ps[i], #[trigger] ps[j])
}

/// The classes with two or more members, among those whose first member lies
/// in the first `k` pairs of `ps`, ordered by that first member.
pub open spec fn classes_upto(rows: Seq<Seq<int>>, ps: Seq<StatePair>, k: int) -> Seq<Seq<StatePair>>
    decreases k,
{
    if k <= 0 {
        Seq::empty()
    } else {
        let prev = classes_upto(rows, ps, k - 1);
        if is_leader(rows, ps, k - 1) && has_partner(rows, ps, k - 1) {
            prev.push(channel_of(rows, ps, ps[k - 1]))
        } else {
            prev
        }
    }
}

/// The edge classes of `n` states under the quantities `rows`: the groups of
/// two or more pairs (a state with itself included) that every quantity sums
/// alike, each group in lexicographic order, groups ordered by their first pair.
pub open spec fn edge_classes(n: nat, rows: Seq<Seq<int>>) -> Seq<Seq<StatePair>> {
    classes_upto(rows, pairs_from(0, n as int), pairs_from(0, n as int).len() as int)
}

/// States `i` and `j` differ in the value of some quantity.
pub open spec fn distinct_states(rows: Seq<Seq<int>>, i: int, j: int) -> bool {
    exists|k: int| 0 <= k < rows.len() && (#[trigger] rows[k])[i] != rows[k][j]
}

/// Every two of the `n` states are told apart by some quantity.
pub open spec fn separable(n: nat, rows: Seq<Seq<int>>) -> bool {
    forall|i: int, j: int| 0 <= i < j < n ==> #[trigger] distinct_states(rows, i, j)
}

/// The baseline basis: quantity `k` is the unit vector of state `k + 1`.
pub open spec fn trivial_rows(n: nat) -> Seq<Seq<int>> {
    Seq::new((n - 1) as nat, |k: int| Seq::new(n, |i: int| if i == k + 1 { 1int } else { 0int }))
}

/// How much quantity `q` tells the pair `(c, d)` from the pair `(a, b)`.
pub open spec fn pair_gap(q: Seq<int>, a: usize, b: usize, c: usize, d: usize) -> int {
    q[c as int] + q[d as int] - q[a as int] - q[b as int]
}

/// The first position, from `k` on, of a quantity with a nonzero gap; `rows.len()` if none.
pub open spec fn first_pivot_from(
    rows: Seq<Seq<int>>,
    a: usize,
    b: usize,
    c: usize,
    d: usize,
    k: int,
) -> int
    decreases rows.len() - k,
{
    if k >= rows.len() || k < 0 {
        rows.len() as int
    } else if pair_gap(rows[k], a, b, c, d) != 0 {
        k
    } else {
        first_pivot_from(rows, a, b, c, d, k + 1)
    }
}

pub open spec fn first_pivot(rows: Seq<Seq<int>>, a: usize, b: usize, c: usize, d: usize) -> int {
    first_pivot_from(rows, a, b, c, d, 0)
}

/// `dp * q - dq * pivot`, entrywise.
pub open spec fn reduce_row(q: Seq<int>, pivot: Seq<int>, dq: int, dp: int) -> Seq<int> {
    Seq::new(q.len(), |i: int| dp * q[i] - dq * pivot[i])
}

/// The basis after forcing `(a, b)` and `(c, d)` into one channel: the first
/// quantity with a nonzero gap is the pivot; it is dropped, and every other
/// quantity is combined with it so that its gap becomes zero.
pub open spec fn merged_rows(rows: Seq<Seq<int>>, a: usize, b: usize, c: usize, d: usize) -> Seq<Seq<int>> {
    let p = first_pivot(rows, a, b, c, d);
    let pivot = rows[p];
    let dp = pair_gap(pivot, a, b, c, d);
    Seq::new(
        (rows.len() - 1) as nat,
        |k: int|
            {
                let src = if k < p { k } else { k + 1 };
                reduce_row(rows[src], pivot, pair_gap(rows[src], a, b, c, d), dp)
            },
    )
}

pub open spec fn in_i64(x: int) -> bool {
    i64::MIN <= x <= i64::MAX
}

/// Every entry fits in 64 bits.
pub open spec fn rows_fit(rows: Seq<Seq<int>>) -> bool {
    forall|k: int, i: int| 0 <= k < rows.len() && 0 <= i < rows[k].len() ==> in_i64(#[trigger] rows[k][i])
}

/// Every gap fits in 64 bits.
pub open spec fn gaps_fit(rows: Seq<Seq<int>>, a: usize, b: usize, c: usize, d: usize) -> bool {
    forall|k: int| 0 <= k < rows.len() ==> in_i64(pair_gap(#[trigger] rows[k], a, b, c, d))
}

/// The merge of `(a, b)` with `(c, d)` is possible: some quantity tells the
/// two pairs apart, and the reduced basis is held in 64-bit integers.
pub open spec fn merge_succeeds(rows: Seq<Seq<int>>, a: usize, b: usize, c: usize, d: usize) -> bool {
    &&& first_pivot(rows, a, b, c, d) < rows.len()
    &&& gaps_fit(rows, a, b, c, d)
    &&& rows_fit(merged_rows(rows, a, b, c, d))
}

/// An interaction structure on `n` states: a basis of integer conserved
/// quantities (`consv`, one vector over the states each) and the edge classes
/// that they induce (`edges`).
#[derive(Clone, Debug)]
pub struct Interaction {
    pub n: usize,
    pub consv: Vec<Vec<i64>>,
    pub edges: Vec<Vec<StatePair>>,
}

impl Interaction {
    pub open spec fn quantities(&self) -> Seq<Seq<int>> {
        rows_of(self.consv@)
    }

    pub open spec fn edge_view(&self) -> Seq<Seq<StatePair>> {
        classes_of(self.edges@)
    }

    /// At most `n - 1` quantities, each over the `n` states, and edge classes
    /// that are exactly those the quantities induce.
    pub open spec fn wf(&self) -> bool {
        &&& self.n >= 1
        &&& self.consv@.len() <= self.n - 1
        &&& rows_over(self.n as nat, self.quantities())
        &&& self.edge_view() == edge_classes(self.n as nat, self.quantities())
    }
}

/// Compares the two pairs under every quantity.
fn same_channel_exec(n: usize, consv: &Vec<Vec<i64>>, p: StatePair, q: StatePair) -> (r: bool)
    requires
        rows_over(n as nat, rows_of(consv@)),
        p.0 < n,
        p.1 < n,
        q.0 < n,
        q.1 < n,
    ensures
        r == same_channel(rows_of(consv@), p, q),
{
    let ghost rows = rows_of(consv@);
    let mut k: usize = 0;
    while k < consv.len()
        invariant
            0 <= k <= consv@.len(),
            rows == rows_of(consv@),
            rows_over(n as nat, rows),
            p.0 < n && p.1 < n && q.0 < n && q.1 < n,
            forall|kk: int| 0 <= kk < k ==> pair_sum(#[trigger] rows[kk], p) == pair_sum(rows[kk], q),
        decreases consv@.len() - k,
    {
        assert(rows[k as int].len() == n);
        let row = &consv[k];
        let lhs: i128 = row[p.0] as i128 + row[p.1] as i128;
        let rhs: i128 = row[q.0] as i128 + row[q.1] as i128;
        if lhs != rhs {
            return false;
        }
        k = k + 1;
    }
    true
}

impl Interaction {
    /// The edge classes that the quantities `consv` induce on `n` states.
    pub fn get_edges_from_consv(n: usize, consv: &Vec<Vec<i64>>) -> (r: Vec<Vec<StatePair>>)
        requires
            rows_over(n as nat, rows_of(consv@)),
        ensures
            classes_of(r@) == edge_classes(n as nat, rows_of(consv@)),
            canonical(classes_of(r@)),
    {
        let ghost rows = rows_of(consv@);
        proof {
            lemma_edges_canonical(n as nat, rows);
        }
        let ps = pairs_with_replacement(0, n);
        proof {
            lemma_pairs_bounds(0, n as int);
        }
        let mut edges: Vec<Vec<StatePair>> = Vec::new();
        let mut i: usize = 0;
        while i < ps.len()
            invariant
                0 <= i <= ps@.len(),
                ps@ == pairs_from(0, n as int),
                rows == rows_of(consv@),
                rows_over(n as nat, rows),
                forall|k: int| 0 <= k < ps@.len() ==> {
                    let p = #[trigger] ps@[k];
                    0 <= p.0 <= p.1 < n
                },
                classes_of(edges@) == classes_upto(rows, ps@, i as int),
            decreases ps@.len() - i,
        {
            let p = ps[i];
            let mut leader = true;
            let mut j: usize = 0;
            while j < i && leader
                invariant
                    0 <= j <= i < ps@.len(),
                    p == ps@[i as int],
                    rows == rows_of(consv@),
                    rows_over(n as nat, rows),
                    forall|k: int| 0 <= k < ps@.len() ==> {
                        let p = #[trigger] ps@[k];
                        0 <= p.0 <= p.1 < n
                    },
                    leader ==> forall|jj: int| 0 <= jj < j ==> !same_channel(rows, #[trigger] ps@[jj], p),
                    !leader ==> !is_leader(rows, ps@, i as int),
                decreases i - j,
            {
                assert(0 <= ps@[j as int].0 <= ps@[j as int].1 < n);
                if same_channel_exec(n, consv, ps[j], p) {
                    leader = false;
                }
                j = j + 1;
            }
            if leader {
                let ghost pred = channel_pred(rows, p);
                let mut group: Vec<StatePair> = Vec::new();
                let mut partner = false;
                let mut k: usize = 0;
                while k < ps.len()
                    invariant
                        0 <= k <= ps@.len(),
                        0 <= i < ps@.len(),
                        p == ps@[i as int],
                        pred == channel_pred(rows, p),
                        rows == rows_of(consv@),
                        rows_over(n as nat, rows),
                        forall|kk: int| 0 <= kk < ps@.len() ==> {
                            let p = #[trigger] ps@[kk];
                            0 <= p.0 <= p.1 < n
                        },
                        group@ == ps@.take(k as int).filter(pred),
                        partner == exists|jj: int|
                            0 <= jj < k && jj != i && same_channel(rows, p, #[trigger] ps@[jj]),
                    decreases ps@.len() - k,
                {
                    let q = ps[k];
                    assert(ps@.take(k as int + 1).drop_last() == ps@.take(k as int));
                    assert(ps@.take(k as int + 1).last() == q);
                    reveal_with_fuel(Seq::filter, 1);
                    if same_channel_exec(n, consv, p, q) {
                        assert(pred(q));
                        group.push(q);
                        if k != i {
                            partner = true;
                        }
                    } else {
                        assert(!pred(q));
                    }
                    k = k + 1;
                }
                assert(ps@.take(ps@.len() as int) == ps@);
                if partner {
                    edges.push(group);
                    assert(classes_of(edges@) =~= classes_upto(rows, ps@, i + 1));
                } else {
                    assert(classes_of(edges@) =~= classes_upto(rows, ps@, i + 1));
                }
            } else {
                assert(classes_of(edges@) =~= classes_upto(rows, ps@, i + 1));
            }
            i = i + 1;
        }
        edges
    }
}


/// `|a * b| <= 2^126` when both factors lie in 64-bit range.
proof fn lemma_product_bound(a: int, b: int)
    requires
        in_i64(a),
        in_i64(b),
    ensures
        -0x4000_0000_0000_0000_0000_0000_0000_0000 <= a * b <= 0x4000_0000_0000_0000_0000_0000_0000_0000,
{
    assert(-0x8000_0000_0000_0000 <= a <= 0x8000_0000_0000_0000);
    assert(-0x8000_0000_0000_0000 <= b <= 0x8000_0000_0000_0000);
    assert(-0x4000_0000_0000_0000_0000_0000_0000_0000 <= a * b <= 0x4000_0000_0000_0000_0000_0000_0000_0000)
        by (nonlinear_arith)
        requires
            -0x8000_0000_0000_0000 <= a <= 0x8000_0000_0000_0000,
            -0x8000_0000_0000_0000 <= b <= 0x8000_0000_0000_0000,
    ;
}

/// The gap of quantity `q` in 128-bit arithmetic.
fn gap_exec(q: &Vec<i64>, a: usize, b: usize, c: usize, d: usize) -> (r: i128)
    requires
        a < q@.len(),
        b < q@.len(),
        c < q@.len(),
        d < q@.len(),
    ensures
        r as int == pair_gap(Seq::new(q@.len(), |i: int| q@[i] as int), a, b, c, d),
{
    (q[c] as i128 + q[d] as i128) - (q[a] as i128 + q[b] as i128)
}

impl Interaction {
    /// The trivial interaction on `n` states: the baseline basis, under which
    /// every two pairs of states are told apart.
    pub fn new(n: usize) -> (r: Interaction)
        requires
            n >= 1,
        ensures
            r.wf(),
            r.n == n,
            r.quantities() == trivial_rows(n as nat),
            separable(n as nat, r.quantities()),
            r.edge_view().len() == 0,
    {
        let mut consv: Vec<Vec<i64>> = Vec::new();
        let mut k: usize = 1;
        while k < n
            invariant
                1 <= k <= n,
                consv@.len() == k - 1,
                forall|kk: int| 0 <= kk < k - 1 ==> (#[trigger] rows_of(consv@)[kk]) == trivial_rows(n as nat)[kk],
            decreases n - k,
        {
            let mut row: Vec<i64> = Vec::new();
            let mut i: usize = 0;
            while i < n
                invariant
                    0 <= i <= n,
                    1 <= k < n,
                    row@.len() == i,
                    forall|ii: int| 0 <= ii < i ==> (#[trigger] row@[ii]) as int == (if ii == k { 1int } else { 0int }),
                decreases n - i,
            {
                if i == k {
                    row.push(1);
                } else {
                    row.push(0);
                }
                i = i + 1;
            }
            let ghost before = consv@;
            consv.push(row);
            proof {
                assert forall|kk: int| 0 <= kk < k implies (#[trigger] rows_of(consv@)[kk]) == trivial_rows(n as nat)[kk] by {
                    if kk < k - 1 {
                        assert(rows_of(consv@)[kk] == rows_of(before)[kk]);
                    } else {
                        assert(rows_of(consv@)[kk] =~= trivial_rows(n as nat)[kk]);
                    }
                }
            }
            k = k + 1;
        }
        assert(rows_of(consv@) =~= trivial_rows(n as nat));
        proof {
            lemma_trivial_interaction(n as nat);
        }
        let edges: Vec<Vec<StatePair>> = Vec::new();
        assert(classes_of(edges@) =~= edge_classes(n as nat, trivial_rows(n as nat)));
        Interaction { n, consv, edges }
    }

    /// Builds the interaction of the quantities `consv`, with its edge classes.
    fn create_from_consv(n: usize, consv: Vec<Vec<i64>>) -> (r: Interaction)
        requires
            n >= 1,
            consv@.len() <= n - 1,
            rows_over(n as nat, rows_of(consv@)),
        ensures
            r.wf(),
            r.n == n,
            r.quantities() == rows_of(consv@),
    {
        let edges = Interaction::get_edges_from_consv(n, &consv);
        Interaction { n, consv, edges }
    }

    /// Whether every two states differ in the value of some quantity.
    pub fn is_separable(&self) -> (r: bool)
        requires
            self.wf(),
        ensures
            r == separable(self.n as nat, self.quantities()),
    {
        let n = self.n;
        let ghost rows = self.quantities();
        let mut i: usize = 0;
        while i < n
            invariant
                0 <= i <= n,
                n == self.n,
                rows == self.quantities(),
                rows_over(n as nat, rows),
                forall|ii: int, jj: int| 0 <= ii < i && ii < jj < n ==> #[trigger] distinct_states(rows, ii, jj),
            decreases n - i,
        {
            let mut j: usize = i + 1;
            while j < n
                invariant
                    i < n,
                    i + 1 <= j <= n,
                    n == self.n,
                    rows == self.quantities(),
                    rows_over(n as nat, rows),
                    forall|ii: int, jj: int| 0 <= ii < i && ii < jj < n ==> #[trigger] distinct_states(rows, ii, jj),
                    forall|jj: int| i < jj < j ==> #[trigger] distinct_states(rows, i as int, jj),
                decreases n - j,
            {
                let mut differ = false;
                let mut k: usize = 0;
                while k < self.consv.len() && !differ
                    invariant
                        0 <= k <= rows.len(),
                        i < j < n,
                        n == self.n,
                        rows == self.quantities(),
                        rows_over(n as nat, rows),
                        differ ==> distinct_states(rows, i as int, j as int),
                        !differ ==> forall|kk: int| 0 <= kk < k ==> (#[trigger] rows[kk])[i as int] == rows[kk][j as int],
                    decreases rows.len() - k,
                {
                    assert(rows[k as int].len() == n);
                    if self.consv[k][i] != self.consv[k][j] {
                        differ = true;
                        assert(rows[k as int][i as int] != rows[k as int][j as int]);
                    }
                    k = k + 1;
                }
                if !differ {
                    assert(!distinct_states(rows, i as int, j as int));
                    return false;
                }
                j = j + 1;
            }
            i = i + 1;
        }
        true
    }
}

/// The first pivot is `p` when every quantity before `p` has a zero gap and
/// `p` is the end or has a nonzero gap.
proof fn lemma_first_pivot(rows: Seq<Seq<int>>, a: usize, b: usize, c: usize, d: usize, p: int, j: int)
    requires
        0 <= j <= p <= rows.len(),
        forall|kk: int| 0 <= kk < p ==> pair_gap(#[trigger] rows[kk], a, b, c, d) == 0,
        p < rows.len() ==> pair_gap(rows[p], a, b, c, d) != 0,
    ensures
        first_pivot_from(rows, a, b, c, d, j) == p,
    decreases p - j,
{
    if j < p {
        lemma_first_pivot(rows, a, b, c, d, p, j + 1);
    }
}

impl Interaction {
    /// Forces the pairs `first` and `second` into one channel. Gives `None`
    /// when no quantity tells them apart (the merge is already implied), or
    /// when the reduced basis does not fit in 64-bit integers; otherwise the
    /// interaction of the reduced basis, with one quantity fewer.
    pub fn merge(&self, first: StatePair, second: StatePair) -> (r: Option<Interaction>)
        requires
            self.wf(),
            first.0 < self.n,
            first.1 < self.n,
            second.0 < self.n,
            second.1 < self.n,
        ensures
            r.is_some() == merge_succeeds(self.quantities(), first.0, first.1, second.0, second.1),
            r matches Some(x) ==> {
                &&& x.wf()
                &&& x.n == self.n
                &&& x.quantities() == merged_rows(self.quantities(), first.0, first.1, second.0, second.1)
                &&& x.quantities().len() == self.quantities().len() - 1
            },
    {
        let a = first.0;
        let b = first.1;
        let c = second.0;
        let d = second.1;
        let n = self.n;
        let m = self.consv.len();
        let ghost rows = self.quantities();
        let mut p: usize = m;
        let mut k: usize = 0;
        while k < m
            invariant
                0 <= k <= m,
                m == rows.len(),
                p <= m,
                rows == self.quantities(),
                rows_over(n as nat, rows),
                n == self.n,
                a < n && b < n && c < n && d < n,
                a == first.0 && b == first.1 && c == second.0 && d == second.1,
                forall|kk: int| 0 <= kk < k ==> in_i64(pair_gap(#[trigger] rows[kk], a, b, c, d)),
                p == m ==> forall|kk: int| 0 <= kk < k ==> pair_gap(#[trigger] rows[kk], a, b, c, d) == 0,
                p < m ==> p < k && pair_gap(rows[p as int], a, b, c, d) != 0,
                p < m ==> forall|kk: int| 0 <= kk < p ==> pair_gap(#[trigger] rows[kk], a, b, c, d) == 0,
            decreases m - k,
        {
            assert(rows[k as int].len() == n);
            assert(rows[k as int] == Seq::new(self.consv@[k as int]@.len(), |i: int| self.consv@[k as int]@[i] as int));
            let g = gap_exec(&self.consv[k], a, b, c, d);
            if g < i64::MIN as i128 || g > i64::MAX as i128 {
                assert(!gaps_fit(rows, a, b, c, d));
                return None;
            }
            if p == m && g != 0 {
                p = k;
            }
            k = k + 1;
        }
        proof {
            lemma_first_pivot(rows, a, b, c, d, p as int, 0);
        }
        if p == m {
            return None;
        }
        let ghost merged = merged_rows(rows, a, b, c, d);
        let pv = &self.consv[p];
        assert(rows[p as int].len() == n);
        assert(rows[p as int] == Seq::new(pv@.len(), |i: int| pv@[i] as int));
        let dp = gap_exec(pv, a, b, c, d);
        let mut new_consv: Vec<Vec<i64>> = Vec::new();
        let mut k: usize = 0;
        while k < m
            invariant
                0 <= k <= m,
                p < m,
                m == rows.len(),
                rows == self.quantities(),
                rows_over(n as nat, rows),
                n == self.n,
                a < n && b < n && c < n && d < n,
                a == first.0 && b == first.1 && c == second.0 && d == second.1,
                gaps_fit(rows, a, b, c, d),
                first_pivot(rows, a, b, c, d) == p,
                merged == merged_rows(rows, a, b, c, d),
                pv@.len() == n,
                rows[p as int] == Seq::new(pv@.len(), |i: int| pv@[i] as int),
                dp as int == pair_gap(rows[p as int], a, b, c, d),
                new_consv@.len() == (if k <= p { k as int } else { k - 1 }),
                forall|kk: int| 0 <= kk < new_consv@.len() ==> (#[trigger] rows_of(new_consv@)[kk]) == merged[kk],
            decreases m - k,
        {
            if k != p {
                let ghost kidx: int = if k < p { k as int } else { k - 1 };
                let row_k = &self.consv[k];
                assert(rows[k as int].len() == n);
                assert(rows[k as int] == Seq::new(row_k@.len(), |i: int| row_k@[i] as int));
                let dq = gap_exec(row_k, a, b, c, d);
                assert(in_i64(pair_gap(rows[k as int], a, b, c, d)));
                assert(in_i64(pair_gap(rows[p as int], a, b, c, d)));
                let mut row: Vec<i64> = Vec::new();
                let mut i: usize = 0;
                while i < n
                    invariant
                        0 <= i <= n,
                        row_k@.len() == n,
                        pv@.len() == n,
                        in_i64(dp as int),
                        in_i64(dq as int),
                        a == first.0 && b == first.1 && c == second.0 && d == second.1,
                        rows == self.quantities(),
                        merged == merged_rows(rows, a, b, c, d),
                        0 <= kidx < merged.len(),
                        merged[kidx] == reduce_row(rows[k as int], rows[p as int], dq as int, dp as int),
                        rows[k as int] == Seq::new(row_k@.len(), |i: int| row_k@[i] as int),
                        rows[p as int] == Seq::new(pv@.len(), |i: int| pv@[i] as int),
                        row@.len() == i,
                        forall|ii: int| 0 <= ii < i ==> (#[trigger] row@[ii]) as int == merged[kidx][ii],
                    decreases n - i,
                {
                    let x = row_k[i] as i128;
                    let y = pv[i] as i128;
                    proof {
                        lemma_product_bound(dp as int, x as int);
                        lemma_product_bound(dq as int, y as int);
                    }
                    let t1: i128 = dp * x;
                    let t2: i128 = dq * y;
                    assert(merged[kidx][i as int] == t1 - t2);
                    match t1.checked_sub(t2) {
                        Some(v) => {
                            if v < i64::MIN as i128 || v > i64::MAX as i128 {
                                assert(!in_i64(merged[kidx][i as int]));
                                assert(!rows_fit(merged));
                                return None;
                            }
                            row.push(v as i64);
                        },
                        None => {
                            assert(!in_i64(merged[kidx][i as int]));
                            assert(!rows_fit(merged));
                            return None;
                        },
                    }
                    i = i + 1;
                }
                let ghost before = new_consv@;
                new_consv.push(row);
                proof {
                    assert(rows_of(new_consv@)[kidx] =~= merged[kidx]);
                    assert forall|kk: int| 0 <= kk < new_consv@.len() implies (#[trigger] rows_of(new_consv@)[kk]) == merged[kk] by {
                        if kk < kidx {
                            assert(rows_of(new_consv@)[kk] == rows_of(before)[kk]);
                        }
                    }
                }
            }
            k = k + 1;
        }
        assert(rows_of(new_consv@) =~= merged);
        proof {
            assert forall|kk: int, i: int| 0 <= kk < merged.len() && 0 <= i < merged[kk].len() implies in_i64(#[trigger] merged[kk][i]) by {
                assert(rows_of(new_consv@)[kk][i] == new_consv@[kk]@[i] as int);
            }
        }
        Some(Interaction::create_from_consv(n, new_consv))
    }
}

/// The first pivot from `j` is a position in `j..=rows.len()`, and one with a
/// nonzero gap when it is not the end.
proof fn lemma_first_pivot_range(rows: Seq<Seq<int>>, a: usize, b: usize, c: usize, d: usize, j: int)
    requires
        0 <= j <= rows.len(),
    ensures
        j <= first_pivot_from(rows, a, b, c, d, j) <= rows.len(),
        first_pivot_from(rows, a, b, c, d, j) < rows.len() ==> pair_gap(
            rows[first_pivot_from(rows, a, b, c, d, j)],
            a,
            b,
            c,
            d,
        ) != 0,
    decreases rows.len() - j,
{
    if j < rows.len() && pair_gap(rows[j], a, b, c, d) == 0 {
        lemma_first_pivot_range(rows, a, b, c, d, j + 1);
    }
}

/// Once `(a, b)` and `(c, d)` have been merged, no quantity of the result
/// tells the two pairs apart: merging them again finds no pivot and fails.
pub proof fn lemma_merge_settles(n: nat, rows: Seq<Seq<int>>, a: usize, b: usize, c: usize, d: usize)
    requires
        rows_over(n, rows),
        a < n,
        b < n,
        c < n,
        d < n,
        first_pivot(rows, a, b, c, d) < rows.len(),
    ensures
        first_pivot(merged_rows(rows, a, b, c, d), a, b, c, d) == merged_rows(rows, a, b, c, d).len(),
        !merge_succeeds(merged_rows(rows, a, b, c, d), a, b, c, d),
{
    let merged = merged_rows(rows, a, b, c, d);
    let p = first_pivot(rows, a, b, c, d);
    lemma_first_pivot_range(rows, a, b, c, d, 0);
    let pv = rows[p];
    let dp = pair_gap(pv, a, b, c, d);
    assert forall|kk: int| 0 <= kk < merged.len() implies pair_gap(#[trigger] merged[kk], a, b, c, d) == 0 by {
        let src = if kk < p { kk } else { kk + 1 };
        let q = rows[src];
        let dq = pair_gap(q, a, b, c, d);
        assert(q.len() == n && pv.len() == n);
        let r = merged[kk];
        assert(r == reduce_row(q, pv, dq, dp));
        assert(r[c as int] + r[d as int] - r[a as int] - r[b as int] == dp * dq - dq * dp) by (nonlinear_arith)
            requires
                r[c as int] == dp * q[c as int] - dq * pv[c as int],
                r[d as int] == dp * q[d as int] - dq * pv[d as int],
                r[a as int] == dp * q[a as int] - dq * pv[a as int],
                r[b as int] == dp * q[b as int] - dq * pv[b as int],
                dq == q[c as int] + q[d as int] - q[a as int] - q[b as int],
                dp == pv[c as int] + pv[d as int] - pv[a as int] - pv[b as int],
        ;
        assert(dp * dq - dq * dp == 0) by (nonlinear_arith);
    }
    lemma_first_pivot(merged, a, b, c, d, merged.len() as int, 0);
}

/// Every quantity of each list occurs in the other.
pub open spec fn same_quantities(rows: Seq<Seq<int>>, other: Seq<Seq<int>>) -> bool {
    &&& forall|k: int| 0 <= k < rows.len() ==> exists|j: int| 0 <= j < other.len() && other[j] == #[trigger] rows[k]
    &&& forall|j: int| 0 <= j < other.len() ==> exists|k: int| 0 <= k < rows.len() && rows[k] == #[trigger] other[j]
}

proof fn lemma_classes_upto_agree(rows: Seq<Seq<int>>, other: Seq<Seq<int>>, ps: Seq<StatePair>, k: int)
    requires
        forall|p: StatePair, q: StatePair| same_channel(rows, p, q) == #[trigger] same_channel(other, p, q),
    ensures
        classes_upto(rows, ps, k) == classes_upto(other, ps, k),
    decreases k,
{
    if k > 0 {
        lemma_classes_upto_agree(rows, other, ps, k - 1);
        let p = ps[k - 1];
        assert(channel_pred(rows, p) =~= channel_pred(other, p));
        assert(is_leader(rows, ps, k - 1) == is_leader(other, ps, k - 1));
        if has_partner(rows, ps, k - 1) {
            let j = choose|j: int| 0 <= j < ps.len() && j != k - 1 && same_channel(rows, ps[k - 1], #[trigger] ps[j]);
            assert(same_channel(other, ps[k - 1], ps[j]));
        }
        if has_partner(other, ps, k - 1) {
            let j = choose|j: int| 0 <= j < ps.len() && j != k - 1 && same_channel(other, ps[k - 1], #[trigger] ps[j]);
            assert(same_channel(rows, ps[k - 1], ps[j]));
        }
    }
}

/// The edge classes depend only on which quantities are present, not on
/// their order: two lists holding the same quantities induce the same classes.
pub proof fn lemma_edges_order_independent(n: nat, rows: Seq<Seq<int>>, other: Seq<Seq<int>>)
    requires
        same_quantities(rows, other),
    ensures
        edge_classes(n, rows) == edge_classes(n, other),
{
    assert forall|p: StatePair, q: StatePair| same_channel(rows, p, q) == #[trigger] same_channel(other, p, q) by {
        if same_channel(rows, p, q) {
            assert forall|j: int| 0 <= j < other.len() implies pair_sum(#[trigger] other[j], p) == pair_sum(other[j], q) by {
                let k = choose|k: int| 0 <= k < rows.len() && rows[k] == #[trigger] other[j];
                assert(pair_sum(rows[k], p) == pair_sum(rows[k], q));
            }
        }
        if same_channel(other, p, q) {
            assert forall|k: int| 0 <= k < rows.len() implies pair_sum(#[trigger] rows[k], p) == pair_sum(rows[k], q) by {
                let j = choose|j: int| 0 <= j < other.len() && other[j] == #[trigger] rows[k];
                assert(pair_sum(other[j], p) == pair_sum(other[j], q));
            }
        }
    }
    lemma_classes_upto_agree(rows, other, pairs_from(0, n as int), pairs_from(0, n as int).len() as int);
}

impl Interaction {
    /// A copy of this interaction, with the same quantities and edge classes.
    pub(crate) fn duplicate(&self) -> (r: Interaction)
        requires
            self.wf(),
        ensures
            r.wf(),
            r.n == self.n,
            r.quantities() == self.quantities(),
            r.edge_view() == self.edge_view(),
    {
        let ghost rows = self.quantities();
        let mut consv: Vec<Vec<i64>> = Vec::new();
        let mut k: usize = 0;
        while k < self.consv.len()
            invariant
                0 <= k <= self.consv@.len(),
                rows == self.quantities(),
                consv@.len() == k,
                forall|kk: int| 0 <= kk < k ==> (#[trigger] consv@[kk])@ == self.consv@[kk]@,
            decreases self.consv@.len() - k,
        {
            let src = &self.consv[k];
            let mut row: Vec<i64> = Vec::new();
            let mut i: usize = 0;
            while i < src.len()
                invariant
                    0 <= i <= src@.len(),
                    row@ == src@.take(i as int),
                decreases src@.len() - i,
            {
                row.push(src[i]);
                assert(row@ =~= src@.take(i + 1));
                i = i + 1;
            }
            assert(row@ =~= src@);
            consv.push(row);
            k = k + 1;
        }
        assert(rows_of(consv@) =~= rows);
        Interaction::create_from_consv(self.n, consv)
    }
}

/// Under the baseline basis, two ordered pairs of states share a channel
/// only when they are the same pair.
proof fn lemma_trivial_channels(n: nat, p: StatePair, q: StatePair)
    requires
        p.0 <= p.1 < n,
        q.0 <= q.1 < n,
        same_channel(trivial_rows(n), p, q),
    ensures
        p == q,
{
    let rows = trivial_rows(n);
    let (i, j) = (p.0 as int, p.1 as int);
    let (k, l) = (q.0 as int, q.1 as int);
    if j > l {
        assert(pair_sum(rows[j - 1], p) != pair_sum(rows[j - 1], q));
    } else if l > j {
        assert(pair_sum(rows[l - 1], p) != pair_sum(rows[l - 1], q));
    } else if i > k {
        assert(pair_sum(rows[i - 1], p) != pair_sum(rows[i - 1], q));
    } else if k > i {
        assert(pair_sum(rows[k - 1], p) != pair_sum(rows[k - 1], q));
    }
}

proof fn lemma_trivial_classes_upto(n: nat, k: int)
    requires
        n <= usize::MAX,
        k <= pairs_from(0, n as int).len(),
    ensures
        classes_upto(trivial_rows(n), pairs_from(0, n as int), k).len() == 0,
    decreases k,
{
    if k > 0 {
        lemma_trivial_classes_upto(n, k - 1);
        let ps = pairs_from(0, n as int);
        let rows = trivial_rows(n);
        lemma_pairs_bounds(0, n as int);
        lemma_pairs_sorted(0, n as int);
        if has_partner(rows, ps, k - 1) {
            let j = choose|j: int| 0 <= j < ps.len() && j != k - 1 && same_channel(rows, ps[k - 1], #[trigger] ps[j]);
            lemma_trivial_channels(n, ps[k - 1], ps[j]);
            if j < k - 1 {
                assert(pair_lt(ps[j], ps[k - 1]));
            } else {
                assert(pair_lt(ps[k - 1], ps[j]));
            }
        }
    }
}

/// The trivial interaction keeps every two states apart and has no edge class.
pub proof fn lemma_trivial_interaction(n: nat)
    requires
        1 <= n <= usize::MAX,
    ensures
        separable(n, trivial_rows(n)),
        edge_classes(n, trivial_rows(n)).len() == 0,
{
    let rows = trivial_rows(n);
    assert forall|i: int, j: int| 0 <= i < j < n implies #[trigger] distinct_states(rows, i, j) by {
        assert(rows[j - 1][j] != rows[j - 1][i]);
    }
    lemma_trivial_classes_upto(n, pairs_from(0, n as int).len() as int);
}

/// Canonical form of edge classes: every class has two or more pairs, in
/// strictly increasing order, and the classes are in strictly increasing
/// order of their first pairs (hence in lexicographic order). Sorting the
/// pairs of each class and then the classes leaves such a list unchanged.
pub open spec fn canonical(classes: Seq<Seq<StatePair>>) -> bool {
    &&& forall|g: int| 0 <= g < classes.len() ==> (#[trigger] classes[g]).len() >= 2 && strictly_sorted(classes[g])
    &&& forall|g: int, h: int| 0 <= g < h < classes.len() ==> pair_lt(#[trigger] classes[g][0], #[trigger] classes[h][0])
}

proof fn lemma_filter_sorted(s: Seq<StatePair>, pred: spec_fn(StatePair) -> bool)
    requires
        strictly_sorted(s),
    ensures
        strictly_sorted(s.filter(pred)),
    decreases s.len(),
{
    reveal_with_fuel(Seq::filter, 1);
    if s.len() > 0 {
        let t = s.drop_last();
        assert(strictly_sorted(t));
        lemma_filter_sorted(t, pred);
        let f = t.filter(pred);
        if pred(s.last()) {
            assert forall|i: int| 0 <= i < f.len() implies pair_lt(#[trigger] f[i], s.last()) by {
                assert(f.contains(f[i]));
                t.lemma_filter_contains_rev(pred, f[i]);
                let k = choose|k: int| 0 <= k < t.len() && t[k] == f[i];
                assert(s[k] == t[k]);
            }
            let r = f.push(s.last());
            assert forall|i: int, j: int| 0 <= i < j < r.len() implies pair_lt(#[trigger] r[i], #[trigger] r[j]) by {
                if j < f.len() {
                    assert(r[i] == f[i] && r[j] == f[j]);
                } else {
                    assert(r[i] == f[i]);
                }
            }
        }
    }
}

/// The class of a leader with a partner starts with the leader and has two
/// or more members.
proof fn lemma_leader_class(rows: Seq<Seq<int>>, ps: Seq<StatePair>, k: int)
    requires
        0 <= k < ps.len(),
        strictly_sorted(ps),
        is_leader(rows, ps, k),
        has_partner(rows, ps, k),
    ensures
        channel_of(rows, ps, ps[k]).len() >= 2,
        channel_of(rows, ps, ps[k])[0] == ps[k],
{
    let pred = channel_pred(rows, ps[k]);
    let f = ps.filter(pred);
    let j = choose|j: int| 0 <= j < ps.len() && j != k && same_channel(rows, ps[k], #[trigger] ps[j]);
    assert(pred(ps[k]));
    assert(pred(ps[j]));
    ps.lemma_filter_contains(pred, k);
    ps.lemma_filter_contains(pred, j);
    assert(ps[k] != ps[j]) by {
        if j < k {
            assert(pair_lt(ps[j], ps[k]));
        } else {
            assert(pair_lt(ps[k], ps[j]));
        }
    }
    if f.len() < 2 {
        let a = choose|a: int| 0 <= a < f.len() && f[a] == ps[k];
        let b = choose|b: int| 0 <= b < f.len() && f[b] == ps[j];
        assert(a == b);
    }
    let head = ps.take(k);
    let rest = ps.skip(k);
    assert(ps == head + rest);
    Seq::filter_distributes_over_add(head, rest, pred);
    if head.filter(pred).len() > 0 {
        let x = head.filter(pred)[0];
        assert(head.filter(pred).contains(x));
        head.lemma_filter_contains_rev(pred, x);
        let i = choose|i: int| 0 <= i < head.len() && head[i] == x;
        assert(head[i] == ps[i]);
        assert(pred(x));
        assert(same_channel(rows, ps[k], ps[i]));
        assert(!same_channel(rows, ps[i], ps[k]));
        assert(false);
    }
    let one = seq![ps[k]];
    let later = ps.skip(k + 1);
    assert(rest == one + later);
    Seq::filter_distributes_over_add(one, later, pred);
    reveal_with_fuel(Seq::filter, 2);
    assert(one.drop_last().len() == 0);
    assert(one.filter(pred) == seq![ps[k]]);
    assert(f == seq![ps[k]] + later.filter(pred));
}

proof fn lemma_classes_upto_canonical(rows: Seq<Seq<int>>, ps: Seq<StatePair>, k: int)
    requires
        0 <= k <= ps.len(),
        strictly_sorted(ps),
    ensures
        canonical(classes_upto(rows, ps, k)),
        forall|g: int| 0 <= g < classes_upto(rows, ps, k).len() ==> exists|i: int|
            0 <= i < k && #[trigger] classes_upto(rows, ps, k)[g][0] == ps[i],
    decreases k,
{
    if k > 0 {
        lemma_classes_upto_canonical(rows, ps, k - 1);
        let prev = classes_upto(rows, ps, k - 1);
        if is_leader(rows, ps, k - 1) && has_partner(rows, ps, k - 1) {
            lemma_leader_class(rows, ps, k - 1);
            let c = prev.push(channel_of(rows, ps, ps[k - 1]));
            lemma_filter_sorted(ps, channel_pred(rows, ps[k - 1]));
            assert forall|g: int| 0 <= g < c.len() implies exists|i: int| 0 <= i < k && #[trigger] c[g][0] == ps[i] by {
                if g < prev.len() {
                    assert(c[g] == prev[g]);
                    assert(exists|i: int| 0 <= i < k - 1 && #[trigger] prev[g][0] == ps[i]);
                } else {
                    assert(c[g][0] == ps[k - 1]);
                }
            }
            assert forall|g: int, h: int| 0 <= g < h < c.len() implies pair_lt(#[trigger] c[g][0], #[trigger] c[h][0]) by {
                assert(c[g] == prev[g]);
                if h < prev.len() {
                    assert(c[h] == prev[h]);
                } else {
                    let i = choose|i: int| 0 <= i < k - 1 && #[trigger] prev[g][0] == ps[i];
                    assert(pair_lt(ps[i], ps[k - 1]));
                }
            }
            assert forall|g: int| 0 <= g < c.len() implies (#[trigger] c[g]).len() >= 2 && strictly_sorted(c[g]) by {
                if g < prev.len() {
                    assert(c[g] == prev[g]);
                }
            }
        }
    }
}

/// The edge classes always come in canonical form.
pub proof fn lemma_edges_canonical(n: nat, rows: Seq<Seq<int>>)
    requires
        n <= usize::MAX,
    ensures
        canonical(edge_classes(n, rows)),
{
    lemma_pairs_sorted(0, n as int);
    lemma_classes_upto_canonical(rows, pairs_from(0, n as int), pairs_from(0, n as int).len() as int);
}

} // verus!
