//! The set of interactions found so far, one per orbit under relabeling of
//! the states, and the backtracking search that fills it.
use crate::combinatorics::{
    all_permutations, is_permutation, lemma_pairs_bounds, pairs_from, pairs_with_replacement,
};
use crate::interaction::{
    classes_of, edge_classes, merge_succeeds, merged_rows, rows_of, rows_over, separable,
    trivial_rows, Interaction, StatePair,
};
use vstd::prelude::*;

verus! {

/// A candidate merge `(a, b, c, d)`: force the pair `(a, b)` and the pair
/// `(c, d)` into one channel.
pub type Candidate = (usize, usize, usize, usize);

/// The candidates with origin `o`, over the first `k` targets of `ts`: those
/// targets that avoid the origin's second state.
pub open spec fn targets_for(o: StatePair, ts: Seq<StatePair>, k: int) -> Seq<Candidate>
    decreases k,
{
    if k <= 0 {
        Seq::empty()
    } else {
        let prev = targets_for(o, ts, k - 1);
        let t = ts[k - 1];
        if o.1 != t.0 && o.1 != t.1 {
            prev.push((o.0, o.1, t.0, t.1))
        } else {
            prev
        }
    }
}

/// The candidates of the first `k` origins of `os`, in order.
pub open spec fn candidates_upto(n: int, os: Seq<StatePair>, k: int) -> Seq<Candidate>
    decreases k,
{
    if k <= 0 {
        Seq::empty()
    } else {
        let o = os[k - 1];
        let ts = pairs_from(o.0 + 1, n);
        candidates_upto(n, os, k - 1) + targets_for(o, ts, ts.len() as int)
    }
}

/// The fixed order of candidate merges on `n` states: origins `(a, b)` with
/// `a <= b`, lexicographically; for each, targets `(c, d)` with
/// `a < c <= d` and `b` not among them, lexicographically.
pub open spec fn candidate_merges(n: nat) -> Seq<Candidate> {
    candidates_upto(n as int, pairs_from(0, n as int), pairs_from(0, n as int).len() as int)
}

/// The quantities `rows` with the states relabeled: state `i` takes the
/// values of state `perm[i]`.
pub open spec fn permute(rows: Seq<Seq<int>>, perm: Seq<usize>) -> Seq<Seq<int>> {
    Seq::new(rows.len(), |k: int| Seq::new(perm.len(), |i: int| rows[k][perm[i] as int]))
}

/// No relabeling of `rows` induces the edge classes of any member of `accepted`.
pub open spec fn orbit_is_new(n: nat, rows: Seq<Seq<int>>, accepted: Seq<Interaction>) -> bool {
    forall|perm: Seq<usize>, i: int|
        #![trigger is_permutation(perm, n), accepted[i]]
        is_permutation(perm, n) && 0 <= i < accepted.len() ==> edge_classes(n, permute(rows, perm))
            != accepted[i].edge_view()
}

/// No later member of `accepted` is a relabeling of an earlier one.
pub open spec fn distinct_orbits(n: nat, accepted: Seq<Interaction>) -> bool {
    forall|perm: Seq<usize>, i: int, j: int|
        #![trigger is_permutation(perm, n), accepted[i], accepted[j]]
        is_permutation(perm, n) && 0 <= i < j < accepted.len() ==> edge_classes(
            n,
            permute(accepted[j].quantities(), perm),
        ) != accepted[i].edge_view()
}

/// The quantities of each accepted interaction.
pub open spec fn accepted_rows(accepted: Seq<Interaction>) -> Seq<Seq<Seq<int>>> {
    accepted.map_values(|x: Interaction| x.quantities())
}

/// No relabeling of `rows` induces the edge classes of any of the bases in `found`.
pub open spec fn orbit_is_new_rows(n: nat, rows: Seq<Seq<int>>, found: Seq<Seq<Seq<int>>>) -> bool {
    forall|perm: Seq<usize>, i: int|
        #![trigger is_permutation(perm, n), found[i]]
        is_permutation(perm, n) && 0 <= i < found.len() ==> edge_classes(n, permute(rows, perm))
            != edge_classes(n, found[i])
}

/// What the search adds to `found`, starting from the basis `rows` at
/// candidate `i`: each candidate from `i` on whose merge succeeds, keeps the
/// states apart and gives a new orbit is appended, and the search goes on
/// from it with the later candidates before the next candidate is tried. A
/// basis of one quantity (or none) is not reduced further.
pub open spec fn explore(
    n: nat,
    cands: Seq<Candidate>,
    found: Seq<Seq<Seq<int>>>,
    rows: Seq<Seq<int>>,
    i: int,
) -> Seq<Seq<Seq<int>>>
    decreases rows.len(), cands.len() - i,
{
    if rows.len() <= 1 || i >= cands.len() || i < 0 {
        found
    } else {
        let m = cands[i];
        let merged = merged_rows(rows, m.0, m.1, m.2, m.3);
        let after = if merge_succeeds(rows, m.0, m.1, m.2, m.3) && separable(n, merged)
            && orbit_is_new_rows(n, merged, found) {
            explore(n, cands, found.push(merged), merged, i + 1)
        } else {
            found
        };
        explore(n, cands, after, rows, i + 1)
    }
}

/// The result of the whole search on `n` states, starting from `found`.
pub open spec fn search_result(n: nat, found: Seq<Seq<Seq<int>>>) -> Seq<Seq<Seq<int>>> {
    let seeded = if orbit_is_new_rows(n, trivial_rows(n), found) {
        found.push(trivial_rows(n))
    } else {
        found
    };
    explore(n, candidate_merges(n), seeded, trivial_rows(n), 0)
}

/// For well-formed interactions over `n` states, the orbit test on them is
/// the orbit test on their quantities.
proof fn lemma_orbit_test_on_rows(n: nat, rows: Seq<Seq<int>>, accepted: Seq<Interaction>)
    requires
        forall|i: int| 0 <= i < accepted.len() ==> (#[trigger] accepted[i]).wf() && accepted[i].n == n,
    ensures
        orbit_is_new(n, rows, accepted) == orbit_is_new_rows(n, rows, accepted_rows(accepted)),
{
    let found = accepted_rows(accepted);
    assert forall|i: int| 0 <= i < accepted.len() implies #[trigger] found[i] == accepted[i].quantities()
        && edge_classes(n, found[i]) == accepted[i].edge_view() by {
        assert(accepted[i].wf());
    }
    if orbit_is_new(n, rows, accepted) {
        assert forall|perm: Seq<usize>, i: int|
            #![trigger is_permutation(perm, n), found[i]]
            is_permutation(perm, n) && 0 <= i < found.len() implies edge_classes(n, permute(rows, perm))
                != edge_classes(n, found[i]) by {
            assert(edge_classes(n, permute(rows, perm)) != accepted[i].edge_view());
        }
    }
    if orbit_is_new_rows(n, rows, found) {
        assert forall|perm: Seq<usize>, i: int|
            #![trigger is_permutation(perm, n), accepted[i]]
            is_permutation(perm, n) && 0 <= i < accepted.len() implies edge_classes(n, permute(rows, perm))
                != accepted[i].edge_view() by {
            assert(edge_classes(n, permute(rows, perm)) != edge_classes(n, found[i]));
        }
    }
}

pub open spec fn candidate_in_range(n: usize, m: Candidate) -> bool {
    m.0 < n && m.1 < n && m.2 < n && m.3 < n
}

/// Whether the two lists of edge classes are equal.
fn same_classes(x: &Vec<Vec<StatePair>>, y: &Vec<Vec<StatePair>>) -> (r: bool)
    ensures
        r == (classes_of(x@) == classes_of(y@)),
{
    if x.len() != y.len() {
        assert(classes_of(x@).len() != classes_of(y@).len());
        return false;
    }
    let mut g: usize = 0;
    while g < x.len()
        invariant
            0 <= g <= x@.len(),
            x@.len() == y@.len(),
            forall|gg: int| 0 <= gg < g ==> (#[trigger] x@[gg])@ == y@[gg]@,
        decreases x@.len() - g,
    {
        let gx = &x[g];
        let gy = &y[g];
        if gx.len() != gy.len() {
            assert(classes_of(x@)[g as int].len() != classes_of(y@)[g as int].len());
            return false;
        }
        let mut i: usize = 0;
        while i < gx.len()
            invariant
                0 <= i <= gx@.len(),
                gx@.len() == gy@.len(),
                0 <= g < x@.len(),
                x@.len() == y@.len(),
                gx@ == classes_of(x@)[g as int],
                gy@ == classes_of(y@)[g as int],
                forall|gg: int| 0 <= gg < g ==> (#[trigger] x@[gg])@ == y@[gg]@,
                forall|ii: int| 0 <= ii < i ==> (#[trigger] gx@[ii]) == gy@[ii],
            decreases gx@.len() - i,
        {
            if gx[i].0 != gy[i].0 || gx[i].1 != gy[i].1 {
                assert(classes_of(x@)[g as int][i as int] != classes_of(y@)[g as int][i as int]);
                return false;
            }
            i = i + 1;
        }
        assert(gx@ =~= gy@);
        g = g + 1;
    }
    assert(classes_of(x@) =~= classes_of(y@));
    true
}

/// The interactions found on `n` states, one per orbit under relabeling,
/// with the fixed order of candidate merges that the search walks.
pub struct InteractionsModEquiv {
    n: usize,
    my_inter_list: Vec<Interaction>,
    new_edge_list: Vec<Candidate>,
}

impl InteractionsModEquiv {
    /// The number of states.
    pub closed spec fn size(&self) -> nat {
        self.n as nat
    }

    /// The interactions accepted so far, in the order of acceptance.
    pub closed spec fn accepted(&self) -> Seq<Interaction> {
        self.my_inter_list@
    }

    /// The candidate merges, in the order the search tries them.
    pub closed spec fn candidates(&self) -> Seq<Candidate> {
        self.new_edge_list@
    }

    /// The candidates are those of `candidate_merges`; every accepted
    /// interaction is well formed over the same states and separable; no
    /// accepted interaction is a relabeling of an earlier one.
    pub closed spec fn wf(&self) -> bool {
        &&& self.new_edge_list@ == candidate_merges(self.n as nat)
        &&& forall|i: int| 0 <= i < self.new_edge_list@.len() ==> candidate_in_range(self.n, #[trigger] self.new_edge_list@[i])
        &&& forall|i: int| 0 <= i < self.my_inter_list@.len() ==> {
            let x = #[trigger] self.my_inter_list@[i];
            x.wf() && x.n == self.n && separable(self.n as nat, x.quantities())
        }
        &&& distinct_orbits(self.n as nat, self.my_inter_list@)
    }
}

impl InteractionsModEquiv {
    /// An empty registry on `n` states, with its candidate merges.
    pub fn new(n: usize) -> (r: InteractionsModEquiv)
        ensures
            r.wf(),
            r.size() == n,
            r.accepted().len() == 0,
            r.candidates() == candidate_merges(n as nat),
    {
        let origins = pairs_with_replacement(0, n);
        proof {
            lemma_pairs_bounds(0, n as int);
        }
        let mut new_edge_list: Vec<Candidate> = Vec::new();
        let mut k: usize = 0;
        while k < origins.len()
            invariant
                0 <= k <= origins@.len(),
                origins@ == pairs_from(0, n as int),
                forall|kk: int| 0 <= kk < origins@.len() ==> {
                    let p = #[trigger] origins@[kk];
                    0 <= p.0 <= p.1 < n
                },
                new_edge_list@ == candidates_upto(n as int, origins@, k as int),
                forall|i: int| 0 <= i < new_edge_list@.len() ==> candidate_in_range(n, #[trigger] new_edge_list@[i]),
            decreases origins@.len() - k,
        {
            let o = origins[k];
            assert(0 <= o.0 <= o.1 < n);
            let targets = pairs_with_replacement(o.0 + 1, n);
            proof {
                lemma_pairs_bounds(o.0 + 1, n as int);
            }
            let ghost base = new_edge_list@;
            let mut j: usize = 0;
            while j < targets.len()
                invariant
                    0 <= j <= targets@.len(),
                    0 <= o.0 <= o.1 < n,
                    targets@ == pairs_from(o.0 + 1, n as int),
                    forall|kk: int| 0 <= kk < targets@.len() ==> {
                        let t = #[trigger] targets@[kk];
                        o.0 + 1 <= t.0 <= t.1 < n
                    },
                    new_edge_list@ == base + targets_for(o, targets@, j as int),
                    forall|i: int| 0 <= i < new_edge_list@.len() ==> candidate_in_range(n, #[trigger] new_edge_list@[i]),
                decreases targets@.len() - j,
            {
                let t = targets[j];
                assert(o.0 + 1 <= t.0 <= t.1 < n);
                if o.1 != t.0 && o.1 != t.1 {
                    new_edge_list.push((o.0, o.1, t.0, t.1));
                    assert(new_edge_list@ =~= base + targets_for(o, targets@, j + 1));
                } else {
                    assert(new_edge_list@ =~= base + targets_for(o, targets@, j + 1));
                }
                j = j + 1;
            }
            assert(new_edge_list@ == candidates_upto(n as int, origins@, k + 1));
            k = k + 1;
        }
        let r = InteractionsModEquiv { n, my_inter_list: Vec::new(), new_edge_list };
        assert(r.my_inter_list@.len() == 0);
        r
    }

    /// The number of states.
    pub fn n(&self) -> (r: usize)
        ensures
            r == self.size(),
    {
        self.n
    }

    /// The interactions accepted so far.
    pub fn interactions(&self) -> (r: &Vec<Interaction>)
        ensures
            r@ == self.accepted(),
    {
        &self.my_inter_list
    }

    /// The candidate merges, in the order the search tries them.
    pub fn candidate_list(&self) -> (r: &Vec<Candidate>)
        ensures
            r@ == self.candidates(),
    {
        &self.new_edge_list
    }
}

impl InteractionsModEquiv {
    /// Accepts `new_inter` unless some relabeling of its states induces the
    /// edge classes of an interaction already accepted. Tells whether it was
    /// accepted; a rejected one leaves the registry as it was.
    fn add(&mut self, new_inter: Interaction) -> (r: bool)
        requires
            old(self).wf(),
            new_inter.wf(),
            new_inter.n == old(self).n,
            separable(new_inter.n as nat, new_inter.quantities()),
        ensures
            final(self).wf(),
            final(self).n == old(self).n,
            final(self).candidates() == old(self).candidates(),
            r == orbit_is_new(old(self).n as nat, new_inter.quantities(), old(self).accepted()),
            r ==> final(self).accepted() == old(self).accepted().push(new_inter),
            !r ==> final(self).accepted() == old(self).accepted(),
    {
        let n = self.n;
        let ghost rows = new_inter.quantities();
        let perms = all_permutations(n);
        let mut k: usize = 0;
        while k < perms.len()
            invariant
                0 <= k <= perms@.len(),
                n == self.n,
                self == old(self),
                self.wf(),
                rows == new_inter.quantities(),
                new_inter.wf(),
                new_inter.n == n,
                forall|kk: int| 0 <= kk < perms@.len() ==> is_permutation(#[trigger] perms@[kk]@, n as nat),
                forall|kk: int, i: int|
                    #![trigger perms@[kk], self.my_inter_list@[i]]
                    0 <= kk < k && 0 <= i < self.my_inter_list@.len() ==> edge_classes(
                        n as nat,
                        permute(rows, perms@[kk]@),
                    ) != self.my_inter_list@[i].edge_view(),
            decreases perms@.len() - k,
        {
            let perm = &perms[k];
            assert(is_permutation(perm@, n as nat));
            let mut perm_consv: Vec<Vec<i64>> = Vec::new();
            let mut q: usize = 0;
            while q < new_inter.consv.len()
                invariant
                    0 <= q <= new_inter.consv@.len(),
                    is_permutation(perm@, n as nat),
                    rows == new_inter.quantities(),
                    new_inter.wf(),
                    new_inter.n == n,
                    perm_consv@.len() == q,
                    forall|qq: int| 0 <= qq < q ==> (#[trigger] rows_of(perm_consv@)[qq]) == permute(rows, perm@)[qq],
                decreases new_inter.consv@.len() - q,
            {
                let src = &new_inter.consv[q];
                assert(rows[q as int].len() == n);
                let mut row: Vec<i64> = Vec::new();
                let mut i: usize = 0;
                while i < n
                    invariant
                        0 <= i <= n,
                        is_permutation(perm@, n as nat),
                        0 <= q < rows.len(),
                        rows == new_inter.quantities(),
                        src@.len() == n,
                        rows[q as int] == Seq::new(src@.len(), |x: int| src@[x] as int),
                        row@.len() == i,
                        forall|ii: int| 0 <= ii < i ==> (#[trigger] row@[ii]) as int == permute(rows, perm@)[q as int][ii],
                    decreases n - i,
                {
                    assert(perm@[i as int] < n);
                    row.push(src[perm[i]]);
                    i = i + 1;
                }
                let ghost before = perm_consv@;
                perm_consv.push(row);
                proof {
                    assert(rows_of(perm_consv@)[q as int] =~= permute(rows, perm@)[q as int]);
                    assert forall|qq: int| 0 <= qq < q + 1 implies (#[trigger] rows_of(perm_consv@)[qq]) == permute(rows, perm@)[qq] by {
                        if qq < q {
                            assert(rows_of(perm_consv@)[qq] == rows_of(before)[qq]);
                        }
                    }
                }
                q = q + 1;
            }
            assert(rows_of(perm_consv@) =~= permute(rows, perm@));
            let edges = Interaction::get_edges_from_consv(n, &perm_consv);
            let mut i: usize = 0;
            while i < self.my_inter_list.len()
                invariant
                    0 <= i <= self.my_inter_list@.len(),
                    self == old(self),
                    self.wf(),
                    n == self.n,
                    rows == new_inter.quantities(),
                    0 <= k < perms@.len(),
                    forall|kk: int| 0 <= kk < perms@.len() ==> is_permutation(#[trigger] perms@[kk]@, n as nat),
                    classes_of(edges@) == edge_classes(n as nat, permute(rows, perms@[k as int]@)),
                    forall|ii: int| 0 <= ii < i ==> edge_classes(n as nat, permute(rows, perms@[k as int]@))
                        != (#[trigger] self.my_inter_list@[ii]).edge_view(),
                decreases self.my_inter_list@.len() - i,
            {
                if same_classes(&edges, &self.my_inter_list[i].edges) {
                    proof {
                        let x = self.my_inter_list@[i as int];
                        assert(is_permutation(perms@[k as int]@, n as nat));
                        assert(edge_classes(n as nat, permute(rows, perms@[k as int]@)) == x.edge_view());
                        assert(!orbit_is_new(n as nat, rows, self.accepted()));
                    }
                    return false;
                }
                i = i + 1;
            }
            k = k + 1;
        }
        proof {
            assert forall|perm: Seq<usize>, i: int|
                #![trigger is_permutation(perm, n as nat), self.my_inter_list@[i]]
                is_permutation(perm, n as nat) && 0 <= i < self.my_inter_list@.len() implies edge_classes(
                    n as nat,
                    permute(rows, perm),
                ) != self.my_inter_list@[i].edge_view() by {
                let kk = choose|kk: int| 0 <= kk < perms@.len() && #[trigger] perms@[kk]@ == perm;
                assert(perms@[kk]@ == perm);
            }
        }
        let ghost prev = self.my_inter_list@;
        self.my_inter_list.push(new_inter);
        proof {
            let acc = self.my_inter_list@;
            assert forall|perm: Seq<usize>, i: int, j: int|
                #![trigger is_permutation(perm, n as nat), acc[i], acc[j]]
                is_permutation(perm, n as nat) && 0 <= i < j < acc.len() implies edge_classes(
                    n as nat,
                    permute(acc[j].quantities(), perm),
                ) != acc[i].edge_view() by {
                assert(acc[i] == prev[i]);
                if j < prev.len() {
                    assert(acc[j] == prev[j]);
                }
            }
            assert forall|i: int| 0 <= i < acc.len() implies {
                let x = #[trigger] acc[i];
                x.wf() && x.n == n && separable(n as nat, x.quantities())
            } by {
                if i < prev.len() {
                    assert(acc[i] == prev[i]);
                }
            }
        }
        true
    }
}

/// `longer` keeps every member of `shorter`, in place.
pub open spec fn extends(shorter: Seq<Interaction>, longer: Seq<Interaction>) -> bool {
    shorter.len() <= longer.len() && forall|i: int| 0 <= i < shorter.len() ==> longer[i] == shorter[i]
}

impl InteractionsModEquiv {
    /// Runs the search: accepts the trivial interaction if no relabeling of
    /// it is already present, then every interaction reached from it by
    /// successive separable merges whose orbit is new.
    pub fn create_list(&mut self)
        requires
            old(self).wf(),
            old(self).size() >= 1,
        ensures
            final(self).wf(),
            final(self).size() == old(self).size(),
            final(self).candidates() == old(self).candidates(),
            extends(old(self).accepted(), final(self).accepted()),
            distinct_orbits(final(self).size(), final(self).accepted()),
            forall|i: int| 0 <= i < final(self).accepted().len() ==> separable(
                final(self).size(),
                #[trigger] final(self).accepted()[i].quantities(),
            ),
            accepted_rows(final(self).accepted()) == search_result(old(self).size(), accepted_rows(old(self).accepted())),
            old(self).accepted().len() == 0 ==> final(self).accepted().len() >= 1
                && final(self).accepted()[0].quantities() == trivial_rows(old(self).size()),
    {
        let trivial_inter = Interaction::new(self.n);
        let copy = trivial_inter.duplicate();
        let ghost before = self.accepted();
        proof {
            lemma_orbit_test_on_rows(self.n as nat, trivial_rows(self.n as nat), before);
        }
        let accepted = self.add(copy);
        let ghost after = self.accepted();
        proof {
            if accepted {
                assert(accepted_rows(after) =~= accepted_rows(before).push(trivial_rows(self.n as nat)));
            }
            if before.len() == 0 {
                assert(accepted);
                assert(after[0] == copy);
            }
        }
        self.add_to_list(&trivial_inter, 0);
    }

    /// Tries, in order, the candidate merges from `index` on against `inter`;
    /// each merge that succeeds, keeps the states apart and gives a new orbit
    /// is accepted, and the search goes on from it with the later candidates.
    fn add_to_list(&mut self, inter: &Interaction, index: usize)
        requires
            old(self).wf(),
            inter.wf(),
            inter.n == old(self).n,
        ensures
            final(self).wf(),
            final(self).n == old(self).n,
            final(self).candidates() == old(self).candidates(),
            extends(old(self).accepted(), final(self).accepted()),
            accepted_rows(final(self).accepted()) == explore(
                old(self).n as nat,
                old(self).candidates(),
                accepted_rows(old(self).accepted()),
                inter.quantities(),
                index as int,
            ),
        decreases inter.quantities().len(),
    {
        if inter.consv.len() <= 1 {
            return;
        }
        let n = self.n;
        let mut i: usize = index;
        while i < self.new_edge_list.len()
            invariant
                self.wf(),
                n == self.n,
                n == old(self).n,
                inter.wf(),
                inter.n == n,
                self.candidates() == old(self).candidates(),
                extends(old(self).accepted(), self.accepted()),
                index <= i,
                inter.quantities().len() >= 2,
                explore(n as nat, self.candidates(), accepted_rows(old(self).accepted()), inter.quantities(), index as int)
                    == explore(n as nat, self.candidates(), accepted_rows(self.accepted()), inter.quantities(), i as int),
            decreases self.new_edge_list@.len() - i,
        {
            let m = self.new_edge_list[i];
            assert(candidate_in_range(n, self.new_edge_list@[i as int]));
            let ghost cands = self.candidates();
            let ghost rows = inter.quantities();
            let ghost found = accepted_rows(self.accepted());
            let ghost merged = merged_rows(rows, m.0, m.1, m.2, m.3);
            proof {
                lemma_orbit_test_on_rows(n as nat, merged, self.accepted());
            }
            match inter.merge((m.0, m.1), (m.2, m.3)) {
                Some(next) => {
                    if next.is_separable() {
                        let copy = next.duplicate();
                        if self.add(copy) {
                            assert(accepted_rows(self.accepted()) =~= found.push(merged));
                            self.add_to_list(&next, i + 1);
                        }
                    }
                },
                None => {},
            }
            i = i + 1;
        }
    }
}

} // verus!
