//! Union-find alias domain.
//!
//! A disjoint-set structure over indexed storage locations.  The abstract
//! value of a domain is the map from each index to its representative
//! (`rep`); two indices are aliased exactly when their representatives
//! coincide.  A ghost level assignment over the parent forest (levels
//! strictly increase along parent edges) witnesses acyclicity and bounds
//! every parent chain, which makes `find` terminate.

use vstd::prelude::*;

verus! {

/// Follow parent links from `i` for at most `fuel` steps.
pub open spec fn chase(p: Seq<usize>, i: int, fuel: nat) -> int
    decreases fuel,
{
    if 0 <= i < p.len() && p[i] as int != i && fuel > 0 {
        chase(p, p[i] as int, (fuel - 1) as nat)
    } else {
        i
    }
}

/// Does the parent chain starting at `i` pass through `t` (within `fuel` steps)?
pub open spec fn on_chain(p: Seq<usize>, i: int, t: int, fuel: nat) -> bool
    decreases fuel,
{
    if i == t {
        true
    } else if 0 <= i < p.len() && p[i] as int != i && fuel > 0 {
        on_chain(p, p[i] as int, t, (fuel - 1) as nat)
    } else {
        false
    }
}

/// The parent array is a forest: a ghost level strictly increases along
/// every parent edge and is bounded by `cap`.
pub open spec fn forest_wf(p: Seq<usize>, lv: Seq<nat>, cap: nat) -> bool {
    &&& lv.len() == p.len()
    &&& forall|i: int| 0 <= i < p.len() ==> (#[trigger] p[i]) < p.len()
    &&& forall|i: int| 0 <= i < p.len() ==> (#[trigger] lv[i]) <= cap
    &&& forall|i: int|
        0 <= i < p.len() && p[i] as int != i ==> (#[trigger] lv[i]) < lv[p[i] as int]
}

/// Alias domain backed by a union-find structure.
#[verifier::ext_equal]
pub struct AliasDomain {
    /// Parent array for union-find.
    parent: Vec<usize>,
    /// Rank array for union-by-rank.
    rank: Vec<usize>,
    /// Ghost level of each node, strictly increasing along parent edges.
    levels: Ghost<Seq<nat>>,
    /// Ghost bound on all levels.
    level_cap: Ghost<nat>,
}

impl AliasDomain {
    /// Number of places tracked.
    pub closed spec fn n(self) -> int {
        self.parent@.len() as int
    }

    /// Well-formedness: bounded parents and an acyclicity witness.
    pub closed spec fn wf(self) -> bool {
        &&& self.rank@.len() == self.n()
        &&& forest_wf(self.parent@, self.levels@, self.level_cap@)
    }

    /// The representative of index `i`: the root of its parent chain.
    pub closed spec fn rep(self, i: int) -> int {
        chase(self.parent@, i, self.level_cap@ + 1)
    }

    /// Two indices are aliased when they share a representative.
    pub open spec fn aliased(self, i: int, j: int) -> bool {
        self.rep(i) == self.rep(j)
    }

    /// Does the parent chain from `i` pass through `t`?
    pub closed spec fn reaches_through(self, i: int, t: int) -> bool {
        on_chain(self.parent@, i, t, self.level_cap@ + 1)
    }

    /// Rank and ghost bookkeeping are untouched (path compression only).
    pub closed spec fn unchanged_aux(self, other: AliasDomain) -> bool {
        &&& self.rank@ == other.rank@
        &&& self.levels@ == other.levels@
        &&& self.level_cap@ == other.level_cap@
    }

    /// The two domains have the same size and the same aliasing relation.
    pub open spec fn same_relation(self, other: AliasDomain) -> bool {
        self.n() == other.n() && forall|k: int|
            0 <= k < self.n() ==> #[trigger] self.rep(k) == other.rep(k)
    }
}

proof fn lemma_chase_root(p: Seq<usize>, lv: Seq<nat>, cap: nat, i: int, fuel: nat)
    requires
        forest_wf(p, lv, cap),
        0 <= i < p.len(),
        lv[i] + fuel > cap,
    ensures
        ({
            let r = chase(p, i, fuel);
            &&& 0 <= r < p.len()
            &&& p[r] as int == r
            &&& r != i ==> lv[r] > lv[i]
        }),
    decreases fuel,
{
    if p[i] as int != i && fuel > 0 {
        lemma_chase_root(p, lv, cap, p[i] as int, (fuel - 1) as nat);
    }
}

proof fn lemma_chase_fuel(p: Seq<usize>, lv: Seq<nat>, cap: nat, i: int, f1: nat, f2: nat)
    requires
        forest_wf(p, lv, cap),
        0 <= i < p.len(),
        lv[i] + f1 > cap,
        lv[i] + f2 > cap,
    ensures
        chase(p, i, f1) == chase(p, i, f2),
    decreases f1,
{
    if p[i] as int != i && f1 > 0 && f2 > 0 {
        lemma_chase_fuel(p, lv, cap, p[i] as int, (f1 - 1) as nat, (f2 - 1) as nat);
    }
}

proof fn lemma_on_chain_fuel(p: Seq<usize>, lv: Seq<nat>, cap: nat, i: int, t: int, f1: nat, f2: nat)
    requires
        forest_wf(p, lv, cap),
        0 <= i < p.len(),
        lv[i] + f1 > cap,
        lv[i] + f2 > cap,
    ensures
        on_chain(p, i, t, f1) == on_chain(p, i, t, f2),
    decreases f1,
{
    if i != t && p[i] as int != i && f1 > 0 && f2 > 0 {
        lemma_on_chain_fuel(p, lv, cap, p[i] as int, t, (f1 - 1) as nat, (f2 - 1) as nat);
    }
}

impl AliasDomain {
    /// The number of tracked places fits in a machine word.
    pub proof fn lemma_n_bound(&self)
        ensures
            self.n() <= usize::MAX,
    {
        vstd::std_specs::vec::axiom_spec_len(&self.parent);
    }

    /// The representative is within bounds and a fixed point of `rep`.
    pub proof fn lemma_rep_idempotent(self, i: int)
        requires
            self.wf(),
            0 <= i < self.n(),
        ensures
            0 <= self.rep(i) < self.n(),
            self.rep(self.rep(i)) == self.rep(i),
    {
        self.lemma_rep(i);
    }

    /// The aliasing relation is an equivalence: reflexive, symmetric, and
    /// transitive.
    pub proof fn lemma_alias_equivalence(self, i: int, j: int, k: int)
        requires
            self.wf(),
        ensures
            self.aliased(i, i),
            self.aliased(i, j) == self.aliased(j, i),
            self.aliased(i, j) && self.aliased(j, k) ==> self.aliased(i, k),
    {
    }

    /// Facts about the representative: it is a root, within bounds, and a
    /// fixed point of `rep`.
    proof fn lemma_rep(self, i: int)
        requires
            self.wf(),
            0 <= i < self.n(),
        ensures
            0 <= self.rep(i) < self.n(),
            self.parent@[self.rep(i)] as int == self.rep(i),
            self.rep(self.rep(i)) == self.rep(i),
            self.rep(i) != i ==> self.levels@[self.rep(i)] > self.levels@[i],
    {
        lemma_chase_root(self.parent@, self.levels@, self.level_cap@, i, self.level_cap@ + 1);
    }

    /// One step along the parent chain keeps the representative.
    proof fn lemma_rep_step(self, i: int)
        requires
            self.wf(),
            0 <= i < self.n(),
            self.parent@[i] as int != i,
        ensures
            self.rep(i) == self.rep(self.parent@[i] as int),
    {
        let p = self.parent@;
        let lv = self.levels@;
        let cap = self.level_cap@;
        assert(lv[i] < lv[p[i] as int]);
        lemma_chase_fuel(p, lv, cap, p[i] as int, cap, cap + 1);
        assert(chase(p, i, cap + 1) == chase(p, p[i] as int, cap));
    }

    /// A fixed point of `rep` is a root of the parent array.
    proof fn lemma_rep_self_is_root(self, x: int)
        requires
            self.wf(),
            0 <= x < self.n(),
            self.rep(x) == x,
        ensures
            self.parent@[x] as int == x,
    {
        if self.parent@[x] as int != x {
            let p = self.parent@;
            let lv = self.levels@;
            let cap = self.level_cap@;
            assert(lv[x] < lv[p[x] as int]);
            lemma_chase_root(p, lv, cap, p[x] as int, cap);
            let r = chase(p, p[x] as int, cap);
            assert(r == x);
            assert(lv[r] >= lv[p[x] as int]);
        }
    }
}

#[verifier::rlimit(80)]
#[verifier::spinoff_prover]
proof fn lemma_compress(p: Seq<usize>, lv: Seq<nat>, cap: nat, j: int, r: int)
    requires
        forest_wf(p, lv, cap),
        p.len() <= usize::MAX,
        0 <= j < p.len(),
        chase(p, j, cap + 1) == r,
        j != r,
    ensures
        forest_wf(p.update(j, r as usize), lv, cap),
        forall|k: int|
            0 <= k < p.len() ==> #[trigger] chase(p.update(j, r as usize), k, cap + 1) == chase(
                p,
                k,
                cap + 1,
            ),
{
    lemma_chase_root(p, lv, cap, j, cap + 1);
    let p2 = p.update(j, r as usize);
    assert forall|i: int| 0 <= i < p2.len() && p2[i] as int != i implies (#[trigger] lv[i])
        < lv[p2[i] as int] by {
        if i == j {
            assert(lv[r] > lv[j]);
        } else {
            assert(p2[i] == p[i]);
        }
    }
    assert(forest_wf(p2, lv, cap));
    assert forall|k: int| 0 <= k < p.len() implies #[trigger] chase(p2, k, cap + 1) == chase(
        p,
        k,
        cap + 1,
    ) by {
        lemma_compress_point(p, lv, cap, j, r, k);
    }
}

proof fn lemma_compress_point(p: Seq<usize>, lv: Seq<nat>, cap: nat, j: int, r: int, k: int)
    requires
        forest_wf(p, lv, cap),
        p.len() <= usize::MAX,
        0 <= j < p.len(),
        chase(p, j, cap + 1) == r,
        j != r,
        forest_wf(p.update(j, r as usize), lv, cap),
        0 <= k < p.len(),
    ensures
        chase(p.update(j, r as usize), k, cap + 1) == chase(p, k, cap + 1),
    decreases cap - lv[k],
{
    let p2 = p.update(j, r as usize);
    lemma_chase_root(p, lv, cap, j, cap + 1);
    if k == j {
        assert(p2[j] as int == r);
        assert(p[r] as int == r);
        assert(p2[r] as int == r);
        assert(chase(p2, r, cap) == r);
    } else if p[k] as int == k {
        assert(p2[k] as int == k);
    } else {
        assert(p2[k] == p[k]);
        lemma_chase_fuel(p, lv, cap, p[k] as int, cap, cap + 1);
        lemma_chase_fuel(p2, lv, cap, p[k] as int, cap, cap + 1);
        lemma_compress_point(p, lv, cap, j, r, p[k] as int);
    }
}

proof fn lemma_attach(p: Seq<usize>, lv: Seq<nat>, cap: nat, r1: int, r2: int)
    requires
        forest_wf(p, lv, cap),
        p.len() <= usize::MAX,
        0 <= r1 < p.len(),
        0 <= r2 < p.len(),
        r1 != r2,
        p[r1] as int == r1,
        p[r2] as int == r2,
    ensures
        forest_wf(p.update(r2, r1 as usize), lv.update(r1, (cap + 1) as nat), (cap + 1) as nat),
        forall|k: int|
            0 <= k < p.len() ==> #[trigger] chase(p.update(r2, r1 as usize), k, cap + 2) == (
            if chase(p, k, cap + 1) == r2 {
                r1
            } else {
                chase(p, k, cap + 1)
            }),
{
    let p2 = p.update(r2, r1 as usize);
    let lv2 = lv.update(r1, (cap + 1) as nat);
    assert forall|i: int| 0 <= i < p2.len() && p2[i] as int != i implies (#[trigger] lv2[i])
        < lv2[p2[i] as int] by {
        if i == r2 {
            assert(lv2[r2] == lv[r2] <= cap);
        } else {
            assert(p2[i] == p[i]);
            assert(lv[i] < lv[p[i] as int]);
            assert(lv2[p2[i] as int] >= lv[p[i] as int]);
            assert(lv2[i] == lv[i]);
        }
    }
    assert(forest_wf(p2, lv2, (cap + 1) as nat));
    assert forall|k: int| 0 <= k < p.len() implies #[trigger] chase(p2, k, cap + 2) == (if chase(
        p,
        k,
        cap + 1,
    ) == r2 {
        r1
    } else {
        chase(p, k, cap + 1)
    }) by {
        lemma_attach_point(p, lv, cap, r1, r2, k);
    }
}

proof fn lemma_attach_point(p: Seq<usize>, lv: Seq<nat>, cap: nat, r1: int, r2: int, k: int)
    requires
        forest_wf(p, lv, cap),
        p.len() <= usize::MAX,
        forest_wf(p.update(r2, r1 as usize), lv.update(r1, (cap + 1) as nat), (cap + 1) as nat),
        0 <= r1 < p.len(),
        0 <= r2 < p.len(),
        r1 != r2,
        p[r1] as int == r1,
        p[r2] as int == r2,
        0 <= k < p.len(),
    ensures
        chase(p.update(r2, r1 as usize), k, cap + 2) == (if chase(p, k, cap + 1) == r2 {
            r1
        } else {
            chase(p, k, cap + 1)
        }),
    decreases cap - lv[k],
{
    let p2 = p.update(r2, r1 as usize);
    let lv2 = lv.update(r1, (cap + 1) as nat);
    if p[k] as int == k {
        if k == r2 {
            assert(p2[r2] as int == r1);
            assert(p2[r1] as int == r1);
            assert(chase(p2, r1, cap + 1) == r1);
        } else {
            assert(p2[k] as int == k);
        }
    } else {
        assert(k != r1 && k != r2);
        assert(p2[k] == p[k]);
        lemma_chase_fuel(p, lv, cap, p[k] as int, cap, cap + 1);
        lemma_chase_fuel(p2, lv2, (cap + 1) as nat, p[k] as int, cap + 1, cap + 2);
        lemma_attach_point(p, lv, cap, r1, r2, p[k] as int);
    }
}

proof fn lemma_kill(p: Seq<usize>, lv: Seq<nat>, cap: nat, t: int)
    requires
        forest_wf(p, lv, cap),
        p.len() <= usize::MAX,
        0 <= t < p.len(),
    ensures
        forest_wf(p.update(t, t as usize), lv, cap),
        forall|k: int|
            0 <= k < p.len() ==> #[trigger] chase(p.update(t, t as usize), k, cap + 1) == (
            if on_chain(p, k, t, cap + 1) {
                t
            } else {
                chase(p, k, cap + 1)
            }),
{
    let p2 = p.update(t, t as usize);
    assert forall|i: int| 0 <= i < p2.len() && p2[i] as int != i implies (#[trigger] lv[i])
        < lv[p2[i] as int] by {
        if i != t {
            assert(p2[i] == p[i]);
        }
    }
    assert(forest_wf(p2, lv, cap));
    assert forall|k: int| 0 <= k < p.len() implies #[trigger] chase(p2, k, cap + 1) == (if on_chain(
        p,
        k,
        t,
        cap + 1,
    ) {
        t
    } else {
        chase(p, k, cap + 1)
    }) by {
        lemma_kill_point(p, lv, cap, t, k);
    }
}

proof fn lemma_kill_point(p: Seq<usize>, lv: Seq<nat>, cap: nat, t: int, k: int)
    requires
        forest_wf(p, lv, cap),
        p.len() <= usize::MAX,
        forest_wf(p.update(t, t as usize), lv, cap),
        0 <= t < p.len(),
        0 <= k < p.len(),
    ensures
        chase(p.update(t, t as usize), k, cap + 1) == (if on_chain(p, k, t, cap + 1) {
            t
        } else {
            chase(p, k, cap + 1)
        }),
    decreases cap - lv[k],
{
    let p2 = p.update(t, t as usize);
    if k == t {
        assert(p2[t] as int == t);
    } else if p[k] as int == k {
        assert(p2[k] as int == k);
    } else {
        assert(p2[k] == p[k]);
        lemma_chase_fuel(p, lv, cap, p[k] as int, cap, cap + 1);
        lemma_chase_fuel(p2, lv, cap, p[k] as int, cap, cap + 1);
        lemma_on_chain_fuel(p, lv, cap, p[k] as int, t, cap, cap + 1);
        lemma_kill_point(p, lv, cap, t, p[k] as int);
    }
}

impl AliasDomain {
    /// Create a new domain with `num_places` singleton sets.
    pub fn new(num_places: usize) -> (r: AliasDomain)
        ensures
            r.wf(),
            r.n() == num_places,
            forall|i: int| 0 <= i < num_places ==> #[trigger] r.rep(i) == i,
    {
        let mut parent: Vec<usize> = Vec::new();
        let mut rank: Vec<usize> = Vec::new();
        let mut i: usize = 0;
        while i < num_places
            invariant
                i <= num_places,
                parent@.len() == i,
                rank@.len() == i,
                forall|j: int| 0 <= j < i ==> #[trigger] parent@[j] == j,
                forall|j: int| 0 <= j < i ==> #[trigger] rank@[j] == 0,
            decreases num_places - i,
        {
            parent.push(i);
            rank.push(0);
            i = i + 1;
        }
        let r = AliasDomain {
            parent,
            rank,
            levels: Ghost(Seq::new(num_places as nat, |j: int| 0nat)),
            level_cap: Ghost(0nat),
        };
        assert forall|j: int| 0 <= j < num_places implies #[trigger] r.rep(j) == j by {
            assert(r.parent@[j] as int == j);
        }
        r
    }

    /// Find the representative of `idx`, compressing the path behind it.
    ///
    /// The aliasing relation is untouched: every index keeps its
    /// representative.
    pub fn find(&mut self, idx: usize) -> (r: usize)
        requires
            old(self).wf(),
            idx < old(self).n(),
        ensures
            final(self).wf(),
            final(self).n() == old(self).n(),
            r == old(self).rep(idx as int),
            final(self).same_relation(*old(self)),
            final(self).unchanged_aux(*old(self)),
    {
        proof {
            self.lemma_rep(idx as int);
        }
        // First pass: walk to the root.
        let mut cur: usize = idx;
        while self.parent[cur] != cur
            invariant
                self.wf(),
                *self == *old(self),
                cur < self.n(),
                self.rep(cur as int) == self.rep(idx as int),
            decreases self.level_cap@ - self.levels@[cur as int],
        {
            proof {
                self.lemma_rep_step(cur as int);
                self.lemma_rep(cur as int);
                assert(self.levels@[cur as int] < self.levels@[self.parent@[cur as int] as int]);
            }
            cur = self.parent[cur];
        }
        let root = cur;
        proof {
            assert(self.rep(root as int) == root);
            assert(root == self.rep(idx as int));
        }
        // Second pass: point every node on the path straight at the root.
        let mut cur: usize = idx;
        while cur != root
            invariant
                self.wf(),
                self.n() == old(self).n(),
                cur < self.n(),
                root < self.n(),
                self.same_relation(*old(self)),
                self.rank@ == old(self).rank@,
                self.levels@ == old(self).levels@,
                self.level_cap@ == old(self).level_cap@,
                self.rep(cur as int) == root,
                root == old(self).rep(idx as int),
            decreases self.level_cap@ - self.levels@[cur as int],
        {
            let next = self.parent[cur];
            proof {
                vstd::std_specs::vec::axiom_spec_len(&self.parent);
                self.lemma_rep_step(cur as int);
                self.lemma_rep(cur as int);
                lemma_compress(self.parent@, self.levels@, self.level_cap@, cur as int, root as int);
            }
            let ghost prev = *self;
            self.parent.set(cur, root);
            proof {
                assert(self.parent@ == prev.parent@.update(cur as int, root));
                assert forall|k: int| 0 <= k < self.n() implies #[trigger] self.rep(k) == old(
                    self,
                ).rep(k) by {
                    assert(self.rep(k) == prev.rep(k));
                }
                assert(self.rep(next as int) == prev.rep(next as int));
                assert(self.levels@[cur as int] < self.levels@[next as int]);
            }
            cur = next;
        }
        root
    }

    /// Union the sets of `idx1` and `idx2` (by rank).
    ///
    /// Returns true exactly when the two sets were previously distinct.
    /// Every pair that was aliased stays aliased; the two named sets merge
    /// and no other set changes.
    pub fn union(&mut self, idx1: usize, idx2: usize) -> (r: bool)
        requires
            old(self).wf(),
            idx1 < old(self).n(),
            idx2 < old(self).n(),
        ensures
            final(self).wf(),
            final(self).n() == old(self).n(),
            r == (old(self).rep(idx1 as int) != old(self).rep(idx2 as int)),
            final(self).aliased(idx1 as int, idx2 as int),
            final(self).rep(idx1 as int) == old(self).rep(idx1 as int) || final(self).rep(
                idx1 as int,
            ) == old(self).rep(idx2 as int),
            union_result(*final(self), *old(self), idx1 as int, idx2 as int),
            relation_grows(*final(self), *old(self)),
            !r ==> final(self).same_relation(*old(self)),
    {
        let root1 = self.find(idx1);
        let ghost mid = *self;
        let root2 = self.find(idx2);
        proof {
            assert forall|k: int| 0 <= k < self.n() implies #[trigger] self.rep(k) == old(
                self,
            ).rep(k) by {
                assert(self.rep(k) == mid.rep(k));
                assert(mid.rep(k) == old(self).rep(k));
            }
            old(self).lemma_rep(idx1 as int);
            old(self).lemma_rep(idx2 as int);
            self.lemma_rep(root1 as int);
            self.lemma_rep(root2 as int);
            self.lemma_rep_self_is_root(root1 as int);
            self.lemma_rep_self_is_root(root2 as int);
        }

        if root1 == root2 {
            proof {
                assert(union_result(*self, *old(self), idx1 as int, idx2 as int));
                assert(relation_grows(*self, *old(self)));
            }
            return false;
        }

        proof {
            vstd::std_specs::vec::axiom_spec_len(&self.parent);
        }
        let ghost prev = *self;
        // Union by rank: attach the shallower root beneath the deeper one.
        if self.rank[root1] < self.rank[root2] {
            self.parent.set(root1, root2);
            self.levels = Ghost(prev.levels@.update(root2 as int, (prev.level_cap@ + 1) as nat));
            self.level_cap = Ghost((prev.level_cap@ + 1) as nat);
            proof {
                assert(self.parent@ == prev.parent@.update(root1 as int, root2));
                lemma_union_post(prev, *self, *old(self), idx1 as int, idx2 as int, root2 as int,
                    root1 as int);
            }
        } else if self.rank[root1] > self.rank[root2] {
            self.parent.set(root2, root1);
            self.levels = Ghost(prev.levels@.update(root1 as int, (prev.level_cap@ + 1) as nat));
            self.level_cap = Ghost((prev.level_cap@ + 1) as nat);
            proof {
                assert(self.parent@ == prev.parent@.update(root2 as int, root1));
                lemma_union_post(prev, *self, *old(self), idx1 as int, idx2 as int, root1 as int,
                    root2 as int);
            }
        } else {
            self.parent.set(root2, root1);
            let rank1 = self.rank[root1];
            // The rank is a heuristic; let it saturate rather than overflow.
            if rank1 < usize::MAX {
                self.rank.set(root1, rank1 + 1);
            }
            self.levels = Ghost(prev.levels@.update(root1 as int, (prev.level_cap@ + 1) as nat));
            self.level_cap = Ghost((prev.level_cap@ + 1) as nat);
            proof {
                assert(self.parent@ == prev.parent@.update(root2 as int, root1));
                lemma_union_post(prev, *self, *old(self), idx1 as int, idx2 as int, root1 as int,
                    root2 as int);
            }
        }
        true
    }

    /// Check if two places are aliased.  The relation itself is untouched
    /// (only paths get compressed).
    pub fn are_aliased(&mut self, idx1: usize, idx2: usize) -> (r: bool)
        requires
            old(self).wf(),
            idx1 < old(self).n(),
            idx2 < old(self).n(),
        ensures
            final(self).wf(),
            final(self).n() == old(self).n(),
            r == old(self).aliased(idx1 as int, idx2 as int),
            final(self).same_relation(*old(self)),
    {
        let root1 = self.find(idx1);
        let root2 = self.find(idx2);
        root1 == root2
    }

    /// Reset `idx` to its own singleton (kill-before-gen in assignment
    /// transfer).
    ///
    /// This is an approximation: places whose parent chain ran through
    /// `idx` now answer to `idx` itself, so members formerly grouped with
    /// `idx` are not split apart from one another.
    pub fn remove_aliases(&mut self, idx: usize)
        requires
            old(self).wf(),
            idx < old(self).n(),
        ensures
            final(self).wf(),
            final(self).n() == old(self).n(),
            final(self).rep(idx as int) == idx,
            forall|k: int|
                0 <= k < final(self).n() ==> #[trigger] final(self).rep(k) == (if old(self).reaches_through(
                    k,
                    idx as int,
                ) {
                    idx as int
                } else {
                    old(self).rep(k)
                }),
    {
        let ghost prev = *self;
        self.parent.set(idx, idx);
        self.rank.set(idx, 0);
        proof {
            vstd::std_specs::vec::axiom_spec_len(&self.parent);
            lemma_kill(prev.parent@, prev.levels@, prev.level_cap@, idx as int);
            assert(self.parent@ == prev.parent@.update(idx as int, idx));
            assert(on_chain(prev.parent@, idx as int, idx as int, prev.level_cap@ + 1));
        }
    }

    /// The representative of `idx`, computed without mutating the domain.
    fn rep_of(&self, idx: usize) -> (r: usize)
        requires
            self.wf(),
            idx < self.n(),
        ensures
            r as int == self.rep(idx as int),
    {
        let mut cur: usize = idx;
        while self.parent[cur] != cur
            invariant
                self.wf(),
                cur < self.n(),
                self.rep(cur as int) == self.rep(idx as int),
            decreases self.level_cap@ - self.levels@[cur as int],
        {
            proof {
                self.lemma_rep_step(cur as int);
                self.lemma_rep(cur as int);
            }
            cur = self.parent[cur];
        }
        cur
    }

    /// The aliased pairs `(i, j)` with `i < j < n`, ordered first by `i`
    /// and then by `j`, starting at column `j` of row `i`.
    pub closed spec fn pairs_inner(self, i: int, j: int) -> Seq<(usize, usize)>
        decreases self.n() - j,
    {
        if j >= self.n() || j < 0 {
            Seq::empty()
        } else if self.rep(i) == self.rep(j) {
            seq![(i as usize, j as usize)] + self.pairs_inner(i, j + 1)
        } else {
            self.pairs_inner(i, j + 1)
        }
    }

    /// The aliased pairs of all rows from `i` on.
    pub closed spec fn pairs_outer(self, i: int) -> Seq<(usize, usize)>
        decreases self.n() - i,
    {
        if i >= self.n() || i < 0 {
            Seq::empty()
        } else {
            self.pairs_inner(i, i + 1) + self.pairs_outer(i + 1)
        }
    }

    /// All aliased index pairs `(i, j)` with `i < j`, in lexicographic
    /// order.
    pub open spec fn spec_alias_pairs(self) -> Seq<(usize, usize)> {
        self.pairs_outer(0)
    }

    proof fn lemma_pairs_inner_member(self, i: int, j: int, p: (usize, usize))
        requires
            self.n() <= usize::MAX,
            0 <= i < self.n(),
            i < j,
        ensures
            self.pairs_inner(i, j).contains(p) <==> (p.0 == i && j <= p.1 < self.n()
                && self.rep(i) == self.rep(p.1 as int)),
        decreases self.n() - j,
    {
        if j < self.n() {
            self.lemma_pairs_inner_member(i, j + 1, p);
            if self.rep(i) == self.rep(j) {
                let s = seq![(i as usize, j as usize)] + self.pairs_inner(i, j + 1);
                assert(self.pairs_inner(i, j) == s);
                if p == (i as usize, j as usize) {
                    assert(s[0] == p);
                    assert(s.contains(p));
                } else if self.pairs_inner(i, j + 1).contains(p) {
                    let rest = self.pairs_inner(i, j + 1);
                    let t = choose|t: int| 0 <= t < rest.len() && #[trigger] rest[t] == p;
                    assert(s[t + 1] == p);
                    assert(s.contains(p));
                } else {
                    assert forall|t: int| 0 <= t < s.len() implies s[t] != p by {
                        if t > 0 {
                            assert(self.pairs_inner(i, j + 1)[t - 1] == s[t]);
                            assert(self.pairs_inner(i, j + 1).contains(s[t]));
                        }
                    }
                    if s.contains(p) {
                        let t = choose|t: int| 0 <= t < s.len() && s[t] == p;
                    }
                }
            }
        }
    }

    proof fn lemma_pairs_outer_member(self, i: int, p: (usize, usize))
        requires
            self.n() <= usize::MAX,
            0 <= i,
        ensures
            self.pairs_outer(i).contains(p) <==> (i <= p.0 && (p.0 as int) < p.1 < self.n()
                && self.rep(p.0 as int) == self.rep(p.1 as int)),
        decreases self.n() - i,
    {
        if i < self.n() {
            self.lemma_pairs_outer_member(i + 1, p);
            self.lemma_pairs_inner_member(i, i + 1, p);
            let a = self.pairs_inner(i, i + 1);
            let b = self.pairs_outer(i + 1);
            let s = a + b;
            assert(self.pairs_outer(i) == s);
            if a.contains(p) || b.contains(p) {
                assert(s.contains(p)) by {
                    if a.contains(p) {
                        let t = choose|t: int| 0 <= t < a.len() && a[t] == p;
                        assert(s[t] == p);
                    } else {
                        let t = choose|t: int| 0 <= t < b.len() && b[t] == p;
                        assert(s[a.len() + t] == p);
                    }
                }
            } else {
                assert forall|t: int| 0 <= t < s.len() implies s[t] != p by {
                    if t < a.len() {
                        assert(a.contains(s[t]));
                    } else {
                        assert(b[t - a.len()] == s[t]);
                        assert(b.contains(s[t]));
                    }
                }
                if s.contains(p) {
                    let t = choose|t: int| 0 <= t < s.len() && s[t] == p;
                }
            }
        }
    }

    /// A pair stands in `spec_alias_pairs` exactly when it is an ordered,
    /// in-range, aliased pair.
    pub proof fn lemma_alias_pairs_member(self, p: (usize, usize))
        requires
            self.n() <= usize::MAX,
        ensures
            self.spec_alias_pairs().contains(p) <==> ((p.0 as int) < p.1 < self.n()
                && self.aliased(p.0 as int, p.1 as int)),
    {
        self.lemma_pairs_outer_member(0, p);
    }

    /// Collect every aliased pair `(i, j)`, `i < j`, in lexicographic
    /// order.
    pub fn get_all_alias_pairs(&self) -> (pairs: Vec<(usize, usize)>)
        requires
            self.wf(),
        ensures
            pairs@ == self.spec_alias_pairs(),
    {
        let n = self.parent.len();
        assert(n == self.n());
        let mut pairs: Vec<(usize, usize)> = Vec::new();
        let mut i: usize = 0;
        while i < n
            invariant
                self.wf(),
                n == self.n(),
                i <= n,
                pairs@ + self.pairs_outer(i as int) =~= self.spec_alias_pairs(),
            decreases n - i,
        {
            let rep_i = self.rep_of(i);
            let mut j: usize = i + 1;
            while j < n
                invariant
                    self.wf(),
                    n == self.n(),
                    i < j <= n,
                    rep_i as int == self.rep(i as int),
                    pairs@ + self.pairs_inner(i as int, j as int) + self.pairs_outer(i as int + 1)
                        =~= self.spec_alias_pairs(),
                decreases n - j,
            {
                let rep_j = self.rep_of(j);
                if rep_i == rep_j {
                    pairs.push((i, j));
                }
                j = j + 1;
            }
            assert(self.pairs_inner(i as int, n as int) =~= Seq::<(usize, usize)>::empty());
            i = i + 1;
        }
        assert(self.pairs_outer(n as int) =~= Seq::<(usize, usize)>::empty());
        assert(pairs@ =~= self.spec_alias_pairs());
        pairs
    }

    /// Union in every pair aliased in `other` (the join of the lattice).
    ///
    /// Returns whether the relation changed; joining a domain with one
    /// whose relation it already contains (itself in particular) changes
    /// nothing.
    pub fn join(&mut self, other: &AliasDomain) -> (changed: bool)
        requires
            old(self).wf(),
            other.wf(),
            other.n() == old(self).n(),
        ensures
            final(self).wf(),
            final(self).n() == old(self).n(),
            relation_grows(*final(self), *old(self)),
            relation_grows(*final(self), *other),
            forall|a: int, b: int|
                0 <= a < final(self).n() && 0 <= b < final(self).n() && final(self).aliased(a, b)
                    ==> #[trigger] join_connected(*old(self), *other, a, b),
            changed == !spec_relation_contained(*other, *old(self)),
            !changed ==> final(self).same_relation(*old(self)),
            other.same_relation(*old(self)) ==> !changed,
    {
        let pairs = other.get_all_alias_pairs();
        proof {
            vstd::std_specs::vec::axiom_spec_len(&self.parent);
            vstd::std_specs::vec::axiom_spec_len(&other.parent);
            assert forall|a: int, b: int|
                0 <= a < self.n() && 0 <= b < self.n() && self.aliased(a, b)
                    implies #[trigger] join_connected(*old(self), *other, a, b) by {
                lemma_jc_link(*old(self), *other, a, b);
            }
        }
        let ghost orig = *old(self);
        let mut changed = false;
        let mut k: usize = 0;
        while k < pairs.len()
            invariant
                self.wf(),
                self.n() == orig.n(),
                orig.wf(),
                other.wf(),
                other.n() == orig.n(),
                other.n() <= usize::MAX,
                pairs@ == other.spec_alias_pairs(),
                k <= pairs.len(),
                forall|t: int|
                    0 <= t < k ==> #[trigger] self.aliased(pairs@[t].0 as int, pairs@[t].1 as int),
                relation_grows(*self, orig),
                changed <==> (exists|t: int|
                    0 <= t < k && !orig.aliased(#[trigger] pairs@[t].0 as int, pairs@[t].1 as int)),
                !changed ==> self.same_relation(orig),
                forall|a: int, b: int|
                    0 <= a < self.n() && 0 <= b < self.n() && self.aliased(a, b)
                        ==> #[trigger] join_connected(orig, *other, a, b),
            decreases pairs.len() - k,
        {
            let (a, b) = pairs[k];
            proof {
                other.lemma_alias_pairs_member(pairs@[k as int]);
            }
            let ghost before = *self;
            let r = self.union(a, b);
            proof {
                assert forall|t: int| 0 <= t < k + 1 implies #[trigger] self.aliased(
                    pairs@[t].0 as int,
                    pairs@[t].1 as int,
                ) by {
                    if t < k {
                        other.lemma_alias_pairs_member(pairs@[t]);
                        assert(before.aliased(pairs@[t].0 as int, pairs@[t].1 as int));
                    }
                }
                if r && !changed {
                    assert(!before.aliased(a as int, b as int));
                    assert(!orig.aliased(a as int, b as int));
                }
                if !r && !changed {
                    assert forall|x: int| 0 <= x < self.n() implies #[trigger] self.rep(x)
                        == orig.rep(x) by {
                        assert(self.rep(x) == union_rep(*self, before, a as int, b as int, x));
                    }
                }
                // The joined relation never exceeds the closure of the
                // union of the two input relations.
                assert forall|x: int, y: int|
                    0 <= x < self.n() && 0 <= y < self.n() && self.aliased(x, y)
                        implies #[trigger] join_connected(orig, *other, x, y) by {
                    let ai = a as int;
                    let bi = b as int;
                    let ra = before.rep(ai);
                    let rb = before.rep(bi);
                    assert(self.rep(x) == union_rep(*self, before, ai, bi, x));
                    assert(self.rep(y) == union_rep(*self, before, ai, bi, y));
                    let x_in = before.rep(x) == ra || before.rep(x) == rb;
                    let y_in = before.rep(y) == ra || before.rep(y) == rb;
                    if x_in && y_in {
                        let ix: int = if before.rep(x) == ra {
                            ai
                        } else {
                            bi
                        };
                        let iy: int = if before.rep(y) == ra {
                            ai
                        } else {
                            bi
                        };
                        assert(before.aliased(x, ix));
                        assert(before.aliased(iy, y));
                        assert(join_connected(orig, *other, x, ix));
                        assert(join_connected(orig, *other, iy, y));
                        assert(other.aliased(ai, bi));
                        lemma_jc_link(orig, *other, ai, bi);
                        lemma_jc_link(orig, *other, bi, ai);
                        lemma_jc_refl(orig, *other, ai);
                        lemma_jc_refl(orig, *other, bi);
                        assert(join_connected(orig, *other, ix, iy));
                        lemma_jc_trans(orig, *other, x, ix, iy);
                        lemma_jc_trans(orig, *other, x, iy, y);
                    } else if !x_in && !y_in {
                        assert(before.aliased(x, y));
                    } else {
                        // One side in the merged class, the other outside:
                        // their new representatives cannot coincide.
                        assert(self.rep(ai) == before.rep(ai) || self.rep(ai) == before.rep(bi));
                        assert(false);
                    }
                }
            }
            if r {
                changed = true;
            }
            k = k + 1;
        }
        proof {
            if changed {
                let t = choose|t: int|
                    0 <= t < pairs@.len() && !orig.aliased(
                        #[trigger] pairs@[t].0 as int,
                        pairs@[t].1 as int,
                    );
                other.lemma_alias_pairs_member(pairs@[t]);
                assert(!spec_relation_contained(*other, orig));
            } else {
                assert forall|a: int, b: int|
                    0 <= a < other.n() && 0 <= b < other.n() && other.aliased(a, b)
                        implies #[trigger] orig.aliased(a, b) by {
                    if a != b {
                        let lo: int = if a < b { a } else { b };
                        let hi: int = if a < b { b } else { a };
                        other.lemma_alias_pairs_member((lo as usize, hi as usize));
                        let t = choose|t: int|
                            0 <= t < pairs@.len() && pairs@[t] == (lo as usize, hi as usize);
                        assert(orig.aliased(lo, hi));
                    }
                }
            }
            assert forall|a: int, b: int|
                0 <= a < self.n() && 0 <= b < self.n() && other.aliased(a, b)
                    implies #[trigger] self.aliased(a, b) by {
                if a != b {
                    let lo: int = if a < b { a } else { b };
                    let hi: int = if a < b { b } else { a };
                    other.lemma_alias_pairs_member((lo as usize, hi as usize));
                    let t = choose|t: int|
                        0 <= t < pairs@.len() && pairs@[t] == (lo as usize, hi as usize);
                    assert(self.aliased(lo, hi));
                }
            }
        }
        changed
    }
}

/// Every consecutive pair of `p` is aliased in `d1` or in `d2`.
pub open spec fn join_path_ok(d1: AliasDomain, d2: AliasDomain, p: Seq<int>) -> bool {
    forall|t: int|
        0 <= t < p.len() - 1 ==> (d1.aliased(#[trigger] p[t], p[t + 1]) || d2.aliased(
            p[t],
            p[t + 1],
        ))
}

/// `a` and `b` are connected by a chain whose links are aliased in `d1`
/// or in `d2`: the transitive closure of the union of the two relations.
pub open spec fn join_connected(d1: AliasDomain, d2: AliasDomain, a: int, b: int) -> bool {
    exists|p: Seq<int>|
        p.len() >= 1 && #[trigger] join_path_ok(d1, d2, p) && p[0] == a && p.last() == b
}

proof fn lemma_jc_refl(d1: AliasDomain, d2: AliasDomain, a: int)
    ensures
        join_connected(d1, d2, a, a),
{
    let p = seq![a];
    assert(join_path_ok(d1, d2, p));
    assert(p[0] == a && p.last() == a);
}

proof fn lemma_jc_link(d1: AliasDomain, d2: AliasDomain, a: int, b: int)
    requires
        d1.aliased(a, b) || d2.aliased(a, b),
    ensures
        join_connected(d1, d2, a, b),
{
    let p = seq![a, b];
    assert(p[0] == a && p.last() == b);
    assert(join_path_ok(d1, d2, p));
}

proof fn lemma_jc_trans(d1: AliasDomain, d2: AliasDomain, a: int, b: int, c: int)
    requires
        join_connected(d1, d2, a, b),
        join_connected(d1, d2, b, c),
    ensures
        join_connected(d1, d2, a, c),
{
    let p1 = choose|p1: Seq<int>|
        p1.len() >= 1 && #[trigger] join_path_ok(d1, d2, p1) && p1[0] == a && p1.last() == b;
    let p2 = choose|p2: Seq<int>|
        p2.len() >= 1 && #[trigger] join_path_ok(d1, d2, p2) && p2[0] == b && p2.last() == c;
    let q = p1 + p2.skip(1);
    if p2.len() == 1 {
        assert(q =~= p1);
        assert(join_path_ok(d1, d2, q));
        assert(q.last() == c);
    } else {
        assert(q.len() == p1.len() + p2.len() - 1);
        assert(q[0] == a);
        assert(q.last() == p2.last());
        assert forall|t: int|
            0 <= t < q.len() - 1 implies (d1.aliased(#[trigger] q[t], q[t + 1]) || d2.aliased(
            q[t],
            q[t + 1],
        )) by {
            if t < p1.len() - 1 {
                assert(q[t] == p1[t] && q[t + 1] == p1[t + 1]);
            } else if t == p1.len() - 1 {
                assert(q[t] == b && q[t + 1] == p2[1]);
                assert(d1.aliased(p2[0], p2[1]) || d2.aliased(p2[0], p2[1]));
            } else {
                let u = t - p1.len() + 1;
                assert(q[t] == p2[u] && q[t + 1] == p2[u + 1]);
                assert(d1.aliased(p2[u], p2[u + 1]) || d2.aliased(p2[u], p2[u + 1]));
            }
        }
        assert(join_path_ok(d1, d2, q));
    }
}

/// Every pair aliased in `inner` is aliased in `outer` as well.
pub open spec fn spec_relation_contained(inner: AliasDomain, outer: AliasDomain) -> bool {
    forall|a: int, b: int|
        0 <= a < inner.n() && 0 <= b < inner.n() && inner.aliased(a, b) ==> #[trigger] outer.aliased(
            a,
            b,
        )
}

impl Clone for AliasDomain {
    /// A clone carries the exact same aliasing relation.
    fn clone(&self) -> (r: Self)
        ensures
            r.wf() == self.wf(),
            r.n() == self.n(),
            forall|k: int| #[trigger] r.rep(k) == self.rep(k),
            forall|i: int, t: int| #[trigger] r.reaches_through(i, t) == self.reaches_through(i, t),
            r.same_relation(*self),
    {
        let r = AliasDomain {
            parent: self.parent.clone(),
            rank: self.rank.clone(),
            levels: Ghost(self.levels@),
            level_cap: Ghost(self.level_cap@),
        };
        proof {
            assert forall|i: int| 0 <= i < self.parent@.len() implies r.parent@[i]
                == self.parent@[i] by {
                assert(cloned(self.parent@[i], r.parent@[i]));
            }
            assert(r.parent@ =~= self.parent@);
            assert forall|i: int| 0 <= i < self.rank@.len() implies r.rank@[i]
                == self.rank@[i] by {
                assert(cloned(self.rank@[i], r.rank@[i]));
            }
            assert(r.rank@ =~= self.rank@);
        }
        r
    }
}

/// After a union of `idx1` and `idx2`: the named classes merge into the
/// class of `idx1`'s (new) representative and every other class is intact.
pub open spec fn union_result(cur: AliasDomain, orig: AliasDomain, idx1: int, idx2: int) -> bool {
    forall|k: int| 0 <= k < cur.n() ==> #[trigger] cur.rep(k) == union_rep(cur, orig, idx1, idx2, k)
}

/// The representative of `k` after the classes of `idx1` and `idx2` merged.
pub open spec fn union_rep(cur: AliasDomain, orig: AliasDomain, idx1: int, idx2: int, k: int) -> int {
    if orig.rep(k) == orig.rep(idx1) || orig.rep(k) == orig.rep(idx2) {
        cur.rep(idx1)
    } else {
        orig.rep(k)
    }
}

/// Every pair aliased in `orig` is still aliased in `cur`.
pub open spec fn relation_grows(cur: AliasDomain, orig: AliasDomain) -> bool {
    forall|a: int, b: int|
        0 <= a < cur.n() && 0 <= b < cur.n() && orig.aliased(a, b) ==> #[trigger] cur.aliased(a, b)
}

/// Common conclusion of the three attach branches of `union`.
proof fn lemma_union_post(
    prev: AliasDomain,
    cur: AliasDomain,
    orig: AliasDomain,
    idx1: int,
    idx2: int,
    keep: int,
    moved: int,
)
    requires
        prev.wf(),
        0 <= idx1 < prev.n(),
        0 <= idx2 < prev.n(),
        prev.same_relation(orig),
        orig.wf(),
        prev.rep(idx1) != prev.rep(idx2),
        (keep == prev.rep(idx1) && moved == prev.rep(idx2)) || (keep == prev.rep(idx2) && moved
            == prev.rep(idx1)),
        prev.parent@.len() <= usize::MAX,
        prev.parent@[keep] as int == keep,
        prev.parent@[moved] as int == moved,
        cur.parent@ == prev.parent@.update(moved, keep as usize),
        cur.levels@ == prev.levels@.update(keep, (prev.level_cap@ + 1) as nat),
        cur.level_cap@ == prev.level_cap@ + 1,
        cur.rank@.len() == prev.rank@.len(),
        prev.rank@.len() == prev.n(),
    ensures
        cur.wf(),
        cur.n() == orig.n(),
        cur.aliased(idx1, idx2),
        cur.rep(idx1) == orig.rep(idx1) || cur.rep(idx1) == orig.rep(idx2),
        union_result(cur, orig, idx1, idx2),
        relation_grows(cur, orig),
{
    prev.lemma_rep(idx1);
    prev.lemma_rep(idx2);
    lemma_attach(prev.parent@, prev.levels@, prev.level_cap@, keep, moved);
    assert forall|k: int| 0 <= k < cur.n() implies #[trigger] cur.rep(k) == union_rep(
        cur,
        orig,
        idx1,
        idx2,
        k,
    ) by {
        let p = prev.parent@;
        let cap = prev.level_cap@;
        let p2 = p.update(moved, keep as usize);
        assert(cur.parent@ == p2);
        assert(cur.rep(k) == chase(p2, k, cap + 2));
        assert(cur.rep(idx1) == chase(p2, idx1, cap + 2));
        assert(chase(p2, k, cap + 2) == (if chase(p, k, cap + 1) == moved {
            keep
        } else {
            chase(p, k, cap + 1)
        }));
        assert(chase(p2, idx1, cap + 2) == (if chase(p, idx1, cap + 1) == moved {
            keep
        } else {
            chase(p, idx1, cap + 1)
        }));
        assert(prev.rep(k) == orig.rep(k));
        assert(prev.rep(idx1) == orig.rep(idx1));
        assert(prev.rep(idx2) == orig.rep(idx2));
    }
    assert(chase(cur.parent@, idx1, prev.level_cap@ + 2) == (if chase(
        prev.parent@,
        idx1,
        prev.level_cap@ + 1,
    ) == moved {
        keep
    } else {
        chase(prev.parent@, idx1, prev.level_cap@ + 1)
    }));
    assert(cur.rep(idx1) == orig.rep(idx1) || cur.rep(idx1) == orig.rep(idx2));
    assert(relation_grows(cur, orig));
}

} // verus!
