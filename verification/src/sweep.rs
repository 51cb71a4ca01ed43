//! One greedy sweep over all ordered pairs of active cliques, the random
//! perturbation of the working order between sweeps, and the iterated-greedy
//! driver with its escalating forced-split schedule.

use vstd::prelude::*;

use crate::bits::bv_bits;
use crate::clique::{lemma_nonempty_iff_some_member, Clique};
use crate::graph::{all_members_adjacent_to, clique_ok, reserve_ok, spec_adj, Graph};
use crate::transfer::compatible_vertex;
use crate::perm::{is_index_perm, lemma_reversal_perm, lemma_swap_perm, prefix_permuted};
use crate::rng::{random_below, random_u64_below, shuffle_prefix};

verus! {

/// A reverse-fraction threshold meaning "always reverse": thresholds are
/// compared against a draw from `0 .. 2^32`.
pub const FULL_REVERSE: u64 = 0x1_0000_0000;

/// What one search attempt reports back: whether a checkpoint saw the cover
/// at or below the target, the iterations spent, and the annealing threshold
/// the escalation schedule ended on.
pub struct RunReport {
    pub reached: bool,
    pub iterations: usize,
    pub iterations_per_annealing: usize,
}

/// The working prefix of `g1` holds the same cliques as `g0`'s, rearranged by
/// the index permutation `p`; everything else agrees.
proof fn lemma_prefix_reindex_preserves_inv(g0: Graph, g1: Graph, p: Seq<int>)
    requires
        g0.inv(),
        g1.size == g0.size,
        g1.cliques_ct == g0.cliques_ct,
        g1.vertices@ == g0.vertices@,
        g1.cliques@.len() == g0.cliques@.len(),
        bv_bits(g1.utility_bv).len() == g1.n(),
        is_index_perm(p, g0.ct()),
        forall|k: int| 0 <= k < g0.ct() ==> g1.cliques@[k] == g0.cliques@[#[trigger] p[k]],
        forall|k: int| g0.ct() <= k < g0.n() ==> g1.cliques@[k] == g0.cliques@[k],
    ensures
        g1.inv(),
{
    let n = g0.n();
    let ct = g0.ct();
    assert forall|k: int| 0 <= k < ct implies clique_ok(
        g1.vertices@,
        g1.n(),
        #[trigger] g1.cliques@[k],
    ) by {
        assert(clique_ok(g0.vertices@, n, g0.cliques@[p[k]]));
    }
    assert forall|k: int| ct <= k < n implies reserve_ok(g1.n(), #[trigger] g1.cliques@[k]) by {
        assert(reserve_ok(n, g0.cliques@[k]));
    }
    assert forall|v: int| 0 <= v < n implies #[trigger] g1.covered_by_prefix(v) by {
        assert(g0.covered_by_prefix(v));
        let idx = choose|idx: int| 0 <= idx < ct && (#[trigger] g0.cliques@[idx]).spec_member(v);
        assert(crate::perm::perm_hits(p, ct, idx));
        let k = choose|k: int| 0 <= k < ct && #[trigger] p[k] == idx;
        assert(g1.cliques@[k].spec_member(v));
    }
    assert forall|a: int, b: int, v: int|
        #![trigger g1.cliques@[a].spec_member(v), g1.cliques@[b].spec_member(v)]
        0 <= a < b < ct implies !(g1.cliques@[a].spec_member(v) && g1.cliques@[b].spec_member(
        v,
    )) by {
        if g1.cliques@[a].spec_member(v) && g1.cliques@[b].spec_member(v) {
            let pa = p[a];
            let pb = p[b];
            assert(pa != pb);
            if pa < pb {
                assert(!(g0.cliques@[pa].spec_member(v) && g0.cliques@[pb].spec_member(v)));
            } else {
                assert(!(g0.cliques@[pb].spec_member(v) && g0.cliques@[pa].spec_member(v)));
            }
        }
    }
}

/// Dropping an inactive, empty clique off the end of the working prefix keeps
/// the invariant.
proof fn lemma_inv_drop_empty_last(g0: Graph, g1: Graph)
    requires
        g0.inv(),
        g0.ct() >= 2,
        g1.size == g0.size,
        g1.cliques_ct == g0.cliques_ct - 1,
        g1.vertices@ == g0.vertices@,
        g1.cliques@ == g0.cliques@,
        g1.utility_bv == g0.utility_bv,
        !g0.cliques@[g0.ct() - 1].is_active,
        g0.cliques@[g0.ct() - 1].members_ct == 0,
    ensures
        g1.inv(),
{
    let n = g0.n();
    let ct = g0.ct();
    assert forall|k: int| 0 <= k < g1.ct() implies clique_ok(
        g1.vertices@,
        g1.n(),
        #[trigger] g1.cliques@[k],
    ) by {
        assert(clique_ok(g0.vertices@, n, g0.cliques@[k]));
    }
    assert forall|k: int| g1.ct() <= k < n implies reserve_ok(g1.n(), #[trigger] g1.cliques@[k]) by {
        if k == ct - 1 {
            let c = g0.cliques@[k];
            assert(clique_ok(g0.vertices@, n, c));
        } else {
            assert(reserve_ok(n, g0.cliques@[k]));
        }
    }
    assert forall|v: int| 0 <= v < n implies #[trigger] g1.covered_by_prefix(v) by {
        assert(g0.covered_by_prefix(v));
        let idx = choose|idx: int| 0 <= idx < ct && (#[trigger] g0.cliques@[idx]).spec_member(v);
        if idx == ct - 1 {
            let c = g0.cliques@[idx];
            assert(c.wf());
            assert(c.members@.len() == 0);
            assert(c.members@.contains(v as usize) ==> false);
            assert(!c.spec_member(v));
        }
        assert(g1.cliques@[idx].spec_member(v));
    }
    assert forall|a: int, b: int, v: int|
        #![trigger g1.cliques@[a].spec_member(v), g1.cliques@[b].spec_member(v)]
        0 <= a < b < g1.ct() implies !(g1.cliques@[a].spec_member(v) && g1.cliques@[b].spec_member(
        v,
    )) by {
        assert(!(g0.cliques@[a].spec_member(v) && g0.cliques@[b].spec_member(v)));
    }
}

/// Within the first clique's pair pass: its stored frontier misses the
/// members of every clique already attempted.
pub open spec fn first_frontier_misses_below(g: Graph, j: int) -> bool {
    forall|v: int, k: int|
        #![trigger g.cliques@[0].spec_frontier(v), g.cliques@[k].spec_member(v)]
        0 <= k < j ==> !(g.cliques@[0].spec_frontier(v) && g.cliques@[k].spec_member(v))
}

proof fn lemma_misses_below_start(g: Graph)
    requires
        g.inv(),
        g.ct() >= 1,
    ensures
        first_frontier_misses_below(g, 1),
{
    assert forall|v: int, k: int|
        #![trigger g.cliques@[0].spec_frontier(v), g.cliques@[k].spec_member(v)]
        0 <= k < 1 implies !(g.cliques@[0].spec_frontier(v) && g.cliques@[k].spec_member(v)) by {
        if g.cliques@[0].spec_frontier(v) {
            assert(clique_ok(g.vertices@, g.n(), g.cliques@[0]));
            assert(!g.cliques@[0].spec_member(v));
        }
    }
}

proof fn lemma_misses_below_skip_inactive(g: Graph, j: int)
    requires
        g.inv(),
        0 <= j < g.ct(),
        !g.cliques@[j].is_active,
        first_frontier_misses_below(g, j),
    ensures
        first_frontier_misses_below(g, j + 1),
{
    assert(clique_ok(g.vertices@, g.n(), g.cliques@[j]));
    assert(g.cliques@[j].members_ct == 0);
    lemma_nonempty_iff_some_member(g.cliques@[j]);
    assert forall|v: int, k: int|
        #![trigger g.cliques@[0].spec_frontier(v), g.cliques@[k].spec_member(v)]
        0 <= k < j + 1 implies !(g.cliques@[0].spec_frontier(v) && g.cliques@[k].spec_member(
        v,
    )) by {
        if k == j && g.cliques@[k].spec_member(v) {
            assert(exists|w: int| #[trigger] g.cliques@[j].spec_member(w));
        }
    }
}

/// A perturbation permutes the working prefix, so the activity and
/// nonemptiness of its cliques carry over elementwise.
proof fn lemma_perturbed_prefix_flags(g0: Graph, g1: Graph)
    requires
        g0.inv(),
        g1.cliques_ct == g0.cliques_ct,
        prefix_permuted(g0.cliques@, g1.cliques@, g0.ct()),
    ensures
        g0.prefix_all_active() ==> g1.prefix_all_active(),
        (g0.prefix_all_active() && g0.actives_nonempty()) ==> g1.actives_nonempty(),
{
    let ct = g0.ct();
    let p = choose|p: Seq<int>|
        #[trigger] is_index_perm(p, ct) && (forall|k: int|
            0 <= k < ct ==> g1.cliques@[k] == g0.cliques@[#[trigger] p[k]]);
    if g0.prefix_all_active() {
        assert forall|k: int| 0 <= k < g1.ct() implies (#[trigger] g1.cliques@[k]).is_active by {
            assert(g1.cliques@[k] == g0.cliques@[p[k]]);
        }
        if g0.actives_nonempty() {
            assert forall|k: int|
                0 <= k < g1.ct() && (#[trigger] g1.cliques@[k]).is_active implies g1.cliques@[
                k].members_ct != 0 by {
                assert(g1.cliques@[k] == g0.cliques@[p[k]]);
            }
        }
    }
}

/// Swaps two cliques of the working array in place.
fn swap_cliques(v: &mut Vec<Clique>, a: usize, b: usize)
    requires
        a < b,
        b < old(v).len(),
    ensures
        final(v)@ == old(v)@.update(a as int, old(v)@[b as int]).update(b as int, old(v)@[a as int]),
{
    let ghost s0 = v@;
    let cb = v.remove(b);
    let ca = v.remove(a);
    v.insert(a, cb);
    v.insert(b, ca);
    proof {
        assert(v@ =~= s0.update(a as int, s0[b as int]).update(b as int, s0[a as int]));
    }
}

impl Graph {
    /// Rearranges the active prefix of the working array into a uniformly
    /// random order.
    pub fn shuffle_active_cliques(&mut self)
        requires
            old(self).inv(),
        ensures
            final(self).inv(),
            final(self).size == old(self).size,
            final(self).cliques_ct == old(self).cliques_ct,
            final(self).vertices@ == old(self).vertices@,
            prefix_permuted(old(self).cliques@, final(self).cliques@, old(self).ct()),
            forall|k: int|
                old(self).ct() <= k < old(self).n() ==> final(self).cliques@[k] == old(
                    self,
                ).cliques@[k],
    {
        let ghost g0 = *self;
        let ct = self.cliques_ct;
        shuffle_prefix(&mut self.cliques, ct);
        proof {
            let p = choose|p: Seq<int>|
                #[trigger] is_index_perm(p, g0.ct()) && (forall|k: int|
                    0 <= k < g0.ct() ==> self.cliques@[k] == g0.cliques@[#[trigger] p[k]]);
            lemma_prefix_reindex_preserves_inv(g0, *self, p);
        }
    }

    /// Reverses the order of the active prefix of the working array.
    pub fn reverse_active_cliques(&mut self)
        requires
            old(self).inv(),
        ensures
            final(self).inv(),
            final(self).size == old(self).size,
            final(self).cliques_ct == old(self).cliques_ct,
            final(self).vertices@ == old(self).vertices@,
            forall|k: int|
                0 <= k < old(self).ct() ==> final(self).cliques@[k] == old(self).cliques@[old(
                    self,
                ).ct() - 1 - k],
            forall|k: int|
                old(self).ct() <= k < old(self).n() ==> final(self).cliques@[k] == old(
                    self,
                ).cliques@[k],
    {
        let ghost g0 = *self;
        let ct = self.cliques_ct;
        let mut k: usize = 0;
        while k < ct / 2
            invariant
                g0.inv(),
                ct == g0.cliques_ct,
                2 * k <= ct,
                self.size == g0.size,
                self.cliques_ct == g0.cliques_ct,
                self.vertices@ == g0.vertices@,
                self.utility_bv == g0.utility_bv,
                self.cliques@.len() == g0.cliques@.len(),
                forall|m: int|
                    0 <= m < k ==> (#[trigger] self.cliques@[m]) == g0.cliques@[ct - 1 - m]
                        && self.cliques@[ct - 1 - m] == g0.cliques@[m],
                forall|m: int| k <= m < ct - k ==> (#[trigger] self.cliques@[m]) == g0.cliques@[m],
                forall|m: int|
                    ct <= m < g0.cliques@.len() ==> (#[trigger] self.cliques@[m]) == g0.cliques@[m],
            decreases ct - 2 * k,
        {
            proof {
                assert(g0.cliques@.len() == g0.n());
                assert(k < ct - 1 - k);
            }
            swap_cliques(&mut self.cliques, k, ct - 1 - k);
            k = k + 1;
        }
        proof {
            let ctt = g0.ct();
            assert forall|m: int|
                0 <= m < ctt implies self.cliques@[m] == g0.cliques@[ctt - 1 - m] by {
                if m < k {
                } else if ctt - 1 - m < k {
                    let mm = ctt - 1 - m;
                    assert((#[trigger] self.cliques@[mm]) == g0.cliques@[ctt - 1 - mm]);
                } else {
                    assert(k <= m < ctt - k);
                    assert(m == ctt - 1 - m);
                }
            }
            let p = Seq::new(ctt as nat, |x: int| ctt - 1 - x);
            lemma_reversal_perm(ctt);
            assert forall|x: int| 0 <= x < ctt implies self.cliques@[x] == g0.cliques@[
                #[trigger] p[x]] by {}
            lemma_prefix_reindex_preserves_inv(g0, *self, p);
        }
    }

    /// One full greedy sweep: for every ordered pair of active cliques, move
    /// the whole compatible set of the later one into the earlier one, then
    /// compact the active cliques into a prefix.  The cover never grows; the
    /// first clique ends with an empty frontier (it was offered every other
    /// clique's members); active cliques stay nonempty; and when no pair had
    /// anything to move over an all-active prefix, the array is untouched.
    #[verifier::rlimit(40)]
    pub fn vcc_greedy(&mut self)
        requires
            old(self).inv(),
        ensures
            final(self).inv(),
            final(self).size == old(self).size,
            final(self).vertices@ == old(self).vertices@,
            final(self).cliques_ct <= old(self).cliques_ct,
            old(self).cliques@[0].is_active ==> forall|k: int|
                0 <= k < final(self).ct() ==> (#[trigger] final(self).cliques@[k]).is_active,
            old(self).cliques@[0].is_active ==> final(self).first_frontier_empty(),
            old(self).actives_nonempty() ==> final(self).actives_nonempty(),
            (old(self).prefix_all_active() && old(self).no_eligible_pair()) ==> (final(self).cliques@ == old(self).cliques@ && final(self).cliques_ct == old(self).cliques_ct),
    {
        let ghost g0 = *self;
        let mut i: usize = 0;
        while i < self.cliques_ct - 1
            invariant
                self.inv(),
                self.size == g0.size,
                self.vertices@ == g0.vertices@,
                self.cliques_ct == g0.cliques_ct,
                i <= self.cliques_ct,
                g0.cliques@[0].is_active ==> self.cliques@[0].is_active,
                (g0.cliques@[0].is_active && i >= 1) ==> self.first_frontier_empty(),
                g0.actives_nonempty() ==> self.actives_nonempty(),
                (g0.prefix_all_active() && g0.no_eligible_pair()) ==> self.cliques@ == g0.cliques@,
            decreases self.cliques_ct - i,
        {
            if self.cliques[i].is_active {
                let mut j = i + 1;
                while j < self.cliques_ct
                    invariant
                        self.inv(),
                        self.size == g0.size,
                        self.vertices@ == g0.vertices@,
                        self.cliques_ct == g0.cliques_ct,
                        i + 1 <= j,
                        j <= self.cliques_ct,
                        i < self.cliques_ct,
                        self.cliques@[i as int].is_active,
                        g0.cliques@[0].is_active ==> self.cliques@[0].is_active,
                        (g0.cliques@[0].is_active && i == 0) ==> first_frontier_misses_below(
                            *self,
                            j as int,
                        ),
                        (g0.cliques@[0].is_active && i >= 1) ==> self.first_frontier_empty(),
                        g0.actives_nonempty() ==> self.actives_nonempty(),
                        (g0.prefix_all_active() && g0.no_eligible_pair()) ==> self.cliques@
                            == g0.cliques@,
                    decreases self.cliques_ct - j,
                {
                    proof {
                        if g0.cliques@[0].is_active && i == 0 && j == 1 {
                            lemma_misses_below_start(*self);
                        }
                    }
                    if self.cliques[j].is_active {
                        let ghost gpre = *self;
                        self.transfer_compatible_vertices(i, j);
                        proof {
                            if g0.prefix_all_active() && g0.no_eligible_pair() {
                                if exists|v: int|
                                    #[trigger] compatible_vertex(gpre, i as int, j as int, v) {
                                    let v = choose|v: int|
                                        #[trigger] compatible_vertex(gpre, i as int, j as int, v);
                                    assert(g0.cliques@[i as int].spec_frontier(v));
                                    assert(g0.cliques@[j as int].spec_member(v));
                                    assert(false);
                                }
                                assert(self.cliques@ == gpre.cliques@);
                            }
                            if g0.actives_nonempty() {
                                assert forall|k: int|
                                    0 <= k < self.ct() && (#[trigger] self.cliques@[
                                        k]).is_active implies self.cliques@[k].members_ct != 0 by {
                                    if self.cliques@[k] == gpre.cliques@[k] {
                                        assert(gpre.cliques@[k].is_active
                                            ==> gpre.cliques@[k].members_ct != 0);
                                    } else {
                                        assert(exists|v: int|
                                            #[trigger] compatible_vertex(
                                                gpre,
                                                i as int,
                                                j as int,
                                                v,
                                            ));
                                        if k == i as int {
                                            assert(clique_ok(
                                                gpre.vertices@,
                                                gpre.n(),
                                                gpre.cliques@[k],
                                            ));
                                            lemma_nonempty_iff_some_member(gpre.cliques@[k]);
                                            let w = choose|w: int|
                                                #[trigger] gpre.cliques@[i as int].spec_member(w);
                                            assert(self.cliques@[i as int].spec_member(w));
                                            assert(clique_ok(
                                                self.vertices@,
                                                self.n(),
                                                self.cliques@[k],
                                            ));
                                            lemma_nonempty_iff_some_member(self.cliques@[k]);
                                        } else {
                                            assert(k == j as int);
                                        }
                                    }
                                }
                            }
                            if g0.cliques@[0].is_active && i >= 1 {
                                assert(self.cliques@[0] == gpre.cliques@[0]);
                            }
                            if g0.cliques@[0].is_active && i == 0 {
                                if exists|v: int|
                                    #[trigger] compatible_vertex(gpre, 0, j as int, v) {
                                    assert forall|v: int|
                                        #[trigger] self.cliques@[0].spec_frontier(
                                            v,
                                        ) implies gpre.cliques@[0].spec_frontier(v) by {
                                        assert(clique_ok(
                                            self.vertices@,
                                            self.n(),
                                            self.cliques@[0],
                                        ));
                                        assert(clique_ok(
                                            gpre.vertices@,
                                            gpre.n(),
                                            gpre.cliques@[0],
                                        ));
                                        assert(!self.cliques@[0].spec_member(v));
                                        assert(all_members_adjacent_to(
                                            self.vertices@,
                                            self.cliques@[0],
                                            v,
                                        ));
                                        assert forall|u: int|
                                            #[trigger] gpre.cliques@[0].spec_member(
                                                u,
                                            ) implies spec_adj(gpre.vertices@, u, v) by {
                                            assert(self.cliques@[0].spec_member(u));
                                        }
                                        assert(!gpre.cliques@[0].spec_member(v));
                                        assert(all_members_adjacent_to(
                                            gpre.vertices@,
                                            gpre.cliques@[0],
                                            v,
                                        ));
                                    }
                                    assert forall|v: int, k: int|
                                        #![trigger self.cliques@[0].spec_frontier(v), self.cliques@[k].spec_member(v)]
                                        0 <= k < j + 1 implies !(self.cliques@[0].spec_frontier(v)
                                        && self.cliques@[k].spec_member(v)) by {
                                        if self.cliques@[0].spec_frontier(v) && self.cliques@[
                                            k].spec_member(v) {
                                            assert(gpre.cliques@[0].spec_frontier(v));
                                            if k == 0 {
                                                assert(clique_ok(
                                                    self.vertices@,
                                                    self.n(),
                                                    self.cliques@[0],
                                                ));
                                                assert(!self.cliques@[0].spec_member(v));
                                            } else if k < j {
                                                assert(self.cliques@[k] == gpre.cliques@[k]);
                                                assert(!(gpre.cliques@[0].spec_frontier(v)
                                                    && gpre.cliques@[k].spec_member(v)));
                                            } else {
                                                assert(k == j);
                                                assert(gpre.cliques@[j as int].spec_member(v)
                                                    && !compatible_vertex(gpre, 0, j as int, v));
                                                assert(compatible_vertex(gpre, 0, j as int, v));
                                            }
                                        }
                                    }
                                    assert(first_frontier_misses_below(*self, j + 1));
                                } else {
                                    assert(self.cliques@ == gpre.cliques@);
                                    assert forall|v: int, k: int|
                                        #![trigger self.cliques@[0].spec_frontier(v), self.cliques@[k].spec_member(v)]
                                        0 <= k < j + 1 implies !(self.cliques@[0].spec_frontier(v)
                                        && self.cliques@[k].spec_member(v)) by {
                                        if k < j {
                                            assert(!(gpre.cliques@[0].spec_frontier(v)
                                                && gpre.cliques@[k].spec_member(v)));
                                        } else {
                                            assert(!compatible_vertex(gpre, 0, j as int, v));
                                        }
                                    }
                                    assert(first_frontier_misses_below(*self, j + 1));
                                }
                            }
                        }
                    } else {
                        proof {
                            if g0.cliques@[0].is_active && i == 0 {
                                lemma_misses_below_skip_inactive(*self, j as int);
                            }
                        }
                    }
                    j = j + 1;
                }
                proof {
                    if g0.cliques@[0].is_active && i == 0 {
                        assert(first_frontier_misses_below(*self, self.ct()));
                        assert forall|v: int|
                            !(#[trigger] self.cliques@[0].spec_frontier(v)) by {
                            if self.cliques@[0].spec_frontier(v) {
                                assert(clique_ok(self.vertices@, self.n(), self.cliques@[0]));
                                assert(0 <= v < self.n());
                                assert(self.covered_by_prefix(v));
                                let k = choose|k: int|
                                    0 <= k < self.ct() && (#[trigger] self.cliques@[
                                        k]).spec_member(v);
                                assert(!(self.cliques@[0].spec_frontier(v) && self.cliques@[
                                    k].spec_member(v)));
                            }
                        }
                    }
                }
            }
            i = i + 1;
        }
        proof {
            if g0.cliques@[0].is_active && self.cliques_ct == 1 {
                assert forall|v: int| !(#[trigger] self.cliques@[0].spec_frontier(v)) by {
                    if self.cliques@[0].spec_frontier(v) {
                        assert(clique_ok(self.vertices@, self.n(), self.cliques@[0]));
                        assert(0 <= v < self.n());
                        assert(self.covered_by_prefix(v));
                        let k = choose|k: int|
                            0 <= k < self.ct() && (#[trigger] self.cliques@[k]).spec_member(v);
                        assert(k == 0);
                        assert(!self.cliques@[0].spec_member(v));
                    }
                }
            }
        }
        let ghost ct_mid = self.cliques_ct;
        let mut idx: usize = 1;
        while idx < self.cliques_ct
            invariant
                self.inv(),
                self.size == g0.size,
                self.vertices@ == g0.vertices@,
                self.cliques_ct <= ct_mid,
                1 <= idx,
                idx <= self.cliques_ct,
                g0.cliques@[0].is_active ==> self.cliques@[0].is_active,
                g0.cliques@[0].is_active ==> self.first_frontier_empty(),
                g0.actives_nonempty() ==> self.actives_nonempty(),
                (g0.prefix_all_active() && g0.no_eligible_pair()) ==> (self.cliques@ == g0.cliques@
                    && self.cliques_ct == g0.cliques_ct),
                forall|m: int| 1 <= m < idx ==> (#[trigger] self.cliques@[m]).is_active,
            decreases self.cliques_ct - idx,
        {
            let ghost gpre = *self;
            if self.cliques[idx].is_active {
                idx = idx + 1;
            } else if self.cliques[self.cliques_ct - 1].is_active {
                let last = self.cliques_ct - 1;
                proof {
                    assert(idx < last);
                    if g0.prefix_all_active() && g0.no_eligible_pair() {
                        assert(g0.cliques@[idx as int].is_active);
                        assert(false);
                    }
                }
                swap_cliques(&mut self.cliques, idx, last);
                proof {
                    let p = Seq::new(gpre.ct() as nat,
                        |x: int|
                            if x == idx as int {
                                last as int
                            } else if x == last as int {
                                idx as int
                            } else {
                                x
                            },
                    );
                    lemma_swap_perm(gpre.ct(), idx as int, last as int);
                    assert forall|x: int|
                        0 <= x < gpre.ct() implies self.cliques@[x] == gpre.cliques@[
                    #[trigger] p[x]] by {}
                    lemma_prefix_reindex_preserves_inv(gpre, *self, p);
                    assert(self.cliques@[0] == gpre.cliques@[0]);
                    if g0.actives_nonempty() {
                        assert forall|k: int|
                            0 <= k < self.ct() && (#[trigger] self.cliques@[
                                k]).is_active implies self.cliques@[k].members_ct != 0 by {
                            assert(gpre.cliques@[p[k]].is_active);
                        }
                    }
                }
                let ghost gswapped = *self;
                idx = idx + 1;
                self.cliques_ct = self.cliques_ct - 1;
                proof {
                    assert(!gswapped.cliques@[gswapped.ct() - 1].is_active);
                    assert(clique_ok(gswapped.vertices@, gswapped.n(), gswapped.cliques@[
                        gswapped.ct() - 1]));
                    lemma_inv_drop_empty_last(gswapped, *self);
                }
            } else {
                let ghost gpre2 = *self;
                proof {
                    if g0.prefix_all_active() && g0.no_eligible_pair() {
                        assert(g0.cliques@[gpre2.ct() - 1].is_active);
                        assert(false);
                    }
                }
                self.cliques_ct = self.cliques_ct - 1;
                proof {
                    assert(clique_ok(gpre2.vertices@, gpre2.n(), gpre2.cliques@[gpre2.ct() - 1]));
                    lemma_inv_drop_empty_last(gpre2, *self);
                }
            }
        }
    }

    /// One perturbed sweep: reverse the active prefix with the probability
    /// that `reverse_threshold` encodes (as a fraction of 2^32), otherwise
    /// shuffle it, then run one greedy sweep.  Whichever perturbation ran,
    /// over an all-active prefix it keeps every clique active and nonempty,
    /// and the sweep then empties the first clique's frontier.
    pub fn vcc_iterated_greedy(&mut self, reverse_threshold: u64)
        requires
            old(self).inv(),
            reverse_threshold <= FULL_REVERSE,
        ensures
            final(self).inv(),
            final(self).size == old(self).size,
            final(self).vertices@ == old(self).vertices@,
            final(self).cliques_ct <= old(self).cliques_ct,
            old(self).prefix_all_active() ==> final(self).first_frontier_empty(),
            old(self).prefix_all_active() ==> final(self).prefix_all_active(),
            (old(self).prefix_all_active() && old(self).actives_nonempty()) ==> final(self).actives_nonempty(),
    {
        let coin = random_u64_below(FULL_REVERSE);
        if coin < reverse_threshold {
            let ghost gpre = *self;
            self.reverse_active_cliques();
            proof {
                let ct = gpre.ct();
                let p = Seq::new(ct as nat, |x: int| ct - 1 - x);
                lemma_reversal_perm(ct);
                assert forall|k: int|
                    0 <= k < ct implies self.cliques@[k] == gpre.cliques@[#[trigger] p[k]] by {}
                assert(prefix_permuted(gpre.cliques@, self.cliques@, ct));
                lemma_perturbed_prefix_flags(gpre, *self);
            }
        } else {
            let ghost gpre = *self;
            self.shuffle_active_cliques();
            proof {
                lemma_perturbed_prefix_flags(gpre, *self);
            }
        }
        let ghost gmid = *self;
        self.vcc_greedy();
        proof {
            if old(self).prefix_all_active() {
                assert(gmid.cliques@[0].is_active);
            }
        }
    }

    /// Runs up to `num_iterations` perturbed sweeps, forcing a split of the
    /// first clique into a freshly activated one whenever the annealing
    /// counter fills (the threshold grows by two percent, truncating, each
    /// time), and reports whether a checkpoint ever saw the cover at or below
    /// `target`, along with the iterations spent and the final annealing
    /// threshold.  A reached target means the final cover size is at or
    /// below `target`; the adjacency is never changed.
    pub fn vcc_run_iterations_to_target(
        &mut self,
        num_iterations: usize,
        target: usize,
        reverse_threshold: u64,
    ) -> (r: RunReport)
        requires
            old(self).inv(),
            reverse_threshold <= FULL_REVERSE,
            num_iterations < usize::MAX,
        ensures
            final(self).inv(),
            final(self).size == old(self).size,
            final(self).vertices@ == old(self).vertices@,
            r.reached ==> final(self).cliques_ct <= target,
            !r.reached ==> r.iterations == num_iterations,
            r.iterations <= num_iterations,
            r.iterations_per_annealing >= 1_000_000,
    {
        let mut pri_cliques = self.cliques_ct;
        let mut iterations_per_annealing: usize = 1_000_000;
        let annealings_per_slowdown: usize = 1;
        let mut cur_annealing_iterations: usize = 0;
        let mut cur_annealing_annealings: usize = 0;
        let mut i: usize = 1;
        while i <= num_iterations
            invariant
                self.inv(),
                self.size == old(self).size,
                self.vertices@ == old(self).vertices@,
                reverse_threshold <= FULL_REVERSE,
                num_iterations < usize::MAX,
                1 <= i <= num_iterations + 1,
                annealings_per_slowdown == 1,
                cur_annealing_annealings == 0,
                cur_annealing_iterations <= i - 1,
                iterations_per_annealing >= 1_000_000,
                iterations_per_annealing <= 1_000_000 + (i - 1 - cur_annealing_iterations) / 50,
            decreases num_iterations + 1 - i,
        {
            let ghost i0 = i as int;
            let ghost cur0 = cur_annealing_iterations as int;
            let ghost ipa0 = iterations_per_annealing as int;
            cur_annealing_iterations = cur_annealing_iterations + 1;
            if cur_annealing_iterations >= iterations_per_annealing {
                cur_annealing_iterations = 0;
                cur_annealing_annealings = cur_annealing_annealings + 1;
                if cur_annealing_annealings >= annealings_per_slowdown {
                    cur_annealing_annealings = 0;
                    proof {
                        lemma_div_halves_bound(i0 - 1 - cur0, cur0 + 1, ipa0);
                    }
                    iterations_per_annealing = iterations_per_annealing
                        + iterations_per_annealing / 50;
                }
                self.activate_inactive_clique();
                let c0_count = self.cliques[0].members_ct;
                if self.cliques_ct >= 2 && c0_count > 0 {
                    let pick = random_below(c0_count);
                    proof {
                        assert(clique_ok(self.vertices@, self.n(), self.cliques@[0]));
                        assert(self.cliques@[0].wf());
                        assert(self.cliques@[0].members@[pick as int] < self.size);
                    }
                    let vertex_id_to_transfer = self.cliques[0].members[pick];
                    let into_idx = self.cliques_ct - 1;
                    self.transfer_vertex_into_clique(into_idx, 0, vertex_id_to_transfer);
                }
                self.vcc_iterated_greedy(FULL_REVERSE);
            }
            self.vcc_iterated_greedy(reverse_threshold);
            if i % 1_000_000 == 0 || self.cliques_ct < pri_cliques {
                if self.cliques_ct < pri_cliques {
                    cur_annealing_iterations = 0;
                }
                pri_cliques = self.cliques_ct;
                if self.cliques_ct <= target {
                    return RunReport { reached: true, iterations: i, iterations_per_annealing };
                }
            }
            i = i + 1;
        }
        RunReport { reached: false, iterations: num_iterations, iterations_per_annealing }
    }
}

/// Truncating division by fifty is superadditive, which bounds the growth of
/// the annealing threshold by the iterations spent reaching it.
proof fn lemma_div_halves_bound(a: int, b: int, ipa: int)
    requires
        a >= 0,
        b >= 1,
        ipa >= 0,
        ipa <= 1_000_000 + a / 50,
        ipa <= b,
    ensures
        ipa + ipa / 50 <= 1_000_000 + (a + b) / 50,
{
    assert(ipa / 50 <= b / 50) by {
        assert(ipa <= b);
        assert(ipa / 50 <= b / 50) by (nonlinear_arith)
            requires
                0 <= ipa <= b,
        ;
    }
    assert(a / 50 + b / 50 <= (a + b) / 50) by (nonlinear_arith)
        requires
            a >= 0,
            b >= 0,
    ;
}

} // verus!
