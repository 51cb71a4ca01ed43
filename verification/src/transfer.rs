//! The transfer operation: moving a compatible set of vertices from one
//! clique into another while keeping every invariant.  Both selection
//! policies (the whole compatible set, or one chosen vertex) mark the vertices
//! to move in the graph's scratch bit set and delegate to one mutation
//! routine.

use vstd::prelude::*;

use crate::bits::{bv_and, bv_bits, bv_get, bv_none, bv_or, bv_set, bv_set_all_false, bv_set_all_true, bv_xor, seq_and, BitSet};
use crate::clique::Clique;
use crate::graph::{
    all_members_adjacent_to, clique_ok, frontier_exact, members_pairwise_adjacent, spec_adj,
    vertices_ok, Graph,
};

verus! {

/// Vertex `v` is marked in the scratch set.
pub open spec fn in_util(u: BitSet, v: int) -> bool {
    0 <= v < bv_bits(u).len() && bv_bits(u)[v]
}

/// The marked vertices, as a predicate on ids from a member list.
pub open spec fn moved_pred(util: BitSet) -> spec_fn(usize) -> bool {
    |m: usize| in_util(util, m as int)
}

/// The unmarked vertices, as a predicate on ids from a member list.
pub open spec fn kept_pred(util: BitSet) -> spec_fn(usize) -> bool {
    |m: usize| !in_util(util, m as int)
}

/// Every id in the list is adjacent to `v`.
pub open spec fn adj_to_all_listed(vs: Seq<Clique>, l: Seq<usize>, v: int) -> bool {
    forall|k: int| 0 <= k < l.len() ==> spec_adj(vs, (#[trigger] l[k]) as int, v)
}

proof fn lemma_adj_listed_push(vs: Seq<Clique>, l: Seq<usize>, m: usize, v: int)
    ensures
        adj_to_all_listed(vs, l.push(m), v) <==> (adj_to_all_listed(vs, l, v) && spec_adj(
            vs,
            m as int,
            v,
        )),
{
    assert(l.push(m)[l.len() as int] == m);
    if adj_to_all_listed(vs, l.push(m), v) {
        assert forall|k: int| 0 <= k < l.len() implies spec_adj(vs, (#[trigger] l[k]) as int, v) by {
            assert(l.push(m)[k] == l[k]);
        }
    }
    if adj_to_all_listed(vs, l, v) && spec_adj(vs, m as int, v) {
        assert forall|k: int| 0 <= k < l.push(m).len() implies spec_adj(
            vs,
            (#[trigger] l.push(m)[k]) as int,
            v,
        ) by {
            if k < l.len() {
                assert(l.push(m)[k] == l[k]);
            } else {
                assert(l.push(m)[k] == m);
            }
        }
    }
}

proof fn lemma_filter_no_dup<A>(s: Seq<A>, pred: spec_fn(A) -> bool)
    requires
        s.no_duplicates(),
    ensures
        s.filter(pred).no_duplicates(),
    decreases s.len(),
{
    if s.len() == 0 {
        assert(s =~= Seq::<A>::empty());
        assert(s.filter(pred) =~= Seq::<A>::empty());
    } else {
        let rest = s.drop_last();
        let last = s.last();
        assert(rest.no_duplicates());
        lemma_filter_no_dup(rest, pred);
        assert(s =~= rest.push(last));
        rest.lemma_filter_push(last, pred);
        if pred(last) {
            assert(s.filter(pred) == rest.filter(pred).push(last));
            if rest.filter(pred).contains(last) {
                rest.lemma_filter_contains_rev(pred, last);
                let k = choose|k: int| 0 <= k < rest.len() && rest[k] == last;
                assert(s[k] == s[s.len() - 1]);
                assert(false);
            }
        }
    }
}

/// Moves the vertices marked in `utility_bv` out of `clique_from` and into
/// `clique_into`, shrinking `clique_into`'s frontier incrementally by the
/// movers' adjacency rows and refolding `clique_from`'s frontier from its
/// remaining members; a depleted `clique_from` is deactivated.
#[verifier::rlimit(60)]
pub(crate) fn transfer_vertices_in_utility_bv_between_cliques(
    clique_into: &mut Clique,
    clique_from: &mut Clique,
    utility_bv: &BitSet,
    vertices_vec: &Vec<Clique>,
)
    requires
        vertices_ok(vertices_vec@, old(clique_into).length as int),
        clique_ok(vertices_vec@, old(clique_into).length as int, *old(clique_into)),
        clique_ok(vertices_vec@, old(clique_into).length as int, *old(clique_from)),
        old(clique_into).is_active,
        bv_bits(*utility_bv).len() == old(clique_into).length,
        forall|v: int| #[trigger] in_util(*utility_bv, v) ==> old(clique_from).spec_member(v),
        forall|v: int| #[trigger] in_util(*utility_bv, v) ==> old(clique_into).spec_frontier(v),
        exists|v: int| #[trigger] in_util(*utility_bv, v),
        forall|v: int|
            !((#[trigger] old(clique_into).spec_member(v)) && old(clique_from).spec_member(v)),
    ensures
        clique_ok(vertices_vec@, old(clique_into).length as int, *final(clique_into)),
        clique_ok(vertices_vec@, old(clique_into).length as int, *final(clique_from)),
        final(clique_into).length == old(clique_into).length,
        final(clique_from).length == old(clique_from).length,
        final(clique_into).id == old(clique_into).id,
        final(clique_from).id == old(clique_from).id,
        final(clique_into).is_active,
        forall|v: int|
            #[trigger] final(clique_into).spec_member(v) <==> (old(clique_into).spec_member(v)
                || in_util(*utility_bv, v)),
        forall|v: int|
            #[trigger] final(clique_from).spec_member(v) <==> (old(clique_from).spec_member(v)
                && !in_util(*utility_bv, v)),
        final(clique_from).is_active <==> final(clique_from).members_ct != 0,
        final(clique_into).has_neighbors <==> (exists|v: int|
            #[trigger] final(clique_into).spec_frontier(v)),
        final(clique_from).has_neighbors,
{
    let ghost n = old(clique_into).length as int;
    let ghost vs = vertices_vec@;
    let ghost util = *utility_bv;
    let ghost old_into = *old(clique_into);
    let ghost old_from = *old(clique_from);

    let from_length = clique_from.length;
    bv_or(&mut clique_into.members_bv, utility_bv);
    bv_xor(&mut clique_from.members_bv, utility_bv);
    bv_set_all_true(&mut clique_from.neighbors_bv, from_length);

    let ghost orig = clique_from.members@;
    let ghost movp = moved_pred(util);
    let ghost keepp = kept_pred(util);

    proof {
        assert forall|v: int|
            0 <= v < n implies (bv_bits(clique_from.members_bv)[v] <==> (old_from.spec_member(v)
            && !in_util(util, v))) by {
            if in_util(util, v) {
                assert(old_from.spec_member(v));
            }
        }
        assert forall|v: int|
            0 <= v < n implies (bv_bits(clique_into.members_bv)[v] <==> (old_into.spec_member(v)
            || in_util(util, v))) by {}
        assert(orig.take(0) =~= Seq::<usize>::empty());
        assert(orig.take(0).filter(movp) =~= Seq::<usize>::empty());
        assert(orig.take(0).filter(keepp) =~= Seq::<usize>::empty());
        assert(clique_into.members@ + orig.take(0).filter(movp) =~= clique_into.members@);
    }

    let mut kept: Vec<usize> = Vec::new();
    let mut idx: usize = 0;
    while idx < clique_from.members.len()
        invariant
            vertices_ok(vs, n),
            vs == vertices_vec@,
            util == *utility_bv,
            bv_bits(util).len() == n,
            clique_ok(vs, n, old_into),
            clique_ok(vs, n, old_from),
            old_into.is_active,
            forall|v: int| #[trigger] in_util(util, v) ==> old_from.spec_member(v),
            forall|v: int| #[trigger] in_util(util, v) ==> old_into.spec_frontier(v),
            forall|v: int| !((#[trigger] old_into.spec_member(v)) && old_from.spec_member(v)),
            movp == moved_pred(util),
            keepp == kept_pred(util),
            idx <= orig.len(),
            clique_from.members@ == orig,
            orig == old_from.members@,
            clique_from.members_ct == old_from.members_ct,
            clique_from.length == old_from.length,
            old_from.length == n,
            clique_from.id == old_from.id,
            clique_from.is_active == old_from.is_active,
            bv_bits(clique_from.members_bv).len() == n,
            forall|v: int|
                0 <= v < n ==> (bv_bits(clique_from.members_bv)[v] <==> (old_from.spec_member(v)
                    && !in_util(util, v))),
            bv_bits(clique_from.neighbors_bv).len() == n,
            forall|v: int|
                0 <= v < n ==> (bv_bits(clique_from.neighbors_bv)[v] <==> adj_to_all_listed(
                    vs,
                    orig.take(idx as int).filter(keepp),
                    v,
                )),
            clique_into.length == old_into.length,
            old_into.length == n,
            clique_into.id == old_into.id,
            clique_into.is_active,
            clique_into.has_neighbors == old_into.has_neighbors,
            clique_into.members_ct == old_into.members_ct,
            bv_bits(clique_into.members_bv).len() == n,
            forall|v: int|
                0 <= v < n ==> (bv_bits(clique_into.members_bv)[v] <==> (old_into.spec_member(v)
                    || in_util(util, v))),
            clique_into.members@ == old_into.members@ + orig.take(idx as int).filter(movp),
            bv_bits(clique_into.neighbors_bv).len() == n,
            forall|v: int|
                0 <= v < n ==> (bv_bits(clique_into.neighbors_bv)[v] <==> (old_into.spec_frontier(
                    v,
                ) && adj_to_all_listed(vs, orig.take(idx as int).filter(movp), v))),
            kept@ == orig.take(idx as int).filter(keepp),
        decreases orig.len() - idx,
    {
        let m = clique_from.members[idx];
        let ghost nb_into_entry = bv_bits(clique_into.neighbors_bv);
        let ghost nb_from_entry = bv_bits(clique_from.neighbors_bv);
        proof {
            assert(forall|v: int|
                0 <= v < n ==> (nb_into_entry[v] <==> (old_into.spec_frontier(v)
                    && adj_to_all_listed(vs, orig.take(idx as int).filter(movp), v))));
            assert(forall|v: int|
                0 <= v < n ==> (nb_from_entry[v] <==> adj_to_all_listed(
                    vs,
                    orig.take(idx as int).filter(keepp),
                    v,
                )));
            assert(old_from.wf());
            assert(orig[idx as int] == m);
            assert(m < n);
            assert(old_from.members@.contains(m));
            assert(old_from.spec_member(m as int));
            assert(vs[m as int].wf());
            assert(vs[m as int].length == n);
            assert(orig.take(idx + 1) =~= orig.take(idx as int).push(m));
            orig.take(idx as int).lemma_filter_push(m, movp);
            orig.take(idx as int).lemma_filter_push(m, keepp);
        }
        if bv_get(utility_bv, m) {
            proof {
                assert(in_util(util, m as int));
                assert(movp(m));
                assert(!keepp(m));
            }
            let ghost row = bv_bits(vertices_vec[m as int].neighbors_bv);
            bv_and(&mut clique_into.neighbors_bv, &vertices_vec[m].neighbors_bv);
            clique_into.members.push(m);
            proof {
                let lf = orig.take(idx as int).filter(movp);
                assert(orig.take(idx + 1).filter(movp) == lf.push(m));
                assert((old_into.members@ + lf).push(m) =~= old_into.members@ + lf.push(m));
                assert(orig.take(idx + 1).filter(keepp) == orig.take(idx as int).filter(keepp));
                assert(bv_bits(clique_into.neighbors_bv) == seq_and(nb_into_entry, row));
                assert forall|v: int|
                    0 <= v < n implies (bv_bits(clique_into.neighbors_bv)[v] <==> (
                old_into.spec_frontier(v) && adj_to_all_listed(
                    vs,
                    orig.take(idx + 1).filter(movp),
                    v,
                ))) by {
                    assert(seq_and(nb_into_entry, row)[v] == (nb_into_entry[v] && row[v]));
                    assert(nb_into_entry[v] <==> (old_into.spec_frontier(v) && adj_to_all_listed(
                        vs,
                        lf,
                        v,
                    )));
                    assert(row[v] == spec_adj(vs, m as int, v));
                    lemma_adj_listed_push(vs, lf, m, v);
                }
            }
        } else {
            proof {
                assert(!in_util(util, m as int));
                assert(!movp(m));
                assert(keepp(m));
            }
            let ghost row = bv_bits(vertices_vec[m as int].neighbors_bv);
            bv_and(&mut clique_from.neighbors_bv, &vertices_vec[m].neighbors_bv);
            kept.push(m);
            proof {
                let lf = orig.take(idx as int).filter(keepp);
                assert(orig.take(idx + 1).filter(keepp) == lf.push(m));
                assert(orig.take(idx + 1).filter(movp) == orig.take(idx as int).filter(movp));
                assert(bv_bits(clique_from.neighbors_bv) == seq_and(nb_from_entry, row));
                assert forall|v: int|
                    0 <= v < n implies (bv_bits(clique_from.neighbors_bv)[v]
                    <==> adj_to_all_listed(vs, orig.take(idx + 1).filter(keepp), v)) by {
                    assert(seq_and(nb_from_entry, row)[v] == (nb_from_entry[v] && row[v]));
                    assert(nb_from_entry[v] <==> adj_to_all_listed(vs, lf, v));
                    assert(row[v] == spec_adj(vs, m as int, v));
                    lemma_adj_listed_push(vs, lf, m, v);
                }
            }
        }
        idx = idx + 1;
    }
    proof {
        assert(orig.take(orig.len() as int) =~= orig);
    }
    let ghost moved = orig.filter(movp);
    let ghost kept_l = orig.filter(keepp);
    clique_from.members = kept;
    let from_len = clique_from.members.len();
    clique_from.members_ct = from_len;
    let into_len = clique_into.members.len();
    clique_into.members_ct = into_len;
    if from_len == 0 {
        clique_from.has_neighbors = true;
        clique_from.is_active = false;
    } else {
        clique_from.has_neighbors = true;
    }
    if bv_none(&clique_into.neighbors_bv) {
        clique_into.has_neighbors = false;
    }
    proof {
        let fi = *clique_into;
        let ff = *clique_from;
        assert(old_into.wf());
        assert(old_from.wf());
        assert(orig.no_duplicates()) by {
            assert(forall|k1: int, k2: int|
                0 <= k1 < k2 < orig.len() ==> orig[k1] != orig[k2]);
        }
        lemma_filter_no_dup(orig, movp);
        lemma_filter_no_dup(orig, keepp);

        // membership characterizations at the list level
        assert forall|x: usize| #[trigger] moved.contains(x) implies (in_util(util, x as int)
            && orig.contains(x)) by {
            let k = choose|k: int| 0 <= k < moved.len() && moved[k] == x;
            orig.lemma_filter_pred(movp, k);
            orig.lemma_filter_contains_rev(movp, x);
        }
        assert forall|x: usize| orig.contains(x) && in_util(util, x as int) implies #[trigger] moved
            .contains(x) by {
            let k = choose|k: int| 0 <= k < orig.len() && orig[k] == x;
            orig.lemma_filter_contains(movp, k);
        }
        assert forall|x: usize| #[trigger] kept_l.contains(x) implies (!in_util(util, x as int)
            && orig.contains(x)) by {
            let k = choose|k: int| 0 <= k < kept_l.len() && kept_l[k] == x;
            orig.lemma_filter_pred(keepp, k);
            orig.lemma_filter_contains_rev(keepp, x);
        }
        assert forall|x: usize| orig.contains(x) && !in_util(util, x as int) implies #[trigger] kept_l
            .contains(x) by {
            let k = choose|k: int| 0 <= k < orig.len() && orig[k] == x;
            orig.lemma_filter_contains(keepp, k);
        }

        // the concatenated into list: element bounds, duplicates, sync
        assert(fi.members@ == old_into.members@ + moved);
        assert forall|k: int| 0 <= k < fi.members@.len() implies (#[trigger] fi.members@[k])
            < fi.length by {
            if k < old_into.members@.len() {
                assert(fi.members@[k] == old_into.members@[k]);
            } else {
                let k2 = k - old_into.members@.len();
                assert(fi.members@[k] == moved[k2]);
                orig.lemma_filter_contains_rev(movp, moved[k2]);
                let k3 = choose|k3: int| 0 <= k3 < orig.len() && orig[k3] == moved[k2];
                assert(old_from.members@[k3] < old_from.length);
            }
        }
        assert forall|x: usize| #[trigger] old_into.members@.contains(x) implies old_into.spec_member(
            x as int,
        ) by {}
        assert forall|k1: int, k2: int| 0 <= k1 < k2 < fi.members@.len() implies fi.members@[k1]
            != fi.members@[k2] by {
            let la = old_into.members@.len();
            if k2 < la {
            } else if k1 >= la {
                assert(moved[k1 - la] != moved[k2 - la]);
            } else {
                let x = fi.members@[k1];
                assert(old_into.members@.contains(x));
                assert(old_into.spec_member(x as int));
                if fi.members@[k2] == x {
                    assert(moved.contains(moved[k2 - la]));
                    assert(in_util(util, x as int));
                    assert(old_from.spec_member(x as int));
                    assert(false);
                }
            }
        }
        assert forall|v: int|
            0 <= v < fi.length implies (bv_bits(fi.members_bv)[v] <==> fi.members@.contains(
            v as usize,
        )) by {
            if bv_bits(fi.members_bv)[v] {
                if old_into.spec_member(v) {
                    assert(old_into.members@.contains(v as usize));
                    let k = choose|k: int|
                        0 <= k < old_into.members@.len() && old_into.members@[k] == v as usize;
                    assert(fi.members@[k] == v as usize);
                } else {
                    assert(in_util(util, v));
                    assert(old_from.spec_member(v));
                    assert(old_from.members@.contains(v as usize));
                    assert(moved.contains(v as usize));
                    let k = choose|k: int| 0 <= k < moved.len() && moved[k] == v as usize;
                    assert(fi.members@[old_into.members@.len() + k] == v as usize);
                }
            }
            if fi.members@.contains(v as usize) {
                let k = choose|k: int| 0 <= k < fi.members@.len() && fi.members@[k] == v as usize;
                if k < old_into.members@.len() {
                    assert(old_into.members@.contains(v as usize));
                    assert(old_into.spec_member(v));
                } else {
                    assert(moved.contains(v as usize));
                }
            }
        }
        assert(fi.wf());

        // the kept from list: sync and shape
        assert(ff.members@ == kept_l);
        assert forall|k: int| 0 <= k < ff.members@.len() implies (#[trigger] ff.members@[k])
            < ff.length by {
            orig.lemma_filter_contains_rev(keepp, kept_l[k]);
            let k3 = choose|k3: int| 0 <= k3 < orig.len() && orig[k3] == kept_l[k];
            assert(old_from.members@[k3] < old_from.length);
        }
        assert forall|v: int|
            0 <= v < ff.length implies (bv_bits(ff.members_bv)[v] <==> ff.members@.contains(
            v as usize,
        )) by {
            if bv_bits(ff.members_bv)[v] {
                assert(old_from.spec_member(v) && !in_util(util, v));
                assert(old_from.members@.contains(v as usize));
                assert(kept_l.contains(v as usize));
            }
            if ff.members@.contains(v as usize) {
                assert(kept_l.contains(v as usize));
                assert(orig.contains(v as usize));
                assert(old_from.spec_member(v));
            }
        }
        assert(ff.wf());

        // member-set characterizations
        assert forall|v: int| #[trigger] fi.spec_member(v) <==> (old_into.spec_member(v) || in_util(
            util,
            v,
        )) by {
            if in_util(util, v) {
                assert(old_from.spec_member(v));
            }
        }
        assert forall|v: int| #[trigger] ff.spec_member(v) <==> (old_from.spec_member(v)
            && !in_util(util, v)) by {}

        // pairwise adjacency of the grown clique
        assert(members_pairwise_adjacent(vs, fi)) by {
            assert forall|u: int, v: int|
                #[trigger] fi.spec_member(u) && #[trigger] fi.spec_member(v) && u
                != v implies spec_adj(vs, u, v) by {
                if old_into.spec_member(u) && old_into.spec_member(v) {
                    assert(members_pairwise_adjacent(vs, old_into));
                } else if old_into.spec_member(u) && in_util(util, v) {
                    assert(old_into.spec_frontier(v));
                    assert(frontier_exact(vs, old_into));
                    assert(all_members_adjacent_to(vs, old_into, v));
                    assert(spec_adj(vs, u, v));
                } else if in_util(util, u) && old_into.spec_member(v) {
                    assert(old_into.spec_frontier(u));
                    assert(all_members_adjacent_to(vs, old_into, u));
                    assert(spec_adj(vs, v, u));
                    assert(spec_adj(vs, u, v));
                } else {
                    assert(old_from.spec_member(u) && old_from.spec_member(v));
                    assert(members_pairwise_adjacent(vs, old_from));
                }
            }
        }
        assert(members_pairwise_adjacent(vs, ff)) by {
            assert forall|u: int, v: int|
                #[trigger] ff.spec_member(u) && #[trigger] ff.spec_member(v) && u
                != v implies spec_adj(vs, u, v) by {
                assert(members_pairwise_adjacent(vs, old_from));
            }
        }

        // exact frontiers
        assert(frontier_exact(vs, fi)) by {
            assert forall|v: int|
                0 <= v < fi.length implies ((#[trigger] fi.spec_frontier(v)) <==> (!fi.spec_member(
                v,
            ) && all_members_adjacent_to(vs, fi, v))) by {
                if fi.spec_frontier(v) {
                    assert(old_into.spec_frontier(v));
                    assert(adj_to_all_listed(vs, moved, v));
                    assert(frontier_exact(vs, old_into));
                    assert(!old_into.spec_member(v));
                    if in_util(util, v) {
                        assert(moved.contains(v as usize));
                        let k = choose|k: int| 0 <= k < moved.len() && moved[k] == v as usize;
                        assert(spec_adj(vs, v, v));
                        assert(false);
                    }
                    assert(!fi.spec_member(v));
                    assert forall|u: int| #[trigger] fi.spec_member(u) implies spec_adj(
                        vs,
                        u,
                        v,
                    ) by {
                        if old_into.spec_member(u) {
                            assert(all_members_adjacent_to(vs, old_into, v));
                        } else {
                            assert(in_util(util, u));
                            assert(0 <= u < n);
                            assert(old_from.spec_member(u));
                            assert(moved.contains(u as usize));
                            let k = choose|k: int| 0 <= k < moved.len() && moved[k] == u as usize;
                            assert(spec_adj(vs, moved[k] as int, v));
                        }
                    }
                }
                if !fi.spec_member(v) && all_members_adjacent_to(vs, fi, v) {
                    assert(!old_into.spec_member(v) && !in_util(util, v));
                    assert forall|u: int| #[trigger] old_into.spec_member(u) implies spec_adj(
                        vs,
                        u,
                        v,
                    ) by {
                        assert(fi.spec_member(u));
                    }
                    assert(all_members_adjacent_to(vs, old_into, v));
                    assert(frontier_exact(vs, old_into));
                    assert(old_into.spec_frontier(v));
                    assert forall|k: int| 0 <= k < moved.len() implies spec_adj(
                        vs,
                        (#[trigger] moved[k]) as int,
                        v,
                    ) by {
                        assert(moved.contains(moved[k]));
                        assert(in_util(util, moved[k] as int));
                        assert(fi.spec_member(moved[k] as int));
                    }
                    assert(adj_to_all_listed(vs, moved, v));
                }
            }
        }
        assert(frontier_exact(vs, ff)) by {
            assert forall|v: int|
                0 <= v < ff.length implies ((#[trigger] ff.spec_frontier(v)) <==> (!ff.spec_member(
                v,
            ) && all_members_adjacent_to(vs, ff, v))) by {
                if ff.spec_frontier(v) {
                    assert(adj_to_all_listed(vs, kept_l, v));
                    if ff.spec_member(v) {
                        assert(kept_l.contains(v as usize));
                        let k = choose|k: int| 0 <= k < kept_l.len() && kept_l[k] == v as usize;
                        assert(spec_adj(vs, kept_l[k] as int, v));
                        assert(spec_adj(vs, v, v));
                        assert(false);
                    }
                    assert forall|u: int| #[trigger] ff.spec_member(u) implies spec_adj(
                        vs,
                        u,
                        v,
                    ) by {
                        assert(0 <= u < n);
                        assert(kept_l.contains(u as usize));
                        let k = choose|k: int| 0 <= k < kept_l.len() && kept_l[k] == u as usize;
                        assert(spec_adj(vs, kept_l[k] as int, v));
                    }
                }
                if !ff.spec_member(v) && all_members_adjacent_to(vs, ff, v) {
                    assert forall|k: int| 0 <= k < kept_l.len() implies spec_adj(
                        vs,
                        (#[trigger] kept_l[k]) as int,
                        v,
                    ) by {
                        assert(kept_l.contains(kept_l[k]));
                        assert(orig.contains(kept_l[k]));
                        assert(old_from.spec_member(kept_l[k] as int));
                        assert(ff.spec_member(kept_l[k] as int));
                    }
                    assert(adj_to_all_listed(vs, kept_l, v));
                }
            }
        }

        // cached flags: the target's is recomputed exactly, the source's is
        // set true outright
        assert(fi.has_neighbors <==> (exists|v: int| #[trigger] fi.spec_frontier(v))) by {
            if exists|v: int| #[trigger] fi.spec_frontier(v) {
                let v = choose|v: int| #[trigger] fi.spec_frontier(v);
                assert(old_into.spec_frontier(v));
                assert(old_into.has_neighbors);
                assert(bv_bits(fi.neighbors_bv)[v]);
            } else {
                assert forall|i2: int|
                    0 <= i2 < bv_bits(fi.neighbors_bv).len() implies !bv_bits(
                    fi.neighbors_bv,
                )[i2] by {
                    assert(!fi.spec_frontier(i2));
                }
            }
        }
        assert(clique_ok(vs, n, fi));
        assert(clique_ok(vs, n, ff));
    }
}

/// Vertex `v` is eligible to move from `cliques[j]` into `cliques[i]`: it is
/// a member of the one and on the frontier of the other.
pub open spec fn compatible_vertex(g: Graph, i: int, j: int, v: int) -> bool {
    g.cliques@[i].spec_frontier(v) && g.cliques@[j].spec_member(v)
}

/// The invariant only measures the scratch set's length, so rewriting the
/// scratch contents alone keeps it.
proof fn lemma_inv_scratch_only(g0: Graph, g1: Graph)
    requires
        g0.inv(),
        g1.size == g0.size,
        g1.cliques_ct == g0.cliques_ct,
        g1.vertices@ == g0.vertices@,
        g1.cliques@ == g0.cliques@,
        bv_bits(g1.utility_bv).len() == g1.n(),
    ensures
        g1.inv(),
{
    assert forall|k: int| 0 <= k < g1.ct() implies clique_ok(
        g1.vertices@,
        g1.n(),
        #[trigger] g1.cliques@[k],
    ) by {
        assert(clique_ok(g0.vertices@, g0.n(), g0.cliques@[k]));
    }
    assert forall|k: int| g1.ct() <= k < g1.n() implies crate::graph::reserve_ok(
        g1.n(),
        #[trigger] g1.cliques@[k],
    ) by {
        assert(crate::graph::reserve_ok(g0.n(), g0.cliques@[k]));
    }
    assert forall|v: int| 0 <= v < g1.n() implies #[trigger] g1.covered_by_prefix(v) by {
        assert(g0.covered_by_prefix(v));
        let k = choose|k: int| 0 <= k < g0.ct() && (#[trigger] g0.cliques@[k]).spec_member(v);
        assert(g1.cliques@[k].spec_member(v));
    }
    assert forall|a: int, b: int, v: int|
        #![trigger g1.cliques@[a].spec_member(v), g1.cliques@[b].spec_member(v)]
        0 <= a < b < g1.ct() implies !(g1.cliques@[a].spec_member(v)
        && g1.cliques@[b].spec_member(v)) by {
        assert(!(g0.cliques@[a].spec_member(v) && g0.cliques@[b].spec_member(v)));
    }
}

/// Restores the graph invariant after a transfer touched only `cliques[i]`
/// (which gained the marked vertices) and `cliques[j]` (which lost them).
proof fn lemma_inv_after_transfer(g0: Graph, g1: Graph, i: int, j: int, util: BitSet)
    requires
        g0.inv(),
        0 <= i < g0.ct(),
        0 <= j < g0.ct(),
        i != j,
        g1.size == g0.size,
        g1.cliques_ct == g0.cliques_ct,
        g1.vertices@ == g0.vertices@,
        g1.cliques@.len() == g0.cliques@.len(),
        bv_bits(g1.utility_bv).len() == g1.n(),
        forall|k: int|
            0 <= k < g0.n() && k != i && k != j ==> g1.cliques@[k] == g0.cliques@[k],
        clique_ok(g1.vertices@, g1.n(), g1.cliques@[i]),
        clique_ok(g1.vertices@, g1.n(), g1.cliques@[j]),
        forall|v: int|
            #[trigger] g1.cliques@[i].spec_member(v) <==> (g0.cliques@[i].spec_member(v)
                || in_util(util, v)),
        forall|v: int|
            #[trigger] g1.cliques@[j].spec_member(v) <==> (g0.cliques@[j].spec_member(v)
                && !in_util(util, v)),
        forall|v: int| #[trigger] in_util(util, v) ==> g0.cliques@[j].spec_member(v),
    ensures
        g1.inv(),
{
    let n = g0.n();
    let ct = g0.ct();
    assert forall|k: int| 0 <= k < n implies (#[trigger] g1.cliques@[k]).wf()
        && g1.cliques@[k].length == n by {
        if k != i && k != j {
            assert(g1.cliques@[k] == g0.cliques@[k]);
            if k < ct {
                assert(clique_ok(g0.vertices@, n, g0.cliques@[k]));
            } else {
                assert(crate::graph::reserve_ok(n, g0.cliques@[k]));
            }
        }
    }
    assert forall|k: int| 0 <= k < ct implies clique_ok(
        g1.vertices@,
        n,
        #[trigger] g1.cliques@[k],
    ) by {
        if k != i && k != j {
            assert(g1.cliques@[k] == g0.cliques@[k]);
            assert(clique_ok(g0.vertices@, n, g0.cliques@[k]));
        }
    }
    assert forall|k: int| ct <= k < n implies crate::graph::reserve_ok(
        n,
        #[trigger] g1.cliques@[k],
    ) by {
        assert(g1.cliques@[k] == g0.cliques@[k]);
    }
    assert forall|v: int| 0 <= v < n implies #[trigger] g1.covered_by_prefix(v) by {
        assert(g0.covered_by_prefix(v));
        let k = choose|k: int| 0 <= k < ct && (#[trigger] g0.cliques@[k]).spec_member(v);
        if k == i {
            assert(g1.cliques@[i].spec_member(v));
        } else if k == j {
            if in_util(util, v) {
                assert(g1.cliques@[i].spec_member(v));
            } else {
                assert(g1.cliques@[j].spec_member(v));
            }
        } else {
            assert(g1.cliques@[k].spec_member(v));
        }
    }
    assert forall|a: int, b: int, v: int|
        #![trigger g1.cliques@[a].spec_member(v), g1.cliques@[b].spec_member(v)]
        0 <= a < b < ct implies !(g1.cliques@[a].spec_member(v) && g1.cliques@[b].spec_member(
        v,
    )) by {
        if g1.cliques@[a].spec_member(v) && g1.cliques@[b].spec_member(v) {
            let m0a = g0.cliques@[a].spec_member(v);
            let m0b = g0.cliques@[b].spec_member(v);
            if a != i && a != j && b != i && b != j {
                assert(m0a && m0b);
            } else if a == i || b == i {
                let o = if a == i { b } else { a };
                if o == j {
                    assert(false);
                } else {
                    if in_util(util, v) {
                        assert(g0.cliques@[j].spec_member(v));
                        assert(g0.cliques@[o].spec_member(v));
                        assert(false);
                    } else {
                        assert(g0.cliques@[i].spec_member(v));
                        assert(g0.cliques@[o].spec_member(v));
                        assert(false);
                    }
                }
            } else {
                assert(a == j || b == j);
                let o = if a == j { b } else { a };
                assert(g0.cliques@[j].spec_member(v));
                assert(g0.cliques@[o].spec_member(v));
                assert(false);
            }
        }
    }
}

impl Graph {
    /// Moves the whole compatible set `frontier(i) ∩ members(j)` from
    /// `cliques[j]` into `cliques[i]` at once; when that set is empty (or the
    /// frontier cache says the frontier is), both cliques are left untouched.
    pub fn transfer_compatible_vertices(&mut self, i: usize, j: usize)
        requires
            old(self).inv(),
            i < old(self).cliques_ct,
            j < old(self).cliques_ct,
            i != j,
            old(self).cliques@[i as int].is_active,
        ensures
            final(self).inv(),
            final(self).size == old(self).size,
            final(self).cliques_ct == old(self).cliques_ct,
            final(self).vertices@ == old(self).vertices@,
            forall|k: int|
                0 <= k < old(self).n() && k != i && k != j ==> final(self).cliques@[k] == old(self).cliques@[k],
            (!exists|v: int| #[trigger] compatible_vertex(*old(self), i as int, j as int, v))
                ==> final(self).cliques@ == old(self).cliques@,
            (exists|v: int| #[trigger] compatible_vertex(*old(self), i as int, j as int, v)) ==> {
                &&& forall|v: int|
                    #[trigger] final(self).cliques@[i as int].spec_member(v) <==> (old(self).cliques@[i as int].spec_member(v) || compatible_vertex(
                        *old(self),
                        i as int,
                        j as int,
                        v,
                    ))
                &&& forall|v: int|
                    #[trigger] final(self).cliques@[j as int].spec_member(v) <==> (old(self).cliques@[j as int].spec_member(v) && !compatible_vertex(
                        *old(self),
                        i as int,
                        j as int,
                        v,
                    ))
                &&& final(self).cliques@[i as int].is_active
                &&& (final(self).cliques@[j as int].is_active <==> final(self).cliques@[j
                    as int].members_ct != 0)
                &&& (final(self).cliques@[i as int].has_neighbors <==> (exists|v: int|
                    #[trigger] final(self).cliques@[i as int].spec_frontier(v)))
                &&& final(self).cliques@[j as int].has_neighbors
            },
    {
        let ghost g0 = *old(self);
        let ghost n = self.n();
        if !self.cliques[i].has_neighbors {
            proof {
                assert forall|v: int|
                    !(#[trigger] compatible_vertex(g0, i as int, j as int, v)) by {
                    if g0.cliques@[i as int].spec_frontier(v) {
                        assert(g0.cliques@[i as int].has_neighbors);
                    }
                }
            }
            return ;
        }
        bv_set_all_false(&mut self.utility_bv);
        bv_or(&mut self.utility_bv, &self.cliques[i].neighbors_bv);
        bv_and(&mut self.utility_bv, &self.cliques[j].members_bv);
        proof {
            assert forall|v: int|
                #[trigger] in_util(self.utility_bv, v) <==> compatible_vertex(
                g0,
                i as int,
                j as int,
                v,
            ) by {
                if 0 <= v < n {
                    assert(bv_bits(self.utility_bv)[v] == ((false
                        || bv_bits(g0.cliques@[i as int].neighbors_bv)[v]) && bv_bits(
                        g0.cliques@[j as int].members_bv,
                    )[v]));
                }
            }
        }
        if bv_none(&self.utility_bv) {
            proof {
                assert forall|v: int|
                    !(#[trigger] compatible_vertex(g0, i as int, j as int, v)) by {
                    if in_util(self.utility_bv, v) {
                        assert(bv_bits(self.utility_bv)[v]);
                    }
                }
                assert(self.cliques@ == g0.cliques@);
                lemma_inv_scratch_only(g0, *self);
            }
            return ;
        }
        let ghost wit = choose|w: int|
            0 <= w < bv_bits(self.utility_bv).len() && bv_bits(self.utility_bv)[w];
        let ghost util = self.utility_bv;
        let first = if i < j {
            i
        } else {
            j
        };
        let second = if i < j {
            j
        } else {
            i
        };
        let mut c_second = self.cliques.remove(second);
        let mut c_first = self.cliques.remove(first);
        proof {
            assert(c_first == g0.cliques@[first as int]);
            assert(c_second == g0.cliques@[second as int]);
            assert(in_util(self.utility_bv, wit));
        }
        if i < j {
            transfer_vertices_in_utility_bv_between_cliques(
                &mut c_first,
                &mut c_second,
                &self.utility_bv,
                &self.vertices,
            );
        } else {
            transfer_vertices_in_utility_bv_between_cliques(
                &mut c_second,
                &mut c_first,
                &self.utility_bv,
                &self.vertices,
            );
        }
        self.cliques.insert(first, c_first);
        self.cliques.insert(second, c_second);
        proof {
            assert(self.cliques@ =~= g0.cliques@.update(first as int, c_first).update(
                second as int,
                c_second,
            ));
            lemma_inv_after_transfer(g0, *self, i as int, j as int, util);
        }
    }

    /// Moves the single vertex `vertex_id` from `cliques[from_idx]` into
    /// `cliques[into_idx]`, provided all four guards hold: the target's
    /// frontier cache is set, the vertex is a member of the source, it is on
    /// the target's frontier, and the target is active.  Otherwise both
    /// cliques are left untouched.
    pub fn transfer_vertex_into_clique(&mut self, into_idx: usize, from_idx: usize, vertex_id: usize)
        requires
            old(self).inv(),
            into_idx < old(self).cliques_ct,
            from_idx < old(self).cliques_ct,
            into_idx != from_idx,
            vertex_id < old(self).size,
        ensures
            final(self).inv(),
            final(self).size == old(self).size,
            final(self).cliques_ct == old(self).cliques_ct,
            final(self).vertices@ == old(self).vertices@,
            forall|k: int|
                0 <= k < old(self).n() && k != into_idx && k != from_idx ==> final(self).cliques@[k]
                    == old(self).cliques@[k],
            !single_transfer_allowed(*old(self), into_idx as int, from_idx as int, vertex_id as int)
                ==> final(self).cliques@ == old(self).cliques@,
            single_transfer_allowed(*old(self), into_idx as int, from_idx as int, vertex_id as int)
                ==> {
                &&& forall|v: int|
                    #[trigger] final(self).cliques@[into_idx as int].spec_member(v) <==> (old(self).cliques@[into_idx as int].spec_member(v) || v == vertex_id)
                &&& forall|v: int|
                    #[trigger] final(self).cliques@[from_idx as int].spec_member(v) <==> (old(self).cliques@[from_idx as int].spec_member(v) && v != vertex_id)
                &&& final(self).cliques@[into_idx as int].is_active
                &&& (final(self).cliques@[from_idx as int].is_active <==> final(self).cliques@[from_idx as int].members_ct != 0)
                &&& (final(self).cliques@[into_idx as int].has_neighbors <==> (exists|v: int|
                    #[trigger] final(self).cliques@[into_idx as int].spec_frontier(v)))
                &&& final(self).cliques@[from_idx as int].has_neighbors
            },
    {
        let ghost g0 = *old(self);
        let ghost n = self.n();
        if !self.cliques[into_idx].has_neighbors {
            return ;
        }
        if !bv_get(&self.cliques[from_idx].members_bv, vertex_id) {
            return ;
        }
        if !bv_get(&self.cliques[into_idx].neighbors_bv, vertex_id) {
            return ;
        }
        if !self.cliques[into_idx].is_active {
            return ;
        }
        bv_set_all_false(&mut self.utility_bv);
        bv_set(&mut self.utility_bv, vertex_id, true);
        proof {
            assert forall|v: int| #[trigger] in_util(self.utility_bv, v) <==> v
                == vertex_id by {
                if 0 <= v < n && v != vertex_id {
                    assert(bv_bits(self.utility_bv)[v] == false);
                }
                if v == vertex_id {
                    assert(bv_bits(self.utility_bv)[v]);
                }
            }
        }
        let ghost util = self.utility_bv;
        proof {
            assert(in_util(self.utility_bv, vertex_id as int));
        }
        let first = if into_idx < from_idx {
            into_idx
        } else {
            from_idx
        };
        let second = if into_idx < from_idx {
            from_idx
        } else {
            into_idx
        };
        let mut c_second = self.cliques.remove(second);
        let mut c_first = self.cliques.remove(first);
        proof {
            assert(c_first == g0.cliques@[first as int]);
            assert(c_second == g0.cliques@[second as int]);
            assert(in_util(self.utility_bv, vertex_id as int));
        }
        if into_idx < from_idx {
            transfer_vertices_in_utility_bv_between_cliques(
                &mut c_first,
                &mut c_second,
                &self.utility_bv,
                &self.vertices,
            );
        } else {
            transfer_vertices_in_utility_bv_between_cliques(
                &mut c_second,
                &mut c_first,
                &self.utility_bv,
                &self.vertices,
            );
        }
        self.cliques.insert(first, c_first);
        self.cliques.insert(second, c_second);
        proof {
            assert(self.cliques@ =~= g0.cliques@.update(first as int, c_first).update(
                second as int,
                c_second,
            ));
            lemma_inv_after_transfer(g0, *self, into_idx as int, from_idx as int, util);
        }
    }
}

/// The four guards of a single-vertex transfer, all of which must hold for
/// the move to happen.
pub open spec fn single_transfer_allowed(g: Graph, into_idx: int, from_idx: int, v: int) -> bool {
    &&& g.cliques@[into_idx].has_neighbors
    &&& g.cliques@[from_idx].spec_member(v)
    &&& g.cliques@[into_idx].spec_frontier(v)
    &&& g.cliques@[into_idx].is_active
}

} // verus!
