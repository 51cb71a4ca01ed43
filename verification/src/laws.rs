//! The global guarantees of the search, stated on their own: they follow
//! from the invariant that every operation of the library preserves.

use vstd::prelude::*;

use crate::clique::lemma_nonempty_iff_some_member;
use crate::graph::{all_members_adjacent_to, clique_ok, spec_adj, Graph};

verus! {

/// Invariant preservation: in any graph state the library's operations can
/// produce, each working clique's stored frontier equals the brute-force
/// recomputation — the set of non-members adjacent to every member — and the
/// members are pairwise adjacent.
pub proof fn lemma_working_clique_exact(g: Graph, i: int)
    requires
        g.inv(),
        0 <= i < g.ct(),
    ensures
        forall|v: int|
            0 <= v < g.n() ==> ((#[trigger] g.cliques@[i].spec_frontier(v)) <==> (
            !g.cliques@[i].spec_member(v) && all_members_adjacent_to(
                g.vertices@,
                g.cliques@[i],
                v,
            ))),
        forall|u: int, v: int|
            #[trigger] g.cliques@[i].spec_member(u) && #[trigger] g.cliques@[i].spec_member(v) && u
                != v ==> g.adj(u, v),
{
    assert(clique_ok(g.vertices@, g.n(), g.cliques@[i]));
}

/// Conservation: every vertex of the graph belongs to at least one clique of
/// the working prefix, and to no two of them — the working prefix is always a
/// partition of the vertex set.
pub proof fn lemma_cover_conservation(g: Graph, v: int)
    requires
        g.inv(),
        0 <= v < g.n(),
    ensures
        exists|i: int| 0 <= i < g.ct() && (#[trigger] g.cliques@[i]).spec_member(v),
        forall|i: int, j: int|
            #![trigger g.cliques@[i].spec_member(v), g.cliques@[j].spec_member(v)]
            0 <= i < j < g.ct() ==> !(g.cliques@[i].spec_member(v) && g.cliques@[j].spec_member(
                v,
            )),
{
    assert(g.covered_by_prefix(v));
}

/// On a complete graph, a cover of active, nonempty cliques whose first
/// frontier has been emptied — the state a greedy sweep leaves behind — can
/// only be the single full clique: any second clique would hold a vertex
/// adjacent to all of the first's members, so the first frontier could not
/// be empty.
pub proof fn lemma_complete_cover_is_single(g: Graph)
    requires
        g.inv(),
        g.prefix_all_active(),
        g.actives_nonempty(),
        g.first_frontier_empty(),
        forall|u: int, v: int| 0 <= u < g.n() && 0 <= v < g.n() && u != v ==> #[trigger] g.adj(u, v),
    ensures
        g.ct() == 1,
{
    if g.ct() >= 2 {
        assert(g.cliques@[1].is_active);
        assert(g.cliques@[1].members_ct != 0);
        assert(clique_ok(g.vertices@, g.n(), g.cliques@[1]));
        lemma_nonempty_iff_some_member(g.cliques@[1]);
        let v = choose|v: int| #[trigger] g.cliques@[1].spec_member(v);
        assert(!(g.cliques@[0].spec_member(v) && g.cliques@[1].spec_member(v)));
        assert(clique_ok(g.vertices@, g.n(), g.cliques@[0]));
        assert forall|u: int| #[trigger] g.cliques@[0].spec_member(u) implies spec_adj(
            g.vertices@,
            u,
            v,
        ) by {
            assert(u != v);
            assert(g.adj(u, v));
        }
        assert(all_members_adjacent_to(g.vertices@, g.cliques@[0], v));
        assert(0 <= v < g.cliques@[0].length);
        assert(g.cliques@[0].spec_frontier(v));
        assert(false);
    }
}

/// On a graph with no edges, a cover of active, nonempty cliques offers no
/// pair anything to move: a nonempty clique's frontier needs a vertex
/// adjacent to its members, and there is none.  Together with the sweep's
/// contract, a sweep over such a cover leaves the working array untouched.
pub proof fn lemma_edgeless_no_eligible_pair(g: Graph)
    requires
        g.inv(),
        g.prefix_all_active(),
        g.actives_nonempty(),
        forall|u: int, v: int| 0 <= u < g.n() && 0 <= v < g.n() ==> !(#[trigger] g.adj(u, v)),
    ensures
        g.no_eligible_pair(),
{
    assert forall|a: int, b: int, v: int|
        #![trigger g.cliques@[a].spec_frontier(v), g.cliques@[b].spec_member(v)]
        0 <= a < g.ct() && 0 <= b < g.ct() && a != b implies !(g.cliques@[a].spec_frontier(v)
        && g.cliques@[b].spec_member(v)) by {
        if g.cliques@[a].spec_frontier(v) {
            assert(g.cliques@[a].is_active);
            assert(g.cliques@[a].members_ct != 0);
            assert(clique_ok(g.vertices@, g.n(), g.cliques@[a]));
            lemma_nonempty_iff_some_member(g.cliques@[a]);
            let u = choose|u: int| #[trigger] g.cliques@[a].spec_member(u);
            assert(all_members_adjacent_to(g.vertices@, g.cliques@[a], v));
            assert(spec_adj(g.vertices@, u, v));
            assert(0 <= u < g.n());
            assert(0 <= v < g.n());
            assert(g.adj(u, v));
            assert(false);
        }
    }
}

} // verus!
