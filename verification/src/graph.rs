//! The graph under search and its working cover: an immutable table of
//! vertices (singleton cliques whose frontiers are the adjacency rows) and a
//! mutable array of cliques whose active prefix is the current cover.

use vstd::prelude::*;

use crate::bits::{bv_bits, bv_set, bv_set_all_true, bv_zeros, BitSet};
use crate::clique::{transcribe_clique_onto_clique, Clique, CliqueMaker};

verus! {

/// Vertices `u` and `v` are adjacent: `v` lies in `u`'s adjacency row, which
/// the vertex table stores as the frontier of the singleton clique of `u`.
pub open spec fn spec_adj(vs: Seq<Clique>, u: int, v: int) -> bool {
    vs[u].spec_frontier(v)
}

/// The immutable vertex table is well formed: one singleton clique per
/// vertex, an irreflexive and symmetric adjacency, and an exact
/// `has_neighbors` cache.
pub open spec fn vertices_ok(vs: Seq<Clique>, n: int) -> bool {
    &&& vs.len() == n
    &&& forall|i: int| 0 <= i < n ==> (#[trigger] vs[i]).wf()
    &&& forall|i: int| 0 <= i < n ==> (#[trigger] vs[i]).length == n
    &&& forall|i: int| 0 <= i < n ==> (#[trigger] vs[i]).members_ct == 1
    &&& forall|i: int| 0 <= i < n ==> (#[trigger] vs[i]).is_active
    &&& forall|i: int| 0 <= i < n ==> (#[trigger] vs[i]).id == i
    &&& forall|i: int, v: int| 0 <= i < n ==> ((#[trigger] vs[i].spec_member(v)) <==> v == i)
    &&& forall|u: int| 0 <= u < n ==> !(#[trigger] spec_adj(vs, u, u))
    &&& forall|u: int, v: int|
        0 <= u < n && 0 <= v < n ==> (#[trigger] spec_adj(vs, u, v)) == spec_adj(vs, v, u)
    &&& forall|i: int|
        0 <= i < n ==> ((#[trigger] vs[i]).has_neighbors <==> exists|v: int|
            #[trigger] spec_adj(vs, i, v))
}

/// Every member of `c` is adjacent to `v`.
pub open spec fn all_members_adjacent_to(vs: Seq<Clique>, c: Clique, v: int) -> bool {
    forall|u: int| #[trigger] c.spec_member(u) ==> spec_adj(vs, u, v)
}

/// `c`'s members are pairwise adjacent: `c` is a clique of the graph.
pub open spec fn members_pairwise_adjacent(vs: Seq<Clique>, c: Clique) -> bool {
    forall|u: int, v: int|
        #[trigger] c.spec_member(u) && #[trigger] c.spec_member(v) && u != v ==> spec_adj(
            vs,
            u,
            v,
        )
}

/// `c`'s stored frontier is exactly the set of non-members adjacent to all
/// members.
pub open spec fn frontier_exact(vs: Seq<Clique>, c: Clique) -> bool {
    forall|v: int|
        0 <= v < c.length ==> ((#[trigger] c.spec_frontier(v)) <==> (!c.spec_member(v)
            && all_members_adjacent_to(vs, c, v)))
}

/// Full invariant of a clique standing in the cover's working prefix.
pub open spec fn clique_ok(vs: Seq<Clique>, n: int, c: Clique) -> bool {
    &&& c.wf()
    &&& c.length == n
    &&& members_pairwise_adjacent(vs, c)
    &&& frontier_exact(vs, c)
    &&& ((exists|v: int| #[trigger] c.spec_frontier(v)) ==> c.has_neighbors)
    &&& (!c.is_active ==> c.members_ct == 0)
}

/// A reserve slot past the working prefix: inactive and empty, its frontier
/// left as the last use or the next activation writes it.
pub open spec fn reserve_ok(n: int, c: Clique) -> bool {
    &&& c.wf()
    &&& c.length == n
    &&& !c.is_active
    &&& c.members_ct == 0
}

/// A singleton clique of vertex `i` with an empty frontier, as the trivial
/// cover starts out.
pub open spec fn fresh_singleton(c: Clique, n: int, i: int) -> bool {
    &&& c.wf()
    &&& c.length == n
    &&& c.id == i
    &&& c.is_active
    &&& !c.has_neighbors
    &&& c.members_ct == 1
    &&& forall|v: int| (#[trigger] c.spec_member(v)) <==> v == i
    &&& forall|v: int| !(#[trigger] c.spec_frontier(v))
}

/// The graph under search.  `vertices` is fixed after construction;
/// `cliques[0 .. cliques_ct]` is the current cover; `utility_bv` is scratch,
/// always fully rewritten before it is read.
pub struct Graph {
    pub size: usize,
    pub vertices: Vec<Clique>,
    pub cliques: Vec<Clique>,
    pub cliques_ct: usize,
    pub utility_bv: BitSet,
}

impl Graph {
    pub open spec fn n(self) -> int {
        self.size as int
    }

    pub open spec fn ct(self) -> int {
        self.cliques_ct as int
    }

    /// Vertices `u` and `v` are adjacent.
    pub open spec fn adj(self, u: int, v: int) -> bool {
        spec_adj(self.vertices@, u, v)
    }

    /// Some clique of the working prefix holds `v`.
    pub open spec fn covered_by_prefix(self, v: int) -> bool {
        exists|i: int| 0 <= i < self.ct() && (#[trigger] self.cliques@[i]).spec_member(v)
    }

    /// The first working clique's stored frontier is empty: nothing is left
    /// for it to absorb.
    pub open spec fn first_frontier_empty(self) -> bool {
        forall|v: int| !(#[trigger] self.cliques@[0].spec_frontier(v))
    }

    /// Every clique of the working prefix is active.
    pub open spec fn prefix_all_active(self) -> bool {
        forall|k: int| 0 <= k < self.ct() ==> (#[trigger] self.cliques@[k]).is_active
    }

    /// Every active clique of the working prefix holds at least one vertex.
    pub open spec fn actives_nonempty(self) -> bool {
        forall|k: int|
            0 <= k < self.ct() && (#[trigger] self.cliques@[k]).is_active
                ==> self.cliques@[k].members_ct != 0
    }

    /// No ordered pair of working cliques has a vertex to move: every
    /// frontier misses every other clique's members.
    pub open spec fn no_eligible_pair(self) -> bool {
        forall|a: int, b: int, v: int|
            #![trigger self.cliques@[a].spec_frontier(v), self.cliques@[b].spec_member(v)]
            0 <= a < self.ct() && 0 <= b < self.ct() && a != b ==> !(
            self.cliques@[a].spec_frontier(v) && self.cliques@[b].spec_member(v))
    }

    /// Structure that survives even while edges are still being added: sizes,
    /// well-formed vertex table and blocks.  Frontiers of working cliques may
    /// be stale here; `conform_cliques_to_vertices` re-establishes `inv`.
    pub open spec fn base_ok(self) -> bool {
        &&& self.size >= 1
        &&& vertices_ok(self.vertices@, self.n())
        &&& self.cliques@.len() == self.n()
        &&& 1 <= self.cliques_ct <= self.size
        &&& forall|i: int| 0 <= i < self.n() ==> (#[trigger] self.cliques@[i]).wf()
        &&& forall|i: int| 0 <= i < self.n() ==> (#[trigger] self.cliques@[i]).length == self.n()
        &&& bv_bits(self.utility_bv).len() == self.n()
    }

    /// The search invariant: every working clique is a clique with an exact
    /// frontier, reserve slots are empty, and the working prefix covers every
    /// vertex exactly once.
    pub open spec fn inv(self) -> bool {
        &&& self.base_ok()
        &&& forall|i: int|
            0 <= i < self.ct() ==> clique_ok(self.vertices@, self.n(), #[trigger] self.cliques@[i])
        &&& forall|i: int| self.ct() <= i < self.n() ==> reserve_ok(self.n(), #[trigger] self.cliques@[i])
        &&& forall|v: int| 0 <= v < self.n() ==> #[trigger] self.covered_by_prefix(v)
        &&& forall|i: int, j: int, v: int|
            #![trigger self.cliques@[i].spec_member(v), self.cliques@[j].spec_member(v)]
            0 <= i < j < self.ct() ==> !(self.cliques@[i].spec_member(v)
                && self.cliques@[j].spec_member(v))
    }

    /// A graph of `num_vertices` vertices with no edges yet, covered by the
    /// trivial cover of singletons.
    pub fn new(num_vertices: usize) -> (g: Graph)
        requires
            1 <= num_vertices,
        ensures
            g.inv(),
            g.size == num_vertices,
            g.cliques_ct == num_vertices,
            forall|u: int, v: int| 0 <= u < g.n() && 0 <= v < g.n() ==> !(#[trigger] g.adj(u, v)),
            forall|i: int| 0 <= i < g.n() ==> fresh_singleton(#[trigger] g.cliques@[i], g.n(), i),
    {
        let mut clique_maker = CliqueMaker::new(num_vertices);
        let mut vertices_vec: Vec<Clique> = Vec::new();
        let mut cliques_vec: Vec<Clique> = Vec::new();
        let mut i: usize = 0;
        while i < num_vertices
            invariant
                clique_maker.id == i,
                clique_maker.length == num_vertices,
                i <= num_vertices,
                vertices_vec@.len() == i,
                cliques_vec@.len() == i,
                forall|k: int|
                    0 <= k < i ==> fresh_singleton(
                        #[trigger] vertices_vec@[k],
                        num_vertices as int,
                        k,
                    ),
                forall|k: int|
                    0 <= k < i ==> fresh_singleton(
                        #[trigger] cliques_vec@[k],
                        num_vertices as int,
                        k,
                    ),
            decreases num_vertices - i,
        {
            let vertex = clique_maker.make_clique();
            let clique = clique_maker.get_copy_of_clique(&vertex);
            proof {
                assert forall|v: int| (#[trigger] clique.spec_member(v)) <==> v == i as int by {
                    assert(clique.spec_member(v) == vertex.spec_member(v));
                }
                assert forall|v: int| !(#[trigger] clique.spec_frontier(v)) by {
                    assert(clique.spec_frontier(v) == vertex.spec_frontier(v));
                }
            }
            vertices_vec.push(vertex);
            cliques_vec.push(clique);
            i = i + 1;
        }
        let g = Graph {
            size: num_vertices,
            vertices: vertices_vec,
            cliques: cliques_vec,
            cliques_ct: num_vertices,
            utility_bv: bv_zeros(num_vertices),
        };
        proof {
            let n = g.n();
            let vs = g.vertices@;
            assert forall|u: int, v: int| 0 <= u < n && 0 <= v < n implies !(#[trigger] spec_adj(
                vs,
                u,
                v,
            )) by {
                assert(fresh_singleton(vs[u], n, u));
            }
            assert forall|i2: int| 0 <= i2 < n implies ((#[trigger] vs[i2]).has_neighbors
                <==> exists|v: int| #[trigger] spec_adj(vs, i2, v)) by {
                assert(fresh_singleton(vs[i2], n, i2));
                assert(!vs[i2].has_neighbors);
                if exists|v: int| #[trigger] spec_adj(vs, i2, v) {
                    let v = choose|v: int| #[trigger] spec_adj(vs, i2, v);
                    assert(!vs[i2].spec_frontier(v));
                }
            }
            assert forall|i2: int| 0 <= i2 < g.ct() implies clique_ok(
                vs,
                n,
                #[trigger] g.cliques@[i2],
            ) by {
                let c = g.cliques@[i2];
                assert(fresh_singleton(c, n, i2));
                assert forall|v: int| 0 <= v < c.length implies ((#[trigger] c.spec_frontier(v))
                    <==> (!c.spec_member(v) && all_members_adjacent_to(vs, c, v))) by {
                    if v != i2 {
                        assert(c.spec_member(i2));
                        assert(!spec_adj(vs, i2, v));
                    }
                }
                if exists|v: int| #[trigger] c.spec_frontier(v) {
                    let v = choose|v: int| #[trigger] c.spec_frontier(v);
                    assert(false);
                }
            }
            assert forall|v: int| 0 <= v < n implies #[trigger] g.covered_by_prefix(v) by {
                assert(g.cliques@[v].spec_member(v));
            }
        }
        g
    }

    /// Records the (symmetric) edge between `u` and `v` in the vertex table.
    /// Frontiers of working cliques are not touched, so only `base_ok` is
    /// kept; call `conform_cliques_to_vertices` once all edges are in.
    pub fn add_edge(&mut self, u: usize, v: usize)
        requires
            old(self).base_ok(),
            u < old(self).size,
            v < old(self).size,
            u != v,
        ensures
            final(self).base_ok(),
            final(self).size == old(self).size,
            final(self).cliques_ct == old(self).cliques_ct,
            final(self).cliques@ == old(self).cliques@,
            forall|a: int, b: int|
                0 <= a < final(self).n() && 0 <= b < final(self).n()
                    ==> ((#[trigger] final(self).adj(a, b)) <==> (old(self).adj(a, b) || (a == u
                    && b == v) || (a == v && b == u))),
    {
        let ghost n = self.n();
        let ghost vs0 = self.vertices@;
        {
            let vu = vec_index_mut(&mut self.vertices, u);
            bv_set(&mut vu.neighbors_bv, v, true);
            vu.has_neighbors = true;
        }
        let ghost vs1 = self.vertices@;
        {
            let vv = vec_index_mut(&mut self.vertices, v);
            bv_set(&mut vv.neighbors_bv, u, true);
            vv.has_neighbors = true;
        }
        proof {
            let vs2 = self.vertices@;
            assert forall|a: int, b: int|
                0 <= a < n && 0 <= b < n implies ((#[trigger] spec_adj(vs2, a, b)) <==> (spec_adj(
                vs0,
                a,
                b,
            ) || (a == u && b == v) || (a == v && b == u))) by {
                assert(vs2[a].length == vs0[a].length);
            }
            assert forall|i: int| 0 <= i < n implies (#[trigger] vs2[i]).wf() by {
                assert(vs0[i].wf());
                assert forall|w: int|
                    0 <= w < vs2[i].length implies (bv_bits(vs2[i].members_bv)[w]
                    <==> vs2[i].members@.contains(w as usize)) by {
                    assert(bv_bits(vs0[i].members_bv)[w] <==> vs0[i].members@.contains(w as usize));
                }
            }
            assert forall|i: int, w: int| 0 <= i < n implies ((#[trigger] vs2[i].spec_member(w))
                <==> w == i) by {
                assert(vs0[i].spec_member(w) <==> w == i);
            }
            assert forall|i: int| 0 <= i < n implies ((#[trigger] vs2[i]).has_neighbors
                <==> exists|w: int| #[trigger] spec_adj(vs2, i, w)) by {
                if i == u as int {
                    assert(spec_adj(vs2, i, v as int));
                } else if i == v as int {
                    assert(spec_adj(vs2, i, u as int));
                } else {
                    assert(vs2[i] == vs0[i]);
                    if vs2[i].has_neighbors {
                        let w = choose|w: int| #[trigger] spec_adj(vs0, i, w);
                        assert(spec_adj(vs2, i, w));
                    }
                    if exists|w: int| #[trigger] spec_adj(vs2, i, w) {
                        let w = choose|w: int| #[trigger] spec_adj(vs2, i, w);
                        assert(spec_adj(vs0, i, w));
                    }
                }
            }
        }
    }

    /// Wakes the first reserve slot, making it an empty active clique whose
    /// frontier is the full vertex set (every vertex is compatible with an
    /// empty block).  When every slot is already active, does nothing and
    /// returns false.
    pub fn activate_inactive_clique(&mut self) -> (activated: bool)
        requires
            old(self).inv(),
        ensures
            final(self).inv(),
            final(self).size == old(self).size,
            final(self).vertices@ == old(self).vertices@,
            activated == (old(self).ct() < old(self).n()),
            !activated ==> *final(self) == *old(self),
            activated ==> {
                &&& final(self).ct() == old(self).ct() + 1
                &&& forall|i: int|
                    0 <= i < old(self).n() && i != old(self).ct() ==> final(self).cliques@[i] == old(
                        self,
                    ).cliques@[i]
                &&& final(self).cliques@[old(self).ct()].is_active
                &&& final(self).cliques@[old(self).ct()].members_ct == 0
                &&& forall|v: int|
                    !(#[trigger] final(self).cliques@[old(self).ct()].spec_member(v))
                &&& forall|v: int|
                    0 <= v < old(self).n() ==> #[trigger] final(self).cliques@[old(
                        self,
                    ).ct()].spec_frontier(v)
            },
    {
        if self.size == self.cliques_ct {
            return false;
        }
        let ghost old_self = *self;
        let idx = self.cliques_ct;
        {
            let c = vec_index_mut(&mut self.cliques, idx);
            c.is_active = true;
            let clen = c.length;
            bv_set_all_true(&mut c.neighbors_bv, clen);
            c.has_neighbors = true;
        }
        self.cliques_ct = idx + 1;
        proof {
            let n = self.n();
            let vs = self.vertices@;
            let c = self.cliques@[idx as int];
            assert(old_self.cliques@[idx as int].wf());
            assert forall|w: int| 0 <= w < c.length implies (bv_bits(c.members_bv)[w]
                <==> c.members@.contains(w as usize)) by {
                assert(bv_bits(old_self.cliques@[idx as int].members_bv)[w]
                    <==> old_self.cliques@[idx as int].members@.contains(w as usize));
            }
            assert(c.wf());
            assert forall|v: int| !(#[trigger] c.spec_member(v)) by {
                if 0 <= v < n {
                    assert(bv_bits(c.members_bv)[v] <==> c.members@.contains(v as usize));
                }
            }
            assert(clique_ok(vs, n, c)) by {
                assert forall|v: int| 0 <= v < c.length implies ((#[trigger] c.spec_frontier(v))
                    <==> (!c.spec_member(v) && all_members_adjacent_to(vs, c, v))) by {
                    assert(!c.spec_member(v));
                    assert forall|u: int| #[trigger] c.spec_member(u) implies spec_adj(
                        vs,
                        u,
                        v,
                    ) by {}
                }
                assert(c.spec_frontier(0));
            }
            assert forall|i: int| 0 <= i < self.ct() implies clique_ok(
                vs,
                n,
                #[trigger] self.cliques@[i],
            ) by {
                if i != idx as int {
                    assert(self.cliques@[i] == old_self.cliques@[i]);
                    assert(clique_ok(vs, n, old_self.cliques@[i]));
                }
            }
            assert forall|v: int| 0 <= v < n implies #[trigger] self.covered_by_prefix(v) by {
                assert(old_self.covered_by_prefix(v));
                let i = choose|i: int|
                    0 <= i < old_self.ct() && (#[trigger] old_self.cliques@[i]).spec_member(v);
                assert(self.cliques@[i].spec_member(v));
            }
            assert forall|i: int, j: int, v: int|
                #![trigger self.cliques@[i].spec_member(v), self.cliques@[j].spec_member(v)]
                0 <= i < j < self.ct() implies !(self.cliques@[i].spec_member(v)
                && self.cliques@[j].spec_member(v)) by {
                if j == idx as int {
                    assert(!self.cliques@[j].spec_member(v));
                } else {
                    assert(!(old_self.cliques@[i].spec_member(v)
                        && old_self.cliques@[j].spec_member(v)));
                }
            }
        }
        true
    }

    /// Resets the working array to the trivial cover: every slot becomes a
    /// copy of its vertex's singleton clique and the whole array is active,
    /// whatever state the cover was in before.
    pub fn conform_cliques_to_vertices(&mut self)
        requires
            old(self).base_ok(),
        ensures
            final(self).inv(),
            final(self).size == old(self).size,
            final(self).vertices@ == old(self).vertices@,
            final(self).cliques_ct == final(self).size,
            forall|i: int, v: int|
                0 <= i < final(self).n() ==> ((#[trigger] final(self).cliques@[i].spec_member(v))
                    <==> v == i),
            forall|i: int, v: int|
                0 <= i < final(self).n() ==> ((#[trigger] final(self).cliques@[i].spec_frontier(v))
                    <==> final(self).adj(i, v)),
            forall|i: int| 0 <= i < final(self).n() ==> (#[trigger] final(self).cliques@[i]).is_active,
            forall|i: int| 0 <= i < final(self).n() ==> (#[trigger] final(self).cliques@[i]).id == i,
            forall|i: int|
                0 <= i < final(self).n() ==> (#[trigger] final(self).cliques@[i]).members_ct == 1,
            forall|i: int|
                0 <= i < final(self).n() ==> (#[trigger] final(self).cliques@[i]).members@ == seq![
                    i as usize,
                ],
            forall|i: int|
                0 <= i < final(self).n() ==> (#[trigger] final(self).cliques@[i]).has_neighbors
                    == final(self).vertices@[i].has_neighbors,
    {
        let ghost vs = self.vertices@;
        let ghost n = self.n();
        let mut i: usize = 0;
        while i < self.size
            invariant
                i <= self.size,
                self.base_ok(),
                self.size == old(self).size,
                self.vertices@ == vs,
                n == self.n(),
                forall|k: int|
                    i <= k < n ==> (#[trigger] self.cliques@[k]).wf() && self.cliques@[k].length
                        == n,
                forall|k: int|
                    0 <= k < i ==> conformed_to_vertex(vs, #[trigger] self.cliques@[k], n, k),
            decreases self.size - i,
        {
            let target = vec_index_mut(&mut self.cliques, i);
            transcribe_clique_onto_clique(&self.vertices[i], target);
            proof {
                let c = self.cliques@[i as int];
                let vtx = vs[i as int];
                assert forall|v: int| ((#[trigger] c.spec_member(v)) <==> v == i as int) by {
                    assert(c.spec_member(v) == vtx.spec_member(v));
                    assert(vtx.spec_member(v) <==> v == i as int);
                }
                assert forall|v: int| ((#[trigger] c.spec_frontier(v)) <==> spec_adj(
                    vs,
                    i as int,
                    v,
                )) by {
                    assert(c.spec_frontier(v) == vtx.spec_frontier(v));
                }
            }
            i = i + 1;
        }
        self.cliques_ct = self.size;
        proof {
            assert forall|k: int| 0 <= k < self.ct() implies clique_ok(
                vs,
                n,
                #[trigger] self.cliques@[k],
            ) by {
                let c = self.cliques@[k];
                assert(conformed_to_vertex(vs, c, n, k));
                assert forall|u: int, v: int|
                    #[trigger] c.spec_member(u) && #[trigger] c.spec_member(v) && u
                    != v implies spec_adj(vs, u, v) by {}
                assert forall|v: int| 0 <= v < c.length implies ((#[trigger] c.spec_frontier(v))
                    <==> (!c.spec_member(v) && all_members_adjacent_to(vs, c, v))) by {
                    assert(c.spec_frontier(v) <==> spec_adj(vs, k, v));
                    if c.spec_frontier(v) {
                        assert(!spec_adj(vs, k, k));
                        assert(!c.spec_member(v));
                        assert forall|u: int| #[trigger] c.spec_member(u) implies spec_adj(
                            vs,
                            u,
                            v,
                        ) by {}
                    }
                    if !c.spec_member(v) && all_members_adjacent_to(vs, c, v) {
                        assert(c.spec_member(k));
                        assert(spec_adj(vs, k, v));
                    }
                }
                if exists|v: int| #[trigger] c.spec_frontier(v) {
                    let v = choose|v: int| #[trigger] c.spec_frontier(v);
                    assert(spec_adj(vs, k, v));
                    assert(vs[k].has_neighbors);
                }
            }
            assert forall|v: int| 0 <= v < n implies #[trigger] self.covered_by_prefix(v) by {
                assert(self.cliques@[v].spec_member(v));
            }
            assert forall|i2: int, j2: int, v: int|
                #![trigger self.cliques@[i2].spec_member(v), self.cliques@[j2].spec_member(v)]
                0 <= i2 < j2 < self.ct() implies !(self.cliques@[i2].spec_member(v)
                && self.cliques@[j2].spec_member(v)) by {}
            assert forall|k: int| 0 <= k < n implies (#[trigger] self.cliques@[k]).members@ == seq![
                k as usize,
            ] by {
                let c = self.cliques@[k];
                assert(conformed_to_vertex(vs, c, n, k));
                assert(c.members@.len() == 1);
                let m = c.members@[0];
                assert(c.members@.contains(m));
                assert(c.spec_member(m as int));
                assert(m as int == k);
                assert(c.members@ =~= seq![k as usize]);
            }
        }
    }
}

impl Graph {
    /// The number of vertices.
    pub fn num_vertices(&self) -> (r: usize)
        ensures
            r == self.size,
    {
        self.size
    }

    /// The current cover size: the length of the working prefix.
    pub fn active_count(&self) -> (r: usize)
        ensures
            r == self.cliques_ct,
    {
        self.cliques_ct
    }

    /// Whether the working clique at `i` takes part in the cover.
    pub fn clique_is_active(&self, i: usize) -> (r: bool)
        requires
            self.base_ok(),
            i < self.size,
        ensures
            r == self.cliques@[i as int].is_active,
    {
        self.cliques[i].is_active
    }

    /// The number of members of the working clique at `i`.
    pub fn clique_member_count(&self, i: usize) -> (r: usize)
        requires
            self.base_ok(),
            i < self.size,
        ensures
            r == self.cliques@[i as int].members_ct,
    {
        self.cliques[i].members_ct
    }

    /// Whether vertex `v` is a member of the working clique at `i`.
    pub fn clique_contains(&self, i: usize, v: usize) -> (r: bool)
        requires
            self.base_ok(),
            i < self.size,
            v < self.size,
        ensures
            r == self.cliques@[i as int].spec_member(v as int),
    {
        self.cliques[i].contains(v)
    }

    /// Whether vertex `v` is on the frontier of the working clique at `i`.
    pub fn clique_frontier_contains(&self, i: usize, v: usize) -> (r: bool)
        requires
            self.base_ok(),
            i < self.size,
            v < self.size,
        ensures
            r == self.cliques@[i as int].spec_frontier(v as int),
    {
        self.cliques[i].frontier_contains(v)
    }

    /// Whether vertices `u` and `v` are adjacent.
    pub fn adjacent(&self, u: usize, v: usize) -> (r: bool)
        requires
            self.base_ok(),
            u < self.size,
            v < self.size,
        ensures
            r == self.adj(u as int, v as int),
    {
        self.vertices[u].frontier_contains(v)
    }
}

/// The clique is an exact working copy of vertex `i`'s singleton.
pub open spec fn conformed_to_vertex(vs: Seq<Clique>, c: Clique, n: int, i: int) -> bool {
    &&& c.wf()
    &&& c.length == n
    &&& c.is_active
    &&& c.members_ct == 1
    &&& c.id == vs[i].id
    &&& c.has_neighbors == vs[i].has_neighbors
    &&& forall|v: int| (#[trigger] c.spec_member(v)) <==> v == i
    &&& forall|v: int| (#[trigger] c.spec_frontier(v)) <==> spec_adj(vs, i, v)
}

/// A mutable borrow of one element of a clique vector.
fn vec_index_mut(vec: &mut Vec<Clique>, i: usize) -> (element: &mut Clique)
    requires
        i < old(vec).len(),
    ensures
        *element == old(vec)@[i as int],
        final(vec)@ == old(vec)@.update(i as int, *final(element)),
{
    &mut vec[i]
}

} // verus!
