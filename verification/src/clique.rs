//! One block of a clique cover: a set of vertices kept in two synchronized
//! representations (a bit vector and an ordered id list), together with the
//! block's neighbor frontier.

use vstd::prelude::*;

use crate::bits::{bv_bits, bv_get, bv_or, bv_set, bv_set_all_false, bv_zeros, BitSet};

verus! {

/// A candidate block of the cover.  `members_bv` and `members` always hold
/// the same set of vertex ids, with `members_ct` their number; every mutation
/// goes through operations that update the representations together.
/// `neighbors_bv` holds the block's neighbor frontier: the vertices outside
/// the block adjacent to every member.  `has_neighbors` caches "the frontier
/// is non-empty", conservatively: it may stay true after the frontier
/// empties, but is never false while a frontier vertex exists.
pub struct Clique {
    pub members_bv: BitSet,
    pub members_ct: usize,
    pub members: Vec<usize>,
    pub neighbors_bv: BitSet,
    pub length: usize,
    pub id: usize,
    pub is_active: bool,
    pub has_neighbors: bool,
}

impl Clique {
    /// Vertex `v` is a member of this block.
    pub open spec fn spec_member(self, v: int) -> bool {
        0 <= v < self.length && bv_bits(self.members_bv)[v]
    }

    /// Vertex `v` is on this block's neighbor frontier.
    pub open spec fn spec_frontier(self, v: int) -> bool {
        0 <= v < self.length && bv_bits(self.neighbors_bv)[v]
    }

    /// Structural well-formedness: the two member representations have the
    /// right lengths and hold the same ids, without duplicates.
    pub open spec fn wf(self) -> bool {
        &&& bv_bits(self.members_bv).len() == self.length
        &&& bv_bits(self.neighbors_bv).len() == self.length
        &&& self.members@.len() == self.members_ct
        &&& forall|k: int| 0 <= k < self.members@.len() ==> (#[trigger] self.members@[k]) < self.length
        &&& forall|k1: int, k2: int|
            0 <= k1 < k2 < self.members@.len() ==> self.members@[k1] != self.members@[k2]
        &&& forall|v: int|
            0 <= v < self.length ==> (bv_bits(self.members_bv)[v] <==> self.members@.contains(
                v as usize,
            ))
    }

    /// A fresh block holding the single vertex `id`, with an empty frontier,
    /// active.
    pub fn new(num_vertices: usize, id: usize) -> (c: Clique)
        requires
            id < num_vertices,
        ensures
            c.wf(),
            c.length == num_vertices,
            c.id == id,
            c.is_active,
            !c.has_neighbors,
            c.members_ct == 1,
            forall|v: int| c.spec_member(v) <==> v == id,
            forall|v: int| !c.spec_frontier(v),
    {
        let mut members_bv = bv_zeros(num_vertices);
        bv_set(&mut members_bv, id, true);
        let mut members: Vec<usize> = Vec::new();
        members.push(id);
        let c = Clique {
            members_bv,
            members_ct: 1,
            members,
            neighbors_bv: bv_zeros(num_vertices),
            length: num_vertices,
            id,
            is_active: true,
            has_neighbors: false,
        };
        proof {
            assert(c.members@ =~= seq![id]);
            assert forall|v: int| 0 <= v < c.length implies (bv_bits(c.members_bv)[v]
                <==> c.members@.contains(v as usize)) by {
                if v == id {
                    assert(c.members@[0] == id);
                }
            }
        }
        c
    }

    /// The number of vertices in this block.
    pub fn member_count(&self) -> (r: usize)
        ensures
            r == self.members_ct,
    {
        self.members_ct
    }

    /// Whether vertex `v` is in this block.
    pub fn contains(&self, v: usize) -> (r: bool)
        requires
            self.wf(),
            v < self.length,
        ensures
            r == self.spec_member(v as int),
    {
        bv_get(&self.members_bv, v)
    }

    /// Whether vertex `v` is on this block's frontier.
    pub fn frontier_contains(&self, v: usize) -> (r: bool)
        requires
            self.wf(),
            v < self.length,
        ensures
            r == self.spec_frontier(v as int),
    {
        bv_get(&self.neighbors_bv, v)
    }

    /// Whether this block currently takes part in the cover.
    pub fn active(&self) -> (r: bool)
        ensures
            r == self.is_active,
    {
        self.is_active
    }
}

/// Hands out the blocks of a fresh trivial cover: each call makes the next
/// singleton, in vertex-id order.
pub struct CliqueMaker {
    pub id: usize,
    pub length: usize,
}

impl CliqueMaker {
    pub fn new(num_vertices: usize) -> (m: CliqueMaker)
        ensures
            m.id == 0,
            m.length == num_vertices,
    {
        CliqueMaker { id: 0, length: num_vertices }
    }

    /// The singleton block of the next vertex id.
    pub fn make_clique(&mut self) -> (c: Clique)
        requires
            old(self).id < old(self).length,
        ensures
            final(self).length == old(self).length,
            final(self).id == old(self).id + 1,
            c.wf(),
            c.length == old(self).length,
            c.id == old(self).id,
            c.is_active,
            !c.has_neighbors,
            c.members_ct == 1,
            forall|v: int| c.spec_member(v) <==> v == old(self).id,
            forall|v: int| !c.spec_frontier(v),
    {
        let ret_clique = Clique::new(self.length, self.id);
        self.id = self.id + 1;
        ret_clique
    }

    /// A fresh block equal, in every observable field, to `clique_to_copy`.
    pub fn get_copy_of_clique(&self, clique_to_copy: &Clique) -> (c: Clique)
        requires
            clique_to_copy.wf(),
            clique_to_copy.id < clique_to_copy.length,
        ensures
            c.wf(),
            c.length == clique_to_copy.length,
            c.id == clique_to_copy.id,
            c.is_active == clique_to_copy.is_active,
            c.has_neighbors == clique_to_copy.has_neighbors,
            c.members_ct == clique_to_copy.members_ct,
            c.members@ == clique_to_copy.members@,
            bv_bits(c.members_bv) == bv_bits(clique_to_copy.members_bv),
            bv_bits(c.neighbors_bv) == bv_bits(clique_to_copy.neighbors_bv),
    {
        let mut ret_clique = Clique::new(clique_to_copy.length, clique_to_copy.id);
        transcribe_clique_onto_clique(clique_to_copy, &mut ret_clique);
        ret_clique
    }
}

/// A well-formed block holds a vertex exactly when its member count is not
/// zero.
pub proof fn lemma_nonempty_iff_some_member(c: Clique)
    requires
        c.wf(),
    ensures
        c.members_ct != 0 <==> exists|v: int| #[trigger] c.spec_member(v),
{
    if c.members_ct != 0 {
        let m = c.members@[0];
        assert(c.members@.contains(m));
        assert(c.spec_member(m as int));
    }
    if exists|v: int| #[trigger] c.spec_member(v) {
        let v = choose|v: int| #[trigger] c.spec_member(v);
        assert(c.members@.contains(v as usize));
    }
}

/// Overwrites every observable field of `target` with `source`'s, reusing
/// `target`'s backing storage, so that afterwards the two blocks agree on
/// members, frontier, count, id, length and both flags.
pub fn transcribe_clique_onto_clique(source_clique: &Clique, target_clique: &mut Clique)
    requires
        source_clique.wf(),
        bv_bits(old(target_clique).members_bv).len() == source_clique.length,
        bv_bits(old(target_clique).neighbors_bv).len() == source_clique.length,
    ensures
        final(target_clique).wf(),
        final(target_clique).length == source_clique.length,
        final(target_clique).id == source_clique.id,
        final(target_clique).is_active == source_clique.is_active,
        final(target_clique).has_neighbors == source_clique.has_neighbors,
        final(target_clique).members_ct == source_clique.members_ct,
        final(target_clique).members@ == source_clique.members@,
        bv_bits(final(target_clique).members_bv) == bv_bits(source_clique.members_bv),
        bv_bits(final(target_clique).neighbors_bv) == bv_bits(source_clique.neighbors_bv),
{
    bv_set_all_false(&mut target_clique.members_bv);
    bv_or(&mut target_clique.members_bv, &source_clique.members_bv);
    proof {
        assert(bv_bits(target_clique.members_bv) =~= bv_bits(source_clique.members_bv));
    }
    target_clique.members.clear();
    let mut k: usize = 0;
    while k < source_clique.members.len()
        invariant
            k <= source_clique.members@.len(),
            target_clique.members@ == source_clique.members@.take(k as int),
            bv_bits(target_clique.members_bv) == bv_bits(source_clique.members_bv),
            bv_bits(target_clique.neighbors_bv).len() == source_clique.length,
        decreases source_clique.members@.len() - k,
    {
        target_clique.members.push(source_clique.members[k]);
        proof {
            assert(source_clique.members@.take(k + 1) =~= source_clique.members@.take(
                k as int,
            ).push(source_clique.members@[k as int]));
        }
        k = k + 1;
    }
    proof {
        assert(source_clique.members@.take(source_clique.members@.len() as int)
            =~= source_clique.members@);
    }
    target_clique.members_ct = source_clique.members_ct;
    bv_set_all_false(&mut target_clique.neighbors_bv);
    bv_or(&mut target_clique.neighbors_bv, &source_clique.neighbors_bv);
    target_clique.length = source_clique.length;
    target_clique.id = source_clique.id;
    target_clique.is_active = source_clique.is_active;
    target_clique.has_neighbors = source_clique.has_neighbors;
    proof {
        assert(bv_bits(target_clique.neighbors_bv) =~= bv_bits(source_clique.neighbors_bv));
    }
}

} // verus!
