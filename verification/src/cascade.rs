use vstd::prelude::*;

verus! {

use crate::RelationStore;

impl<P> RelationStore<P> {
    /// Entity `y` is reached from `x` in exactly `n` forward steps.
    pub open spec fn reach_n(self, x: u64, y: u64, n: nat) -> bool
        decreases n,
    {
        if n == 0 {
            x == y
        } else {
            exists|m: u64| #[trigger] self.has_edge(x, m) && self.reach_n(m, y, (n - 1) as nat)
        }
    }

    /// Entity `y` is forward-reachable from `x` in zero or more steps.
    pub open spec fn fwd_reaches(self, x: u64, y: u64) -> bool {
        exists|n: nat| self.reach_n(x, y, n)
    }

    /// An `n`-step reach extends along one more edge.
    pub proof fn lemma_reach_extend(self, x: u64, y: u64, z: u64, n: nat)
        requires
            self.reach_n(x, y, n),
            self.has_edge(y, z),
        ensures
            self.reach_n(x, z, n + 1),
        decreases n,
    {
        if n == 0 {
            assert(self.has_edge(x, z) && self.reach_n(z, z, 0));
        } else {
            let m = choose|m: u64|
                #[trigger] self.has_edge(x, m) && self.reach_n(m, y, (n - 1) as nat);
            self.lemma_reach_extend(m, y, z, (n - 1) as nat);
            assert(self.has_edge(x, m) && self.reach_n(m, z, n));
        }
    }

    /// Reachability extends along an edge.
    pub proof fn lemma_reaches_step(self, x: u64, y: u64, z: u64)
        requires
            self.fwd_reaches(x, y),
            self.has_edge(y, z),
        ensures
            self.fwd_reaches(x, z),
    {
        let n = choose|n: nat| self.reach_n(x, y, n);
        self.lemma_reach_extend(x, y, z, n);
    }

    /// An `n`-step reach stays inside a set that contains its start and is
    /// closed under following forward edges.
    proof fn lemma_closed_reach_n(self, dset: Seq<u64>, x: u64, y: u64, n: nat)
        requires
            dset.contains(x),
            forall|a: u64, b: u64|
                dset.contains(a) && #[trigger] self.has_edge(a, b) ==> dset.contains(b),
            self.reach_n(x, y, n),
        ensures
            dset.contains(y),
        decreases n,
    {
        if n > 0 {
            let m = choose|m: u64|
                #[trigger] self.has_edge(x, m) && self.reach_n(m, y, (n - 1) as nat);
            assert(dset.contains(m));
            self.lemma_closed_reach_n(dset, m, y, (n - 1) as nat);
        }
    }

    /// The cascade law: a set of entities that contains `e` and is closed
    /// under following this graph's forward edges contains every entity
    /// forward-reachable from `e`. Together with the contract of
    /// [`RelationStore::destroy_cascade`] this says that destroying `e`
    /// destroys all entities `e` transitively owns.
    pub proof fn lemma_cascade_complete(self, dset: Seq<u64>, e: u64, y: u64)
        requires
            dset.contains(e),
            forall|a: u64, b: u64|
                dset.contains(a) && #[trigger] self.has_edge(a, b) ==> dset.contains(b),
            self.fwd_reaches(e, y),
        ensures
            dset.contains(y),
    {
        let n = choose|n: nat| self.reach_n(e, y, n);
        self.lemma_closed_reach_n(dset, e, y, n);
    }

    /// The non-owning cleanup law: from an entity that owns no forward edge
    /// nothing but the entity itself is reachable, so destroying a
    /// backward-only entity destroys nothing else — its referencing sources
    /// merely lose their edge to it.
    pub proof fn lemma_backward_only(self, e: u64, y: u64)
        requires
            forall|t: u64| !self.has_edge(e, t),
            self.fwd_reaches(e, y),
        ensures
            y == e,
    {
        let n = choose|n: nat| self.reach_n(e, y, n);
        if n > 0 {
            let m = choose|m: u64|
                #[trigger] self.has_edge(e, m) && self.reach_n(m, y, (n - 1) as nat);
            assert(false);
        }
    }
}

} // verus!
