use vstd::prelude::*;

verus! {

use crate::RelationError;
use crate::RelationStore;

/// A deferred insertion: a value that captures an intended
/// [`RelationStore::insert_edge`] call, so host scheduling code can queue it
/// and apply it against the store later.
pub struct InsertRelation<P> {
    pub source: u64,
    pub data: P,
    pub target: u64,
}

impl<P> InsertRelation<P> {
    /// Applies the captured insertion to `store`, exactly as
    /// [`RelationStore::insert_edge`] would.
    pub fn write(self, store: &mut RelationStore<P>) -> (r: Result<(), RelationError>)
        requires
            old(store).wf(),
        ensures
            final(store).wf(),
            match r {
                Ok(()) => RelationStore::insert_ok_rel(
                    *old(store),
                    *final(store),
                    self.source,
                    self.data,
                    self.target,
                ),
                Err(e) => e == RelationError::CycleViolation && *final(store) == *old(store),
            },
            r is Err <==> (old(store).is_acyclic() && old(store).insert_would_cycle(
                self.source,
                self.target,
            )),
    {
        let InsertRelation { source, data, target } = self;
        store.insert_edge(source, data, target)
    }
}

/// A deferred removal: a value that captures an intended
/// [`RelationStore::remove_edge`] call.
pub struct RemoveRelation {
    pub source: u64,
    pub target: u64,
}

impl RemoveRelation {
    /// Applies the captured removal to `store`, exactly as
    /// [`RelationStore::remove_edge`] would.
    pub fn write<P>(self, store: &mut RelationStore<P>) -> (removed: bool)
        requires
            old(store).wf(),
        ensures
            final(store).wf(),
            final(store).same_kind(*old(store)),
            removed == old(store).has_edge(self.source, self.target),
            forall|a: u64, b: u64|
                #[trigger] final(store).has_edge(a, b) <==> (old(store).has_edge(a, b) && !(a
                    == self.source && b == self.target)),
            forall|a: u64, b: u64|
                #[trigger] final(store).has_edge(a, b) ==> final(store).edge_data(a, b) == old(
                    store,
                ).edge_data(a, b),
    {
        store.remove_edge(self.source, self.target)
    }
}

} // verus!
