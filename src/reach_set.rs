//! The Reachability Set: identifiers whose metadata must be emitted.
use crate::tree::NodeId;
use std::collections::HashSet;
use vstd::prelude::*;

verus! {

broadcast use vstd::std_specs::hash::group_hash_axioms;

/// A set of node identifiers that only grows.
pub struct ReachableSet {
    ids: HashSet<NodeId>,
}

impl View for ReachableSet {
    type V = Set<NodeId>;

    closed spec fn view(&self) -> Set<NodeId> {
        self.ids@
    }
}

impl ReachableSet {
    pub fn new() -> (r: ReachableSet)
        ensures
            r@ == Set::<NodeId>::empty(),
    {
        ReachableSet { ids: HashSet::new() }
    }

    pub fn contains(&self, id: NodeId) -> (r: bool)
        ensures
            r == self@.contains(id),
    {
        self.ids.contains(&id)
    }

    /// Adds `id`; tells whether it was absent. Adding a present identifier
    /// leaves the set as it was.
    pub fn insert(&mut self, id: NodeId) -> (r: bool)
        ensures
            final(self)@ == old(self)@.insert(id),
            r == !old(self)@.contains(id),
            old(self)@.contains(id) ==> final(self)@ == old(self)@,
            old(self)@.subset_of(final(self)@),
    {
        let r = self.ids.insert(id);
        proof {
            if !r {
                assert(self@ =~= old(self)@);
            }
        }
        r
    }

    pub fn len(&self) -> (r: usize)
        ensures
            r == self@.len(),
    {
        self.ids.len()
    }
}

} // verus!
