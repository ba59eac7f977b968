//! The capability a spatial partitioning structure offers for bulk
//! insertion.
use vstd::prelude::*;

use crate::hashgrid::DataIndex;
use crate::hashgrid::{GridEntity, HashGrid};

verus! {

/// Insertion into a spatial partitioning structure, one object or many.
pub trait SpatialInsertion: Sized {
    /// The type of objects stored in the structure.
    type Object;

    /// Whether the structure is in a state fit to take insertions.
    spec fn ready(&self) -> bool;

    /// Inserts an item; `true` when it was stored.
    fn insert(&mut self, object: Self::Object) -> (stored: bool)
        requires
            old(self).ready(),
        ensures
            final(self).ready(),
    ;

    /// Inserts each item in turn, reporting how many were stored.
    fn insert_many(&mut self, objects: Vec<Self::Object>) -> (count: usize)
        requires
            old(self).ready(),
        ensures
            final(self).ready(),
            count <= objects@.len(),
    {
        let n = objects.len();
        let mut count: usize = 0;
        let mut remaining = objects;
        while remaining.len() > 0
            invariant
                self.ready(),
                count + remaining@.len() <= n,
            decreases remaining@.len(),
        {
            match remaining.pop() {
                Some(object) => {
                    if self.insert(object) {
                        count = count + 1;
                    }
                },
                None => {},
            }
        }
        count
    }
}

impl<Id: DataIndex> SpatialInsertion for HashGrid<Id> {
    type Object = GridEntity<Id>;

    /// Ready whenever the grid itself is well-formed.
    open spec fn ready(&self) -> bool {
        self.wf()
    }

    /// Files the entity; `true` unless it lay outside the bounds of a
    /// non-wrapping grid and was dropped.
    fn insert(&mut self, object: GridEntity<Id>) -> (stored: bool) {
        proof {
            self.lemma_wf_boundary();
        }
        let stored = self.bounds().is_inside(object.position()) || self.wrap_enabled();
        HashGrid::insert(self, object);
        stored
    }
}

} // verus!
