//! Structural metadata for a given group: its id, the ids of the subjects
//! assigned to it so far, and its capacity.

use vstd::prelude::*;

use crate::errors::CapacityError;

verus! {

/// Structural metadata for a given group.
pub struct GroupMetaData {
    id: u64,
    subject_ids: Vec<u64>,
    capacity: i32,
}

impl GroupMetaData {
    /// The corresponding group's id, as a mathematical value.
    pub closed spec fn spec_id(&self) -> u64 {
        self.id
    }

    /// The ids of the corresponding group's subjects, as a mathematical
    /// value.
    pub closed spec fn spec_subject_ids(&self) -> Seq<u64> {
        self.subject_ids@
    }

    /// The corresponding group's capacity, as a mathematical value.
    pub closed spec fn spec_capacity(&self) -> i32 {
        self.capacity
    }

    /// Whether the corresponding group is full, as a mathematical value:
    /// it holds at least as many subjects as its capacity allows.
    pub open spec fn spec_full(&self) -> bool {
        self.spec_subject_ids().len() >= self.spec_capacity()
    }

    /// The corresponding group's id.
    pub fn id(&self) -> (r: u64)
        ensures
            r == self.spec_id(),
    {
        self.id
    }

    /// The ids of the corresponding group's subjects.
    pub fn subject_ids(&self) -> (r: &Vec<u64>)
        ensures
            r@ == self.spec_subject_ids(),
    {
        &self.subject_ids
    }

    /// The corresponding group's capacity.
    pub fn capacity(&self) -> (r: i32)
        ensures
            r == self.spec_capacity(),
    {
        self.capacity
    }

    /// True if the corresponding group is full.
    pub fn full(&self) -> (r: bool)
        ensures
            r == self.spec_full(),
    {
        if self.capacity <= 0 {
            true
        } else {
            self.subject_ids.len() >= self.capacity as usize
        }
    }

    /// Constructor.
    pub fn new(id: u64, subject_ids: Vec<u64>, capacity: i32) -> (r: GroupMetaData)
        ensures
            r.spec_id() == id,
            r.spec_subject_ids() == subject_ids@,
            r.spec_capacity() == capacity,
    {
        GroupMetaData { id, subject_ids, capacity }
    }

    /// Used when adding subjects to the corresponding group. A
    /// [`CapacityError`] is returned if the group is already full;
    /// otherwise the given subject id is appended.
    pub fn add_subject_id(&mut self, id: u64) -> (r: Result<(), CapacityError>)
        ensures
            old(self).spec_full() ==> r is Err && *final(self) == *old(self),
            !old(self).spec_full() ==> {
                &&& r is Ok
                &&& final(self).spec_subject_ids() == old(self).spec_subject_ids().push(id)
                &&& final(self).spec_id() == old(self).spec_id()
                &&& final(self).spec_capacity() == old(self).spec_capacity()
            },
    {
        if self.full() {
            Err(CapacityError {})
        } else {
            self.subject_ids.push(id);
            Ok(())
        }
    }
}

} // verus!
