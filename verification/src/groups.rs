//! The group trait and two plain group types.

use vstd::prelude::*;

verus! {

/// The groups the subjects may choose from must implement this trait.
///
/// The two specification functions fix the mathematical meaning of the two
/// executable methods: every implementation must return exactly the value
/// of its specification function, so the assignment algorithms may reason
/// about ids and capacities as pure values.
pub trait Group: Sized {
    /// The group's id as a mathematical value.
    spec fn spec_id(&self) -> u64;

    /// The group's capacity as a mathematical value.
    spec fn spec_capacity(&self) -> i32;

    /// The group's id. Every binding to a type implementing the group trait
    /// is expected to have a unique id.
    fn id(&self) -> (r: u64)
        ensures
            r == self.spec_id(),
    ;

    /// The group's capacity: how many subjects it can hold at most.
    fn capacity(&self) -> (r: i32)
        ensures
            r == self.spec_capacity(),
    ;
}

/// A simple group type: an id and a capacity.
pub struct DefaultGroup {
    id: u64,
    capacity: i32,
}

impl DefaultGroup {
    /// Constructor.
    pub fn new(id: u64, capacity: i32) -> (r: Self)
        ensures
            r.spec_id() == id,
            r.spec_capacity() == capacity,
    {
        DefaultGroup { id, capacity }
    }
}

impl Group for DefaultGroup {
    closed spec fn spec_id(&self) -> u64 {
        self.id
    }

    closed spec fn spec_capacity(&self) -> i32 {
        self.capacity
    }

    fn id(&self) -> (r: u64) {
        self.id
    }

    fn capacity(&self) -> (r: i32) {
        self.capacity
    }
}

/// A second simple implementation of the group trait, convenient in tests.
pub struct TestGroup {
    id: u64,
    capacity: i32,
}

impl TestGroup {
    /// Constructor.
    pub fn new(id: u64, capacity: i32) -> (r: TestGroup)
        ensures
            r.spec_id() == id,
            r.spec_capacity() == capacity,
    {
        TestGroup { id, capacity }
    }
}

impl Group for TestGroup {
    closed spec fn spec_id(&self) -> u64 {
        self.id
    }

    closed spec fn spec_capacity(&self) -> i32 {
        self.capacity
    }

    fn id(&self) -> (r: u64) {
        self.id
    }

    fn capacity(&self) -> (r: i32) {
        self.capacity
    }
}

} // verus!
