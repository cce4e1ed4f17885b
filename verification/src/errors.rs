//! Assignment related errors.

use vstd::prelude::*;

verus! {

/// Error indicating that it is not possible to assign the given subjects to
/// groups under the current capacity constraints: the combined group
/// capacity is less than the number of subjects.
#[derive(Debug, Clone, PartialEq, Eq, Structural)]
pub struct TotalCapacityError {}

impl TotalCapacityError {
    /// A human readable description of the error.
    pub fn message(&self) -> (r: &'static str)
        ensures
            r@ =~= "Insufficient capacity: The combined group capacity is less than the number of subjects"@,
    {
        "Insufficient capacity: The combined group capacity is less than the number of subjects"
    }
}

/// Error indicating that a group is already full while trying to add
/// another subject. Group-local, distinct from [`TotalCapacityError`].
#[derive(Debug, Clone, PartialEq, Eq, Structural)]
pub struct CapacityError {}

impl CapacityError {
    /// A human readable description of the error.
    pub fn message(&self) -> (r: &'static str)
        ensures
            r@ =~= "Insufficient capacity: The group capacity is less than the number of subjects"@,
    {
        "Insufficient capacity: The group capacity is less than the number of subjects"
    }
}

} // verus!
