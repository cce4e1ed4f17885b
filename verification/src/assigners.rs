//! The assigner trait: a type implementing it may assign subjects to
//! groups.
//!
//! Available assigners:
//! - First come first served: the subjects get assigned to their most
//!   preferred available group in turn.
//! - Propose and reject: first assigns every subject to their first
//!   choice regardless of capacity constraints, then the overfull groups
//!   hand over subjects to the not yet full groups in a manner similar to
//!   the Gale-Shapley algorithm.

use vstd::prelude::*;

use crate::assignment::Assignment;
use crate::errors::TotalCapacityError;
use crate::group_management::distinct_group_ids;
use crate::group_management::distinct_subject_ids;
use crate::groups::Group;
use crate::subjects::Subject;

verus! {

/// The combined capacity of the given groups.
pub open spec fn spec_sum_capacities<G: Group>(groups: Seq<G>) -> int
    decreases groups.len(),
{
    if groups.len() == 0 {
        0
    } else {
        spec_sum_capacities(groups.drop_last()) + groups.last().spec_capacity()
    }
}

/// Trait enabling group assignments.
pub trait Assigner {
    /// Assign the given subjects to the given groups.
    ///
    /// Exactly when the combined capacity of the groups covers the number
    /// of subjects, an [`Assignment`] is returned; otherwise the
    /// [`TotalCapacityError`] of the capacity precheck is surfaced before
    /// any work is done.
    fn assign<S: Subject, G: Group>(subjects: &[S], groups: &[G]) -> (r: Result<
        Assignment,
        TotalCapacityError,
    >)
        requires
            distinct_subject_ids(subjects@),
            distinct_group_ids(groups@),
            forall|j: int| 0 <= j < groups@.len() ==> (#[trigger] groups@[j]).spec_capacity() >= 0,
        ensures
            r is Ok <==> spec_sum_capacities(groups@) >= subjects@.len(),
    ;

    /// The capacity precheck: succeeds exactly when the combined capacity
    /// of the groups covers the number of subjects. This method must be
    /// called by `assign`, and in the case of an error the error must be
    /// forwarded.
    fn sufficient_capacity<S: Subject, G: Group>(subjects: &[S], groups: &[G]) -> (r: Result<
        (),
        TotalCapacityError,
    >)
        ensures
            r is Ok <==> spec_sum_capacities(groups@) >= subjects@.len(),
    {
        let mut total: i128 = 0;
        let mut j: usize = 0;
        while j < groups.len()
            invariant
                0 <= j <= groups@.len(),
                total == spec_sum_capacities(groups@.take(j as int)),
                -0x8000_0000i128 * (j as i128) <= total <= 0x8000_0000i128 * (j as i128),
            decreases groups@.len() - j,
        {
            proof {
                assert(groups@.take(j + 1).drop_last() =~= groups@.take(j as int));
                assert(groups@.take(j + 1).last() == groups@[j as int]);
            }
            total = total + (groups[j].capacity() as i128);
            j = j + 1;
        }
        proof {
            assert(groups@.take(groups@.len() as int) =~= groups@);
        }
        if total >= (subjects.len() as i128) {
            Ok(())
        } else {
            Err(TotalCapacityError {})
        }
    }
}

} // verus!
