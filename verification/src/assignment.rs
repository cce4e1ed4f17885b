//! The assignment result type: the output mapping exposed to callers.

use std::collections::HashMap;
use vstd::prelude::*;

use crate::groups::Group;
use crate::subjects::Subject;

verus! {

broadcast use vstd::std_specs::hash::group_hash_axioms;

/// Describes relationships between subjects and groups: which group each
/// subject was assigned to, and which subjects each group received.
///
/// Assignments are typically obtained from an assigner and are read-only
/// afterwards.
pub struct Assignment {
    subject_ids_to_group_ids: HashMap<u64, u64>,
    group_ids_to_subjects_ids: HashMap<u64, Vec<u64>>,
}

impl Assignment {
    /// The subject id to group id mapping, as a mathematical value.
    pub closed spec fn spec_subjects_map(&self) -> Map<u64, u64> {
        self.subject_ids_to_group_ids@
    }

    /// The group id to subject ids mapping, as a mathematical value.
    pub closed spec fn spec_groups_map(&self) -> Map<u64, Seq<u64>> {
        self.group_ids_to_subjects_ids@.map_values(|v: Vec<u64>| v@)
    }

    /// Constructor from the two finished maps: subject id to group id,
    /// and group id to the ids of its subjects.
    pub fn from_maps(
        subject_ids_to_group_ids: HashMap<u64, u64>,
        group_ids_to_subjects_ids: HashMap<u64, Vec<u64>>,
    ) -> (r: Assignment)
        ensures
            r.spec_subjects_map() == subject_ids_to_group_ids@,
            r.spec_groups_map() == group_ids_to_subjects_ids@.map_values(|v: Vec<u64>| v@),
    {
        Assignment { subject_ids_to_group_ids, group_ids_to_subjects_ids }
    }

    /// Decomposes the assignment into its two maps: subject id to group
    /// id, and group id to the ids of its subjects.
    pub fn into_maps(self) -> (r: (HashMap<u64, u64>, HashMap<u64, Vec<u64>>))
        ensures
            r.0@ == self.spec_subjects_map(),
            r.1@.map_values(|v: Vec<u64>| v@) == self.spec_groups_map(),
    {
        (self.subject_ids_to_group_ids, self.group_ids_to_subjects_ids)
    }

    /// Get the id of the group the given subject is assigned to, or `None`
    /// when the subject is not part of this assignment.
    pub fn subject_to_group_id<S: Subject>(&self, subject: &S) -> (r: Option<&u64>)
        ensures
            match r {
                Some(g) => self.spec_subjects_map().contains_key(subject.spec_id())
                    && *g == self.spec_subjects_map()[subject.spec_id()],
                None => !self.spec_subjects_map().contains_key(subject.spec_id()),
            },
    {
        self.subject_ids_to_group_ids.get(&subject.id())
    }

    /// Get the ids of the subjects assigned to the given group, or `None`
    /// when the group is not part of this assignment.
    pub fn group_to_subjects_ids<G: Group>(&self, group: &G) -> (r: Option<&Vec<u64>>)
        ensures
            match r {
                Some(v) => self.spec_groups_map().contains_key(group.spec_id()) && v@
                    == self.spec_groups_map()[group.spec_id()],
                None => !self.spec_groups_map().contains_key(group.spec_id()),
            },
    {
        let r = self.group_ids_to_subjects_ids.get(&group.id());
        proof {
            assert(self.group_ids_to_subjects_ids@.dom() =~= self.spec_groups_map().dom());
        }
        r
    }
}

} // verus!
