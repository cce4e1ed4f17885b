//! Group membership management: the simple group registry used by the
//! assigners, the mathematical model of collections of registries, and the
//! folding of registries into an [`Assignment`].
//!
//! Registries store subject indices into the caller-supplied subject
//! slice, not subject values; all dissatisfaction lookups go through that
//! slice.

use std::collections::HashMap;
use vstd::multiset::Multiset;
use vstd::prelude::*;

use crate::assignment::Assignment;
use crate::errors::CapacityError;
use crate::groups::Group;
use crate::subjects::Subject;

verus! {

broadcast use vstd::std_specs::hash::group_hash_axioms, vstd::seq_lib::group_to_multiset_ensures;

/// All members are indices into the subject slice.
pub open spec fn valid_members<S: Subject>(members: Seq<usize>, subjects: Seq<S>) -> bool {
    forall|p: int| 0 <= p < members.len() ==> (members[p] as int) < subjects.len()
}

/// The subject ids of the members, in member order.
pub open spec fn member_ids<S: Subject>(members: Seq<usize>, subjects: Seq<S>) -> Seq<u64> {
    Seq::new(members.len(), |p: int| subjects[members[p] as int].spec_id())
}

/// All subject ids are pairwise distinct.
pub open spec fn distinct_subject_ids<S: Subject>(subjects: Seq<S>) -> bool {
    forall|i1: int, i2: int|
        0 <= i1 < i2 < subjects.len() ==> subjects[i1].spec_id() != subjects[i2].spec_id()
}

/// All group ids are pairwise distinct.
pub open spec fn distinct_group_ids<G: Group>(groups: Seq<G>) -> bool {
    forall|j1: int, j2: int|
        0 <= j1 < j2 < groups.len() ==> groups[j1].spec_id() != groups[j2].spec_id()
}

/// The assigners in this library use some decoration of this data
/// structure to provide assignments: one group's id and capacity together
/// with the indices of the subjects currently assigned to it.
pub struct SimpleGroupRegistry {
    /// The id of the group this registry manages.
    pub group_id: u64,
    /// The capacity of the group this registry manages.
    pub capacity: i32,
    /// Members to be assigned to the corresponding group, as indices into
    /// the caller's subject slice.
    pub subjects: Vec<usize>,
}

impl SimpleGroupRegistry {
    /// The group is full: it holds at least as many subjects as its
    /// capacity allows.
    pub open spec fn spec_full(self) -> bool {
        self.subjects@.len() >= self.capacity
    }

    /// Constructor.
    pub fn new<G: Group>(group: &G, subjects: Vec<usize>) -> (r: Self)
        ensures
            r.group_id == group.spec_id(),
            r.capacity == group.spec_capacity(),
            r.subjects == subjects,
    {
        SimpleGroupRegistry { group_id: group.id(), capacity: group.capacity(), subjects }
    }

    /// The managed group's id.
    pub fn id(&self) -> (r: u64)
        ensures
            r == self.group_id,
    {
        self.group_id
    }

    /// The managed group's capacity.
    pub fn capacity(&self) -> (r: i32)
        ensures
            r == self.capacity,
    {
        self.capacity
    }

    /// Indicates whether the managed group is full.
    pub fn full(&self) -> (r: bool)
        ensures
            r == self.spec_full(),
    {
        if self.capacity <= 0 {
            true
        } else {
            self.subjects.len() >= self.capacity as usize
        }
    }

    /// Appends the subject with the given index if the group is not full;
    /// fails with a [`CapacityError`] otherwise. Plain (non-priority)
    /// insertion, used by first-come-first-served assignment.
    pub fn register_subject(&mut self, index: usize) -> (r: Result<(), CapacityError>)
        ensures
            old(self).spec_full() ==> r is Err && *final(self) == *old(self),
            !old(self).spec_full() ==> {
                &&& r is Ok
                &&& final(self).subjects@ == old(self).subjects@.push(index)
                &&& final(self).group_id == old(self).group_id
                &&& final(self).capacity == old(self).capacity
            },
    {
        if self.full() {
            Err(CapacityError {})
        } else {
            self.subjects.push(index);
            Ok(())
        }
    }
}

/// The combined number of members over a sequence of registries.
pub open spec fn sum_lens(regs: Seq<SimpleGroupRegistry>) -> int
    decreases regs.len(),
{
    if regs.len() == 0 {
        0
    } else {
        sum_lens(regs.drop_last()) + regs.last().subjects@.len()
    }
}

/// The combined capacity over a sequence of registries.
pub open spec fn sum_caps(regs: Seq<SimpleGroupRegistry>) -> int
    decreases regs.len(),
{
    if regs.len() == 0 {
        0
    } else {
        sum_caps(regs.drop_last()) + regs.last().capacity
    }
}

/// The multiset of all member indices over a sequence of registries.
pub open spec fn all_members(regs: Seq<SimpleGroupRegistry>) -> Multiset<usize>
    decreases regs.len(),
{
    if regs.len() == 0 {
        Multiset::empty()
    } else {
        all_members(regs.drop_last()).add(regs.last().subjects@.to_multiset())
    }
}

/// Pushing a registry onto a sequence extends the three model functions in
/// the evident way.
pub proof fn lemma_regs_push(regs: Seq<SimpleGroupRegistry>, r: SimpleGroupRegistry)
    ensures
        sum_lens(regs.push(r)) == sum_lens(regs) + r.subjects@.len(),
        sum_caps(regs.push(r)) == sum_caps(regs) + r.capacity,
        all_members(regs.push(r)) == all_members(regs).add(r.subjects@.to_multiset()),
{
    assert(regs.push(r).drop_last() =~= regs);
}

/// Replacing one registry adjusts the three model functions by the
/// difference between the new and the old entry.
pub proof fn lemma_regs_update(regs: Seq<SimpleGroupRegistry>, j: int, r: SimpleGroupRegistry)
    requires
        0 <= j < regs.len(),
    ensures
        sum_lens(regs.update(j, r)) == sum_lens(regs) - regs[j].subjects@.len()
            + r.subjects@.len(),
        sum_caps(regs.update(j, r)) == sum_caps(regs) - regs[j].capacity + r.capacity,
        forall|x: usize|
            all_members(regs.update(j, r)).count(x) == all_members(regs).count(x)
                - regs[j].subjects@.to_multiset().count(x) + r.subjects@.to_multiset().count(x),
    decreases regs.len(),
{
    if j == regs.len() - 1 {
        assert(regs.update(j, r).drop_last() =~= regs.drop_last());
        assert forall|x: usize|
            all_members(regs.update(j, r)).count(x) == all_members(regs).count(x)
                - regs[j].subjects@.to_multiset().count(x) + r.subjects@.to_multiset().count(
                x,
            ) by {
            assert(all_members(regs.update(j, r)).count(x) == all_members(
                regs.drop_last(),
            ).count(x) + r.subjects@.to_multiset().count(x));
            assert(all_members(regs).count(x) == all_members(regs.drop_last()).count(x)
                + regs[j].subjects@.to_multiset().count(x));
        }
    } else {
        assert(regs.update(j, r).drop_last() =~= regs.drop_last().update(j, r));
        assert(regs.update(j, r).last() == regs.last());
        lemma_regs_update(regs.drop_last(), j, r);
        assert(regs.drop_last()[j] == regs[j]);
        assert forall|x: usize|
            all_members(regs.update(j, r)).count(x) == all_members(regs).count(x)
                - regs[j].subjects@.to_multiset().count(x) + r.subjects@.to_multiset().count(
                x,
            ) by {
            assert(all_members(regs.update(j, r)).count(x) == all_members(
                regs.drop_last().update(j, r),
            ).count(x) + regs.last().subjects@.to_multiset().count(x));
            assert(all_members(regs).count(x) == all_members(regs.drop_last()).count(x)
                + regs.last().subjects@.to_multiset().count(x));
        }
    }
}

/// When the registries hold strictly fewer members than their combined
/// capacity, one of them is not full.
pub proof fn lemma_exists_non_full(regs: Seq<SimpleGroupRegistry>)
    requires
        sum_lens(regs) < sum_caps(regs),
    ensures
        exists|j: int| 0 <= j < regs.len() && !(#[trigger] regs[j]).spec_full(),
    decreases regs.len(),
{
    if regs.len() > 0 {
        if regs.last().subjects@.len() < regs.last().capacity {
            assert(!regs[regs.len() - 1].spec_full());
        } else {
            lemma_exists_non_full(regs.drop_last());
            let j = choose|j: int|
                0 <= j < regs.drop_last().len() && !(#[trigger] regs.drop_last()[j]).spec_full();
            assert(!regs[j].spec_full());
        }
    }
}

/// An index is in the member multiset exactly when some registry holds it.
pub proof fn lemma_all_members_contains(regs: Seq<SimpleGroupRegistry>, x: usize)
    ensures
        all_members(regs).count(x) > 0 <==> exists|j: int, p: int|
            0 <= j < regs.len() && 0 <= p < regs[j].subjects@.len() && regs[j].subjects@[p] == x,
    decreases regs.len(),
{
    if regs.len() > 0 {
        lemma_all_members_contains(regs.drop_last(), x);
        let n = regs.len() - 1;
        if all_members(regs).count(x) > 0 {
            if all_members(regs.drop_last()).count(x) > 0 {
                let (j, p) = choose|j: int, p: int|
                    0 <= j < regs.drop_last().len() && 0 <= p
                        < regs.drop_last()[j].subjects@.len() && regs.drop_last()[j].subjects@[p]
                        == x;
                assert(regs[j].subjects@[p] == x);
            } else {
                assert(regs.last().subjects@.to_multiset().count(x) > 0);
                assert(regs.last().subjects@.contains(x));
                let p = choose|p: int|
                    0 <= p < regs.last().subjects@.len() && regs.last().subjects@[p] == x;
                assert(regs[n].subjects@[p] == x);
            }
        }
        if exists|j: int, p: int|
            0 <= j < regs.len() && 0 <= p < regs[j].subjects@.len() && regs[j].subjects@[p] == x {
            let (j, p) = choose|j: int, p: int|
                0 <= j < regs.len() && 0 <= p < regs[j].subjects@.len() && regs[j].subjects@[p]
                    == x;
            if j < n {
                assert(regs.drop_last()[j].subjects@[p] == x);
            } else {
                assert(regs.last().subjects@.contains(x));
            }
        }
    }
}

/// When every index is held at most once over all registries, two
/// occurrences of one index coincide.
pub proof fn lemma_all_members_unique(
    regs: Seq<SimpleGroupRegistry>,
    j1: int,
    p1: int,
    j2: int,
    p2: int,
)
    requires
        forall|x: usize| all_members(regs).count(x) <= 1,
        0 <= j1 < regs.len(),
        0 <= p1 < regs[j1].subjects@.len(),
        0 <= j2 < regs.len(),
        0 <= p2 < regs[j2].subjects@.len(),
        regs[j1].subjects@[p1] == regs[j2].subjects@[p2],
    ensures
        j1 == j2 && p1 == p2,
    decreases regs.len(),
{
    let x = regs[j1].subjects@[p1];
    let n = regs.len() - 1;
    assert(all_members(regs).count(x) == all_members(regs.drop_last()).count(x)
        + regs.last().subjects@.to_multiset().count(x));
    if j1 < n && j2 < n {
        assert forall|y: usize| all_members(regs.drop_last()).count(y) <= 1 by {
            assert(all_members(regs).count(y) == all_members(regs.drop_last()).count(y)
                + regs.last().subjects@.to_multiset().count(y));
        }
        assert(regs.drop_last()[j1].subjects@[p1] == regs.drop_last()[j2].subjects@[p2]);
        lemma_all_members_unique(regs.drop_last(), j1, p1, j2, p2);
    } else if j1 == n && j2 == n {
        if p1 != p2 {
            lemma_seq_count_two_positions(regs.last().subjects@, p1, p2);
        }
    } else {
        // one occurrence in the last registry, one earlier: both multisets
        // contain x, so the total count is at least two.
        let (ja, pa, jb, pb) = if j1 < n {
            (j1, p1, j2, p2)
        } else {
            (j2, p2, j1, p1)
        };
        assert(regs.drop_last()[ja].subjects@[pa] == x);
        lemma_all_members_contains(regs.drop_last(), x);
        assert(regs.last().subjects@[pb] == x);
        assert(regs.last().subjects@.contains(x));
        assert(regs.last().subjects@.to_multiset().count(x) > 0);
        assert(all_members(regs).count(x) >= 2);
    }
}

/// A sequence holding one value at two distinct positions counts it at
/// least twice in its multiset.
pub proof fn lemma_seq_count_two_positions(s: Seq<usize>, p1: int, p2: int)
    requires
        0 <= p1 < s.len(),
        0 <= p2 < s.len(),
        p1 != p2,
        s[p1] == s[p2],
    ensures
        s.to_multiset().count(s[p1]) >= 2,
{
    let x = s[p1];
    let (a, b) = if p1 < p2 {
        (p1, p2)
    } else {
        (p2, p1)
    };
    let s2 = s.remove(a);
    assert(s.to_multiset().count(x) == s2.to_multiset().count(x) + 1);
    assert(s2[b - 1] == s[b]);
    assert(s2.contains(x));
    assert(s2.to_multiset().count(x) > 0);
}

/// The group-side correctness of folding registries into an assignment:
/// the group map has exactly the registries' group ids as keys, and maps
/// each to the ids of that registry's members, in member order.
pub open spec fn folded_groups_ok<S: Subject>(
    r: Assignment,
    regs: Seq<SimpleGroupRegistry>,
    subjects: Seq<S>,
) -> bool {
    &&& forall|j: int|
        0 <= j < regs.len() ==> r.spec_groups_map().contains_key(#[trigger] regs[j].group_id)
            && r.spec_groups_map()[regs[j].group_id] == member_ids(regs[j].subjects@, subjects)
    &&& forall|k: u64|
        r.spec_groups_map().contains_key(k) ==> exists|j: int|
            0 <= j < regs.len() && (#[trigger] regs[j]).group_id == k
}

/// The subject-side correctness of folding registries into an assignment:
/// the subject map has exactly the members' subject ids as keys, and maps
/// each to the id of the group whose registry holds the member.
pub open spec fn folded_subjects_ok<S: Subject>(
    r: Assignment,
    regs: Seq<SimpleGroupRegistry>,
    subjects: Seq<S>,
) -> bool {
    &&& forall|j: int, p: int|
        0 <= j < regs.len() && 0 <= p < regs[j].subjects@.len() ==> r.spec_subjects_map(
        ).contains_key(subjects[#[trigger] regs[j].subjects@[p] as int].spec_id())
            && r.spec_subjects_map()[subjects[regs[j].subjects@[p] as int].spec_id()]
            == regs[j].group_id
    &&& forall|k: u64|
        r.spec_subjects_map().contains_key(k) ==> exists|j: int, p: int|
            0 <= j < regs.len() && 0 <= p < regs[j].subjects@.len() && subjects[(
            #[trigger] regs[j].subjects@[p]) as int].spec_id() == k
}

/// Transforms a vector of group registries into an [`Assignment`].
///
/// The first of the assignment's mappings takes each member's subject id
/// to the id of its registry's group; the second takes each registry's
/// group id to the ids of its members. The registries must be disjoint in
/// subject membership and pairwise distinct in group id, so no union can
/// lose information.
pub fn assign_from_group_registries<S: Subject>(
    group_registries: Vec<SimpleGroupRegistry>,
    subjects: &[S],
) -> (r: Assignment)
    requires
        forall|j: int|
            0 <= j < group_registries@.len() ==> valid_members(
                (#[trigger] group_registries@[j]).subjects@,
                subjects@,
            ),
        distinct_subject_ids(subjects@),
        forall|j1: int, j2: int|
            0 <= j1 < j2 < group_registries@.len() ==> group_registries@[j1].group_id
                != group_registries@[j2].group_id,
        forall|x: usize| all_members(group_registries@).count(x) <= 1,
    ensures
        folded_groups_ok(r, group_registries@, subjects@),
        folded_subjects_ok(r, group_registries@, subjects@),
{
    let ghost regs = group_registries@;
    let mut subject_ids_to_group_ids: HashMap<u64, u64> = HashMap::new();
    let mut group_ids_to_subjects_ids: HashMap<u64, Vec<u64>> = HashMap::new();
    let mut j: usize = 0;
    while j < group_registries.len()
        invariant
            regs == group_registries@,
            0 <= j <= regs.len(),
            forall|jj: int|
                0 <= jj < regs.len() ==> valid_members(
                    (#[trigger] regs[jj]).subjects@,
                    subjects@,
                ),
            distinct_subject_ids(subjects@),
            forall|j1: int, j2: int|
                0 <= j1 < j2 < regs.len() ==> regs[j1].group_id != regs[j2].group_id,
            forall|x: usize| all_members(regs).count(x) <= 1,
            forall|jj: int|
                0 <= jj < j ==> group_ids_to_subjects_ids@.contains_key(
                    (#[trigger] regs[jj]).group_id,
                ) && group_ids_to_subjects_ids@[regs[jj].group_id]@ == member_ids(
                    regs[jj].subjects@,
                    subjects@,
                ),
            forall|k: u64|
                group_ids_to_subjects_ids@.contains_key(k) ==> exists|jj: int|
                    0 <= jj < j && (#[trigger] regs[jj]).group_id == k,
            forall|jj: int, p: int|
                0 <= jj < j && 0 <= p < regs[jj].subjects@.len()
                    ==> subject_ids_to_group_ids@.contains_key(
                    subjects@[#[trigger] regs[jj].subjects@[p] as int].spec_id(),
                ) && subject_ids_to_group_ids@[subjects@[regs[jj].subjects@[p] as int].spec_id()]
                    == regs[jj].group_id,
            forall|k: u64|
                subject_ids_to_group_ids@.contains_key(k) ==> exists|jj: int, p: int|
                    0 <= jj < j && 0 <= p < regs[jj].subjects@.len() && subjects@[(
                    #[trigger] regs[jj].subjects@[p]) as int].spec_id() == k,
        decreases regs.len() - j,
    {
        let reg = &group_registries[j];
        let group_id = reg.group_id;
        let mut ids: Vec<u64> = Vec::new();
        let mut p: usize = 0;
        while p < reg.subjects.len()
            invariant
                regs == group_registries@,
                0 <= j < regs.len(),
                reg == regs[j as int],
                group_id == regs[j as int].group_id,
                0 <= p <= reg.subjects@.len(),
                ids@ == member_ids(reg.subjects@.take(p as int), subjects@),
                forall|jj: int|
                    0 <= jj < regs.len() ==> valid_members(
                        (#[trigger] regs[jj]).subjects@,
                        subjects@,
                    ),
                distinct_subject_ids(subjects@),
                forall|x: usize| all_members(regs).count(x) <= 1,
                forall|jj: int, pp: int|
                    0 <= jj < j && 0 <= pp < regs[jj].subjects@.len()
                        ==> subject_ids_to_group_ids@.contains_key(
                        subjects@[#[trigger] regs[jj].subjects@[pp] as int].spec_id(),
                    ) && subject_ids_to_group_ids@[subjects@[regs[jj].subjects@[pp] as int].spec_id()]
                        == regs[jj].group_id,
                forall|pp: int|
                    0 <= pp < p ==> subject_ids_to_group_ids@.contains_key(
                        subjects@[#[trigger] regs[j as int].subjects@[pp] as int].spec_id(),
                    ) && subject_ids_to_group_ids@[subjects@[regs[j as int].subjects@[pp] as int].spec_id()]
                        == regs[j as int].group_id,
                forall|k: u64|
                    subject_ids_to_group_ids@.contains_key(k) ==> exists|jj: int, pp: int|
                        0 <= jj < regs.len() && 0 <= pp < regs[jj].subjects@.len() && (jj < j || (
                        jj == j && pp < p)) && subjects@[(
                        #[trigger] regs[jj].subjects@[pp]) as int].spec_id() == k,
            decreases reg.subjects@.len() - p,
        {
            let m = reg.subjects[p];
            let sid = subjects[m].id();
            ids.push(sid);
            subject_ids_to_group_ids.insert(sid, group_id);
            proof {
                assert(reg.subjects@.take(p + 1) =~= reg.subjects@.take(p as int).push(
                    reg.subjects@[p as int],
                ));
                assert(ids@ =~= member_ids(reg.subjects@.take(p + 1), subjects@));
                // an earlier member of any registry is a different index,
                // hence carries a different subject id
                assert forall|jj: int, pp: int|
                    0 <= jj < regs.len() && 0 <= pp < regs[jj].subjects@.len() && (jj < j || (jj
                        == j && pp < p)) implies subjects@[(
                    #[trigger] regs[jj].subjects@[pp]) as int].spec_id() != sid by {
                    if regs[jj].subjects@[pp] == regs[j as int].subjects@[p as int] {
                        lemma_all_members_unique(regs, jj, pp, j as int, p as int);
                    }
                }
            }
            p = p + 1;
        }
        proof {
            assert(reg.subjects@.take(reg.subjects@.len() as int) =~= reg.subjects@);
        }
        group_ids_to_subjects_ids.insert(group_id, ids);
        j = j + 1;
    }
    let r = Assignment::from_maps(subject_ids_to_group_ids, group_ids_to_subjects_ids);
    proof {
        assert forall|jj: int|
            0 <= jj < regs.len() implies r.spec_groups_map().contains_key(
            (#[trigger] regs[jj]).group_id,
        ) && r.spec_groups_map()[regs[jj].group_id] == member_ids(
            regs[jj].subjects@,
            subjects@,
        ) by {
            assert(group_ids_to_subjects_ids@.contains_key(regs[jj].group_id));
        }
        assert forall|k: u64| r.spec_groups_map().contains_key(k) implies exists|jj: int|
            0 <= jj < regs.len() && (#[trigger] regs[jj]).group_id == k by {
            assert(group_ids_to_subjects_ids@.contains_key(k));
        }
    }
    r
}

/// Inserting a value into a sequence raises its multiset count by one and
/// leaves the other counts alone.
pub proof fn lemma_to_multiset_insert(s: Seq<usize>, i: int, v: usize)
    requires
        0 <= i <= s.len(),
    ensures
        forall|x: usize|
            s.insert(i, v).to_multiset().count(x) == s.to_multiset().count(x) + if x == v {
                1int
            } else {
                0int
            },
{
    let s2 = s.insert(i, v);
    assert(s2.remove(i) =~= s);
    assert(s2.to_multiset().remove(s2[i]) =~= s.to_multiset());
    assert(s2[i] == v);
    assert forall|x: usize|
        s2.to_multiset().count(x) == s.to_multiset().count(x) + if x == v {
            1int
        } else {
            0int
        } by {
        assert(s.to_multiset() == s2.to_multiset().remove(v));
        if x == v {
            assert(s2.to_multiset().count(v) >= 1) by {
                assert(s2[i] == v);
                assert(s2.contains(v));
            }
        }
    }
}

} // verus!
