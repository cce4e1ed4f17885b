//! The proposal handling group registry: it decorates the simple group
//! registry with dissatisfaction-ordered membership (the most dissatisfied
//! member always at the tail), a cached highest dissatisfaction rating,
//! and the propose/transfer protocol between groups.

use vstd::prelude::*;

use crate::errors::CapacityError;
use crate::group_management::lemma_to_multiset_insert;
use crate::group_management::valid_members;
use crate::group_management::SimpleGroupRegistry;
use crate::groups::Group;
use crate::offers::MembershipOffer;
use crate::offers::TransferralOffer;
use crate::subjects::Subject;
use crate::summations::lemma_seq_sum_concat;
use crate::summations::lemma_seq_sum_nonneg;
use crate::summations::lemma_seq_sum_push;
use crate::summations::seq_sum;

verus! {

broadcast use vstd::seq_lib::group_to_multiset_ensures;

/// A member's weight toward a group: its dissatisfaction rating shifted
/// to be non-negative. Sums of weights over a group's members serve as a
/// termination measure for the propose-and-reject convergence loop: an
/// eviction strictly lowers the receiving group's weight sum.
pub open spec fn member_weight<S: Subject>(subjects: Seq<S>, m: usize, gid: u64) -> int {
    subjects[m as int].spec_dissatisfaction(gid) + 0x8000_0000
}

/// The weight of a member as a function value, for summation.
pub open spec fn weight_fn<S: Subject>(subjects: Seq<S>, gid: u64) -> spec_fn(usize) -> int {
    |m: usize| member_weight(subjects, m, gid)
}

/// The combined weight of a group's members toward that group.
pub open spec fn members_potential<S: Subject>(
    subjects: Seq<S>,
    members: Seq<usize>,
    gid: u64,
) -> int {
    seq_sum(members, weight_fn(subjects, gid))
}

/// Inserting a member adds its weight to the group's potential.
pub proof fn lemma_members_potential_insert<S: Subject>(
    subjects: Seq<S>,
    members: Seq<usize>,
    i: int,
    v: usize,
    gid: u64,
)
    requires
        0 <= i <= members.len(),
    ensures
        members_potential(subjects, members.insert(i, v), gid) == members_potential(
            subjects,
            members,
            gid,
        ) + member_weight(subjects, v, gid),
{
    let f = weight_fn(subjects, gid);
    let left = members.subrange(0, i);
    let right = members.subrange(i, members.len() as int);
    assert(members.insert(i, v) == left.push(v) + right);
    assert(members =~= left + right);
    lemma_seq_sum_concat(left.push(v), right, f);
    lemma_seq_sum_concat(left, right, f);
    lemma_seq_sum_push(left, f, v);
}

/// A group's potential is non-negative.
pub proof fn lemma_members_potential_nonneg<S: Subject>(
    subjects: Seq<S>,
    members: Seq<usize>,
    gid: u64,
)
    ensures
        members_potential(subjects, members, gid) >= 0,
{
    let f = weight_fn(subjects, gid);
    assert forall|j: int| 0 <= j < members.len() implies f(#[trigger] members[j]) >= 0 by {
        assert(f(members[j]) == member_weight(subjects, members[j], gid));
    }
    lemma_seq_sum_nonneg(members, f);
}

/// The position at which a newcomer is inserted to keep the member
/// sequence sorted ascending by dissatisfaction toward the group with id
/// `gid`: the first position holding a member at least as dissatisfied as
/// the newcomer, or the length when every member is strictly happier.
pub open spec fn sorted_insert_position<S: Subject>(
    subjects: Seq<S>,
    members: Seq<usize>,
    gid: u64,
    index: usize,
) -> int
    decreases members.len(),
{
    if members.len() == 0 {
        0
    } else if subjects[members[0] as int].spec_dissatisfaction(gid) >= subjects[index as int].spec_dissatisfaction(
        gid,
    ) {
        0
    } else {
        1 + sorted_insert_position(subjects, members.drop_first(), gid, index)
    }
}

/// `sorted_insert_position` really is the first position holding a member
/// at least as dissatisfied as the newcomer, or the length.
pub proof fn lemma_sorted_insert_position<S: Subject>(
    subjects: Seq<S>,
    members: Seq<usize>,
    gid: u64,
    index: usize,
)
    ensures
        0 <= sorted_insert_position(subjects, members, gid, index) <= members.len(),
        sorted_insert_position(subjects, members, gid, index) < members.len()
            ==> subjects[members[sorted_insert_position(subjects, members, gid, index)] as int].spec_dissatisfaction(
            gid,
        ) >= subjects[index as int].spec_dissatisfaction(gid),
        forall|t: int|
            0 <= t < sorted_insert_position(subjects, members, gid, index)
                ==> subjects[(#[trigger] members[t]) as int].spec_dissatisfaction(gid)
                < subjects[index as int].spec_dissatisfaction(gid),
    decreases members.len(),
{
    if members.len() > 0 && subjects[members[0] as int].spec_dissatisfaction(gid)
        < subjects[index as int].spec_dissatisfaction(gid) {
        lemma_sorted_insert_position(subjects, members.drop_first(), gid, index);
        assert forall|t: int|
            0 <= t < sorted_insert_position(subjects, members, gid, index) implies subjects[(
        #[trigger] members[t]) as int].spec_dissatisfaction(gid)
            < subjects[index as int].spec_dissatisfaction(gid) by {
            if t > 0 {
                assert(members[t] == members.drop_first()[t - 1]);
            }
        }
    }
}

/// The position, within `members`, of the member with minimum
/// dissatisfaction toward the group with id `target_gid`, among the first
/// `upto` members; the first such position wins ties.
pub open spec fn donor_choice_upto<S: Subject>(
    subjects: Seq<S>,
    members: Seq<usize>,
    target_gid: u64,
    upto: int,
) -> int
    decreases upto,
{
    if upto <= 1 {
        0
    } else {
        let prev = donor_choice_upto(subjects, members, target_gid, upto - 1);
        if subjects[members[upto - 1] as int].spec_dissatisfaction(target_gid)
            < subjects[members[prev] as int].spec_dissatisfaction(target_gid) {
            upto - 1
        } else {
            prev
        }
    }
}

/// The position, within `members`, of the first member with minimum
/// dissatisfaction toward the group with id `target_gid`.
pub open spec fn donor_choice<S: Subject>(
    subjects: Seq<S>,
    members: Seq<usize>,
    target_gid: u64,
) -> int {
    donor_choice_upto(subjects, members, target_gid, members.len() as int)
}

/// The donor choice is a valid position and minimizes dissatisfaction
/// toward the target group among the members considered.
pub proof fn lemma_donor_choice<S: Subject>(
    subjects: Seq<S>,
    members: Seq<usize>,
    target_gid: u64,
    upto: int,
)
    requires
        1 <= upto,
    ensures
        0 <= donor_choice_upto(subjects, members, target_gid, upto) < upto,
        forall|t: int|
            0 <= t < upto ==> subjects[members[donor_choice_upto(
                subjects,
                members,
                target_gid,
                upto,
            )] as int].spec_dissatisfaction(target_gid) <= subjects[(
            #[trigger] members[t]) as int].spec_dissatisfaction(target_gid),
    decreases upto,
{
    if upto > 1 {
        lemma_donor_choice(subjects, members, target_gid, upto - 1);
    }
}

/// The proposal handling group registry extends the simple group registry
/// and always caches how dissatisfied its least happy member is with this
/// group. To be able to easily access the most dissatisfied member, the
/// member sequence is kept sorted ascending by dissatisfaction toward
/// this group, so that member always stands at the tail.
pub struct ProposalHandlingGroupRegistry {
    /// The underlying simple registry: group id, capacity and members.
    pub delegate: SimpleGroupRegistry,
    /// The dissatisfaction rating of the least happy member, or 0 when
    /// the group is empty.
    pub highest_dissatisfaction: i32,
}

impl ProposalHandlingGroupRegistry {
    /// The member indices, in ascending order of dissatisfaction toward
    /// this group.
    pub open spec fn members(self) -> Seq<usize> {
        self.delegate.subjects@
    }

    /// The managed group's id.
    pub open spec fn gid(self) -> u64 {
        self.delegate.group_id
    }

    /// The managed group's capacity.
    pub open spec fn cap(self) -> i32 {
        self.delegate.capacity
    }

    /// The dissatisfaction of the member at position `p` toward this
    /// group.
    pub open spec fn member_diss<S: Subject>(self, subjects: Seq<S>, p: int) -> i32 {
        subjects[self.members()[p] as int].spec_dissatisfaction(self.gid())
    }

    /// The members are sorted ascending by dissatisfaction toward this
    /// group.
    pub open spec fn sorted<S: Subject>(self, subjects: Seq<S>) -> bool {
        forall|p1: int, p2: int|
            0 <= p1 <= p2 < self.members().len() ==> self.member_diss(subjects, p1)
                <= self.member_diss(subjects, p2)
    }

    /// The cached highest dissatisfaction equals the last member's
    /// dissatisfaction toward this group, or 0 for an empty group.
    pub open spec fn cache_ok<S: Subject>(self, subjects: Seq<S>) -> bool {
        if self.members().len() == 0 {
            self.highest_dissatisfaction == 0
        } else {
            self.highest_dissatisfaction == self.member_diss(
                subjects,
                self.members().len() - 1,
            )
        }
    }

    /// Well-formedness: member indices are in range, members are sorted,
    /// and the cache is consistent.
    pub open spec fn wf<S: Subject>(self, subjects: Seq<S>) -> bool {
        &&& valid_members(self.members(), subjects)
        &&& self.sorted(subjects)
        &&& self.cache_ok(subjects)
    }

    /// The group is full: it holds at least as many members as its
    /// capacity allows.
    pub open spec fn spec_full(self) -> bool {
        self.members().len() >= self.cap()
    }

    /// The group is overfull: it holds more members than its capacity
    /// allows. Only transiently true during propose-and-reject.
    pub open spec fn spec_overfull(self) -> bool {
        self.members().len() > self.cap()
    }

    /// The managed group's id.
    pub fn id(&self) -> (r: u64)
        ensures
            r == self.gid(),
    {
        self.delegate.id()
    }

    /// The managed group's capacity.
    pub fn capacity(&self) -> (r: i32)
        ensures
            r == self.cap(),
    {
        self.delegate.capacity()
    }

    /// Indicates whether the managed group is full.
    pub fn full(&self) -> (r: bool)
        ensures
            r == self.spec_full(),
    {
        self.delegate.full()
    }

    /// Indicates whether the managed group is overfull.
    pub fn overfull(&self) -> (r: bool)
        ensures
            r == self.spec_overfull(),
    {
        if self.delegate.capacity <= 0 {
            self.delegate.subjects.len() > 0 || 0 > self.delegate.capacity
        } else {
            self.delegate.subjects.len() > self.delegate.capacity as usize
        }
    }

    /// The dissatisfaction rating of the least happy member, or 0 when
    /// the group is empty.
    pub fn highest_dissatisfaction(&self) -> (r: i32)
        ensures
            r == self.highest_dissatisfaction,
    {
        self.highest_dissatisfaction
    }

    /// Constructor for members that all have dissatisfaction 0 toward the
    /// group, as collected by the first step of propose-and-reject: they
    /// are trivially sorted and the cached highest dissatisfaction is 0.
    pub fn new_without_dissatisfaction<S: Subject, G: Group>(
        group: &G,
        members: Vec<usize>,
        subjects: &[S],
    ) -> (r: Self)
        requires
            valid_members(members@, subjects@),
            forall|p: int|
                0 <= p < members@.len() ==> subjects@[(
                #[trigger] members@[p]) as int].spec_dissatisfaction(group.spec_id()) == 0,
        ensures
            r.members() == members@,
            r.gid() == group.spec_id(),
            r.cap() == group.spec_capacity(),
            r.highest_dissatisfaction == 0,
            r.wf(subjects@),
    {
        let delegate = SimpleGroupRegistry::new(group, members);
        ProposalHandlingGroupRegistry { delegate, highest_dissatisfaction: 0 }
    }

    /// Constructor from arbitrary members: sorts them ascending by
    /// dissatisfaction toward the group and caches the last member's
    /// rating.
    pub fn new<S: Subject, G: Group>(group: &G, members: Vec<usize>, subjects: &[S]) -> (r: Self)
        requires
            valid_members(members@, subjects@),
        ensures
            r.members().to_multiset() == members@.to_multiset(),
            r.members().len() == members@.len(),
            r.gid() == group.spec_id(),
            r.cap() == group.spec_capacity(),
            r.wf(subjects@),
    {
        let mut r = ProposalHandlingGroupRegistry {
            delegate: SimpleGroupRegistry::new(group, Vec::new()),
            highest_dissatisfaction: 0,
        };
        let n = members.len();
        let mut i: usize = 0;
        while i < n
            invariant
                n == members@.len(),
                0 <= i <= n,
                valid_members(members@, subjects@),
                r.gid() == group.spec_id(),
                r.cap() == group.spec_capacity(),
                r.wf(subjects@),
                r.members().len() == i,
                r.members().to_multiset() == members@.take(i as int).to_multiset(),
            decreases n - i,
        {
            proof {
                assert(members@.take(i + 1) =~= members@.take(i as int).push(members@[i as int]));
            }
            r.insert_sorted(subjects, members[i]);
            i = i + 1;
        }
        proof {
            assert(members@.take(n as int) =~= members@);
        }
        r
    }

    /// Inserts a member at the position that keeps the sequence sorted
    /// ascending by dissatisfaction toward this group (before any equally
    /// dissatisfied member), ignoring capacity, and refreshes the cached
    /// highest dissatisfaction.
    fn insert_sorted<S: Subject>(&mut self, subjects: &[S], index: usize)
        requires
            valid_members(old(self).members(), subjects@),
            old(self).sorted(subjects@),
            (index as int) < subjects@.len(),
        ensures
            final(self).wf(subjects@),
            final(self).gid() == old(self).gid(),
            final(self).cap() == old(self).cap(),
            final(self).members().len() == old(self).members().len() + 1,
            final(self).members().to_multiset() == old(self).members().to_multiset().insert(
                index,
            ),
            final(self).members() == old(self).members().insert(
                sorted_insert_position(subjects@, old(self).members(), old(self).gid(), index),
                index,
            ),
            members_potential(subjects@, final(self).members(), old(self).gid())
                == members_potential(subjects@, old(self).members(), old(self).gid())
                + member_weight(subjects@, index, old(self).gid()),
    {
        let ghost orig = self.members();
        let gid = self.delegate.group_id;
        let d_new = subjects[index].dissatisfaction(&gid);
        let n = self.delegate.subjects.len();
        let mut pos: usize = n;
        let mut q: usize = 0;
        while q < n
            invariant
                n == self.members().len(),
                (index as int) < subjects@.len(),
                valid_members(self.members(), subjects@),
                gid == self.gid(),
                d_new == subjects@[index as int].spec_dissatisfaction(gid),
                0 <= q <= n,
                pos == n || (0 <= pos < q && self.member_diss(subjects@, pos as int) >= d_new),
                pos == n ==> forall|t: int|
                    0 <= t < q ==> self.member_diss(subjects@, t) < d_new,
                pos < n ==> forall|t: int| 0 <= t < pos ==> self.member_diss(subjects@, t) < d_new,
            decreases n - q,
        {
            if pos == n {
                let m = self.delegate.subjects[q];
                if subjects[m].dissatisfaction(&gid) >= d_new {
                    pos = q;
                }
            }
            q = q + 1;
        }
        self.delegate.subjects.insert(pos, index);
        let tail = self.delegate.subjects[self.delegate.subjects.len() - 1];
        self.highest_dissatisfaction = subjects[tail].dissatisfaction(&gid);
        proof {
            lemma_sorted_insert_position(subjects@, orig, gid, index);
            let sip = sorted_insert_position(subjects@, orig, gid, index);
            assert(pos == sip) by {
                if (pos as int) < sip {
                    assert(old(self).member_diss(subjects@, pos as int) >= d_new);
                    assert(subjects@[orig[pos as int] as int].spec_dissatisfaction(gid) < d_new);
                } else if sip < (pos as int) {
                    assert(old(self).member_diss(subjects@, sip) < d_new);
                    assert(subjects@[orig[sip] as int].spec_dissatisfaction(gid) >= d_new);
                }
            }
            lemma_to_multiset_insert(orig, pos as int, index);
            orig.insert_ensures(pos as int, index);
            lemma_members_potential_insert(subjects@, orig, pos as int, index, gid);
            assert(self.members().to_multiset() =~= orig.to_multiset().insert(index));
            let s2 = self.members();
            let prev = *old(self);
            assert(prev.members() == orig);
            assert(prev.gid() == gid);
            assert forall|p1: int, p2: int|
                0 <= p1 <= p2 < s2.len() implies subjects@[s2[p1] as int].spec_dissatisfaction(gid)
                <= subjects@[s2[p2] as int].spec_dissatisfaction(gid) by {
                if p1 < pos {
                    assert(s2[p1] == orig[p1]);
                    assert(prev.member_diss(subjects@, p1) < d_new);
                }
                if p1 == pos {
                    assert(s2[p1] == index);
                }
                if p1 > pos {
                    assert(s2[p1] == orig[p1 - 1]);
                }
                if p2 < pos {
                    assert(s2[p2] == orig[p2]);
                }
                if p2 == pos {
                    assert(s2[p2] == index);
                }
                if p2 > pos {
                    assert(s2[p2] == orig[p2 - 1]);
                    assert(pos < orig.len());
                    assert(prev.member_diss(subjects@, pos as int) >= d_new);
                    assert(prev.member_diss(subjects@, pos as int) <= prev.member_diss(
                        subjects@,
                        p2 - 1,
                    ));
                }
                if p1 < pos && p2 < pos {
                    assert(prev.member_diss(subjects@, p1) <= prev.member_diss(subjects@, p2));
                }
                if p1 > pos && p2 > pos {
                    assert(prev.member_diss(subjects@, p1 - 1) <= prev.member_diss(
                        subjects@,
                        p2 - 1,
                    ));
                }
            }
            assert(self.sorted(subjects@));
        }
    }

    /// Inserts at the position that keeps the sequence sorted ascending
    /// by dissatisfaction; fails with a [`CapacityError`] when the group
    /// is full.
    pub fn register_subject<S: Subject>(&mut self, subjects: &[S], index: usize) -> (r: Result<
        (),
        CapacityError,
    >)
        requires
            old(self).wf(subjects@),
            (index as int) < subjects@.len(),
        ensures
            old(self).spec_full() ==> r is Err && *final(self) == *old(self),
            !old(self).spec_full() ==> {
                &&& r is Ok
                &&& final(self).wf(subjects@)
                &&& final(self).gid() == old(self).gid()
                &&& final(self).cap() == old(self).cap()
                &&& final(self).members().len() == old(self).members().len() + 1
                &&& final(self).members().to_multiset() == old(
                    self,
                ).members().to_multiset().insert(index)
                &&& final(self).members() == old(self).members().insert(
                    sorted_insert_position(
                        subjects@,
                        old(self).members(),
                        old(self).gid(),
                        index,
                    ),
                    index,
                )
                &&& members_potential(subjects@, final(self).members(), old(self).gid())
                    == members_potential(subjects@, old(self).members(), old(self).gid())
                    + member_weight(subjects@, index, old(self).gid())
            },
    {
        if self.full() {
            Err(CapacityError {})
        } else {
            self.insert_sorted(subjects, index);
            Ok(())
        }
    }

    /// Adds a member without taking capacity limitations into
    /// consideration. This is used to return members to their
    /// least-dissatisfying group after they were replaced by some other
    /// member in their previously assigned group: termination of the
    /// algorithm requires every subject to always have some home, even
    /// transiently over capacity.
    pub fn force_register_subject<S: Subject>(&mut self, subjects: &[S], index: usize)
        requires
            old(self).wf(subjects@),
            (index as int) < subjects@.len(),
        ensures
            final(self).wf(subjects@),
            final(self).gid() == old(self).gid(),
            final(self).cap() == old(self).cap(),
            final(self).members().len() == old(self).members().len() + 1,
            final(self).members().to_multiset() == old(self).members().to_multiset().insert(
                index,
            ),
            final(self).members() == old(self).members().insert(
                sorted_insert_position(subjects@, old(self).members(), old(self).gid(), index),
                index,
            ),
            members_potential(subjects@, final(self).members(), old(self).gid())
                == members_potential(subjects@, old(self).members(), old(self).gid())
                + member_weight(subjects@, index, old(self).gid()),
    {
        self.insert_sorted(subjects, index);
    }

    /// Propose to another group to take a member from the current group.
    ///
    /// The member offered is the one with minimum dissatisfaction toward
    /// the other group (the first such member in this registry's order):
    /// the member this group can most easily afford to give up. If the
    /// other group is not full, a transferral offer for that member is
    /// provided unconditionally; if it is full, an offer is provided only
    /// when that member is more eager to be in the other group than the
    /// other group's currently most dissatisfied member.
    pub fn propose_transferral<S: Subject>(&self, other: &Self, subjects: &[S]) -> (r: Option<
        TransferralOffer,
    >)
        requires
            self.wf(subjects@),
            other.wf(subjects@),
        ensures
            ({
                if self.members().len() == 0 {
                    r is None
                } else {
                    let p = donor_choice(subjects@, self.members(), other.gid());
                    let d = subjects@[self.members()[p] as int].spec_dissatisfaction(other.gid());
                    if !other.spec_full() {
                        r matches Some(t) && (t.spec_subject_lookup_key() as int) == p
                            && t.spec_membership_offer().spec_rating() == d
                            && t.spec_membership_offer().spec_improvement() is None
                    } else if d - other.highest_dissatisfaction >= 0 {
                        r is None
                    } else {
                        r matches Some(t) && (t.spec_subject_lookup_key() as int) == p
                            && t.spec_membership_offer().spec_rating() == d
                            && t.spec_membership_offer().spec_improvement() == Some(
                            (d - other.highest_dissatisfaction) as i64,
                        )
                    }
                }
            }),
    {
        let n = self.delegate.subjects.len();
        if n == 0 {
            return None;
        }
        let proposed_group_id = other.id();
        let mut best: usize = 0;
        let mut q: usize = 1;
        while q < n
            invariant
                n == self.members().len(),
                self.wf(subjects@),
                other.wf(subjects@),
                proposed_group_id == other.gid(),
                1 <= q <= n,
                0 <= best < q,
                (best as int) == donor_choice_upto(
                    subjects@,
                    self.members(),
                    other.gid(),
                    q as int,
                ),
            decreases n - q,
        {
            let m = self.delegate.subjects[q];
            let b = self.delegate.subjects[best];
            let d_m = subjects[m].dissatisfaction(&proposed_group_id);
            let d_b = subjects[b].dissatisfaction(&proposed_group_id);
            if d_m < d_b {
                best = q;
            }
            q = q + 1;
        }
        let candidate = self.delegate.subjects[best];
        match other.handle_membership_proposal(subjects, candidate) {
            Some(membership_offer) => Some(TransferralOffer::new(best, membership_offer)),
            None => None,
        }
    }

    /// Removes the least happy member from the group registry (the tail
    /// element) and adds another member in its place. The removed
    /// member's index is returned; by the sortedness invariant its
    /// dissatisfaction toward this group is the cached highest rating.
    pub fn replace_least_happy_member<S: Subject>(&mut self, subjects: &[S], index: usize) -> (r:
        usize)
        requires
            old(self).wf(subjects@),
            old(self).members().len() >= 1,
            old(self).members().len() <= old(self).cap(),
            (index as int) < subjects@.len(),
        ensures
            r == old(self).members().last(),
            (r as int) < subjects@.len(),
            subjects@[r as int].spec_dissatisfaction(old(self).gid()) == old(
                self,
            ).highest_dissatisfaction,
            final(self).wf(subjects@),
            final(self).gid() == old(self).gid(),
            final(self).cap() == old(self).cap(),
            final(self).members().len() == old(self).members().len(),
            final(self).members().to_multiset() == old(self).members().to_multiset().remove(
                old(self).members().last(),
            ).insert(index),
            final(self).members() == old(self).members().drop_last().insert(
                sorted_insert_position(
                    subjects@,
                    old(self).members().drop_last(),
                    old(self).gid(),
                    index,
                ),
                index,
            ),
            members_potential(subjects@, final(self).members(), old(self).gid())
                == members_potential(subjects@, old(self).members(), old(self).gid())
                - member_weight(subjects@, old(self).members().last(), old(self).gid())
                + member_weight(subjects@, index, old(self).gid()),
    {
        let ghost orig = self.members();
        let popped = self.delegate.subjects.pop();
        let least_happy = match popped {
            Some(x) => x,
            None => {
                proof {
                    assert(false);
                }
                0
            },
        };
        proof {
            assert(self.members() =~= orig.remove(orig.len() - 1));
            let prev = *old(self);
            assert forall|p1: int, p2: int|
                0 <= p1 <= p2 < self.members().len() implies self.member_diss(subjects@, p1)
                <= self.member_diss(subjects@, p2) by {
                assert(self.members()[p1] == orig[p1]);
                assert(self.members()[p2] == orig[p2]);
                assert(prev.member_diss(subjects@, p1) <= prev.member_diss(subjects@, p2));
            }
            assert(self.sorted(subjects@));
        }
        self.insert_sorted(subjects, index);
        least_happy
    }

    /// Removes a member from this group registry and adds it to another
    /// under the conditions of a transferral offer. If the offer signals
    /// an eviction, the other registry's least happy member is removed
    /// first and returned for reprocessing; otherwise the member is
    /// registered into the other registry directly, whose capacity is
    /// then guaranteed available.
    pub fn transfer<S: Subject>(
        &mut self,
        other: &mut Self,
        subjects: &[S],
        offer: TransferralOffer,
    ) -> (r: Option<usize>)
        requires
            old(self).wf(subjects@),
            old(other).wf(subjects@),
            (offer.spec_subject_lookup_key() as int) < old(self).members().len(),
            offer.spec_membership_offer().spec_improvement() is Some ==> old(other).spec_full()
                && old(other).members().len() <= old(other).cap() && old(other).members().len()
                >= 1,
            offer.spec_membership_offer().spec_improvement() is None ==> !old(other).spec_full(),
        ensures
            final(self).wf(subjects@),
            final(other).wf(subjects@),
            final(self).gid() == old(self).gid(),
            final(self).cap() == old(self).cap(),
            final(other).gid() == old(other).gid(),
            final(other).cap() == old(other).cap(),
            final(self).members() == old(self).members().remove(
                offer.spec_subject_lookup_key() as int,
            ),
            final(self).members().len() == old(self).members().len() - 1,
            ({
                let moved = old(self).members()[offer.spec_subject_lookup_key() as int];
                if offer.spec_membership_offer().spec_improvement() is Some {
                    &&& r matches Some(e) && e == old(other).members().last() && (e as int)
                        < subjects@.len()
                    &&& final(other).members().len() == old(other).members().len()
                    &&& final(other).members().to_multiset() == old(
                        other,
                    ).members().to_multiset().remove(old(other).members().last()).insert(moved)
                    &&& final(other).members() == old(other).members().drop_last().insert(
                        sorted_insert_position(
                            subjects@,
                            old(other).members().drop_last(),
                            old(other).gid(),
                            moved,
                        ),
                        moved,
                    )
                    &&& members_potential(subjects@, final(other).members(), old(other).gid())
                        == members_potential(subjects@, old(other).members(), old(other).gid())
                        - member_weight(subjects@, old(other).members().last(), old(other).gid())
                        + member_weight(subjects@, moved, old(other).gid())
                } else {
                    &&& r is None
                    &&& final(other).members().len() == old(other).members().len() + 1
                    &&& final(other).members().to_multiset() == old(
                        other,
                    ).members().to_multiset().insert(moved)
                    &&& final(other).members() == old(other).members().insert(
                        sorted_insert_position(
                            subjects@,
                            old(other).members(),
                            old(other).gid(),
                            moved,
                        ),
                        moved,
                    )
                    &&& members_potential(subjects@, final(other).members(), old(other).gid())
                        == members_potential(subjects@, old(other).members(), old(other).gid())
                        + member_weight(subjects@, moved, old(other).gid())
                }
            }),
    {
        let ghost orig = self.members();
        let key = offer.subject_lookup_key();
        let subject_to_be_transferred = self.delegate.subjects.remove(key);
        let len = self.delegate.subjects.len();
        let gid = self.delegate.group_id;
        if len == 0 {
            self.highest_dissatisfaction = 0;
        } else {
            let tail = self.delegate.subjects[len - 1];
            self.highest_dissatisfaction = subjects[tail].dissatisfaction(&gid);
        }
        proof {
            orig.remove_ensures(key as int);
            let prev = *old(self);
            assert forall|p1: int, p2: int|
                0 <= p1 <= p2 < self.members().len() implies self.member_diss(subjects@, p1)
                <= self.member_diss(subjects@, p2) by {
                if p2 < key {
                    assert(prev.member_diss(subjects@, p1) <= prev.member_diss(subjects@, p2));
                } else if p1 < key {
                    assert(prev.member_diss(subjects@, p1) <= prev.member_diss(
                        subjects@,
                        p2 + 1,
                    ));
                } else {
                    assert(prev.member_diss(subjects@, p1 + 1) <= prev.member_diss(
                        subjects@,
                        p2 + 1,
                    ));
                }
            }
        }
        let mut replaced_subject = None;
        if offer.replace_least_happy_member_upon_transferral() {
            let evicted = other.replace_least_happy_member(subjects, subject_to_be_transferred);
            replaced_subject = Some(evicted);
        } else {
            let _ = other.register_subject(subjects, subject_to_be_transferred);
        }
        replaced_subject
    }

    /// Provides a membership offer if this group is either not full or
    /// the proposing subject is more eager to be a member of this group
    /// than the currently most dissatisfied member.
    ///
    /// A full group computes the improvement `candidate's rating - the
    /// highest rating`; it declines when that is not negative, and
    /// otherwise offers to evict its least happy member, recording the
    /// negative improvement.
    pub fn handle_membership_proposal<S: Subject>(&self, subjects: &[S], candidate: usize) -> (r:
        Option<MembershipOffer>)
        requires
            self.wf(subjects@),
            (candidate as int) < subjects@.len(),
        ensures
            ({
                let d = subjects@[candidate as int].spec_dissatisfaction(self.gid());
                if !self.spec_full() {
                    r matches Some(o) && o.spec_rating() == d && o.spec_improvement() is None
                } else if d - self.highest_dissatisfaction >= 0 {
                    r is None
                } else {
                    r matches Some(o) && o.spec_rating() == d && o.spec_improvement()
                        == Some((d - self.highest_dissatisfaction) as i64)
                }
            }),
    {
        let gid = self.delegate.group_id;
        let dissatisfaction_rating = subjects[candidate].dissatisfaction(&gid);
        if self.full() {
            let dissatisfaction_improvement = (dissatisfaction_rating as i64) - (
            self.highest_dissatisfaction as i64);
            if dissatisfaction_improvement >= 0 {
                None
            } else {
                Some(
                    MembershipOffer::new(
                        dissatisfaction_rating,
                        Some(dissatisfaction_improvement),
                    ),
                )
            }
        } else {
            Some(MembershipOffer::new(dissatisfaction_rating, None))
        }
    }
}

} // verus!
