//! First come first served assignment: each subject, in input order, joins
//! its least-dissatisfying non-full group.

use vstd::prelude::*;

use crate::assigners::spec_sum_capacities;
use crate::assigners::Assigner;
use crate::assignment::Assignment;
use crate::errors::TotalCapacityError;
use crate::group_management::all_members;
use crate::group_management::assign_from_group_registries;
use crate::group_management::lemma_all_members_contains;
use crate::group_management::lemma_exists_non_full;
use crate::group_management::lemma_regs_push;
use crate::group_management::lemma_regs_update;
use crate::group_management::member_ids;
use crate::group_management::sum_caps;
use crate::group_management::sum_lens;
use crate::group_management::valid_members;
use crate::group_management::SimpleGroupRegistry;
use crate::groups::Group;
use crate::subjects::Subject;

verus! {

broadcast use vstd::seq_lib::group_to_multiset_ensures;

/// The member sequences of a sequence of registries, in registry order.
pub open spec fn occupancies(regs: Seq<SimpleGroupRegistry>) -> Seq<Seq<usize>> {
    Seq::new(regs.len(), |j: int| regs[j].subjects@)
}

/// A capacity clipped at zero: the largest member count a group may hold
/// in a final assignment.
pub open spec fn cap_limit(capacity: i32) -> int {
    if capacity >= 0 {
        capacity as int
    } else {
        0
    }
}

/// The group index a subject is assigned to by the first come first
/// served rule, considering only the first `upto` groups: the first (in
/// group order) non-full group minimizing the subject's dissatisfaction,
/// or `None` when every group considered is full. `occ` gives each
/// group's current members.
pub open spec fn fcfs_choice_upto<S: Subject, G: Group>(
    subjects: Seq<S>,
    groups: Seq<G>,
    occ: Seq<Seq<usize>>,
    s: int,
    upto: int,
) -> Option<int>
    decreases upto,
{
    if upto <= 0 {
        Option::None
    } else {
        let prev = fcfs_choice_upto(subjects, groups, occ, s, upto - 1);
        let g = upto - 1;
        if occ[g].len() < groups[g].spec_capacity() {
            match prev {
                Option::None => Option::Some(g),
                Option::Some(b) => if subjects[s].spec_dissatisfaction(groups[g].spec_id())
                    < subjects[s].spec_dissatisfaction(groups[b].spec_id()) {
                    Option::Some(g)
                } else {
                    Option::Some(b)
                },
            }
        } else {
            prev
        }
    }
}

/// The group index a subject is assigned to by the first come first
/// served rule, over all groups.
pub open spec fn fcfs_choice<S: Subject, G: Group>(
    subjects: Seq<S>,
    groups: Seq<G>,
    occ: Seq<Seq<usize>>,
    s: int,
) -> Option<int> {
    fcfs_choice_upto(subjects, groups, occ, s, groups.len() as int)
}

/// The group occupancies after the first `k` subjects have been processed
/// by the first come first served rule, starting from all-empty groups. A
/// subject whose choice is `None` (every group full, impossible after a
/// successful capacity precheck) is silently unassigned.
pub open spec fn fcfs_occupancies<S: Subject, G: Group>(
    subjects: Seq<S>,
    groups: Seq<G>,
    k: int,
) -> Seq<Seq<usize>>
    decreases k,
{
    if k <= 0 {
        Seq::new(groups.len(), |j: int| Seq::<usize>::empty())
    } else {
        let o = fcfs_occupancies(subjects, groups, k - 1);
        match fcfs_choice(subjects, groups, o, k - 1) {
            Option::None => o,
            Option::Some(g) => o.update(g, o[g].push((k - 1) as usize)),
        }
    }
}

/// What it means for an assignment to be the first come first served
/// assignment of the given subjects to the given groups:
/// - the group map has exactly the group ids as keys and lists each
///   group's members, in arrival order, as computed by `fcfs_occupancies`;
/// - no group holds more members than its capacity allows;
/// - every subject is assigned, and the subject map has exactly the
///   subject ids as keys, mapping each to the group that received it.
pub open spec fn fcfs_assignment_ok<S: Subject, G: Group>(
    a: Assignment,
    subjects: Seq<S>,
    groups: Seq<G>,
) -> bool {
    let occ = fcfs_occupancies(subjects, groups, subjects.len() as int);
    &&& forall|j: int|
        0 <= j < groups.len() ==> a.spec_groups_map().contains_key(
            (#[trigger] groups[j]).spec_id(),
        ) && a.spec_groups_map()[groups[j].spec_id()] == member_ids(occ[j], subjects)
    &&& forall|k: u64|
        a.spec_groups_map().contains_key(k) ==> exists|j: int|
            0 <= j < groups.len() && (#[trigger] groups[j]).spec_id() == k
    &&& forall|j: int|
        0 <= j < groups.len() ==> occ[j].len() <= cap_limit((#[trigger] groups[j]).spec_capacity())
    &&& forall|i: int|
        0 <= i < subjects.len() ==> a.spec_subjects_map().contains_key(
            (#[trigger] subjects[i]).spec_id(),
        )
    &&& forall|j: int, p: int|
        0 <= j < groups.len() && 0 <= p < occ[j].len() ==> a.spec_subjects_map()[subjects[(
        #[trigger] occ[j][p]) as int].spec_id()] == groups[j].spec_id()
    &&& forall|k: u64|
        a.spec_subjects_map().contains_key(k) ==> exists|i: int|
            0 <= i < subjects.len() && (#[trigger] subjects[i]).spec_id() == k
}

/// The first (in registry order) non-full registry minimizing the
/// subject's dissatisfaction, among the first `upto` registries.
pub open spec fn best_available_upto<S: Subject>(
    subjects: Seq<S>,
    regs: Seq<SimpleGroupRegistry>,
    s: int,
    upto: int,
) -> Option<int>
    decreases upto,
{
    if upto <= 0 {
        Option::None
    } else {
        let prev = best_available_upto(subjects, regs, s, upto - 1);
        let g = upto - 1;
        if !regs[g].spec_full() {
            match prev {
                Option::None => Option::Some(g),
                Option::Some(b) => if subjects[s].spec_dissatisfaction(regs[g].group_id)
                    < subjects[s].spec_dissatisfaction(regs[b].group_id) {
                    Option::Some(g)
                } else {
                    Option::Some(b)
                },
            }
        } else {
            prev
        }
    }
}

/// The first (in registry order) non-full registry minimizing the
/// subject's dissatisfaction, over all registries.
pub open spec fn best_available<S: Subject>(
    subjects: Seq<S>,
    regs: Seq<SimpleGroupRegistry>,
    s: int,
) -> Option<int> {
    best_available_upto(subjects, regs, s, regs.len() as int)
}

/// When the registries mirror the groups (same order, ids and
/// capacities) and hold the given occupancies, the registry-level choice
/// equals the group-level choice.
pub proof fn lemma_choice_matches<S: Subject, G: Group>(
    subjects: Seq<S>,
    groups: Seq<G>,
    regs: Seq<SimpleGroupRegistry>,
    s: int,
    upto: int,
)
    requires
        regs.len() == groups.len(),
        forall|j: int|
            0 <= j < groups.len() ==> (#[trigger] regs[j]).group_id == groups[j].spec_id()
                && regs[j].capacity == groups[j].spec_capacity(),
        0 <= upto <= groups.len(),
    ensures
        best_available_upto(subjects, regs, s, upto) == fcfs_choice_upto(
            subjects,
            groups,
            occupancies(regs),
            s,
            upto,
        ),
        best_available_upto(subjects, regs, s, upto) matches Option::Some(b) ==> 0 <= b < upto,
    decreases upto,
{
    if upto > 0 {
        lemma_choice_matches(subjects, groups, regs, s, upto - 1);
        assert(occupancies(regs)[upto - 1] == regs[upto - 1].subjects@);
    }
}

/// A first come first served choice, when it exists, is the index of one
/// of the groups considered.
pub proof fn lemma_fcfs_choice_bound<S: Subject, G: Group>(
    subjects: Seq<S>,
    groups: Seq<G>,
    occ: Seq<Seq<usize>>,
    s: int,
    upto: int,
)
    ensures
        fcfs_choice_upto(subjects, groups, occ, s, upto) matches Option::Some(b) ==> 0 <= b
            < upto,
    decreases upto,
{
    if upto > 0 {
        lemma_fcfs_choice_bound(subjects, groups, occ, s, upto - 1);
    }
}

/// The occupancy sequence computed by `fcfs_occupancies` always has one
/// entry per group.
pub proof fn lemma_fcfs_occupancies_len<S: Subject, G: Group>(
    subjects: Seq<S>,
    groups: Seq<G>,
    k: int,
)
    ensures
        fcfs_occupancies(subjects, groups, k).len() == groups.len(),
    decreases k,
{
    if k <= 0 {
        assert(fcfs_occupancies(subjects, groups, k) == Seq::new(
            groups.len(),
            |j: int| Seq::<usize>::empty(),
        ));
        assert(Seq::new(groups.len(), |j: int| Seq::<usize>::empty()).len() == groups.len());
        assert(fcfs_occupancies(subjects, groups, k).len() == groups.len());
    } else {
        lemma_fcfs_occupancies_len(subjects, groups, k - 1);
        let o = fcfs_occupancies(subjects, groups, k - 1);
        match fcfs_choice(subjects, groups, o, k - 1) {
            Option::None => {
                assert(fcfs_occupancies(subjects, groups, k) == o);
            },
            Option::Some(g) => {
                lemma_fcfs_choice_bound(subjects, groups, o, k - 1, groups.len() as int);
                assert(fcfs_occupancies(subjects, groups, k) == o.update(
                    g,
                    o[g].push((k - 1) as usize),
                ));
            },
        }
    }
}

/// Registers the subject with the given index to the first non-full
/// registry minimizing its dissatisfaction, if any registry is still
/// available; a subject for whom every registry is full is left
/// unregistered.
pub fn subject_to_best_available_group_registry<S: Subject>(
    subject: usize,
    group_registries: Vec<SimpleGroupRegistry>,
    subjects: &[S],
) -> (r: Vec<SimpleGroupRegistry>)
    requires
        (subject as int) < subjects@.len(),
    ensures
        match best_available(subjects@, group_registries@, subject as int) {
            Option::None => r@ == group_registries@ && forall|j: int|
                0 <= j < group_registries@.len() ==> (#[trigger] group_registries@[j]).spec_full(),
            Option::Some(b) => {
                &&& 0 <= b < group_registries@.len()
                &&& !group_registries@[b].spec_full()
                &&& r@.len() == group_registries@.len()
                &&& r@[b].group_id == group_registries@[b].group_id
                &&& r@[b].capacity == group_registries@[b].capacity
                &&& r@[b].subjects@ == group_registries@[b].subjects@.push(subject)
                &&& forall|j: int|
                    0 <= j < group_registries@.len() && j != b ==> r@[j] == group_registries@[j]
            },
        },
{
    let ghost regs = group_registries@;
    let mut group_registries = group_registries;
    let mut best: Option<usize> = None;
    let n = group_registries.len();
    let mut j: usize = 0;
    while j < n
        invariant
            regs == group_registries@,
            n == regs.len(),
            0 <= j <= n,
            (subject as int) < subjects@.len(),
            match best {
                Option::None => best_available_upto(subjects@, regs, subject as int, j as int)
                    is None && forall|jj: int| 0 <= jj < j ==> (#[trigger] regs[jj]).spec_full(),
                Option::Some(b) => 0 <= (b as int) < j && !regs[b as int].spec_full()
                    && best_available_upto(subjects@, regs, subject as int, j as int)
                    == Option::Some(b as int),
            },
        decreases n - j,
    {
        let is_full = group_registries[j].full();
        if !is_full {
            match best {
                None => {
                    best = Some(j);
                },
                Some(b) => {
                    let d_new = subjects[subject].dissatisfaction(&group_registries[j].group_id);
                    let d_best = subjects[subject].dissatisfaction(&group_registries[b].group_id);
                    if d_new < d_best {
                        best = Some(j);
                    }
                },
            }
        }
        j = j + 1;
    }
    match best {
        None => group_registries,
        Some(b) => {
            let result = group_registries[b].register_subject(subject);
            proof {
                assert(group_registries@ =~= regs.update(b as int, group_registries@[b as int]));
            }
            group_registries
        },
    }
}

/// All member indices over all registries lie below `n`.
pub open spec fn valid_members_everywhere(regs: Seq<SimpleGroupRegistry>, n: int) -> bool {
    forall|j: int, p: int|
        0 <= j < regs.len() && 0 <= p < regs[j].subjects@.len() ==> ((
        #[trigger] regs[j].subjects@[p]) as int) < n
}

/// The registries mirror the groups: same length, and the same ids and
/// capacities in the same order.
pub open spec fn registries_mirror_groups<G: Group>(
    regs: Seq<SimpleGroupRegistry>,
    groups: Seq<G>,
) -> bool {
    &&& regs.len() == groups.len()
    &&& forall|j: int|
        0 <= j < groups.len() ==> (#[trigger] regs[j]).group_id == groups[j].spec_id()
            && regs[j].capacity == groups[j].spec_capacity()
}

/// Assigns every subject, in input order, to the first non-full group
/// registry minimizing its dissatisfaction. The registries must mirror
/// the groups and start out empty, with enough combined capacity for all
/// subjects; then every subject finds a place, each group's members are
/// as `fcfs_occupancies` says, and no group exceeds its capacity.
pub fn subjects_to_best_available_group_registry_by_the_first_come_first_served_principle<
    S: Subject,
    G: Group,
>(subjects: &[S], groups: &[G], group_registries: Vec<SimpleGroupRegistry>) -> (r: Vec<
    SimpleGroupRegistry,
>)
    requires
        registries_mirror_groups(group_registries@, groups@),
        forall|j: int|
            0 <= j < group_registries@.len() ==> (#[trigger] group_registries@[j]).subjects@
                == Seq::<usize>::empty(),
        forall|x: usize| all_members(group_registries@).count(x) == 0,
        sum_lens(group_registries@) == 0,
        sum_caps(group_registries@) >= subjects@.len(),
    ensures
        registries_mirror_groups(r@, groups@),
        forall|j: int|
            0 <= j < r@.len() ==> (#[trigger] r@[j]).subjects@ == fcfs_occupancies(
                subjects@,
                groups@,
                subjects@.len() as int,
            )[j],
        forall|x: usize|
            all_members(r@).count(x) == if (x as int) < subjects@.len() {
                1int
            } else {
                0int
            },
        forall|j: int|
            0 <= j < r@.len() ==> (#[trigger] r@[j]).subjects@.len() <= cap_limit(r@[j].capacity),
        valid_members_everywhere(r@, subjects@.len() as int),
{
    let ghost regs0 = group_registries@;
    let mut group_registries = group_registries;
    let n = subjects.len();
    let mut i: usize = 0;
    while i < n
        invariant
            n == subjects@.len(),
            0 <= i <= n,
            registries_mirror_groups(group_registries@, groups@),
            forall|j: int|
                0 <= j < group_registries@.len() ==> (#[trigger] group_registries@[j]).subjects@
                    == fcfs_occupancies(subjects@, groups@, i as int)[j],
            forall|x: usize|
                all_members(group_registries@).count(x) == if (x as int) < i {
                    1int
                } else {
                    0int
                },
            sum_lens(group_registries@) == i,
            sum_caps(group_registries@) == sum_caps(regs0) >= n,
            forall|j: int|
                0 <= j < group_registries@.len() ==> (
                #[trigger] group_registries@[j]).subjects@.len() <= cap_limit(
                    group_registries@[j].capacity,
                ),
            valid_members_everywhere(group_registries@, i as int),
        decreases n - i,
    {
        let ghost pre = group_registries@;
        let ghost occ = fcfs_occupancies(subjects@, groups@, i as int);
        proof {
            lemma_fcfs_occupancies_len(subjects@, groups@, i as int);
            lemma_fcfs_occupancies_len(subjects@, groups@, i + 1);
            assert(occupancies(pre) =~= occ);
            lemma_choice_matches(subjects@, groups@, pre, i as int, groups@.len() as int);
        }
        group_registries = subject_to_best_available_group_registry(i, group_registries, subjects);
        proof {
            match best_available(subjects@, pre, i as int) {
                Option::None => {
                    lemma_exists_non_full(pre);
                    assert(false);
                },
                Option::Some(b) => {
                    let new_b = group_registries@[b];
                    assert(group_registries@ =~= pre.update(b, new_b));
                    lemma_regs_update(pre, b, new_b);
                    assert(fcfs_occupancies(subjects@, groups@, i + 1) =~= occ.update(
                        b,
                        occ[b].push(i),
                    ));
                },
            }
        }
        i = i + 1;
    }
    group_registries
}

/// Assigns according to the first come first served principle.
pub struct FirstComeFirstServed {}

impl Assigner for FirstComeFirstServed {
    /// The subjects get assigned to their most preferred available group
    /// in turn: each subject, in input order, joins the first (in group
    /// order) non-full group minimizing its dissatisfaction.
    fn assign<S: Subject, G: Group>(subjects: &[S], groups: &[G]) -> (r: Result<
        Assignment,
        TotalCapacityError,
    >)
        ensures
            r is Ok ==> fcfs_assignment_ok(r->Ok_0, subjects@, groups@),
    {
        match Self::sufficient_capacity(subjects, groups) {
            Err(e) => {
                return Err(e);
            },
            Ok(()) => {},
        }
        let mut group_registries: Vec<SimpleGroupRegistry> = Vec::new();
        let mut j: usize = 0;
        while j < groups.len()
            invariant
                0 <= j <= groups@.len(),
                group_registries@.len() == j,
                forall|jj: int|
                    0 <= jj < j ==> (#[trigger] group_registries@[jj]).group_id
                        == groups@[jj].spec_id() && group_registries@[jj].capacity
                        == groups@[jj].spec_capacity() && group_registries@[jj].subjects@ == Seq::<
                        usize,
                    >::empty(),
                sum_caps(group_registries@) == spec_sum_capacities(groups@.take(j as int)),
                sum_lens(group_registries@) == 0,
                forall|x: usize| all_members(group_registries@).count(x) == 0,
            decreases groups@.len() - j,
        {
            let reg = SimpleGroupRegistry::new(&groups[j], Vec::new());
            proof {
                lemma_regs_push(group_registries@, reg);
                assert(groups@.take(j + 1).drop_last() =~= groups@.take(j as int));
                assert(groups@.take(j + 1).last() == groups@[j as int]);
            }
            group_registries.push(reg);
            j = j + 1;
        }
        proof {
            assert(groups@.take(groups@.len() as int) =~= groups@);
        }
        let group_registries =
            subjects_to_best_available_group_registry_by_the_first_come_first_served_principle(
            subjects,
            groups,
            group_registries,
        );
        let n = subjects.len();
        let ghost regs = group_registries@;
        let ghost occ = fcfs_occupancies(subjects@, groups@, subjects@.len() as int);
        proof {
            lemma_fcfs_occupancies_len(subjects@, groups@, subjects@.len() as int);
            assert forall|jj: int|
                0 <= jj < regs.len() implies valid_members(
                (#[trigger] regs[jj]).subjects@,
                subjects@,
            ) by {
                assert(valid_members_everywhere(regs, subjects@.len() as int));
            }
        }
        let a = assign_from_group_registries(group_registries, subjects);
        proof {
            assert forall|jj: int|
                0 <= jj < groups@.len() implies a.spec_groups_map().contains_key(
                (#[trigger] groups@[jj]).spec_id(),
            ) && a.spec_groups_map()[groups@[jj].spec_id()] == member_ids(occ[jj], subjects@)
                && occ[jj].len() <= cap_limit(groups@[jj].spec_capacity()) by {
                assert(regs[jj].group_id == groups@[jj].spec_id());
                assert(regs[jj].subjects@ == occ[jj]);
                assert(a.spec_groups_map().contains_key(regs[jj].group_id));
            }
            assert forall|k: u64| a.spec_groups_map().contains_key(k) implies exists|jj: int|
                0 <= jj < groups@.len() && (#[trigger] groups@[jj]).spec_id() == k by {
                let jj = choose|jj: int|
                    0 <= jj < regs.len() && (#[trigger] regs[jj]).group_id == k;
                assert(groups@[jj].spec_id() == k);
            }
            assert forall|i: int|
                0 <= i < subjects@.len() implies a.spec_subjects_map().contains_key(
                (#[trigger] subjects@[i]).spec_id(),
            ) by {
                let x = i as usize;
                assert(all_members(regs).count(x) == 1);
                lemma_all_members_contains(regs, x);
                let (jj, pp) = choose|jj: int, pp: int|
                    0 <= jj < regs.len() && 0 <= pp < regs[jj].subjects@.len()
                        && regs[jj].subjects@[pp] == x;
                assert(a.spec_subjects_map().contains_key(
                    subjects@[regs[jj].subjects@[pp] as int].spec_id(),
                ));
            }
            assert forall|k: u64| a.spec_subjects_map().contains_key(k) implies exists|i: int|
                0 <= i < subjects@.len() && (#[trigger] subjects@[i]).spec_id() == k by {
                let (jj, pp) = choose|jj: int, pp: int|
                    0 <= jj < regs.len() && 0 <= pp < regs[jj].subjects@.len() && subjects@[(
                    #[trigger] regs[jj].subjects@[pp]) as int].spec_id() == k;
                let i = regs[jj].subjects@[pp] as int;
                assert(0 <= i < subjects@.len() && subjects@[i].spec_id() == k);
            }
            assert forall|jj: int, pp: int|
                0 <= jj < groups@.len() && 0 <= pp < occ[jj].len() implies a.spec_subjects_map()[subjects@[(
                #[trigger] occ[jj][pp]) as int].spec_id()] == groups@[jj].spec_id() by {
                assert(regs[jj].subjects@[pp] == occ[jj][pp]);
            }
        }
        Ok(a)
    }
}

} // verus!
