//! Propose and reject assignment, inspired by the Gale-Shapley algorithm.
//!
//! First all subjects are assigned to the group of their first choice (or
//! more generally of lowest possible dissatisfaction rating), regardless
//! of capacity. Then, while some groups are overfull, the overfull groups
//! propose in turn to the available groups to accept one of their
//! subjects; a full group accepts only a subject that is happier with it
//! than its currently least happy member, evicting that member, who is
//! then returned to the least-dissatisfying group among the overfull and
//! exactly-full ones, regardless of capacity. The process continues until
//! no group is overfull.

use vstd::multiset::Multiset;
use vstd::prelude::*;

use crate::assigners::spec_sum_capacities;
use crate::assigners::Assigner;
use crate::assignment::Assignment;
use crate::errors::TotalCapacityError;
use crate::group_management::all_members;
use crate::group_management::assign_from_group_registries;
use crate::group_management::distinct_group_ids;
use crate::group_management::folded_groups_ok;
use crate::group_management::folded_subjects_ok;
use crate::group_management::distinct_subject_ids;
use crate::group_management::lemma_all_members_contains;
use crate::group_management::lemma_all_members_unique;
use crate::group_management::member_ids;
use crate::group_management::valid_members;
use crate::group_management::SimpleGroupRegistry;
use crate::groups::Group;
use crate::offers::TransferralOffer;
use crate::proposals::donor_choice;
use crate::proposals::lemma_donor_choice;
use crate::proposals::lemma_members_potential_nonneg;
use crate::proposals::member_weight;
use crate::proposals::sorted_insert_position;
use crate::proposals::members_potential;
use crate::proposals::ProposalHandlingGroupRegistry;
use crate::subjects::Subject;
use crate::summations::lemma_seq_msum_concat;
use crate::summations::lemma_seq_msum_contains;
use crate::summations::lemma_seq_msum_drop_first;
use crate::summations::lemma_seq_sum_drop_first;
use crate::summations::lemma_seq_msum_member;
use crate::summations::lemma_seq_msum_nonneg;
use crate::summations::lemma_seq_msum_push;
use crate::summations::lemma_seq_msum_unique;
use crate::summations::lemma_seq_msum_update;
use crate::summations::lemma_seq_sum_all_one;
use crate::summations::lemma_seq_sum_concat;
use crate::summations::lemma_seq_sum_le_one;
use crate::summations::lemma_seq_sum_member;
use crate::summations::lemma_seq_sum_nonneg;
use crate::summations::lemma_seq_sum_positive;
use crate::summations::lemma_seq_sum_push;
use crate::summations::lemma_seq_sum_update;
use crate::summations::seq_msum;
use crate::summations::seq_sum;

verus! {

broadcast use vstd::seq_lib::group_to_multiset_ensures;

/// A registry's member count, for summation.
pub open spec fn len_fn() -> spec_fn(ProposalHandlingGroupRegistry) -> int {
    |r: ProposalHandlingGroupRegistry| r.members().len() as int
}

/// A registry's capacity, for summation.
pub open spec fn cap_fn() -> spec_fn(ProposalHandlingGroupRegistry) -> int {
    |r: ProposalHandlingGroupRegistry| r.cap() as int
}

/// A registry's members as a multiset, for summation.
pub open spec fn members_fn() -> spec_fn(ProposalHandlingGroupRegistry) -> Multiset<usize> {
    |r: ProposalHandlingGroupRegistry| r.members().to_multiset()
}

/// A registry's member potential toward its own group, for summation.
pub open spec fn pot_fn<S: Subject>(subjects: Seq<S>) -> spec_fn(
    ProposalHandlingGroupRegistry,
) -> int {
    |r: ProposalHandlingGroupRegistry| members_potential(subjects, r.members(), r.gid())
}

/// The combined member count over a sequence of registries.
pub open spec fn phr_lens(regs: Seq<ProposalHandlingGroupRegistry>) -> int {
    seq_sum(regs, len_fn())
}

/// The combined capacity over a sequence of registries.
pub open spec fn phr_caps(regs: Seq<ProposalHandlingGroupRegistry>) -> int {
    seq_sum(regs, cap_fn())
}

/// The multiset of all member indices over a sequence of registries.
pub open spec fn phr_members(regs: Seq<ProposalHandlingGroupRegistry>) -> Multiset<usize> {
    seq_msum(regs, members_fn())
}

/// The combined member potential over a sequence of registries.
pub open spec fn phr_potential<S: Subject>(
    subjects: Seq<S>,
    regs: Seq<ProposalHandlingGroupRegistry>,
) -> int {
    seq_sum(regs, pot_fn(subjects))
}

/// A registry's group id and capacity as a singleton multiset, for
/// summation.
pub open spec fn pair_fn() -> spec_fn(ProposalHandlingGroupRegistry) -> Multiset<(u64, i32)> {
    |r: ProposalHandlingGroupRegistry| Multiset::empty().insert((r.gid(), r.cap()))
}

/// A group's id and capacity as a singleton multiset, for summation.
pub open spec fn group_pair_fn<G: Group>() -> spec_fn(G) -> Multiset<(u64, i32)> {
    |g: G| Multiset::empty().insert((g.spec_id(), g.spec_capacity()))
}

/// The multiset of (group id, capacity) pairs over a sequence of
/// registries.
pub open spec fn phr_pairs(regs: Seq<ProposalHandlingGroupRegistry>) -> Multiset<(u64, i32)> {
    seq_msum(regs, pair_fn())
}

/// The multiset of the groups' (id, capacity) pairs.
pub open spec fn group_pairs<G: Group>(groups: Seq<G>) -> Multiset<(u64, i32)> {
    seq_msum(groups, group_pair_fn())
}

/// Registries that carry the groups' ids and capacities in order have the
/// groups' pair multiset.
pub proof fn lemma_regs_pairs_match<G: Group>(
    regs: Seq<ProposalHandlingGroupRegistry>,
    groups: Seq<G>,
)
    requires
        regs.len() == groups.len(),
        forall|j: int|
            0 <= j < groups.len() ==> (#[trigger] regs[j]).gid() == groups[j].spec_id() && regs[
                j
            ].cap() == groups[j].spec_capacity(),
    ensures
        forall|pr: (u64, i32)|
            #![trigger phr_pairs(regs).count(pr)]
            phr_pairs(regs).count(pr) == group_pairs(groups).count(pr),
    decreases regs.len(),
{
    if regs.len() > 0 {
        lemma_regs_pairs_match(regs.drop_last(), groups.drop_last());
        assert forall|pr: (u64, i32)| phr_pairs(regs).count(pr) == group_pairs(groups).count(
            pr,
        ) by {
            assert(phr_pairs(regs).count(pr) == phr_pairs(regs.drop_last()).count(pr) + pair_fn()(
                regs.last(),
            ).count(pr));
            assert(group_pairs(groups).count(pr) == group_pairs(groups.drop_last()).count(pr)
                + group_pair_fn::<G>()(groups.last()).count(pr));
            assert(regs.last().gid() == groups.last().spec_id() && regs.last().cap()
                == groups.last().spec_capacity());
        }
    }
}

/// Groups with pairwise distinct ids have a pair multiset without
/// repetition.
pub proof fn lemma_group_pairs_le_one<G: Group>(groups: Seq<G>)
    requires
        distinct_group_ids(groups),
    ensures
        forall|pr: (u64, i32)|
            #![trigger group_pairs(groups).count(pr)]
            group_pairs(groups).count(pr) <= 1,
    decreases groups.len(),
{
    if groups.len() > 0 {
        lemma_group_pairs_le_one(groups.drop_last());
        assert forall|pr: (u64, i32)| group_pairs(groups).count(pr) <= 1 by {
            assert(group_pairs(groups).count(pr) == group_pairs(groups.drop_last()).count(pr)
                + group_pair_fn::<G>()(groups.last()).count(pr));
            if pr == (groups.last().spec_id(), groups.last().spec_capacity()) {
                if group_pairs(groups.drop_last()).count(pr) > 0 {
                    lemma_seq_msum_contains(groups.drop_last(), group_pair_fn::<G>(), pr);
                    let j = choose|j: int|
                        0 <= j < groups.drop_last().len() && group_pair_fn::<G>()(
                            #[trigger] groups.drop_last()[j],
                        ).count(pr) > 0;
                    assert(groups[j].spec_id() == groups[groups.len() - 1].spec_id());
                    assert(false);
                }
            } else {
                assert(group_pair_fn::<G>()(groups.last()).count(pr) == 0);
            }
        }
    }
}

/// Two registry sequences that agree pointwise on group ids and
/// capacities have the same pair multiset.
pub proof fn lemma_phr_pairs_pointwise(
    s1: Seq<ProposalHandlingGroupRegistry>,
    s2: Seq<ProposalHandlingGroupRegistry>,
)
    requires
        s1.len() == s2.len(),
        forall|t: int|
            0 <= t < s1.len() ==> (#[trigger] s1[t]).gid() == s2[t].gid() && s1[t].cap()
                == s2[t].cap(),
    ensures
        forall|pr: (u64, i32)| phr_pairs(s1).count(pr) == phr_pairs(s2).count(pr),
    decreases s1.len(),
{
    if s1.len() > 0 {
        lemma_phr_pairs_pointwise(s1.drop_last(), s2.drop_last());
        assert forall|pr: (u64, i32)| phr_pairs(s1).count(pr) == phr_pairs(s2).count(pr) by {
            assert(phr_pairs(s1).count(pr) == phr_pairs(s1.drop_last()).count(pr) + pair_fn()(
                s1.last(),
            ).count(pr));
            assert(phr_pairs(s2).count(pr) == phr_pairs(s2.drop_last()).count(pr) + pair_fn()(
                s2.last(),
            ).count(pr));
            assert(s1.last().gid() == s2.last().gid() && s1.last().cap() == s2.last().cap());
        }
    }
}

/// Every registry in the sequence is well-formed.
pub open spec fn wf_all<S: Subject>(
    regs: Seq<ProposalHandlingGroupRegistry>,
    subjects: Seq<S>,
) -> bool {
    forall|t: int| 0 <= t < regs.len() ==> (#[trigger] regs[t]).wf(subjects)
}

/// The invariant of the propose-and-reject convergence loop, over the
/// three disjoint registry sets: `o` the overfull registries, `b` the
/// bystanders (at least at capacity, not overfull), and `a` the available
/// registries (at most at capacity, with positive capacity).
///
/// Each subject index lives in exactly one registry; the registries carry
/// exactly the groups' ids, each once, with the corresponding capacities;
/// all registries are well-formed.
pub open spec fn pnr_state_ok<S: Subject, G: Group>(
    subjects: Seq<S>,
    groups: Seq<G>,
    o: Seq<ProposalHandlingGroupRegistry>,
    b: Seq<ProposalHandlingGroupRegistry>,
    a: Seq<ProposalHandlingGroupRegistry>,
) -> bool {
    &&& wf_all(o, subjects) && wf_all(b, subjects) && wf_all(a, subjects)
    &&& forall|x: usize|
        #![trigger phr_members(o).count(x), phr_members(b).count(x), phr_members(a).count(x)]
        phr_members(o).count(x) + phr_members(b).count(x) + phr_members(a).count(x) == if (
        x as int) < subjects.len() {
            1int
        } else {
            0int
        }
    &&& forall|pr: (u64, i32)|
        #![trigger group_pairs(groups).count(pr)]
        phr_pairs(o).count(pr) + phr_pairs(b).count(pr) + phr_pairs(a).count(pr) == group_pairs(
            groups,
        ).count(pr)
    &&& phr_lens(o) + phr_lens(b) + phr_lens(a) == subjects.len()
    &&& phr_caps(o) + phr_caps(b) + phr_caps(a) == spec_sum_capacities(groups)
    &&& forall|t: int| 0 <= t < o.len() ==> (#[trigger] o[t]).spec_overfull()
    &&& forall|t: int|
        0 <= t < b.len() ==> (#[trigger] b[t]).members().len() >= b[t].cap() && !b[
            t
        ].spec_overfull()
    &&& forall|t: int|
        0 <= t < a.len() ==> (#[trigger] a[t]).members().len() <= a[t].cap() && a[t].cap() >= 1
}

/// A registry's slack: its capacity minus its member count.
pub open spec fn slack_fn() -> spec_fn(ProposalHandlingGroupRegistry) -> int {
    |r: ProposalHandlingGroupRegistry| r.cap() - r.members().len()
}

/// The summed slack is the capacity sum minus the member count sum.
pub proof fn lemma_phr_slack(regs: Seq<ProposalHandlingGroupRegistry>)
    ensures
        seq_sum(regs, slack_fn()) == phr_caps(regs) - phr_lens(regs),
    decreases regs.len(),
{
    if regs.len() > 0 {
        lemma_phr_slack(regs.drop_last());
    }
}

/// A claimed flag's contribution to the number of placed subjects.
pub open spec fn claim_fn() -> spec_fn(bool) -> int {
    |v: bool| if v {
        1int
    } else {
        0int
    }
}

/// When the registries hold strictly fewer members than their combined
/// capacity, one of them is not full.
pub proof fn lemma_phr_exists_non_full(regs: Seq<ProposalHandlingGroupRegistry>)
    requires
        phr_lens(regs) < phr_caps(regs),
    ensures
        exists|t: int|
            0 <= t < regs.len() && !(#[trigger] regs[t]).spec_full(),
{
    lemma_phr_slack(regs);
    lemma_seq_sum_positive(regs, slack_fn());
    let t = choose|t: int| 0 <= t < regs.len() && slack_fn()(#[trigger] regs[t]) > 0;
    assert(!regs[t].spec_full());
}

/// The ghost view of a registry: its group id, its capacity and its
/// member sequence. The functional model of the algorithm is stated over
/// these triples.
pub open spec fn registry_model(r: ProposalHandlingGroupRegistry) -> (u64, i32, Seq<usize>) {
    (r.gid(), r.cap(), r.members())
}

/// The ghost view of a registry vector, in order.
pub open spec fn registries_model(regs: Seq<ProposalHandlingGroupRegistry>) -> Seq<
    (u64, i32, Seq<usize>),
> {
    Seq::new(regs.len(), |t: int| registry_model(regs[t]))
}

/// A model registry holds at least as many members as its capacity.
pub open spec fn model_full(r: (u64, i32, Seq<usize>)) -> bool {
    r.2.len() >= r.1
}

/// A model registry holds more members than its capacity.
pub open spec fn model_overfull(r: (u64, i32, Seq<usize>)) -> bool {
    r.2.len() > r.1
}

/// The position of the first non-full model registry minimizing the
/// subject's dissatisfaction, among the first `upto` registries, or
/// `None` when every one considered is full.
pub open spec fn available_choice_upto<S: Subject>(
    subjects: Seq<S>,
    regs: Seq<(u64, i32, Seq<usize>)>,
    s: int,
    upto: int,
) -> Option<int>
    decreases upto,
{
    if upto <= 0 {
        Option::None
    } else {
        let prev = available_choice_upto(subjects, regs, s, upto - 1);
        let g = upto - 1;
        if !model_full(regs[g]) {
            match prev {
                Option::None => Option::Some(g),
                Option::Some(b) => if subjects[s].spec_dissatisfaction(regs[g].0)
                    < subjects[s].spec_dissatisfaction(regs[b].0) {
                    Option::Some(g)
                } else {
                    Option::Some(b)
                },
            }
        } else {
            prev
        }
    }
}

/// The position of the first non-full model registry minimizing the
/// subject's dissatisfaction, over all registries.
pub open spec fn available_choice<S: Subject>(
    subjects: Seq<S>,
    regs: Seq<(u64, i32, Seq<usize>)>,
    s: int,
) -> Option<int> {
    available_choice_upto(subjects, regs, s, regs.len() as int)
}

/// The position of the model registry minimizing the subject's
/// dissatisfaction among the first `upto` ones, regardless of capacity;
/// the first such position wins ties.
pub open spec fn most_desired_upto<S: Subject>(
    subjects: Seq<S>,
    regs: Seq<(u64, i32, Seq<usize>)>,
    s: int,
    upto: int,
) -> int
    decreases upto,
{
    if upto <= 1 {
        0
    } else {
        let prev = most_desired_upto(subjects, regs, s, upto - 1);
        if subjects[s].spec_dissatisfaction(regs[upto - 1].0) < subjects[s].spec_dissatisfaction(
            regs[prev].0,
        ) {
            upto - 1
        } else {
            prev
        }
    }
}

/// The position of the model registry minimizing the subject's
/// dissatisfaction, regardless of capacity; the first wins ties.
pub open spec fn most_desired<S: Subject>(
    subjects: Seq<S>,
    regs: Seq<(u64, i32, Seq<usize>)>,
    s: int,
) -> int {
    most_desired_upto(subjects, regs, s, regs.len() as int)
}

/// The subject with index `i` rates one of the first `upto` groups with
/// dissatisfaction zero: it has a first choice among them.
pub open spec fn has_first_choice_among<S: Subject, G: Group>(
    subjects: Seq<S>,
    groups: Seq<G>,
    i: int,
    upto: int,
) -> bool
    decreases upto,
{
    upto > 0 && (subjects[i].spec_dissatisfaction(groups[upto - 1].spec_id()) == 0
        || has_first_choice_among(subjects, groups, i, upto - 1))
}

/// The members the group with index `j` claims in the first-choice pass:
/// the subjects among the first `upto_i`, in input order, whose
/// dissatisfaction toward it is zero and whom no earlier group claimed.
pub open spec fn first_choice_members<S: Subject, G: Group>(
    subjects: Seq<S>,
    groups: Seq<G>,
    j: int,
    upto_i: int,
) -> Seq<usize>
    decreases upto_i,
{
    if upto_i <= 0 {
        Seq::empty()
    } else {
        let rest = first_choice_members(subjects, groups, j, upto_i - 1);
        let i = upto_i - 1;
        if subjects[i].spec_dissatisfaction(groups[j].spec_id()) == 0 && !has_first_choice_among(
            subjects,
            groups,
            i,
            j,
        ) {
            rest.push(i as usize)
        } else {
            rest
        }
    }
}

/// The model registries after the first-choice pass: each group holds
/// the subjects it claimed, in input order.
pub open spec fn first_choice_state<S: Subject, G: Group>(
    subjects: Seq<S>,
    groups: Seq<G>,
) -> Seq<(u64, i32, Seq<usize>)> {
    Seq::new(
        groups.len(),
        |j: int|
            (
                groups[j].spec_id(),
                groups[j].spec_capacity(),
                first_choice_members(subjects, groups, j, subjects.len() as int),
            ),
    )
}

/// The model registries after the first step, with the first `k`
/// subjects of the fallback pass processed: a subject without a first
/// choice joins, by sorted insertion, the first non-full registry
/// minimizing its dissatisfaction.
pub open spec fn first_step_state<S: Subject, G: Group>(
    subjects: Seq<S>,
    groups: Seq<G>,
    k: int,
) -> Seq<(u64, i32, Seq<usize>)>
    decreases k,
{
    if k <= 0 {
        first_choice_state(subjects, groups)
    } else {
        let st = first_step_state(subjects, groups, k - 1);
        let i = k - 1;
        if has_first_choice_among(subjects, groups, i, groups.len() as int) {
            st
        } else {
            match available_choice(subjects, st, i) {
                Option::None => st,
                Option::Some(g) => st.update(
                    g,
                    (
                        st[g].0,
                        st[g].1,
                        st[g].2.insert(
                            sorted_insert_position(subjects, st[g].2, st[g].0, i as usize),
                            i as usize,
                        ),
                    ),
                ),
            }
        }
    }
}

/// A model registry's highest dissatisfaction: its last member's rating
/// toward it, or zero when it is empty.
pub open spec fn model_highest<S: Subject>(subjects: Seq<S>, r: (u64, i32, Seq<usize>)) -> i32 {
    if r.2.len() == 0 {
        0
    } else {
        subjects[r.2.last() as int].spec_dissatisfaction(r.0)
    }
}

/// The membership offer a target model registry extends for a donor's
/// most easily transferable member — the member with minimum
/// dissatisfaction toward the target, the first winning ties — as a
/// (rating, improvement) pair, or `None` when the target declines.
pub open spec fn model_offer<S: Subject>(
    subjects: Seq<S>,
    donor: (u64, i32, Seq<usize>),
    target: (u64, i32, Seq<usize>),
) -> Option<(i32, Option<i64>)> {
    if donor.2.len() == 0 {
        Option::None
    } else {
        let d = subjects[donor.2[donor_choice(subjects, donor.2, target.0)] as int].spec_dissatisfaction(
            target.0,
        );
        if !model_full(target) {
            Option::Some((d, Option::None))
        } else if d - model_highest(subjects, target) >= 0 {
            Option::None
        } else {
            Option::Some((d, Option::Some((d - model_highest(subjects, target)) as i64)))
        }
    }
}

/// The strict order on offers: a lower rating is better; at equal
/// ratings an offer without eviction beats one with, and among evicting
/// offers the more negative improvement wins.
pub open spec fn offer_lt(a: (i32, Option<i64>), b: (i32, Option<i64>)) -> bool {
    a.0 < b.0 || (a.0 == b.0 && match (a.1, b.1) {
        (Option::None, Option::Some(_)) => true,
        (Option::Some(x), Option::Some(y)) => x < y,
        _ => false,
    })
}

/// The position of the available registry extending the minimal offer
/// for the donor, among the first `upto` (the first wins ties), or
/// `None` when every one declines.
pub open spec fn best_target_upto<S: Subject>(
    subjects: Seq<S>,
    donor: (u64, i32, Seq<usize>),
    a: Seq<(u64, i32, Seq<usize>)>,
    upto: int,
) -> Option<int>
    decreases upto,
{
    if upto <= 0 {
        Option::None
    } else {
        let prev = best_target_upto(subjects, donor, a, upto - 1);
        let g = upto - 1;
        match model_offer(subjects, donor, a[g]) {
            Option::None => prev,
            Option::Some(off) => match prev {
                Option::None => Option::Some(g),
                Option::Some(b) => if offer_lt(
                    off,
                    model_offer(subjects, donor, a[b])->Some_0,
                ) {
                    Option::Some(g)
                } else {
                    Option::Some(b)
                },
            },
        }
    }
}

/// One transfer under an accepted offer: the donor loses its chosen
/// member; a full target first discards its least happy member, which is
/// returned for reprocessing, and the moved member joins by sorted
/// insertion.
pub open spec fn model_transfer<S: Subject>(
    subjects: Seq<S>,
    donor: (u64, i32, Seq<usize>),
    target: (u64, i32, Seq<usize>),
) -> ((u64, i32, Seq<usize>), (u64, i32, Seq<usize>), Option<usize>) {
    let pme = donor_choice(subjects, donor.2, target.0);
    let moved = donor.2[pme];
    let donor2 = (donor.0, donor.1, donor.2.remove(pme));
    if model_full(target) {
        let kept = target.2.drop_last();
        (
            donor2,
            (
                target.0,
                target.1,
                kept.insert(sorted_insert_position(subjects, kept, target.0, moved), moved),
            ),
            Option::Some(target.2.last()),
        )
    } else {
        (
            donor2,
            (
                target.0,
                target.1,
                target.2.insert(
                    sorted_insert_position(subjects, target.2, target.0, moved),
                    moved,
                ),
            ),
            Option::None,
        )
    }
}

/// The transfers of one round, for the first `k` overfull registries:
/// each in turn transfers its chosen member to the available registry
/// with the minimal offer; members evicted on the way accumulate in
/// order.
pub open spec fn round_transfers<S: Subject>(
    subjects: Seq<S>,
    o: Seq<(u64, i32, Seq<usize>)>,
    a: Seq<(u64, i32, Seq<usize>)>,
    k: int,
) -> (Seq<(u64, i32, Seq<usize>)>, Seq<(u64, i32, Seq<usize>)>, Seq<usize>)
    decreases k,
{
    if k <= 0 {
        (o, a, Seq::empty())
    } else {
        let (o1, a1, p1) = round_transfers(subjects, o, a, k - 1);
        match best_target_upto(subjects, o1[k - 1], a1, a1.len() as int) {
            Option::None => (o1, a1, p1),
            Option::Some(j) => {
                let (d2, t2, ev) = model_transfer(subjects, o1[k - 1], a1[j]);
                (
                    o1.update(k - 1, d2),
                    a1.update(j, t2),
                    match ev {
                        Option::None => p1,
                        Option::Some(e) => p1.push(e),
                    },
                )
            },
        }
    }
}

/// The merged registries after force-registering the first `k` collected
/// subjects, each into the registry minimizing its dissatisfaction, the
/// first winning ties.
pub open spec fn reprocess_state<S: Subject>(
    subjects: Seq<S>,
    merged: Seq<(u64, i32, Seq<usize>)>,
    pending: Seq<usize>,
    k: int,
) -> Seq<(u64, i32, Seq<usize>)>
    decreases k,
{
    if k <= 0 {
        merged
    } else {
        let st = reprocess_state(subjects, merged, pending, k - 1);
        let sdx = pending[k - 1];
        let b = most_desired(subjects, st, sdx as int);
        st.update(
            b,
            (
                st[b].0,
                st[b].1,
                st[b].2.insert(sorted_insert_position(subjects, st[b].2, st[b].0, sdx), sdx),
            ),
        )
    }
}

/// The overfull model registries, in order.
pub open spec fn part_overfull(s: Seq<(u64, i32, Seq<usize>)>) -> Seq<(u64, i32, Seq<usize>)>
    decreases s.len(),
{
    if s.len() == 0 {
        Seq::empty()
    } else {
        let rest = part_overfull(s.drop_last());
        if model_overfull(s.last()) {
            rest.push(s.last())
        } else {
            rest
        }
    }
}

/// The model registries that are full but not overfull, in order.
pub open spec fn part_exactly_full(s: Seq<(u64, i32, Seq<usize>)>) -> Seq<(u64, i32, Seq<usize>)>
    decreases s.len(),
{
    if s.len() == 0 {
        Seq::empty()
    } else {
        let rest = part_exactly_full(s.drop_last());
        if model_full(s.last()) && !model_overfull(s.last()) {
            rest.push(s.last())
        } else {
            rest
        }
    }
}

/// The model registries that are not overfull, in order.
pub open spec fn part_not_overfull(s: Seq<(u64, i32, Seq<usize>)>) -> Seq<(u64, i32, Seq<usize>)>
    decreases s.len(),
{
    if s.len() == 0 {
        Seq::empty()
    } else {
        let rest = part_not_overfull(s.drop_last());
        if !model_overfull(s.last()) {
            rest.push(s.last())
        } else {
            rest
        }
    }
}

/// The model registries that are not full, in order.
pub open spec fn part_available(s: Seq<(u64, i32, Seq<usize>)>) -> Seq<(u64, i32, Seq<usize>)>
    decreases s.len(),
{
    if s.len() == 0 {
        Seq::empty()
    } else {
        let rest = part_available(s.drop_last());
        if !model_full(s.last()) {
            rest.push(s.last())
        } else {
            rest
        }
    }
}

/// One full proposal round on the model state: the transfers, the
/// reprocessing of evicted members over the merged overfull and
/// bystander registries, and the re-partition; the available registries
/// are carried forward with their updated contents.
pub open spec fn round_model<S: Subject>(
    subjects: Seq<S>,
    o: Seq<(u64, i32, Seq<usize>)>,
    b: Seq<(u64, i32, Seq<usize>)>,
    a: Seq<(u64, i32, Seq<usize>)>,
) -> (Seq<(u64, i32, Seq<usize>)>, Seq<(u64, i32, Seq<usize>)>, Seq<(u64, i32, Seq<usize>)>) {
    let (o1, a1, pend) = round_transfers(subjects, o, a, o.len() as int);
    let merged = reprocess_state(subjects, o1 + b, pend, pend.len() as int);
    (part_overfull(merged), part_not_overfull(merged), a1)
}

/// The loop state of propose-and-reject after `k` rounds: the partition
/// of the first step's registries, advanced one round at a time.
pub open spec fn pnr_state_model<S: Subject, G: Group>(
    subjects: Seq<S>,
    groups: Seq<G>,
    k: nat,
) -> (Seq<(u64, i32, Seq<usize>)>, Seq<(u64, i32, Seq<usize>)>, Seq<(u64, i32, Seq<usize>)>)
    decreases k,
{
    if k == 0 {
        let m0 = first_step_state(subjects, groups, subjects.len() as int);
        (part_overfull(m0), part_exactly_full(m0), part_available(m0))
    } else {
        let (o, b, a) = pnr_state_model(subjects, groups, (k - 1) as nat);
        round_model(subjects, o, b, a)
    }
}

/// The assignment realizes the propose-and-reject model: after some
/// number of rounds the model's convergence loop ends — no overfull
/// registry remains, while every earlier state still had one — and the
/// group map lists exactly the members of the final model registries,
/// the available ones first, then the bystanders.
pub open spec fn pnr_model_ok<S: Subject, G: Group>(
    a: Assignment,
    subjects: Seq<S>,
    groups: Seq<G>,
) -> bool {
    exists|k: nat|
        #![trigger pnr_state_model(subjects, groups, k)]
        {
            let st = pnr_state_model(subjects, groups, k);
            &&& st.0.len() == 0
            &&& forall|k2: nat|
                k2 < k ==> (#[trigger] pnr_state_model(subjects, groups, k2)).0.len() > 0
            &&& forall|t: int|
                0 <= t < (st.2 + st.1).len() ==> a.spec_groups_map().contains_key(
                    (#[trigger] (st.2 + st.1)[t]).0,
                ) && a.spec_groups_map()[(st.2 + st.1)[t].0] == member_ids(
                    (st.2 + st.1)[t].2,
                    subjects,
                )
        }
}

/// The registry at position `b` of `post` received the subject, and
/// every other registry is unchanged from `pre`.
pub open spec fn placed_in_one<S: Subject>(
    pre: Seq<ProposalHandlingGroupRegistry>,
    post: Seq<ProposalHandlingGroupRegistry>,
    subjects: Seq<S>,
    subject: usize,
    b: int,
) -> bool {
    &&& post.len() == pre.len()
    &&& 0 <= b < pre.len()
    &&& post[b].gid() == pre[b].gid()
    &&& post[b].cap() == pre[b].cap()
    &&& post[b].wf(subjects)
    &&& post[b].members().len() == pre[b].members().len() + 1
    &&& post[b].members().to_multiset() == pre[b].members().to_multiset().insert(subject)
    &&& post[b].members() == pre[b].members().insert(
        sorted_insert_position(subjects, pre[b].members(), pre[b].gid(), subject),
        subject,
    )
    &&& members_potential(subjects, post[b].members(), post[b].gid()) == members_potential(
        subjects,
        pre[b].members(),
        pre[b].gid(),
    ) + member_weight(subjects, subject, pre[b].gid())
    &&& forall|t: int| 0 <= t < pre.len() && t != b ==> post[t] == pre[t]
}

/// Registers the subject with the given index to the first non-full
/// registry minimizing its dissatisfaction, if any registry is still
/// available; a subject for whom every registry is full is left
/// unregistered.
fn subject_to_best_available_group_registry<S: Subject>(
    subject: usize,
    group_registries: Vec<ProposalHandlingGroupRegistry>,
    subjects: &[S],
) -> (r: Vec<ProposalHandlingGroupRegistry>)
    requires
        (subject as int) < subjects@.len(),
        wf_all(group_registries@, subjects@),
    ensures
        match available_choice(subjects@, registries_model(group_registries@), subject as int) {
            Option::None => r@ == group_registries@ && forall|t: int|
                0 <= t < group_registries@.len() ==> (#[trigger] group_registries@[t]).spec_full(),
            Option::Some(b) => {
                &&& !group_registries@[b].spec_full()
                &&& placed_in_one(group_registries@, r@, subjects@, subject, b)
            },
        },
{
    let ghost pre = group_registries@;
    let ghost model = registries_model(group_registries@);
    let mut group_registries = group_registries;
    let mut best: Option<usize> = None;
    let n = group_registries.len();
    let mut t: usize = 0;
    while t < n
        invariant
            pre == group_registries@,
            model == registries_model(pre),
            n == pre.len(),
            0 <= t <= n,
            (subject as int) < subjects@.len(),
            wf_all(pre, subjects@),
            match best {
                Option::None => available_choice_upto(subjects@, model, subject as int, t as int)
                    is None && forall|tt: int| 0 <= tt < t ==> (#[trigger] pre[tt]).spec_full(),
                Option::Some(bb) => {
                    &&& 0 <= (bb as int) < t
                    &&& !pre[bb as int].spec_full()
                    &&& available_choice_upto(subjects@, model, subject as int, t as int)
                        == Option::Some(bb as int)
                },
            },
        decreases n - t,
    {
        proof {
            assert(model[t as int] == registry_model(pre[t as int]));
        }
        let is_full = group_registries[t].full();
        if !is_full {
            match best {
                None => {
                    best = Some(t);
                },
                Some(b) => {
                    let d_new = subjects[subject].dissatisfaction(
                        &group_registries[t].delegate.group_id,
                    );
                    let d_best = subjects[subject].dissatisfaction(
                        &group_registries[b].delegate.group_id,
                    );
                    if d_new < d_best {
                        best = Some(t);
                    }
                },
            }
        }
        t = t + 1;
    }
    match best {
        None => group_registries,
        Some(b) => {
            let result = group_registries[b].register_subject(subjects, subject);
            proof {
                assert(group_registries@ =~= pre.update(b as int, group_registries@[b as int]));
                assert(placed_in_one(pre, group_registries@, subjects@, subject, b as int));
            }
            group_registries
        },
    }
}

/// Force-registers the subject with the given index to the registry
/// minimizing its dissatisfaction, regardless of capacity. The first
/// such registry wins ties.
fn subject_to_most_desired_group_registry<S: Subject>(
    group_registries: Vec<ProposalHandlingGroupRegistry>,
    subject: usize,
    subjects: &[S],
) -> (r: Vec<ProposalHandlingGroupRegistry>)
    requires
        (subject as int) < subjects@.len(),
        wf_all(group_registries@, subjects@),
        group_registries@.len() >= 1,
    ensures
        placed_in_one(
            group_registries@,
            r@,
            subjects@,
            subject,
            most_desired(subjects@, registries_model(group_registries@), subject as int),
        ),
{
    let ghost pre = group_registries@;
    let ghost model = registries_model(group_registries@);
    let mut group_registries = group_registries;
    let mut best: usize = 0;
    let n = group_registries.len();
    let mut t: usize = 1;
    while t < n
        invariant
            pre == group_registries@,
            model == registries_model(pre),
            n == pre.len(),
            1 <= t <= n || (n == 0 && t == 1),
            n >= 1,
            (subject as int) < subjects@.len(),
            wf_all(pre, subjects@),
            0 <= (best as int) < t,
            (best as int) == most_desired_upto(subjects@, model, subject as int, t as int),
        decreases n - t,
    {
        proof {
            assert(model[t as int] == registry_model(pre[t as int]));
            assert(model[best as int] == registry_model(pre[best as int]));
        }
        let d_new = subjects[subject].dissatisfaction(&group_registries[t].delegate.group_id);
        let d_best = subjects[subject].dissatisfaction(&group_registries[best].delegate.group_id);
        if d_new < d_best {
            best = t;
        }
        t = t + 1;
    }
    group_registries[best].force_register_subject(subjects, subject);
    proof {
        assert(group_registries@ =~= pre.update(best as int, group_registries@[best as int]));
        assert(placed_in_one(pre, group_registries@, subjects@, subject, best as int));
    }
    group_registries
}

/// The first step of the propose and reject algorithm: create a group
/// registry for each group and register every subject to the registry of
/// its preferred choice, regardless of capacity.
///
/// A subject is claimed by the first group (in input order) for which it
/// has dissatisfaction 0. Any subject left unclaimed after all groups
/// are scanned is then registered, in input order, to the first non-full
/// registry minimizing its dissatisfaction — one always exists while the
/// capacity precheck holds.
fn first_step<S: Subject, G: Group>(subjects: &[S], groups: &[G]) -> (r: Vec<
    ProposalHandlingGroupRegistry,
>)
    requires
        spec_sum_capacities(groups@) >= subjects@.len(),
    ensures
        r@.len() == groups@.len(),
        forall|j: int|
            0 <= j < groups@.len() ==> (#[trigger] r@[j]).gid() == groups@[j].spec_id()
                && r@[j].cap() == groups@[j].spec_capacity(),
        wf_all(r@, subjects@),
        forall|x: usize|
            #![trigger phr_members(r@).count(x)]
            phr_members(r@).count(x) == if (x as int) < subjects@.len() {
                1int
            } else {
                0int
            },
        phr_lens(r@) == subjects@.len(),
        phr_caps(r@) == spec_sum_capacities(groups@),
        registries_model(r@) == first_step_state(subjects@, groups@, subjects@.len() as int),
{
    let n = subjects.len();
    let mut claimed: Vec<bool> = Vec::new();
    let mut i0: usize = 0;
    while i0 < n
        invariant
            0 <= i0 <= n,
            claimed@.len() == i0,
            forall|x: int| 0 <= x < i0 ==> !claimed@[x],
        decreases n - i0,
    {
        claimed.push(false);
        i0 = i0 + 1;
    }
    proof {
        lemma_seq_sum_all_zero_claims(claimed@);
    }
    let mut group_registries: Vec<ProposalHandlingGroupRegistry> = Vec::new();
    let mut j: usize = 0;
    while j < groups.len()
        invariant
            n == subjects@.len(),
            claimed@.len() == n,
            0 <= j <= groups@.len(),
            group_registries@.len() == j,
            forall|jj: int|
                0 <= jj < j ==> (#[trigger] group_registries@[jj]).gid() == groups@[jj].spec_id()
                    && group_registries@[jj].cap() == groups@[jj].spec_capacity(),
            wf_all(group_registries@, subjects@),
            forall|x: usize|
                #![trigger phr_members(group_registries@).count(x)]
                phr_members(group_registries@).count(x) == if (x as int) < n && claimed@[x as int] {
                    1int
                } else {
                    0int
                },
            phr_lens(group_registries@) == seq_sum(claimed@, claim_fn()),
            phr_caps(group_registries@) == spec_sum_capacities(groups@.take(j as int)),
            forall|x: int|
                #![trigger claimed@[x]]
                0 <= x < n ==> (claimed@[x] <==> has_first_choice_among(
                    subjects@,
                    groups@,
                    x,
                    j as int,
                )),
            forall|jj: int|
                0 <= jj < j ==> (#[trigger] group_registries@[jj]).members()
                    == first_choice_members(subjects@, groups@, jj, n as int),
        decreases groups@.len() - j,
    {
        let group_id = groups[j].id();
        let ghost regs_before = group_registries@;
        let ghost claimed_before = claimed@;
        let mut members: Vec<usize> = Vec::new();
        let mut i: usize = 0;
        while i < n
            invariant
                n == subjects@.len(),
                claimed@.len() == n,
                0 <= i <= n,
                group_id == groups@[j as int].spec_id(),
                0 <= (j as int) < groups@.len(),
                group_registries@ == regs_before,
                valid_members(members@, subjects@),
                forall|p: int|
                    0 <= p < members@.len() ==> subjects@[(
                    #[trigger] members@[p]) as int].spec_dissatisfaction(group_id) == 0,
                forall|x: usize|
                    #![trigger members@.to_multiset().count(x)]
                    phr_members(group_registries@).count(x) + members@.to_multiset().count(x)
                        == if (x as int) < n && claimed@[x as int] {
                        1int
                    } else {
                        0int
                    },
                phr_lens(group_registries@) + members@.len() == seq_sum(claimed@, claim_fn()),
                forall|x: int|
                    #![trigger claimed@[x]]
                    0 <= x < n ==> (claimed@[x] <==> ((x < i && has_first_choice_among(
                        subjects@,
                        groups@,
                        x,
                        j + 1,
                    )) || (x >= i && has_first_choice_among(subjects@, groups@, x, j as int)))),
                members@ == first_choice_members(subjects@, groups@, j as int, i as int),
            decreases n - i,
        {
            let already = claimed[i];
            if !already {
                let d = subjects[i].dissatisfaction(&group_id);
                if d == 0 {
                    let ghost cpre = claimed@;
                    let ghost mpre = members@;
                    claimed[i] = true;
                    members.push(i);
                    proof {
                        assert(claimed@ =~= cpre.update(i as int, true));
                        lemma_seq_sum_update(cpre, claim_fn(), i as int, true);
                        assert forall|x: usize|
                            #![trigger members@.to_multiset().count(x)]
                            phr_members(group_registries@).count(x) + members@.to_multiset().count(
                                x,
                            ) == if (x as int) < n && claimed@[x as int] {
                                1int
                            } else {
                                0int
                            } by {
                            assert(phr_members(group_registries@).count(x)
                                + mpre.to_multiset().count(x) == if (x as int) < n && cpre[x as int] {
                                1int
                            } else {
                                0int
                            });
                            assert(members@.to_multiset() =~= mpre.to_multiset().insert(i));
                            assert(members@.to_multiset().count(x) == mpre.to_multiset().count(x)
                                + if x == i {
                                1int
                            } else {
                                0int
                            });
                            if x != i {
                                assert(claimed@[x as int] == cpre[x as int] || !(0 <= (x as int)
                                    < n));
                            } else {
                                assert(!cpre[i as int]);
                                assert(claimed@[i as int]);
                            }
                        }
                    }
                }
            }
            proof {
                assert(first_choice_members(subjects@, groups@, j as int, i + 1)
                    == if subjects@[i as int].spec_dissatisfaction(groups@[j as int].spec_id())
                    == 0 && !has_first_choice_among(subjects@, groups@, i as int, j as int) {
                    first_choice_members(subjects@, groups@, j as int, i as int).push(i)
                } else {
                    first_choice_members(subjects@, groups@, j as int, i as int)
                });
                assert(has_first_choice_among(subjects@, groups@, i as int, j + 1) == (subjects@[
                i as int].spec_dissatisfaction(groups@[j as int].spec_id()) == 0
                    || has_first_choice_among(subjects@, groups@, i as int, j as int)));
            }
            i = i + 1;
        }
        let ghost members_final = members@;
        let reg = ProposalHandlingGroupRegistry::new_without_dissatisfaction(
            &groups[j],
            members,
            subjects,
        );
        proof {
            lemma_seq_msum_push(group_registries@, members_fn(), reg);
            lemma_seq_sum_push(group_registries@, len_fn(), reg);
            lemma_seq_sum_push(group_registries@, cap_fn(), reg);
            assert(groups@.take(j + 1).drop_last() =~= groups@.take(j as int));
            assert(groups@.take(j + 1).last() == groups@[j as int]);
        }
        let ghost pushed_to = group_registries@.push(reg);
        group_registries.push(reg);
        proof {
            assert forall|x: usize|
                #![trigger phr_members(group_registries@).count(x)]
                phr_members(group_registries@).count(x) == if (x as int) < n && claimed@[x as int] {
                    1int
                } else {
                    0int
                } by {
                assert(phr_members(group_registries@).count(x) == phr_members(regs_before).count(x)
                    + members_fn()(reg).count(x));
                assert(members_fn()(reg).count(x) == reg.members().to_multiset().count(x));
                assert(phr_members(regs_before).count(x) + members_final.to_multiset().count(x)
                    == if (x as int) < n && claimed@[x as int] {
                    1int
                } else {
                    0int
                });
                assert(reg.members() == members_final);
            }
        }
        j = j + 1;
    }
    proof {
        assert(groups@.take(groups@.len() as int) =~= groups@);
        assert(registries_model(group_registries@) =~= first_choice_state(subjects@, groups@));
        assert(first_step_state(subjects@, groups@, 0) == first_choice_state(subjects@, groups@));
    }
    let mut i: usize = 0;
    while i < n
        invariant
            n == subjects@.len(),
            claimed@.len() == n,
            0 <= i <= n,
            group_registries@.len() == groups@.len(),
            forall|jj: int|
                0 <= jj < groups@.len() ==> (#[trigger] group_registries@[jj]).gid()
                    == groups@[jj].spec_id() && group_registries@[jj].cap()
                    == groups@[jj].spec_capacity(),
            wf_all(group_registries@, subjects@),
            forall|x: usize|
                #![trigger phr_members(group_registries@).count(x)]
                phr_members(group_registries@).count(x) == if (x as int) < n && claimed@[x as int] {
                    1int
                } else {
                    0int
                },
            phr_lens(group_registries@) == seq_sum(claimed@, claim_fn()),
            phr_caps(group_registries@) == spec_sum_capacities(groups@) >= n,
            forall|x: int| 0 <= x < i ==> claimed@[x],
            forall|x: int|
                #![trigger claimed@[x]]
                0 <= x < n ==> (claimed@[x] <==> (x < i || has_first_choice_among(
                    subjects@,
                    groups@,
                    x,
                    groups@.len() as int,
                ))),
            registries_model(group_registries@) == first_step_state(subjects@, groups@, i as int),
        decreases n - i,
    {
        let already = claimed[i];
        proof {
            if already {
                assert(has_first_choice_among(subjects@, groups@, i as int, groups@.len() as int));
                assert(first_step_state(subjects@, groups@, i + 1) == first_step_state(
                    subjects@,
                    groups@,
                    i as int,
                ));
            }
        }
        if !already {
            let ghost pre = group_registries@;
            let ghost cpre = claimed@;
            proof {
                // a non-full registry exists: fewer subjects are placed
                // than the combined capacity holds
                lemma_seq_sum_update(cpre, claim_fn(), i as int, true);
                lemma_seq_sum_le_one(cpre.update(i as int, true), claim_fn());
                assert(phr_lens(pre) <= n - 1);
                lemma_phr_exists_non_full(pre);
            }
            group_registries = subject_to_best_available_group_registry(
                i,
                group_registries,
                subjects,
            );
            claimed[i] = true;
            proof {
                assert(claimed@ =~= cpre.update(i as int, true));
                lemma_seq_sum_update(cpre, claim_fn(), i as int, true);
                let t0 = choose|t: int| 0 <= t < pre.len() && !(#[trigger] pre[t]).spec_full();
                let choice = available_choice(subjects@, registries_model(pre), i as int);
                if choice is None {
                    assert(pre[t0].spec_full());
                    assert(false);
                }
                let b = choose|b: int| choice == Option::<int>::Some(b);
                assert(placed_in_one(pre, group_registries@, subjects@, i, b));
                assert(group_registries@ =~= pre.update(b, group_registries@[b]));
                assert(!has_first_choice_among(subjects@, groups@, i as int, groups@.len() as int));
                assert(registries_model(group_registries@) =~= first_step_state(
                    subjects@,
                    groups@,
                    i + 1,
                )) by {
                    let st = first_step_state(subjects@, groups@, i as int);
                    assert(st == registries_model(pre));
                    assert(registry_model(group_registries@[b]) == (
                        st[b].0,
                        st[b].1,
                        st[b].2.insert(
                            sorted_insert_position(subjects@, st[b].2, st[b].0, i),
                            i,
                        ),
                    ));
                }
                lemma_seq_msum_update(pre, members_fn(), b, group_registries@[b]);
                lemma_seq_sum_update(pre, len_fn(), b, group_registries@[b]);
                lemma_seq_sum_update(pre, cap_fn(), b, group_registries@[b]);
                assert forall|x: usize|
                    #![trigger phr_members(group_registries@).count(x)]
                    phr_members(group_registries@).count(x) == if (x as int) < n && claimed@[x as int] {
                        1int
                    } else {
                        0int
                    } by {
                    assert(phr_members(pre).count(x) == if (x as int) < n && cpre[x as int] {
                        1int
                    } else {
                        0int
                    });
                    assert(phr_members(group_registries@).count(x) == phr_members(pre).count(x)
                        - members_fn()(pre[b]).count(x) + members_fn()(group_registries@[b]).count(
                        x,
                    ));
                    assert(group_registries@[b].members().to_multiset() =~= pre[b].members(
                    ).to_multiset().insert(i));
                    assert(members_fn()(group_registries@[b]).count(x) == members_fn()(
                        pre[b],
                    ).count(x) + if x == i {
                        1int
                    } else {
                        0int
                    });
                    if x != i {
                        assert(claimed@[x as int] == cpre[x as int] || !(0 <= (x as int) < n));
                    } else {
                        assert(!cpre[i as int]);
                    }
                }
            }
        }
        i = i + 1;
    }
    proof {
        lemma_seq_sum_all_one_claims(claimed@);
    }
    group_registries
}

/// Adds the subjects collected for reprocessing to the registry of their
/// least-dissatisfying group among the overfull and bystander registries,
/// regardless of capacity, then re-partitions those registries into the
/// new overfull and bystander sets. The available registries are carried
/// forward unchanged.
#[verifier::rlimit(100)]
fn group_registries_for_next_proposal_round<S: Subject>(
    overfull: Vec<ProposalHandlingGroupRegistry>,
    bystanders: Vec<ProposalHandlingGroupRegistry>,
    available: Vec<ProposalHandlingGroupRegistry>,
    subjects_for_reprocessing: Vec<usize>,
    subjects: &[S],
) -> (r: (
    Vec<ProposalHandlingGroupRegistry>,
    Vec<ProposalHandlingGroupRegistry>,
    Vec<ProposalHandlingGroupRegistry>,
))
    requires
        wf_all(overfull@, subjects@),
        wf_all(bystanders@, subjects@),
        forall|t: int|
            0 <= t < overfull@.len() ==> (#[trigger] overfull@[t]).members().len()
                >= overfull@[t].cap(),
        forall|t: int|
            0 <= t < bystanders@.len() ==> (#[trigger] bystanders@[t]).members().len()
                >= bystanders@[t].cap(),
        forall|p: int|
            0 <= p < subjects_for_reprocessing@.len() ==> ((
            #[trigger] subjects_for_reprocessing@[p]) as int) < subjects@.len(),
        subjects_for_reprocessing@.len() > 0 ==> overfull@.len() + bystanders@.len() >= 1,
    ensures
        ({
            let (no, nb, na) = r;
            let merged = overfull@ + bystanders@;
            &&& na == available
            &&& wf_all(no@, subjects@) && wf_all(nb@, subjects@)
            &&& forall|t: int| 0 <= t < no@.len() ==> (#[trigger] no@[t]).spec_overfull()
            &&& forall|t: int|
                0 <= t < nb@.len() ==> (#[trigger] nb@[t]).members().len() >= nb@[t].cap() && !nb@[
                    t
                ].spec_overfull()
            &&& forall|x: usize|
                #![trigger phr_members(no@).count(x)]
                phr_members(no@).count(x) + phr_members(nb@).count(x) == phr_members(
                    overfull@,
                ).count(x) + phr_members(bystanders@).count(x)
                    + subjects_for_reprocessing@.to_multiset().count(x)
            &&& forall|pr: (u64, i32)|
                #![trigger phr_pairs(no@).count(pr)]
                phr_pairs(no@).count(pr) + phr_pairs(nb@).count(pr) == phr_pairs(
                    overfull@,
                ).count(pr) + phr_pairs(bystanders@).count(pr)
            &&& phr_lens(no@) + phr_lens(nb@) == phr_lens(overfull@) + phr_lens(bystanders@)
                + subjects_for_reprocessing@.len()
            &&& phr_caps(no@) + phr_caps(nb@) == phr_caps(overfull@) + phr_caps(bystanders@)
            &&& ({
                let merged2 = reprocess_state(
                    subjects@,
                    registries_model(overfull@) + registries_model(bystanders@),
                    subjects_for_reprocessing@,
                    subjects_for_reprocessing@.len() as int,
                );
                registries_model(no@) == part_overfull(merged2) && registries_model(nb@)
                    == part_not_overfull(merged2)
            })
        }),
{
    let ghost o0 = overfull@;
    let ghost b0 = bystanders@;
    let mut registries_for_update = overfull;
    let mut bystanders = bystanders;
    registries_for_update.append(&mut bystanders);
    proof {
        lemma_seq_msum_concat(o0, b0, members_fn());
        lemma_seq_msum_concat(o0, b0, pair_fn());
        lemma_seq_sum_concat(o0, b0, len_fn());
        lemma_seq_sum_concat(o0, b0, cap_fn());
    }
    let ghost merged = o0 + b0;
    let ghost mm = registries_model(o0) + registries_model(b0);
    proof {
        assert(registries_model(merged) =~= mm);
    }
    let pending = subjects_for_reprocessing;
    let mut k: usize = 0;
    while k < pending.len()
        invariant
            0 <= k <= pending@.len(),
            forall|p: int|
                0 <= p < pending@.len() ==> ((#[trigger] pending@[p]) as int) < subjects@.len(),
            pending@.len() > 0 ==> merged.len() >= 1,
            registries_for_update@.len() == merged.len(),
            wf_all(registries_for_update@, subjects@),
            forall|t: int|
                0 <= t < registries_for_update@.len() ==> (
                #[trigger] registries_for_update@[t]).members().len()
                    >= registries_for_update@[t].cap(),
            forall|x: usize|
                #![trigger phr_members(registries_for_update@).count(x)]
                phr_members(registries_for_update@).count(x) == phr_members(merged).count(x)
                    + pending@.take(k as int).to_multiset().count(x),
            forall|pr: (u64, i32)|
                #![trigger phr_pairs(registries_for_update@).count(pr)]
                phr_pairs(registries_for_update@).count(pr) == phr_pairs(merged).count(pr),
            phr_lens(registries_for_update@) == phr_lens(merged) + k,
            phr_caps(registries_for_update@) == phr_caps(merged),
            mm == registries_model(o0) + registries_model(b0),
            registries_model(registries_for_update@) == reprocess_state(
                subjects@,
                mm,
                pending@,
                k as int,
            ),
        decreases pending@.len() - k,
    {
        let ghost pre = registries_for_update@;
        let s = pending[k];
        registries_for_update = subject_to_most_desired_group_registry(
            registries_for_update,
            s,
            subjects,
        );
        proof {
            let b = most_desired(subjects@, registries_model(pre), s as int);
            assert(placed_in_one(pre, registries_for_update@, subjects@, s, b));
            assert(registries_for_update@ =~= pre.update(b, registries_for_update@[b]));
            assert(registries_model(registries_for_update@) =~= reprocess_state(
                subjects@,
                mm,
                pending@,
                k + 1,
            )) by {
                let st = reprocess_state(subjects@, mm, pending@, k as int);
                assert(st == registries_model(pre));
                assert(registry_model(registries_for_update@[b]) == (
                    st[b].0,
                    st[b].1,
                    st[b].2.insert(
                        sorted_insert_position(subjects@, st[b].2, st[b].0, s),
                        s,
                    ),
                ));
            }
            lemma_seq_msum_update(pre, members_fn(), b, registries_for_update@[b]);
            lemma_seq_msum_update(pre, pair_fn(), b, registries_for_update@[b]);
            lemma_seq_sum_update(pre, len_fn(), b, registries_for_update@[b]);
            lemma_seq_sum_update(pre, cap_fn(), b, registries_for_update@[b]);
            assert(pending@.take(k + 1) =~= pending@.take(k as int).push(pending@[k as int]));
            assert forall|pr: (u64, i32)|
                #![trigger phr_pairs(registries_for_update@).count(pr)]
                phr_pairs(registries_for_update@).count(pr) == phr_pairs(merged).count(pr) by {
                assert(phr_pairs(pre).count(pr) == phr_pairs(merged).count(pr));
                assert(registries_for_update@[b].gid() == pre[b].gid()
                    && registries_for_update@[b].cap() == pre[b].cap());
                assert(pair_fn()(registries_for_update@[b]).count(pr) == pair_fn()(
                    pre[b],
                ).count(pr));
            }
            assert forall|x: usize|
                #![trigger phr_members(registries_for_update@).count(x)]
                phr_members(registries_for_update@).count(x) == phr_members(merged).count(x)
                    + pending@.take(k + 1).to_multiset().count(x) by {
                assert(phr_members(pre).count(x) == phr_members(merged).count(x) + pending@.take(
                    k as int,
                ).to_multiset().count(x));
                assert(registries_for_update@[b].members().to_multiset() =~= pre[b].members(
                ).to_multiset().insert(s));
            }
        }
        k = k + 1;
    }
    proof {
        assert(pending@.take(pending@.len() as int) =~= pending@);
    }
    let mut registries_for_update = registries_for_update;
    let mut new_overfull: Vec<ProposalHandlingGroupRegistry> = Vec::new();
    let mut new_bystanders: Vec<ProposalHandlingGroupRegistry> = Vec::new();
    let ghost u0 = registries_for_update@;
    let ghost um = registries_model(registries_for_update@);
    let ghost mut consumed: int = 0;
    while registries_for_update.len() > 0
        invariant
            wf_all(registries_for_update@, subjects@),
            wf_all(new_overfull@, subjects@),
            wf_all(new_bystanders@, subjects@),
            forall|t: int|
                0 <= t < registries_for_update@.len() ==> (
                #[trigger] registries_for_update@[t]).members().len()
                    >= registries_for_update@[t].cap(),
            forall|t: int| 0 <= t < new_overfull@.len() ==> (#[trigger] new_overfull@[t]).spec_overfull(),
            forall|t: int|
                0 <= t < new_bystanders@.len() ==> (#[trigger] new_bystanders@[t]).members().len()
                    >= new_bystanders@[t].cap() && !new_bystanders@[t].spec_overfull(),
            forall|x: usize|
                #![trigger phr_members(registries_for_update@).count(x)]
                phr_members(new_overfull@).count(x) + phr_members(new_bystanders@).count(x)
                    + phr_members(registries_for_update@).count(x) == phr_members(u0).count(x),
            forall|pr: (u64, i32)|
                #![trigger phr_pairs(registries_for_update@).count(pr)]
                phr_pairs(new_overfull@).count(pr) + phr_pairs(new_bystanders@).count(pr)
                    + phr_pairs(registries_for_update@).count(pr) == phr_pairs(u0).count(pr),
            phr_lens(new_overfull@) + phr_lens(new_bystanders@) + phr_lens(registries_for_update@)
                == phr_lens(u0),
            phr_caps(new_overfull@) + phr_caps(new_bystanders@) + phr_caps(registries_for_update@)
                == phr_caps(u0),
            um == registries_model(u0),
            0 <= consumed <= u0.len(),
            registries_for_update@ == u0.skip(consumed),
            registries_model(new_overfull@) == part_overfull(um.take(consumed)),
            registries_model(new_bystanders@) == part_not_overfull(um.take(consumed)),
        decreases registries_for_update@.len(),
    {
        let ghost upre = registries_for_update@;
        let reg = registries_for_update.remove(0);
        proof {
            lemma_seq_msum_drop_first(upre, members_fn());
            lemma_seq_msum_drop_first(upre, pair_fn());
            lemma_seq_sum_drop_first(upre, len_fn());
            lemma_seq_sum_drop_first(upre, cap_fn());
            assert(registries_for_update@ =~= upre.drop_first());
            assert(reg == u0[consumed]);
            assert(u0.skip(consumed).drop_first() =~= u0.skip(consumed + 1));
            assert(um.take(consumed + 1).drop_last() =~= um.take(consumed));
            assert(um.take(consumed + 1).last() == registry_model(u0[consumed]));
        }
        let ghost no_pre = new_overfull@;
        let ghost nb_pre = new_bystanders@;
        let is_overfull = reg.overfull();
        if is_overfull {
            proof {
                lemma_seq_msum_push(new_overfull@, members_fn(), reg);
                lemma_seq_msum_push(new_overfull@, pair_fn(), reg);
                lemma_seq_sum_push(new_overfull@, len_fn(), reg);
                lemma_seq_sum_push(new_overfull@, cap_fn(), reg);
            }
            new_overfull.push(reg);
        } else {
            proof {
                lemma_seq_msum_push(new_bystanders@, members_fn(), reg);
                lemma_seq_msum_push(new_bystanders@, pair_fn(), reg);
                lemma_seq_sum_push(new_bystanders@, len_fn(), reg);
                lemma_seq_sum_push(new_bystanders@, cap_fn(), reg);
            }
            new_bystanders.push(reg);
        }
        proof {
            assert(reg == upre[0]);
            assert forall|x: usize|
                #![trigger phr_members(registries_for_update@).count(x)]
                phr_members(new_overfull@).count(x) + phr_members(new_bystanders@).count(x)
                    + phr_members(registries_for_update@).count(x) == phr_members(u0).count(
                x,
            ) by {
                assert(phr_members(upre).count(x) == members_fn()(upre[0]).count(x) + phr_members(
                    upre.drop_first(),
                ).count(x));
                assert(phr_members(no_pre).count(x) + phr_members(nb_pre).count(x) + phr_members(
                    upre,
                ).count(x) == phr_members(u0).count(x));
            }
            assert forall|pr: (u64, i32)|
                #![trigger phr_pairs(registries_for_update@).count(pr)]
                phr_pairs(new_overfull@).count(pr) + phr_pairs(new_bystanders@).count(pr)
                    + phr_pairs(registries_for_update@).count(pr) == phr_pairs(u0).count(pr) by {
                assert(phr_pairs(upre).count(pr) == pair_fn()(upre[0]).count(pr) + phr_pairs(
                    upre.drop_first(),
                ).count(pr));
                assert(phr_pairs(no_pre).count(pr) + phr_pairs(nb_pre).count(pr) + phr_pairs(
                    upre,
                ).count(pr) == phr_pairs(u0).count(pr));
            }
            assert(registries_model(new_overfull@) =~= if model_overfull(registry_model(reg)) {
                registries_model(no_pre).push(registry_model(reg))
            } else {
                registries_model(no_pre)
            });
            assert(registries_model(new_bystanders@) =~= if !model_overfull(registry_model(reg)) {
                registries_model(nb_pre).push(registry_model(reg))
            } else {
                registries_model(nb_pre)
            });
            consumed = consumed + 1;
        }
    }
    proof {
        assert(registries_for_update@.len() == 0);
        assert(consumed == u0.len());
        assert(um.take(consumed) =~= um);
        assert(um == reprocess_state(subjects@, mm, pending@, pending@.len() as int));
        assert(phr_lens(registries_for_update@) == 0);
        assert(phr_caps(registries_for_update@) == 0);
        assert forall|x: usize|
            #![trigger phr_members(new_overfull@).count(x)]
            phr_members(new_overfull@).count(x) + phr_members(new_bystanders@).count(x)
                == phr_members(o0).count(x) + phr_members(b0).count(x)
                + subjects_for_reprocessing@.to_multiset().count(x) by {
            assert(phr_members(registries_for_update@).count(x) == 0);
            assert(phr_members(u0).count(x) == phr_members(merged).count(x)
                + subjects_for_reprocessing@.to_multiset().count(x));
            assert(phr_members(merged).count(x) == phr_members(o0).count(x) + phr_members(
                b0,
            ).count(x));
        }
        assert forall|pr: (u64, i32)|
            #![trigger phr_pairs(new_overfull@).count(pr)]
            phr_pairs(new_overfull@).count(pr) + phr_pairs(new_bystanders@).count(pr)
                == phr_pairs(o0).count(pr) + phr_pairs(b0).count(pr) by {
            assert(phr_pairs(registries_for_update@).count(pr) == 0);
            assert(phr_pairs(u0).count(pr) == phr_pairs(merged).count(pr));
            assert(phr_pairs(merged).count(pr) == phr_pairs(o0).count(pr) + phr_pairs(
                b0,
            ).count(pr));
        }
    }
    (new_overfull, new_bystanders, available)
}

/// A registry's excess: its member count beyond its capacity.
pub open spec fn excess_fn() -> spec_fn(ProposalHandlingGroupRegistry) -> int {
    |r: ProposalHandlingGroupRegistry| r.members().len() - r.cap()
}

/// The summed excess is the member count sum minus the capacity sum.
pub proof fn lemma_phr_excess(regs: Seq<ProposalHandlingGroupRegistry>)
    ensures
        seq_sum(regs, excess_fn()) == phr_lens(regs) - phr_caps(regs),
    decreases regs.len(),
{
    if regs.len() > 0 {
        lemma_phr_excess(regs.drop_last());
    }
}

/// The target would extend a membership offer for the donor's most easily
/// transferable member.
pub open spec fn gives_offer<S: Subject>(
    donor: ProposalHandlingGroupRegistry,
    target: ProposalHandlingGroupRegistry,
    subjects: Seq<S>,
) -> bool {
    &&& donor.members().len() > 0
    &&& {
        let p = donor_choice(subjects, donor.members(), target.gid());
        let d = subjects[donor.members()[p] as int].spec_dissatisfaction(target.gid());
        !target.spec_full() || d - target.highest_dissatisfaction < 0
    }
}

/// The offer is the one `propose_transferral` extends for this donor and
/// target: it names the donor's member with minimum dissatisfaction
/// toward the target and records that member's rating, together with the
/// (negative) improvement when the target is full.
pub open spec fn offer_valid<S: Subject>(
    donor: ProposalHandlingGroupRegistry,
    target: ProposalHandlingGroupRegistry,
    subjects: Seq<S>,
    off: TransferralOffer,
) -> bool {
    let p = donor_choice(subjects, donor.members(), target.gid());
    let d = subjects[donor.members()[p] as int].spec_dissatisfaction(target.gid());
    &&& donor.members().len() > 0
    &&& (off.spec_subject_lookup_key() as int) == p
    &&& off.spec_membership_offer().spec_rating() == d
    &&& if !target.spec_full() {
        off.spec_membership_offer().spec_improvement() is None
    } else {
        off.spec_membership_offer().spec_improvement() == Some(
            (d - target.highest_dissatisfaction) as i64,
        ) && d < target.highest_dissatisfaction
    }
}

/// One proposal round: every overfull registry selects the best
/// transferral offer among the available registries and executes the
/// transfer; members evicted from the receiving groups are collected and
/// afterwards force-registered into their least-dissatisfying group among
/// the overfull and bystander registries, which are then re-partitioned.
///
/// Each round strictly shrinks the lexicographic measure (total excess of
/// the overfull and bystander registries, member potential of the
/// available registries), which bounds the number of rounds.
#[verifier::rlimit(100)]
fn proposal_round<S: Subject>(
    overfull: Vec<ProposalHandlingGroupRegistry>,
    bystanders: Vec<ProposalHandlingGroupRegistry>,
    available: Vec<ProposalHandlingGroupRegistry>,
    subjects: &[S],
) -> (r: (
    Vec<ProposalHandlingGroupRegistry>,
    Vec<ProposalHandlingGroupRegistry>,
    Vec<ProposalHandlingGroupRegistry>,
))
    requires
        wf_all(overfull@, subjects@),
        wf_all(bystanders@, subjects@),
        wf_all(available@, subjects@),
        overfull@.len() >= 1,
        forall|t: int|
            0 <= t < overfull@.len() ==> (#[trigger] overfull@[t]).spec_overfull() && overfull@[
                t
            ].cap() >= 0,
        forall|t: int|
            0 <= t < bystanders@.len() ==> (#[trigger] bystanders@[t]).members().len()
                >= bystanders@[t].cap() && bystanders@[t].cap() >= 0,
        forall|t: int|
            0 <= t < available@.len() ==> (#[trigger] available@[t]).members().len() <= available@[
                t
            ].cap() && available@[t].cap() >= 1,
        phr_lens(overfull@) + phr_lens(bystanders@) + phr_lens(available@) <= phr_caps(overfull@)
            + phr_caps(bystanders@) + phr_caps(available@),
    ensures
        ({
            let (no, nb, na) = r;
            &&& wf_all(no@, subjects@) && wf_all(nb@, subjects@) && wf_all(na@, subjects@)
            &&& forall|t: int| 0 <= t < no@.len() ==> (#[trigger] no@[t]).spec_overfull()
            &&& forall|t: int|
                0 <= t < nb@.len() ==> (#[trigger] nb@[t]).members().len() >= nb@[t].cap() && !nb@[
                    t
                ].spec_overfull()
            &&& na@.len() == available@.len()
            &&& forall|t: int|
                0 <= t < na@.len() ==> (#[trigger] na@[t]).gid() == available@[t].gid() && na@[
                    t
                ].cap() == available@[t].cap() && na@[t].members().len() <= na@[t].cap()
            &&& forall|x: usize|
                #![trigger phr_members(no@).count(x)]
                phr_members(no@).count(x) + phr_members(nb@).count(x) + phr_members(na@).count(x)
                    == phr_members(overfull@).count(x) + phr_members(bystanders@).count(x)
                    + phr_members(available@).count(x)
            &&& forall|pr: (u64, i32)|
                #![trigger phr_pairs(no@).count(pr)]
                phr_pairs(no@).count(pr) + phr_pairs(nb@).count(pr) == phr_pairs(
                    overfull@,
                ).count(pr) + phr_pairs(bystanders@).count(pr)
            &&& forall|pr: (u64, i32)|
                #![trigger phr_pairs(na@).count(pr)]
                phr_pairs(na@).count(pr) == phr_pairs(available@).count(pr)
            &&& phr_lens(no@) + phr_lens(nb@) + phr_lens(na@) == phr_lens(overfull@) + phr_lens(
                bystanders@,
            ) + phr_lens(available@)
            &&& phr_caps(no@) + phr_caps(nb@) == phr_caps(overfull@) + phr_caps(bystanders@)
            &&& phr_caps(na@) == phr_caps(available@)
            &&& {
                let e0 = phr_lens(overfull@) + phr_lens(bystanders@) - phr_caps(overfull@)
                    - phr_caps(bystanders@);
                let e1 = phr_lens(no@) + phr_lens(nb@) - phr_caps(no@) - phr_caps(nb@);
                e1 < e0 || (e1 == e0 && phr_potential(subjects@, na@) < phr_potential(
                    subjects@,
                    available@,
                ))
            }
            &&& (registries_model(no@), registries_model(nb@), registries_model(na@))
                == round_model(
                subjects@,
                registries_model(overfull@),
                registries_model(bystanders@),
                registries_model(available@),
            )
        }),
{
    let ghost o0 = overfull@;
    let ghost b0 = bystanders@;
    let ghost a0 = available@;
    let ghost mo0 = registries_model(overfull@);
    let ghost ma0 = registries_model(available@);
    let mut overfull = overfull;
    let mut available = available;
    let mut subjects_for_reprocessing: Vec<usize> = Vec::new();
    let n_over = overfull.len();
    let mut oi: usize = 0;
    while oi < n_over
        invariant
            n_over == o0.len(),
            overfull@.len() == n_over,
            0 <= oi <= n_over,
            wf_all(overfull@, subjects@),
            wf_all(available@, subjects@),
            available@.len() == a0.len(),
            forall|t: int|
                0 <= t < a0.len() ==> (#[trigger] available@[t]).gid() == a0[t].gid()
                    && available@[t].cap() == a0[t].cap() && available@[t].members().len()
                    <= available@[t].cap() && available@[t].cap() >= 1,
            forall|t: int|
                0 <= t < n_over ==> (#[trigger] overfull@[t]).gid() == o0[t].gid() && overfull@[
                    t
                ].cap() == o0[t].cap() && overfull@[t].cap() >= 0,
            forall|t: int| (oi as int) <= t < n_over ==> (#[trigger] overfull@[t]) == o0[t],
            forall|t: int| (oi as int) <= t < n_over ==> (#[trigger] overfull@[t]).spec_overfull(),
            forall|t: int|
                0 <= t < (oi as int) ==> (#[trigger] overfull@[t]).members().len() >= overfull@[
                    t
                ].cap(),
            forall|t: int|
                0 <= t < b0.len() ==> (#[trigger] b0[t]).members().len() >= b0[t].cap(),
            phr_lens(o0) + phr_lens(b0) + phr_lens(a0) <= phr_caps(o0) + phr_caps(b0) + phr_caps(
                a0,
            ),
            forall|p: int|
                0 <= p < subjects_for_reprocessing@.len() ==> ((
                #[trigger] subjects_for_reprocessing@[p]) as int) < subjects@.len(),
            forall|x: usize|
                #![trigger phr_members(overfull@).count(x)]
                phr_members(overfull@).count(x) + phr_members(available@).count(x)
                    + subjects_for_reprocessing@.to_multiset().count(x) == phr_members(o0).count(x)
                    + phr_members(a0).count(x),
            phr_lens(overfull@) == phr_lens(o0) - oi,
            phr_caps(overfull@) == phr_caps(o0),
            phr_lens(available@) + subjects_for_reprocessing@.len() == phr_lens(a0) + oi,
            phr_caps(available@) == phr_caps(a0),
            subjects_for_reprocessing@.len() <= oi,
            subjects_for_reprocessing@.len() == oi ==> phr_potential(subjects@, available@)
                <= phr_potential(subjects@, a0) - oi,
            mo0 == registries_model(o0) && ma0 == registries_model(a0),
            (registries_model(overfull@), registries_model(available@), subjects_for_reprocessing@)
                == round_transfers(subjects@, mo0, ma0, oi as int),
        decreases n_over - oi,
    {
        let ghost donor0 = overfull@[oi as int];
        let ghost dm = registry_model(donor0);
        let ghost am = registries_model(available@);
        let mut best_j: usize = 0;
        let mut best_offer: Option<TransferralOffer> = None;
        let m = available.len();
        let mut j: usize = 0;
        while j < m
            invariant
                m == available@.len(),
                0 <= j <= m,
                0 <= oi < overfull@.len(),
                donor0 == overfull@[oi as int],
                dm == registry_model(donor0),
                am == registries_model(available@),
                donor0.members().len() > donor0.cap() >= 0,
                wf_all(overfull@, subjects@),
                wf_all(available@, subjects@),
                match best_offer {
                    Option::None => best_target_upto(subjects@, dm, am, j as int) is None
                        && forall|jj: int|
                        0 <= jj < j ==> !gives_offer(
                            donor0,
                            #[trigger] available@[jj],
                            subjects@,
                        ),
                    Option::Some(off) => {
                        &&& 0 <= (best_j as int) < j
                        &&& offer_valid(donor0, available@[best_j as int], subjects@, off)
                        &&& best_target_upto(subjects@, dm, am, j as int) == Option::Some(
                            best_j as int,
                        )
                        &&& model_offer(subjects@, dm, am[best_j as int]) == Option::Some(
                            (
                                off.spec_membership_offer().spec_rating(),
                                off.spec_membership_offer().spec_improvement(),
                            ),
                        )
                    },
                },
            decreases m - j,
        {
            let offer_opt = overfull[oi].propose_transferral(&available[j], subjects);
            proof {
                // the exec offer agrees with the model offer for this pair
                assert(am[j as int] == registry_model(available@[j as int]));
                assert(available@[j as int].highest_dissatisfaction == model_highest(
                    subjects@,
                    am[j as int],
                )) by {
                    let tr = available@[j as int];
                    if tr.members().len() > 0 {
                        assert(tr.member_diss(subjects@, tr.members().len() - 1)
                            == subjects@[tr.members().last() as int].spec_dissatisfaction(
                            tr.gid(),
                        ));
                    }
                }
                match &offer_opt {
                    Option::Some(off2) => {
                        assert(model_offer(subjects@, dm, am[j as int]) == Option::Some(
                            (
                                off2.spec_membership_offer().spec_rating(),
                                off2.spec_membership_offer().spec_improvement(),
                            ),
                        ));
                    },
                    Option::None => {
                        assert(model_offer(subjects@, dm, am[j as int]) is None);
                    },
                }
            }
            match offer_opt {
                Some(off) => {
                    match &best_offer {
                        None => {
                            best_j = j;
                            best_offer = Some(off);
                        },
                        Some(bo) => {
                            if off < *bo {
                                best_j = j;
                                best_offer = Some(off);
                            }
                        },
                    }
                },
                None => {},
            }
            j = j + 1;
        }
        match best_offer {
            None => {
                proof {
                    // provably unreachable: some available registry is not
                    // full, and a non-full registry always extends an offer
                    // to an overfull donor
                    assert(seq_sum(overfull@, excess_fn()) >= 1) by {
                        assert(excess_fn()(overfull@[oi as int]) >= 1);
                        assert forall|t: int|
                            0 <= t < overfull@.len() implies excess_fn()(
                            #[trigger] overfull@[t],
                        ) >= 0 by {}
                        lemma_seq_sum_member(overfull@, excess_fn(), oi as int);
                    }
                    lemma_phr_excess(overfull@);
                    assert(seq_sum(b0, excess_fn()) >= 0) by {
                        assert forall|t: int|
                            0 <= t < b0.len() implies excess_fn()(#[trigger] b0[t]) >= 0 by {}
                        lemma_seq_sum_nonneg(b0, excess_fn());
                    }
                    lemma_phr_excess(b0);
                    assert(phr_lens(available@) < phr_caps(available@));
                    lemma_phr_exists_non_full(available@);
                    let t0 = choose|t: int|
                        0 <= t < available@.len() && !(#[trigger] available@[t]).spec_full();
                    assert(gives_offer(donor0, available@[t0], subjects@)) by {
                        assert(donor0 == overfull@[oi as int]);
                        assert(overfull@[oi as int].spec_overfull());
                        assert(overfull@[oi as int].cap() >= 0);
                        assert(donor0.members().len() > donor0.cap() >= 0);
                    }
                    assert(false);
                }
            },
            Some(off) => {
                let ghost pre_o = overfull@;
                let ghost pre_a = available@;
                let ghost pre_p = subjects_for_reprocessing@;
                proof {
                    lemma_donor_choice(
                        subjects@,
                        donor0.members(),
                        pre_a[best_j as int].gid(),
                        donor0.members().len() as int,
                    );
                }
                let replaced = overfull[oi].transfer(&mut available[best_j], subjects, off);
                match replaced {
                    Some(evicted) => {
                        subjects_for_reprocessing.push(evicted);
                    },
                    None => {},
                }
                proof {
                    let new_donor = overfull@[oi as int];
                    let new_target = available@[best_j as int];
                    assert(overfull@ =~= pre_o.update(oi as int, new_donor));
                    assert(available@ =~= pre_a.update(best_j as int, new_target));
                    lemma_seq_msum_update(pre_o, members_fn(), oi as int, new_donor);
                    lemma_seq_sum_update(pre_o, len_fn(), oi as int, new_donor);
                    lemma_seq_sum_update(pre_o, cap_fn(), oi as int, new_donor);
                    lemma_seq_msum_update(pre_a, members_fn(), best_j as int, new_target);
                    lemma_seq_sum_update(pre_a, len_fn(), best_j as int, new_target);
                    lemma_seq_sum_update(pre_a, cap_fn(), best_j as int, new_target);
                    lemma_seq_sum_update(pre_a, pot_fn(subjects@), best_j as int, new_target);
                    let key = off.spec_subject_lookup_key() as int;
                    let moved = pre_o[oi as int].members()[key];
                    assert(pre_o[oi as int].members().remove(key).to_multiset() =~= pre_o[
                        oi as int].members().to_multiset().remove(moved));
                    assert forall|x: usize|
                        #![trigger phr_members(overfull@).count(x)]
                        phr_members(overfull@).count(x) + phr_members(available@).count(x)
                            + subjects_for_reprocessing@.to_multiset().count(x) == phr_members(
                            o0,
                        ).count(x) + phr_members(a0).count(x) by {
                        assert(phr_members(pre_o).count(x) + phr_members(pre_a).count(x)
                            + pre_p.to_multiset().count(x) == phr_members(o0).count(x)
                            + phr_members(a0).count(x));
                        assert(pre_o[oi as int].members().to_multiset().count(moved) > 0) by {
                            assert(pre_o[oi as int].members()[key] == moved);
                        }
                        if off.spec_membership_offer().spec_improvement() is Some {
                            assert(subjects_for_reprocessing@ =~= pre_p.push(
                                pre_a[best_j as int].members().last(),
                            ));
                        } else {
                            assert(subjects_for_reprocessing@ == pre_p);
                        }
                    }
                    if subjects_for_reprocessing@.len() == oi + 1 {
                        // every transfer so far evicted a member, so the
                        // available potential has dropped at every step
                        assert(pre_p.len() == oi);
                        assert(off.spec_membership_offer().spec_improvement() is Some);
                        let d = off.spec_membership_offer().spec_rating();
                        let h = pre_a[best_j as int].highest_dissatisfaction;
                        assert(d < h);
                        assert(member_weight(subjects@, moved, pre_a[best_j as int].gid())
                            - member_weight(
                            subjects@,
                            pre_a[best_j as int].members().last(),
                            pre_a[best_j as int].gid(),
                        ) == d - h);
                    }
                    // the step agrees with the model's transfer
                    assert((
                        registries_model(overfull@),
                        registries_model(available@),
                        subjects_for_reprocessing@,
                    ) == round_transfers(subjects@, mo0, ma0, oi + 1)) by {
                        let stepped = round_transfers(subjects@, mo0, ma0, oi as int);
                        let po = stepped.0;
                        let pa = stepped.1;
                        let pp = stepped.2;
                        assert(po == registries_model(pre_o));
                        assert(pa == registries_model(pre_a));
                        assert(pp == pre_p);
                        assert(po[oi as int] == registry_model(pre_o[oi as int]));
                        assert(best_target_upto(subjects@, po[oi as int], pa, pa.len() as int)
                            == Option::Some(best_j as int));
                        let moved_m = model_transfer(subjects@, po[oi as int], pa[best_j as int]);
                        let d2 = moved_m.0;
                        let t2 = moved_m.1;
                        let ev = moved_m.2;
                        assert(key == donor_choice(
                            subjects@,
                            pre_o[oi as int].members(),
                            pre_a[best_j as int].gid(),
                        ));
                        assert(registry_model(overfull@[oi as int]) == d2);
                        assert(registry_model(available@[best_j as int]) == t2) by {
                            if off.spec_membership_offer().spec_improvement() is Some {
                                assert(model_full(pa[best_j as int]));
                                assert(ev == Option::Some(pa[best_j as int].2.last()));
                            } else {
                                assert(!model_full(pa[best_j as int]));
                            }
                        }
                        assert(registries_model(overfull@) =~= po.update(oi as int, d2));
                        assert(registries_model(available@) =~= pa.update(best_j as int, t2));
                        if off.spec_membership_offer().spec_improvement() is Some {
                            assert(subjects_for_reprocessing@ =~= pp.push(
                                pre_a[best_j as int].members().last(),
                            ));
                            assert(ev == Option::Some(pre_a[best_j as int].members().last()));
                        } else {
                            assert(subjects_for_reprocessing@ == pp);
                            assert(ev is None);
                        }
                    }
                }
            },
        }
        oi = oi + 1;
    }
    let ghost o_after = overfull@;
    let ghost a_after = available@;
    let ghost pending_final = subjects_for_reprocessing@;
    let r = group_registries_for_next_proposal_round(
        overfull,
        bystanders,
        available,
        subjects_for_reprocessing,
        subjects,
    );
    proof {
        let (no, nb, na) = r;
        lemma_phr_pairs_pointwise(o_after, o0);
        lemma_phr_pairs_pointwise(a_after, a0);
        assert((registries_model(no@), registries_model(nb@), registries_model(na@))
            == round_model(
            subjects@,
            registries_model(o0),
            registries_model(b0),
            registries_model(a0),
        )) by {
            assert((registries_model(o_after), registries_model(a_after), pending_final)
                == round_transfers(subjects@, mo0, ma0, n_over as int));
            assert(n_over == mo0.len());
            assert(na@ == a_after);
        }
    }
    r
}

/// Partitions the registries into the overfull ones, the exactly-full
/// bystanders, and the available ones, in registry order.
#[verifier::rlimit(50)]
fn partition_registries<S: Subject>(
    group_registries: Vec<ProposalHandlingGroupRegistry>,
    subjects: &[S],
) -> (r: (
    Vec<ProposalHandlingGroupRegistry>,
    Vec<ProposalHandlingGroupRegistry>,
    Vec<ProposalHandlingGroupRegistry>,
))
    requires
        wf_all(group_registries@, subjects@),
    ensures
        ({
            let (o, b, a) = r;
            &&& wf_all(o@, subjects@) && wf_all(b@, subjects@) && wf_all(a@, subjects@)
            &&& forall|t: int| 0 <= t < o@.len() ==> (#[trigger] o@[t]).spec_overfull()
            &&& forall|t: int|
                0 <= t < b@.len() ==> (#[trigger] b@[t]).members().len() >= b@[t].cap() && !b@[
                    t
                ].spec_overfull()
            &&& forall|t: int|
                0 <= t < a@.len() ==> (#[trigger] a@[t]).members().len() < a@[t].cap()
            &&& forall|x: usize|
                #![trigger phr_members(o@).count(x)]
                phr_members(o@).count(x) + phr_members(b@).count(x) + phr_members(a@).count(x)
                    == phr_members(group_registries@).count(x)
            &&& forall|pr: (u64, i32)|
                #![trigger phr_pairs(o@).count(pr)]
                phr_pairs(o@).count(pr) + phr_pairs(b@).count(pr) + phr_pairs(a@).count(pr)
                    == phr_pairs(group_registries@).count(pr)
            &&& phr_lens(o@) + phr_lens(b@) + phr_lens(a@) == phr_lens(group_registries@)
            &&& phr_caps(o@) + phr_caps(b@) + phr_caps(a@) == phr_caps(group_registries@)
            &&& registries_model(o@) == part_overfull(registries_model(group_registries@))
            &&& registries_model(b@) == part_exactly_full(registries_model(group_registries@))
            &&& registries_model(a@) == part_available(registries_model(group_registries@))
        }),
{
    let ghost u0 = group_registries@;
    let ghost m0 = registries_model(group_registries@);
    let ghost mut consumed: int = 0;
    let mut group_registries = group_registries;
    let mut overfull: Vec<ProposalHandlingGroupRegistry> = Vec::new();
    let mut bystanders: Vec<ProposalHandlingGroupRegistry> = Vec::new();
    let mut available: Vec<ProposalHandlingGroupRegistry> = Vec::new();
    while group_registries.len() > 0
        invariant
            wf_all(group_registries@, subjects@),
            wf_all(overfull@, subjects@),
            wf_all(bystanders@, subjects@),
            wf_all(available@, subjects@),
            forall|t: int| 0 <= t < overfull@.len() ==> (#[trigger] overfull@[t]).spec_overfull(),
            forall|t: int|
                0 <= t < bystanders@.len() ==> (#[trigger] bystanders@[t]).members().len()
                    >= bystanders@[t].cap() && !bystanders@[t].spec_overfull(),
            forall|t: int|
                0 <= t < available@.len() ==> (#[trigger] available@[t]).members().len()
                    < available@[t].cap(),
            forall|x: usize|
                #![trigger phr_members(group_registries@).count(x)]
                phr_members(overfull@).count(x) + phr_members(bystanders@).count(x) + phr_members(
                    available@,
                ).count(x) + phr_members(group_registries@).count(x) == phr_members(u0).count(x),
            forall|pr: (u64, i32)|
                #![trigger phr_pairs(group_registries@).count(pr)]
                phr_pairs(overfull@).count(pr) + phr_pairs(bystanders@).count(pr) + phr_pairs(
                    available@,
                ).count(pr) + phr_pairs(group_registries@).count(pr) == phr_pairs(u0).count(pr),
            phr_lens(overfull@) + phr_lens(bystanders@) + phr_lens(available@) + phr_lens(
                group_registries@,
            ) == phr_lens(u0),
            phr_caps(overfull@) + phr_caps(bystanders@) + phr_caps(available@) + phr_caps(
                group_registries@,
            ) == phr_caps(u0),
            m0 == registries_model(u0),
            0 <= consumed <= u0.len(),
            group_registries@ == u0.skip(consumed),
            registries_model(overfull@) == part_overfull(m0.take(consumed)),
            registries_model(bystanders@) == part_exactly_full(m0.take(consumed)),
            registries_model(available@) == part_available(m0.take(consumed)),
        decreases group_registries@.len(),
    {
        let ghost upre = group_registries@;
        let ghost o_pre = overfull@;
        let ghost b_pre = bystanders@;
        let ghost a_pre = available@;
        let reg = group_registries.remove(0);
        proof {
            lemma_seq_msum_drop_first(upre, members_fn());
            lemma_seq_msum_drop_first(upre, pair_fn());
            lemma_seq_sum_drop_first(upre, len_fn());
            lemma_seq_sum_drop_first(upre, cap_fn());
            assert(group_registries@ =~= upre.drop_first());
            assert(reg == upre[0]);
            assert(reg == u0[consumed]);
            assert(u0.skip(consumed).drop_first() =~= u0.skip(consumed + 1));
            assert(m0.take(consumed + 1).drop_last() =~= m0.take(consumed));
            assert(m0.take(consumed + 1).last() == registry_model(u0[consumed]));
        }
        let is_full = reg.full();
        let is_overfull = reg.overfull();
        if is_overfull {
            proof {
                lemma_seq_msum_push(overfull@, members_fn(), reg);
                lemma_seq_msum_push(overfull@, pair_fn(), reg);
                lemma_seq_sum_push(overfull@, len_fn(), reg);
                lemma_seq_sum_push(overfull@, cap_fn(), reg);
            }
            overfull.push(reg);
        } else if is_full {
            proof {
                lemma_seq_msum_push(bystanders@, members_fn(), reg);
                lemma_seq_msum_push(bystanders@, pair_fn(), reg);
                lemma_seq_sum_push(bystanders@, len_fn(), reg);
                lemma_seq_sum_push(bystanders@, cap_fn(), reg);
            }
            bystanders.push(reg);
        } else {
            proof {
                lemma_seq_msum_push(available@, members_fn(), reg);
                lemma_seq_msum_push(available@, pair_fn(), reg);
                lemma_seq_sum_push(available@, len_fn(), reg);
                lemma_seq_sum_push(available@, cap_fn(), reg);
            }
            available.push(reg);
        }
        proof {
            assert forall|x: usize|
                #![trigger phr_members(group_registries@).count(x)]
                phr_members(overfull@).count(x) + phr_members(bystanders@).count(x) + phr_members(
                    available@,
                ).count(x) + phr_members(group_registries@).count(x) == phr_members(u0).count(
                x,
            ) by {
                assert(phr_members(upre).count(x) == members_fn()(upre[0]).count(x) + phr_members(
                    upre.drop_first(),
                ).count(x));
                assert(phr_members(o_pre).count(x) + phr_members(b_pre).count(x) + phr_members(
                    a_pre,
                ).count(x) + phr_members(upre).count(x) == phr_members(u0).count(x));
            }
            assert forall|pr: (u64, i32)|
                #![trigger phr_pairs(group_registries@).count(pr)]
                phr_pairs(overfull@).count(pr) + phr_pairs(bystanders@).count(pr) + phr_pairs(
                    available@,
                ).count(pr) + phr_pairs(group_registries@).count(pr) == phr_pairs(u0).count(
                pr,
            ) by {
                assert(phr_pairs(upre).count(pr) == pair_fn()(upre[0]).count(pr) + phr_pairs(
                    upre.drop_first(),
                ).count(pr));
                assert(phr_pairs(o_pre).count(pr) + phr_pairs(b_pre).count(pr) + phr_pairs(
                    a_pre,
                ).count(pr) + phr_pairs(upre).count(pr) == phr_pairs(u0).count(pr));
            }
            assert(registries_model(overfull@) =~= if model_overfull(registry_model(reg)) {
                registries_model(o_pre).push(registry_model(reg))
            } else {
                registries_model(o_pre)
            });
            assert(registries_model(bystanders@) =~= if model_full(registry_model(reg))
                && !model_overfull(registry_model(reg)) {
                registries_model(b_pre).push(registry_model(reg))
            } else {
                registries_model(b_pre)
            });
            assert(registries_model(available@) =~= if !model_full(registry_model(reg)) {
                registries_model(a_pre).push(registry_model(reg))
            } else {
                registries_model(a_pre)
            });
            consumed = consumed + 1;
        }
    }
    proof {
        assert(u0.skip(consumed) =~= group_registries@);
        assert(consumed == u0.len());
        assert(m0.take(consumed) =~= m0);
        assert(phr_lens(group_registries@) == 0);
        assert(phr_caps(group_registries@) == 0);
        assert forall|x: usize|
            #![trigger phr_members(overfull@).count(x)]
            phr_members(overfull@).count(x) + phr_members(bystanders@).count(x) + phr_members(
                available@,
            ).count(x) == phr_members(u0).count(x) by {
            assert(phr_members(group_registries@).count(x) == 0);
        }
        assert forall|pr: (u64, i32)|
            #![trigger phr_pairs(overfull@).count(pr)]
            phr_pairs(overfull@).count(pr) + phr_pairs(bystanders@).count(pr) + phr_pairs(
                available@,
            ).count(pr) == phr_pairs(u0).count(pr) by {
            assert(phr_pairs(group_registries@).count(pr) == 0);
        }
    }
    (overfull, bystanders, available)
}

/// What propose-and-reject guarantees of a returned assignment:
/// - the group map has exactly the group ids as keys, and no group's
///   member list is longer than its capacity;
/// - the subject map has exactly the subject ids as keys, every subject
///   appears in exactly one position of one group's member list, and the
///   subject map sends it to that group's id.
pub open spec fn pnr_assignment_ok<S: Subject, G: Group>(
    a: Assignment,
    subjects: Seq<S>,
    groups: Seq<G>,
) -> bool {
    &&& forall|j: int|
        0 <= j < groups.len() ==> a.spec_groups_map().contains_key(
            (#[trigger] groups[j]).spec_id(),
        ) && a.spec_groups_map()[groups[j].spec_id()].len() <= groups[j].spec_capacity()
    &&& forall|k: u64|
        a.spec_groups_map().contains_key(k) ==> exists|j: int|
            0 <= j < groups.len() && (#[trigger] groups[j]).spec_id() == k
    &&& forall|i: int|
        0 <= i < subjects.len() ==> a.spec_subjects_map().contains_key(
            (#[trigger] subjects[i]).spec_id(),
        )
    &&& forall|k: u64|
        a.spec_subjects_map().contains_key(k) ==> exists|i: int|
            0 <= i < subjects.len() && (#[trigger] subjects[i]).spec_id() == k
    &&& forall|k: u64|
        #![trigger a.spec_subjects_map().contains_key(k)]
        a.spec_subjects_map().contains_key(k) ==> exists|j: int, p: int|
            #![trigger a.spec_groups_map()[groups[j].spec_id()][p]]
            0 <= j < groups.len() && 0 <= p < a.spec_groups_map()[groups[j].spec_id()].len()
                && a.spec_groups_map()[groups[j].spec_id()][p] == k
    &&& forall|j: int, p: int|
        #![trigger a.spec_groups_map()[groups[j].spec_id()][p]]
        0 <= j < groups.len() && 0 <= p < a.spec_groups_map()[groups[j].spec_id()].len()
            ==> a.spec_subjects_map().contains_key(a.spec_groups_map()[groups[j].spec_id()][p])
            && a.spec_subjects_map()[a.spec_groups_map()[groups[j].spec_id()][p]]
            == groups[j].spec_id()
    &&& forall|j1: int, p1: int, j2: int, p2: int|
        #![trigger a.spec_groups_map()[groups[j1].spec_id()][p1], a.spec_groups_map()[groups[j2].spec_id()][p2]]
        0 <= j1 < groups.len() && 0 <= p1 < a.spec_groups_map()[groups[j1].spec_id()].len() && 0
            <= j2 < groups.len() && 0 <= p2 < a.spec_groups_map()[groups[j2].spec_id()].len()
            && a.spec_groups_map()[groups[j1].spec_id()][p1] == a.spec_groups_map()[groups[j2].spec_id()][p2]
            ==> j1 == j2 && p1 == p2
}

/// Simple registries that carry the same ids, capacities and member
/// sequences as the given proposal handling registries hold the same
/// member multiset.
proof fn lemma_resolved_members(
    resolved: Seq<SimpleGroupRegistry>,
    combined: Seq<ProposalHandlingGroupRegistry>,
)
    requires
        resolved.len() == combined.len(),
        forall|t: int|
            0 <= t < resolved.len() ==> (#[trigger] resolved[t]).subjects@ == combined[
                t
            ].members(),
    ensures
        forall|x: usize|
            #![trigger all_members(resolved).count(x)]
            all_members(resolved).count(x) == phr_members(combined).count(x),
    decreases resolved.len(),
{
    if resolved.len() > 0 {
        lemma_resolved_members(resolved.drop_last(), combined.drop_last());
        assert forall|x: usize|
            all_members(resolved).count(x) == phr_members(combined).count(x) by {
            assert(all_members(resolved).count(x) == all_members(resolved.drop_last()).count(x)
                + resolved.last().subjects@.to_multiset().count(x));
            assert(phr_members(combined).count(x) == phr_members(combined.drop_last()).count(x)
                + members_fn()(combined.last()).count(x));
            assert(resolved.last().subjects@ == combined.last().members());
        }
    }
}

/// Assigns in a manner inspired by the Gale-Shapley algorithm.
///
/// First all subjects are assigned to the group of their first choice,
/// regardless of capacity. Then a group that is proposed to will say no
/// if it is full and all its current members are at least equally
/// satisfied with their assignment compared to the subject it is
/// proposed to accept; otherwise the group accepts the new subject, but
/// if it is already at full capacity it must first discard its most
/// dissatisfied member and return it to the least-dissatisfying group
/// regardless of capacity constraints. This propose and reject process
/// continues until there are no more overfull groups.
pub struct ProposeAndReject {}

impl Assigner for ProposeAndReject {
    #[verifier::rlimit(100)]
    fn assign<S: Subject, G: Group>(subjects: &[S], groups: &[G]) -> (r: Result<
        Assignment,
        TotalCapacityError,
    >)
        ensures
            r is Ok ==> pnr_assignment_ok(r->Ok_0, subjects@, groups@),
            r is Ok ==> pnr_model_ok(r->Ok_0, subjects@, groups@),
    {
        match Self::sufficient_capacity(subjects, groups) {
            Err(e) => {
                return Err(e);
            },
            Ok(()) => {},
        }
        let group_registries = first_step(subjects, groups);
        proof {
            lemma_regs_pairs_match(group_registries@, groups@);
        }
        let partitioned = partition_registries(group_registries, subjects);
        let mut overfull = partitioned.0;
        let mut bystanders = partitioned.1;
        let mut available = partitioned.2;
        let ghost mut rounds: nat = 0;
        proof {
            assert(pnr_state_model(subjects@, groups@, 0) == (
                registries_model(overfull@),
                registries_model(bystanders@),
                registries_model(available@),
            ));
        }
        while overfull.len() > 0
            invariant
                pnr_state_ok(subjects@, groups@, overfull@, bystanders@, available@),
                spec_sum_capacities(groups@) >= subjects@.len(),
                forall|j: int|
                    0 <= j < groups@.len() ==> (#[trigger] groups@[j]).spec_capacity() >= 0,
                (
                    registries_model(overfull@),
                    registries_model(bystanders@),
                    registries_model(available@),
                ) == pnr_state_model(subjects@, groups@, rounds),
                forall|k2: nat|
                    k2 < rounds ==> (#[trigger] pnr_state_model(subjects@, groups@, k2)).0.len()
                        > 0,
            decreases (phr_lens(overfull@) + phr_lens(bystanders@) - phr_caps(overfull@)
                - phr_caps(bystanders@)), phr_potential(subjects@, available@),
        {
            let ghost o0 = overfull@;
            let ghost b0 = bystanders@;
            let ghost a0 = available@;
            proof {
                assert forall|t: int|
                    0 <= t < o0.len() implies (#[trigger] o0[t]).spec_overfull() && o0[t].cap()
                    >= 0 by {
                    lemma_cap_from_pairs(subjects@, groups@, o0, b0, a0, t, 0);
                }
                assert forall|t: int|
                    0 <= t < b0.len() implies (#[trigger] b0[t]).members().len() >= b0[t].cap()
                    && b0[t].cap() >= 0 by {
                    lemma_cap_from_pairs(subjects@, groups@, o0, b0, a0, t, 1);
                }
            }
            let round = proposal_round(overfull, bystanders, available, subjects);
            overfull = round.0;
            bystanders = round.1;
            available = round.2;
            proof {
                assert forall|x: usize|
                    #![trigger phr_members(overfull@).count(x), phr_members(bystanders@).count(x), phr_members(available@).count(x)]
                    phr_members(overfull@).count(x) + phr_members(bystanders@).count(x)
                        + phr_members(available@).count(x) == if (x as int) < subjects@.len() {
                        1int
                    } else {
                        0int
                    } by {
                    assert(phr_members(overfull@).count(x) + phr_members(bystanders@).count(x)
                        + phr_members(available@).count(x) == phr_members(o0).count(x)
                        + phr_members(b0).count(x) + phr_members(a0).count(x));
                    assert(phr_members(o0).count(x) + phr_members(b0).count(x) + phr_members(
                        a0,
                    ).count(x) == if (x as int) < subjects@.len() {
                        1int
                    } else {
                        0int
                    });
                }
                assert forall|pr: (u64, i32)|
                    #![trigger group_pairs(groups@).count(pr)]
                    phr_pairs(overfull@).count(pr) + phr_pairs(bystanders@).count(pr) + phr_pairs(
                        available@,
                    ).count(pr) == group_pairs(groups@).count(pr) by {
                    assert(phr_pairs(overfull@).count(pr) + phr_pairs(bystanders@).count(pr)
                        == phr_pairs(o0).count(pr) + phr_pairs(b0).count(pr));
                    assert(phr_pairs(available@).count(pr) == phr_pairs(a0).count(pr));
                    assert(phr_pairs(o0).count(pr) + phr_pairs(b0).count(pr) + phr_pairs(
                        a0,
                    ).count(pr) == group_pairs(groups@).count(pr));
                }
                // the measure: the excess of the merged registries stays
                // non-negative and the pair strictly shrinks
                assert(phr_lens(o0) + phr_lens(b0) - phr_caps(o0) - phr_caps(b0) >= 0) by {
                    lemma_phr_excess(o0);
                    lemma_phr_excess(b0);
                    assert forall|t: int|
                        0 <= t < o0.len() implies excess_fn()(#[trigger] o0[t]) >= 0 by {}
                    assert forall|t: int|
                        0 <= t < b0.len() implies excess_fn()(#[trigger] b0[t]) >= 0 by {}
                    lemma_seq_sum_nonneg(o0, excess_fn());
                    lemma_seq_sum_nonneg(b0, excess_fn());
                }
                assert(phr_lens(overfull@) + phr_lens(bystanders@) - phr_caps(overfull@)
                    - phr_caps(bystanders@) >= 0) by {
                    lemma_phr_excess(overfull@);
                    lemma_phr_excess(bystanders@);
                    assert forall|t: int|
                        0 <= t < overfull@.len() implies excess_fn()(
                        #[trigger] overfull@[t],
                    ) >= 0 by {}
                    assert forall|t: int|
                        0 <= t < bystanders@.len() implies excess_fn()(
                        #[trigger] bystanders@[t],
                    ) >= 0 by {}
                    lemma_seq_sum_nonneg(overfull@, excess_fn());
                    lemma_seq_sum_nonneg(bystanders@, excess_fn());
                }
                assert(phr_potential(subjects@, a0) >= 0) by {
                    assert forall|t: int|
                        0 <= t < a0.len() implies pot_fn(subjects@)(#[trigger] a0[t]) >= 0 by {
                        lemma_members_potential_nonneg(subjects@, a0[t].members(), a0[t].gid());
                    }
                    lemma_seq_sum_nonneg(a0, pot_fn(subjects@));
                }
                assert(phr_potential(subjects@, available@) >= 0) by {
                    assert forall|t: int|
                        0 <= t < available@.len() implies pot_fn(subjects@)(
                        #[trigger] available@[t],
                    ) >= 0 by {
                        lemma_members_potential_nonneg(
                            subjects@,
                            available@[t].members(),
                            available@[t].gid(),
                        );
                    }
                    lemma_seq_sum_nonneg(available@, pot_fn(subjects@));
                }
                // one model round has been taken
                assert(registries_model(o0).len() == o0.len());
                assert(pnr_state_model(subjects@, groups@, rounds).0.len() > 0);
                rounds = rounds + 1;
                assert(pnr_state_model(subjects@, groups@, rounds) == (
                    registries_model(overfull@),
                    registries_model(bystanders@),
                    registries_model(available@),
                )) by {
                    assert(pnr_state_model(subjects@, groups@, (rounds - 1) as nat) == (
                        registries_model(o0),
                        registries_model(b0),
                        registries_model(a0),
                    ));
                }
            }
        }
        proof {
            assert(overfull@ =~= Seq::<ProposalHandlingGroupRegistry>::empty());
        }
        let ghost a_vec = available@;
        let ghost b_vec = bystanders@;
        let a = fold_resolved_registries(available, bystanders, subjects, groups);
        proof {
            let st = pnr_state_model(subjects@, groups@, rounds);
            assert(st.0.len() == 0) by {
                assert(registries_model(overfull@).len() == overfull@.len());
            }
            assert(st.2 + st.1 =~= registries_model(a_vec + b_vec)) by {
                assert(st.2 == registries_model(a_vec));
                assert(st.1 == registries_model(b_vec));
            }
            assert forall|t: int|
                0 <= t < (st.2 + st.1).len() implies a.spec_groups_map().contains_key(
                (#[trigger] (st.2 + st.1)[t]).0,
            ) && a.spec_groups_map()[(st.2 + st.1)[t].0] == member_ids(
                (st.2 + st.1)[t].2,
                subjects@,
            ) by {
                assert((st.2 + st.1)[t] == registry_model((a_vec + b_vec)[t]));
                assert(a.spec_groups_map().contains_key((a_vec + b_vec)[t].gid()));
                assert(a.spec_groups_map()[(a_vec + b_vec)[t].gid()] == member_ids(
                    (a_vec + b_vec)[t].members(),
                    subjects@,
                ));
            }
            assert(pnr_model_ok(a, subjects@, groups@));
        }
        Ok(a)
    }
}


/// Extracts the underlying simple registries of the available registries
/// followed by the bystander registries, in order.
fn delegates_of(
    available: Vec<ProposalHandlingGroupRegistry>,
    bystanders: Vec<ProposalHandlingGroupRegistry>,
) -> (r: Vec<SimpleGroupRegistry>)
    ensures
        r@.len() == available@.len() + bystanders@.len(),
        forall|t: int|
            0 <= t < r@.len() ==> (#[trigger] r@[t]).group_id == (available@ + bystanders@)[
                t
            ].gid() && r@[t].capacity == (available@ + bystanders@)[t].cap() && r@[t].subjects@
                == (available@ + bystanders@)[t].members(),
{
    let ghost combined = available@ + bystanders@;
    let ghost a_final = available@;
    let ghost b_final = bystanders@;
    let mut available = available;
    let mut bystanders = bystanders;
    let mut resolved: Vec<SimpleGroupRegistry> = Vec::new();
        while available.len() > 0
            invariant
                a_final + bystanders@ == combined,
                bystanders@ == b_final,
                available@ =~= a_final.skip(resolved@.len() as int),
                resolved@.len() + available@.len() == a_final.len(),
                forall|t: int|
                    0 <= t < resolved@.len() ==> (#[trigger] resolved@[t]).group_id == combined[
                        t
                    ].gid() && resolved@[t].capacity == combined[t].cap() && resolved@[t].subjects@
                        == combined[t].members(),
            decreases available@.len(),
        {
            let ghost apre = available@;
            let reg = available.remove(0);
            proof {
                assert(available@ =~= apre.drop_first());
                assert(a_final.skip(resolved@.len() as int).drop_first() =~= a_final.skip(
                    resolved@.len() as int + 1,
                ));
                assert(reg == combined[resolved@.len() as int]);
            }
            resolved.push(reg.delegate);
        }
        while bystanders.len() > 0
            invariant
                a_final + b_final == combined,
                a_final.len() <= resolved@.len(),
                bystanders@ =~= b_final.skip(resolved@.len() - a_final.len()),
                resolved@.len() + bystanders@.len() == combined.len(),
                forall|t: int|
                    0 <= t < resolved@.len() ==> (#[trigger] resolved@[t]).group_id == combined[
                        t
                    ].gid() && resolved@[t].capacity == combined[t].cap() && resolved@[t].subjects@
                        == combined[t].members(),
            decreases bystanders@.len(),
        {
            let ghost bpre = bystanders@;
            let reg = bystanders.remove(0);
            proof {
                assert(bystanders@ =~= bpre.drop_first());
                assert(b_final.skip(resolved@.len() as int - a_final.len() as int).drop_first()
                    =~= b_final.skip(resolved@.len() as int - a_final.len() as int + 1));
                assert(reg == b_final[resolved@.len() - a_final.len()]);
                assert(reg == combined[resolved@.len() as int]);
            }
            resolved.push(reg.delegate);
        }
    resolved
}

/// The folded assignment of the resolved registries satisfies the
/// propose-and-reject guarantees.
#[verifier::rlimit(100)]
proof fn lemma_folded_assignment_ok<S: Subject, G: Group>(
    a: Assignment,
    subjects: Seq<S>,
    groups: Seq<G>,
    combined: Seq<ProposalHandlingGroupRegistry>,
    rs: Seq<SimpleGroupRegistry>,
)
    requires
        subjects.len() <= usize::MAX,
        distinct_subject_ids(subjects),
        distinct_group_ids(groups),
        rs.len() == combined.len(),
        forall|t: int|
            0 <= t < rs.len() ==> (#[trigger] rs[t]).group_id == combined[t].gid() && rs[t].capacity
                == combined[t].cap() && rs[t].subjects@ == combined[t].members(),
        forall|t: int|
            0 <= t < combined.len() ==> (#[trigger] combined[t]).members().len() <= combined[
                t
            ].cap(),
        forall|x: usize|
            #![trigger phr_members(combined).count(x)]
            phr_members(combined).count(x) == if (x as int) < subjects.len() {
                1int
            } else {
                0int
            },
        forall|pr: (u64, i32)|
            #![trigger group_pairs(groups).count(pr)]
            phr_pairs(combined).count(pr) == group_pairs(groups).count(pr),
        forall|x: usize|
            #![trigger all_members(rs).count(x)]
            all_members(rs).count(x) == phr_members(combined).count(x),
        folded_groups_ok(a, rs, subjects),
        folded_subjects_ok(a, rs, subjects),
    ensures
        pnr_assignment_ok(a, subjects, groups),
{

            // every group id is carried by exactly one registry
            assert forall|j: int|
                0 <= j < groups.len() implies a.spec_groups_map().contains_key(
                (#[trigger] groups[j]).spec_id(),
            ) && a.spec_groups_map()[groups[j].spec_id()].len() <= groups[j].spec_capacity() by {
                let t = lemma_registry_for_group(combined, groups, j);
                assert(rs[t].group_id == groups[j].spec_id());
                assert(a.spec_groups_map().contains_key(rs[t].group_id));
                assert(a.spec_groups_map()[rs[t].group_id] == member_ids(
                    rs[t].subjects@,
                    subjects,
                ));
            }
            assert forall|k: u64| a.spec_groups_map().contains_key(k) implies exists|j: int|
                0 <= j < groups.len() && (#[trigger] groups[j]).spec_id() == k by {
                let t = choose|t: int| 0 <= t < rs.len() && (#[trigger] rs[t]).group_id == k;
                lemma_seq_msum_member(combined, pair_fn(), t, (combined[t].gid(), combined[t].cap()));
                assert(pair_fn()(combined[t]).count((combined[t].gid(), combined[t].cap())) == 1);
                assert(group_pairs(groups).count((combined[t].gid(), combined[t].cap()))
                    == phr_pairs(combined).count((combined[t].gid(), combined[t].cap())));
                lemma_seq_msum_contains(
                    groups,
                    group_pair_fn::<G>(),
                    (combined[t].gid(), combined[t].cap()),
                );
                let j = choose|j: int|
                    0 <= j < groups.len() && group_pair_fn::<G>()(#[trigger] groups[j]).count(
                        (combined[t].gid(), combined[t].cap()),
                    ) > 0;
                assert(groups[j].spec_id() == k);
            }
            assert forall|i: int|
                0 <= i < subjects.len() implies a.spec_subjects_map().contains_key(
                (#[trigger] subjects[i]).spec_id(),
            ) by {
                let x = i as usize;
                assert(all_members(rs).count(x) == phr_members(combined).count(x));
                assert(phr_members(combined).count(x) == 1);
                lemma_all_members_contains(rs, x);
                let (tt, pp) = choose|tt: int, pp: int|
                    0 <= tt < rs.len() && 0 <= pp < rs[tt].subjects@.len() && rs[tt].subjects@[pp]
                        == x;
                assert(a.spec_subjects_map().contains_key(
                    subjects[rs[tt].subjects@[pp] as int].spec_id(),
                ));
            }
            assert forall|k: u64| a.spec_subjects_map().contains_key(k) implies exists|i: int|
                0 <= i < subjects.len() && (#[trigger] subjects[i]).spec_id() == k by {
                let (tt, pp) = choose|tt: int, pp: int|
                    0 <= tt < rs.len() && 0 <= pp < rs[tt].subjects@.len() && subjects[(
                    #[trigger] rs[tt].subjects@[pp]) as int].spec_id() == k;
                let x = rs[tt].subjects@[pp];
                lemma_all_members_contains(rs, x);
                assert(all_members(rs).count(x) > 0);
                assert((x as int) < subjects.len());
                let i = x as int;
                assert(0 <= i < subjects.len() && subjects[i].spec_id() == k);
            }
            assert forall|k: u64|
                #![trigger a.spec_subjects_map().contains_key(k)]
                a.spec_subjects_map().contains_key(k) implies exists|j: int, p: int|
                #![trigger a.spec_groups_map()[groups[j].spec_id()][p]]
                0 <= j < groups.len() && 0 <= p < a.spec_groups_map()[groups[j].spec_id()].len()
                    && a.spec_groups_map()[groups[j].spec_id()][p] == k by {
                let (tt, pp) = choose|tt: int, pp: int|
                    0 <= tt < rs.len() && 0 <= pp < rs[tt].subjects@.len() && subjects[(
                    #[trigger] rs[tt].subjects@[pp]) as int].spec_id() == k;
                let j = lemma_group_for_registry(combined, groups, tt);
                assert(a.spec_groups_map()[groups[j].spec_id()] == member_ids(
                    rs[tt].subjects@,
                    subjects,
                ));
                assert(a.spec_groups_map()[groups[j].spec_id()][pp] == k);
            }
            assert forall|j: int, p: int|
                #![trigger a.spec_groups_map()[groups[j].spec_id()][p]]
                0 <= j < groups.len() && 0 <= p < a.spec_groups_map()[groups[j].spec_id()].len()
                    implies a.spec_subjects_map().contains_key(
                a.spec_groups_map()[groups[j].spec_id()][p],
            ) && a.spec_subjects_map()[a.spec_groups_map()[groups[j].spec_id()][p]]
                == groups[j].spec_id() by {
                let t = lemma_registry_for_group(combined, groups, j);
                assert(a.spec_groups_map()[groups[j].spec_id()] == member_ids(
                    rs[t].subjects@,
                    subjects,
                ));
                assert(a.spec_subjects_map().contains_key(
                    subjects[rs[t].subjects@[p] as int].spec_id(),
                ));
            }
            assert forall|j1: int, p1: int, j2: int, p2: int|
                #![trigger a.spec_groups_map()[groups[j1].spec_id()][p1], a.spec_groups_map()[groups[j2].spec_id()][p2]]
                0 <= j1 < groups.len() && 0 <= p1 < a.spec_groups_map()[groups[j1].spec_id()].len()
                    && 0 <= j2 < groups.len() && 0 <= p2 < a.spec_groups_map()[groups[j2].spec_id()].len()
                    && a.spec_groups_map()[groups[j1].spec_id()][p1] == a.spec_groups_map()[groups[j2].spec_id()][p2]
                    implies j1 == j2 && p1 == p2 by {
                let t1 = lemma_registry_for_group(combined, groups, j1);
                let t2 = lemma_registry_for_group(combined, groups, j2);
                assert(a.spec_groups_map()[groups[j1].spec_id()] == member_ids(
                    rs[t1].subjects@,
                    subjects,
                ));
                assert(a.spec_groups_map()[groups[j2].spec_id()] == member_ids(
                    rs[t2].subjects@,
                    subjects,
                ));
                let m1 = rs[t1].subjects@[p1];
                let m2 = rs[t2].subjects@[p2];
                lemma_all_members_contains(rs, m1);
                lemma_all_members_contains(rs, m2);
                assert(all_members(rs).count(m1) > 0);
                assert(all_members(rs).count(m2) > 0);
                assert((m1 as int) < subjects.len() && (m2 as int) < subjects.len());
                assert(subjects[m1 as int].spec_id() == subjects[m2 as int].spec_id());
                assert(m1 == m2) by {
                    if m1 != m2 {
                        assert(distinct_subject_ids(subjects));
                        if (m1 as int) < (m2 as int) {
                            assert(subjects[m1 as int].spec_id() != subjects[m2 as int].spec_id());
                        } else {
                            assert(subjects[m2 as int].spec_id() != subjects[m1 as int].spec_id());
                        }
                    }
                }
                lemma_all_members_unique(rs, t1, p1, t2, p2);
            }
}

/// Folds the final available and bystander registries into the returned
/// assignment, once no registry is overfull.
#[verifier::rlimit(100)]
fn fold_resolved_registries<S: Subject, G: Group>(
    available: Vec<ProposalHandlingGroupRegistry>,
    bystanders: Vec<ProposalHandlingGroupRegistry>,
    subjects: &[S],
    groups: &[G],
) -> (a: Assignment)
    requires
        distinct_subject_ids(subjects@),
        distinct_group_ids(groups@),
        pnr_state_ok(subjects@, groups@, Seq::empty(), bystanders@, available@),
    ensures
        pnr_assignment_ok(a, subjects@, groups@),
        forall|t: int|
            0 <= t < (available@ + bystanders@).len() ==> a.spec_groups_map().contains_key(
                (#[trigger] (available@ + bystanders@)[t]).gid(),
            ) && a.spec_groups_map()[(available@ + bystanders@)[t].gid()] == member_ids(
                (available@ + bystanders@)[t].members(),
                subjects@,
            ),
{
        let n = subjects.len();
        let ghost combined = available@ + bystanders@;
        let ghost a_final = available@;
        let ghost b_final = bystanders@;
        proof {
            lemma_seq_msum_concat(a_final, b_final, members_fn());
            lemma_seq_msum_concat(a_final, b_final, pair_fn());
            lemma_seq_sum_concat(a_final, b_final, len_fn());
            lemma_seq_sum_concat(a_final, b_final, cap_fn());
            lemma_group_pairs_le_one(groups@);
            assert(phr_members(Seq::<ProposalHandlingGroupRegistry>::empty()).count(0usize) == 0);
            assert forall|x: usize|
                #![trigger phr_members(combined).count(x)]
                phr_members(combined).count(x) == if (x as int) < subjects@.len() {
                    1int
                } else {
                    0int
                } by {
                assert(phr_members(Seq::<ProposalHandlingGroupRegistry>::empty()).count(x) == 0);
                assert(phr_members(combined).count(x) == phr_members(a_final).count(x)
                    + phr_members(b_final).count(x));
                assert(phr_members(Seq::<ProposalHandlingGroupRegistry>::empty()).count(x)
                    + phr_members(b_final).count(x) + phr_members(a_final).count(x) == if (
                x as int) < subjects@.len() {
                    1int
                } else {
                    0int
                });
            }
            assert forall|pr: (u64, i32)|
                #![trigger phr_pairs(combined).count(pr)]
                phr_pairs(combined).count(pr) == group_pairs(groups@).count(pr) by {
                assert(phr_pairs(Seq::<ProposalHandlingGroupRegistry>::empty()).count(pr) == 0);
                assert(phr_pairs(combined).count(pr) == phr_pairs(a_final).count(pr) + phr_pairs(
                    b_final,
                ).count(pr));
                assert(phr_pairs(Seq::<ProposalHandlingGroupRegistry>::empty()).count(pr)
                    + phr_pairs(b_final).count(pr) + phr_pairs(a_final).count(pr) == group_pairs(
                    groups@,
                ).count(pr));
            }
        }
        let resolved = delegates_of(available, bystanders);
        let ghost rs = resolved@;
        proof {
            lemma_resolved_members(rs, combined);
            // the registries carry pairwise distinct group ids
            assert forall|t1: int, t2: int|
                0 <= t1 < t2 < rs.len() implies (#[trigger] rs[t1]).group_id != (
            #[trigger] rs[t2]).group_id by {
                if rs[t1].group_id == rs[t2].group_id {
                    lemma_pair_same_gid(combined, groups@, t1, t2);
                }
            }
            assert forall|t: int|
                0 <= t < rs.len() implies valid_members((#[trigger] rs[t]).subjects@, subjects@)
                && rs[t].subjects@.len() <= rs[t].capacity by {
                if t < a_final.len() {
                    assert(combined[t] == a_final[t]);
                } else {
                    assert(combined[t] == b_final[t - a_final.len()]);
                }
            }
        }
        let a = assign_from_group_registries(resolved, subjects);
        proof {
            assert forall|t: int|
                0 <= t < combined.len() implies (#[trigger] combined[t]).members().len()
                <= combined[t].cap() by {
                if t < a_final.len() {
                    assert(combined[t] == a_final[t]);
                } else {
                    assert(combined[t] == b_final[t - a_final.len()]);
                }
            }
            assert forall|x: usize|
                #![trigger all_members(rs).count(x)]
                all_members(rs).count(x) == phr_members(combined).count(x) by {}
            lemma_folded_assignment_ok(a, subjects@, groups@, combined, rs);
            assert forall|t: int|
                0 <= t < combined.len() implies a.spec_groups_map().contains_key(
                (#[trigger] combined[t]).gid(),
            ) && a.spec_groups_map()[combined[t].gid()] == member_ids(
                combined[t].members(),
                subjects@,
            ) by {
                assert(rs[t].group_id == combined[t].gid());
                assert(rs[t].subjects@ == combined[t].members());
                assert(a.spec_groups_map().contains_key(rs[t].group_id));
                assert(a.spec_groups_map()[rs[t].group_id] == member_ids(
                    rs[t].subjects@,
                    subjects@,
                ));
            }
        }
        a
}


/// Extracts, for a registry position, the (unique) group whose id and
/// capacity it carries.
proof fn lemma_group_for_registry<G: Group>(
    combined: Seq<ProposalHandlingGroupRegistry>,
    groups: Seq<G>,
    t: int,
) -> (j: int)
    requires
        0 <= t < combined.len(),
        forall|pr: (u64, i32)|
            #![trigger group_pairs(groups).count(pr)]
            phr_pairs(combined).count(pr) == group_pairs(groups).count(pr),
    ensures
        0 <= j < groups.len(),
        groups[j].spec_id() == combined[t].gid(),
        groups[j].spec_capacity() == combined[t].cap(),
{
    let pr = (combined[t].gid(), combined[t].cap());
    lemma_seq_msum_member(combined, pair_fn(), t, pr);
    assert(pair_fn()(combined[t]).count(pr) == 1);
    assert(phr_pairs(combined).count(pr) >= 1);
    assert(group_pairs(groups).count(pr) == phr_pairs(combined).count(pr));
    lemma_seq_msum_contains(groups, group_pair_fn::<G>(), pr);
    let j = choose|j: int|
        0 <= j < groups.len() && group_pair_fn::<G>()(#[trigger] groups[j]).count(pr) > 0;
    j
}

/// Extracts, for a group, the (unique) registry position carrying its id
/// and capacity.
proof fn lemma_registry_for_group<G: Group>(
    combined: Seq<ProposalHandlingGroupRegistry>,
    groups: Seq<G>,
    j: int,
) -> (t: int)
    requires
        0 <= j < groups.len(),
        forall|pr: (u64, i32)|
            #![trigger group_pairs(groups).count(pr)]
            phr_pairs(combined).count(pr) == group_pairs(groups).count(pr),
    ensures
        0 <= t < combined.len(),
        combined[t].gid() == groups[j].spec_id(),
        combined[t].cap() == groups[j].spec_capacity(),
{
    let pr = (groups[j].spec_id(), groups[j].spec_capacity());
    lemma_seq_msum_member(groups, group_pair_fn::<G>(), j, pr);
    assert(group_pair_fn::<G>()(groups[j]).count(pr) == 1);
    assert(group_pairs(groups).count(pr) >= 1);
    assert(phr_pairs(combined).count(pr) == group_pairs(groups).count(pr));
    lemma_seq_msum_contains(combined, pair_fn(), pr);
    let t = choose|t: int| 0 <= t < combined.len() && pair_fn()(#[trigger] combined[t]).count(pr)
        > 0;
    t
}

/// Two registries carrying the same group id coincide, when the
/// registries' pairs are the groups' pairs and the groups' ids are
/// pairwise distinct.
proof fn lemma_pair_same_gid<G: Group>(
    combined: Seq<ProposalHandlingGroupRegistry>,
    groups: Seq<G>,
    t1: int,
    t2: int,
)
    requires
        distinct_group_ids(groups),
        0 <= t1 < combined.len(),
        0 <= t2 < combined.len(),
        combined[t1].gid() == combined[t2].gid(),
        forall|pr: (u64, i32)|
            #![trigger group_pairs(groups).count(pr)]
            phr_pairs(combined).count(pr) == group_pairs(groups).count(pr),
    ensures
        t1 == t2,
{
    if t1 != t2 {
        lemma_group_pairs_le_one(groups);
        let j1 = lemma_group_for_registry(combined, groups, t1);
        let j2 = lemma_group_for_registry(combined, groups, t2);
        assert(groups[j1].spec_id() == groups[j2].spec_id());
        assert(j1 == j2);
        assert(combined[t1].cap() == combined[t2].cap());
        let pr = (combined[t1].gid(), combined[t1].cap());
        assert(pair_fn()(combined[t1]).count(pr) > 0);
        assert(pair_fn()(combined[t2]).count(pr) > 0);
        assert(group_pairs(groups).count(pr) <= 1);
        assert(phr_pairs(combined).count(pr) == group_pairs(groups).count(pr));
        lemma_seq_msum_unique(combined, pair_fn(), pr, t1, t2);
    }
}

/// Every registry in the loop state carries some group's capacity, which
/// is non-negative. `which` selects the overfull (0), bystander (1) or
/// available set.
proof fn lemma_cap_from_pairs<S: Subject, G: Group>(
    subjects: Seq<S>,
    groups: Seq<G>,
    o: Seq<ProposalHandlingGroupRegistry>,
    b: Seq<ProposalHandlingGroupRegistry>,
    a: Seq<ProposalHandlingGroupRegistry>,
    t: int,
    which: int,
)
    requires
        pnr_state_ok(subjects, groups, o, b, a),
        forall|j: int| 0 <= j < groups.len() ==> (#[trigger] groups[j]).spec_capacity() >= 0,
        which == 0 ==> 0 <= t < o.len(),
        which == 1 ==> 0 <= t < b.len(),
        which == 0 || which == 1,
    ensures
        which == 0 ==> o[t].cap() >= 0,
        which == 1 ==> b[t].cap() >= 0,
{
    let reg = if which == 0 {
        o[t]
    } else {
        b[t]
    };
    let pr = (reg.gid(), reg.cap());
    if which == 0 {
        lemma_seq_msum_member(o, pair_fn(), t, pr);
    } else {
        lemma_seq_msum_member(b, pair_fn(), t, pr);
    }
    lemma_seq_msum_nonneg(o, pair_fn(), pr);
    lemma_seq_msum_nonneg(b, pair_fn(), pr);
    lemma_seq_msum_nonneg(a, pair_fn(), pr);
    assert(pair_fn()(reg).count(pr) == 1);
    assert(group_pairs(groups).count(pr) >= 1);
    lemma_seq_msum_contains(groups, group_pair_fn::<G>(), pr);
    let j = choose|j: int|
        0 <= j < groups.len() && group_pair_fn::<G>()(#[trigger] groups[j]).count(pr) > 0;
    assert(groups[j].spec_capacity() == reg.cap());
}

/// A freshly built claimed vector counts zero placed subjects.
proof fn lemma_seq_sum_all_zero_claims(c: Seq<bool>)
    requires
        forall|x: int| 0 <= x < c.len() ==> !c[x],
    ensures
        seq_sum(c, claim_fn()) == 0,
    decreases c.len(),
{
    if c.len() > 0 {
        lemma_seq_sum_all_zero_claims(c.drop_last());
    }
}

/// A fully claimed vector counts one placed subject per entry.
proof fn lemma_seq_sum_all_one_claims(c: Seq<bool>)
    requires
        forall|x: int| 0 <= x < c.len() ==> c[x],
    ensures
        seq_sum(c, claim_fn()) == c.len(),
{
    assert forall|t: int| 0 <= t < c.len() implies claim_fn()(#[trigger] c[t]) == 1 by {
        assert(c[t]);
    }
    lemma_seq_sum_all_one(c, claim_fn());
}

} // verus!
