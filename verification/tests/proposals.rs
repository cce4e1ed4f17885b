use group_assignment::MembershipOffer;
use group_assignment::ProposalHandlingGroupRegistry;
use group_assignment::TestGroup;
use group_assignment::TestSubject;
use group_assignment::TransferralOffer;

#[test]
fn propose_transferral_none() {
    let first_subject_id = 1_u64;
    let second_subject_id = 2_u64;
    let third_subject_id = 3_u64;
    let first_group_id = 101_u64;
    let second_group_id = 102_u64;
    let subjects = vec![
        TestSubject::new(first_subject_id, vec![second_group_id, first_group_id]),
        TestSubject::new(second_subject_id, vec![first_group_id, second_group_id]),
        TestSubject::new(third_subject_id, vec![second_group_id, first_group_id]),
    ];
    let first_group = TestGroup::new(first_group_id, 3);
    let first_group_registry = ProposalHandlingGroupRegistry::new(&first_group, vec![0, 1], &subjects);
    let second_group = TestGroup::new(second_group_id, 1);
    let second_group_registry =
        ProposalHandlingGroupRegistry::new(&second_group, vec![2], &subjects);
    let offer = first_group_registry.propose_transferral(&second_group_registry, &subjects);
    assert!(offer.is_none());
}

#[test]
fn mod_propose_transferral_none() {
    let subjects = vec![
        TestSubject::new(1, vec![102, 101]),
        TestSubject::new(2, vec![101, 102]),
        TestSubject::new(3, vec![102, 101]),
    ];
    let first_group = TestGroup::new(101, 3);
    let first_group_registry = ProposalHandlingGroupRegistry::new(&first_group, vec![0, 1], &subjects);
    let second_group = TestGroup::new(102, 1);
    let second_group_registry =
        ProposalHandlingGroupRegistry::new(&second_group, vec![2], &subjects);
    let offer = first_group_registry.propose_transferral(&second_group_registry, &subjects);
    assert!(offer.is_none());
}

#[test]
fn propose_transferral_subject_replacement() {
    let first_group_id = 101_u64;
    let second_group_id = 102_u64;
    let subjects = vec![
        TestSubject::new(1, vec![second_group_id, first_group_id]),
        TestSubject::new(2, vec![first_group_id, second_group_id]),
        TestSubject::new(3, vec![second_group_id, first_group_id]),
        TestSubject::new(4, vec![first_group_id, second_group_id]),
    ];
    let first_group = TestGroup::new(first_group_id, 2);
    let first_group_registry = ProposalHandlingGroupRegistry::new(&first_group, vec![0, 1], &subjects);
    let second_group = TestGroup::new(second_group_id, 2);
    let second_group_registry =
        ProposalHandlingGroupRegistry::new(&second_group, vec![2, 3], &subjects);
    let actual_offer =
        second_group_registry.propose_transferral(&first_group_registry, &subjects);
    let expected_offer = TransferralOffer::new(1, MembershipOffer::new(0, Some(-1)));
    assert_eq!(actual_offer.unwrap(), expected_offer);
}

#[test]
fn mod_propose_transferral_subject_replacement() {
    let subjects = vec![
        TestSubject::new(1, vec![102, 101]),
        TestSubject::new(2, vec![101, 102]),
        TestSubject::new(3, vec![102, 101]),
        TestSubject::new(4, vec![101, 102]),
    ];
    let first_group = TestGroup::new(101, 2);
    let first_group_registry = ProposalHandlingGroupRegistry::new(&first_group, vec![0, 1], &subjects);
    let second_group = TestGroup::new(102, 2);
    let second_group_registry =
        ProposalHandlingGroupRegistry::new(&second_group, vec![2, 3], &subjects);
    let actual_offer =
        second_group_registry.propose_transferral(&first_group_registry, &subjects);
    let expected_offer = TransferralOffer::new(1, MembershipOffer::new(0, Some(-1)));
    assert_eq!(actual_offer.unwrap(), expected_offer);
}

#[test]
fn propose_transferral_enough_space() {
    let first_group_id = 101_u64;
    let second_group_id = 102_u64;
    let subjects = vec![
        TestSubject::new(1, vec![second_group_id, first_group_id]),
        TestSubject::new(2, vec![first_group_id, second_group_id]),
        TestSubject::new(3, vec![second_group_id, first_group_id]),
        TestSubject::new(4, vec![second_group_id, first_group_id]),
    ];
    let first_group = TestGroup::new(first_group_id, 3);
    let first_group_registry = ProposalHandlingGroupRegistry::new(&first_group, vec![0, 1], &subjects);
    let second_group = TestGroup::new(second_group_id, 1);
    let second_group_registry =
        ProposalHandlingGroupRegistry::new(&second_group, vec![2, 3], &subjects);
    let offer = second_group_registry.propose_transferral(&first_group_registry, &subjects);
    let expected_offer = TransferralOffer::new(1, MembershipOffer::new(1, None));
    assert_eq!(offer.unwrap(), expected_offer);
}

#[test]
fn mod_propose_transferral_enough_space() {
    let subjects = vec![
        TestSubject::new(1, vec![102, 101]),
        TestSubject::new(2, vec![101, 102]),
        TestSubject::new(3, vec![102, 101]),
        TestSubject::new(4, vec![102, 101]),
    ];
    let first_group = TestGroup::new(101, 3);
    let first_group_registry = ProposalHandlingGroupRegistry::new(&first_group, vec![0, 1], &subjects);
    let second_group = TestGroup::new(102, 1);
    let second_group_registry =
        ProposalHandlingGroupRegistry::new(&second_group, vec![2, 3], &subjects);
    let offer = second_group_registry.propose_transferral(&first_group_registry, &subjects);
    let expected_offer = TransferralOffer::new(1, MembershipOffer::new(1, None));
    assert_eq!(offer.unwrap(), expected_offer);
}

#[test]
fn handle_membership_proposal_group_not_full() {
    let first_group_id = 101_u64;
    let second_group_id = 102_u64;
    let subjects = vec![
        TestSubject::new(1, vec![second_group_id, first_group_id]),
        TestSubject::new(2, vec![first_group_id, second_group_id]),
        TestSubject::new(3, vec![first_group_id, second_group_id]),
    ];
    let first_group = TestGroup::new(first_group_id, 3);
    let first_group_registry = ProposalHandlingGroupRegistry::new(&first_group, vec![0, 1], &subjects);
    let actual_offer =
        first_group_registry.handle_membership_proposal(&subjects, 2).unwrap();
    let offer = MembershipOffer::new(0, None);
    assert_eq!(offer, actual_offer);
}

#[test]
fn mod_handle_membership_proposal_group_not_full() {
    let subjects = vec![
        TestSubject::new(1, vec![102, 101]),
        TestSubject::new(2, vec![101, 102]),
        TestSubject::new(3, vec![101, 102]),
    ];
    let first_group = TestGroup::new(101, 3);
    let first_group_registry = ProposalHandlingGroupRegistry::new(&first_group, vec![0, 1], &subjects);
    let actual_offer =
        first_group_registry.handle_membership_proposal(&subjects, 2).unwrap();
    let offer = MembershipOffer::new(0, None);
    assert_eq!(offer, actual_offer);
}

#[test]
fn handle_membership_proposal_group_full() {
    let first_group_id = 101_u64;
    let second_group_id = 102_u64;
    let subjects = vec![
        TestSubject::new(1, vec![second_group_id, first_group_id]),
        TestSubject::new(2, vec![first_group_id, second_group_id]),
        TestSubject::new(3, vec![second_group_id, first_group_id]),
    ];
    let first_group = TestGroup::new(first_group_id, 1);
    let first_group_registry = ProposalHandlingGroupRegistry::new(&first_group, vec![0], &subjects);
    // the second subject wants to be in the first group more than the
    // first, so an offer is given
    let actual_offer =
        first_group_registry.handle_membership_proposal(&subjects, 1).unwrap();
    let expected_offer = MembershipOffer::new(0, Some(-1));
    assert_eq!(expected_offer, actual_offer);
    // the third subject does not want to be in the first group more than
    // the first, thus no offer is given
    let no_offer = first_group_registry.handle_membership_proposal(&subjects, 2).is_none();
    assert!(no_offer);
}

#[test]
fn mod_handle_membership_proposal_group_full() {
    let subjects = vec![
        TestSubject::new(1, vec![102, 101]),
        TestSubject::new(2, vec![101, 102]),
        TestSubject::new(3, vec![102, 101]),
    ];
    let first_group = TestGroup::new(101, 1);
    let first_group_registry = ProposalHandlingGroupRegistry::new(&first_group, vec![0], &subjects);
    let actual_offer =
        first_group_registry.handle_membership_proposal(&subjects, 1).unwrap();
    let expected_offer = MembershipOffer::new(0, Some(-1));
    assert_eq!(expected_offer, actual_offer);
    let no_offer = first_group_registry.handle_membership_proposal(&subjects, 2).is_none();
    assert!(no_offer);
}

#[test]
fn group_sorts_subjects_upon_creation() {
    let first_subject_id = 1_u64;
    let second_subject_id = 2_u64;
    let first_group_id = 101_u64;
    let second_group_id = 102_u64;
    let subjects = vec![
        TestSubject::new(first_subject_id, vec![second_group_id, first_group_id]),
        TestSubject::new(second_subject_id, vec![first_group_id, second_group_id]),
    ];
    let group = TestGroup::new(first_group_id, 2);
    let first_group = ProposalHandlingGroupRegistry::new(&group, vec![0, 1], &subjects);
    assert_eq!(1, first_group.highest_dissatisfaction());
}

#[test]
fn add_subject_group_not_full() {
    let subjects = vec![
        TestSubject::new(1, vec![102, 101]),
        TestSubject::new(2, vec![101, 102]),
    ];
    let group = TestGroup::new(101, 2);
    let mut first_group_proxy = ProposalHandlingGroupRegistry::new(&group, vec![0], &subjects);
    assert!(first_group_proxy.register_subject(&subjects, 1).is_ok());
}

#[test]
fn add_subject_group_is_full() {
    let subjects = vec![
        TestSubject::new(1, vec![102, 101]),
        TestSubject::new(2, vec![101, 102]),
    ];
    let group = TestGroup::new(101, 1);
    let mut first_group = ProposalHandlingGroupRegistry::new(&group, vec![0], &subjects);
    assert!(first_group.register_subject(&subjects, 1).is_err());
}

#[test]
fn ordering_asymmetry() {
    let no_misplacement = MembershipOffer::new(2, None);
    let with_misplacement = MembershipOffer::new(2, Some(4));
    assert!(no_misplacement < with_misplacement);
    assert!(!(with_misplacement < no_misplacement));
    assert!(!(no_misplacement == with_misplacement));
    // now the same for the ordering on transferral offers
    let transferral_offer_no_misplacement = TransferralOffer::new(1, no_misplacement);
    let transferral_offer_with_misplacement = TransferralOffer::new(2, with_misplacement);
    assert!(transferral_offer_no_misplacement < transferral_offer_with_misplacement);
    assert!(!(transferral_offer_with_misplacement < transferral_offer_no_misplacement));
    assert!(!(transferral_offer_no_misplacement == transferral_offer_with_misplacement));
}

#[test]
fn ordering_transitivity() {
    let no_misplacement = MembershipOffer::new(2, None);
    let with_misplacement = MembershipOffer::new(2, Some(-4));
    let with_most_misplacement = MembershipOffer::new(2, Some(-7));
    assert!(no_misplacement < with_most_misplacement);
    assert!(with_most_misplacement < with_misplacement);
    assert!(no_misplacement < with_misplacement);
    // now the same for the ordering on transferral offers
    let transferral_offer_no_misplacement = TransferralOffer::new(1, no_misplacement);
    let transferral_offer_with_misplacement = TransferralOffer::new(2, with_misplacement);
    let transferral_offer_with_most_misplacement = TransferralOffer::new(3, with_most_misplacement);
    assert!(transferral_offer_no_misplacement < transferral_offer_with_most_misplacement);
    assert!(transferral_offer_with_most_misplacement < transferral_offer_with_misplacement);
    assert!(transferral_offer_no_misplacement < transferral_offer_with_misplacement);
}

#[test]
fn ordering_equality() {
    let no_misplacement = MembershipOffer::new(2, None);
    let other_no_misplacement = MembershipOffer::new(2, None);
    let with_misplacement = MembershipOffer::new(2, Some(-4));
    let other_with_misplacement = MembershipOffer::new(2, Some(-4));
    assert_eq!(no_misplacement, other_no_misplacement);
    assert_eq!(with_misplacement, other_with_misplacement);
    // transferral offers with differing lookup keys still compare equal
    let transferral_offer_no_misplacement = TransferralOffer::new(1, no_misplacement);
    let other_transferral_no_misplacement = TransferralOffer::new(2, other_no_misplacement);
    assert_eq!(transferral_offer_no_misplacement, other_transferral_no_misplacement);
}
