use std::collections::HashMap;

use group_assignment::Assignment;
use group_assignment::DefaultGroup;
use group_assignment::DefaultSubject;
use group_assignment::Group;
use group_assignment::GroupMetaData;
use group_assignment::Subject;
use group_assignment::TestGroup;
use group_assignment::TestSubject;

#[test]
fn default_subject_dissatisfaction() {
    let id = 42_u64;
    let mut preferences: HashMap<u64, i32> = HashMap::new();
    preferences.insert(1, 0);
    preferences.insert(3, 2);
    let default_dissatisfaction = 1_i32;
    let subject = DefaultSubject::new(id, preferences, default_dissatisfaction);
    assert_eq!(id, subject.id());
    assert_eq!(0, subject.dissatisfaction(&1_u64));
    assert_eq!(2, subject.dissatisfaction(&3_u64));
    assert_eq!(1, subject.dissatisfaction(&1000_u64));
}

#[test]
fn test_subject_dissatisfaction_is_preference_rank() {
    let subject = TestSubject::new(7, vec![101, 102, 103]);
    assert_eq!(7, subject.id());
    assert_eq!(0, subject.dissatisfaction(&101));
    assert_eq!(1, subject.dissatisfaction(&102));
    assert_eq!(2, subject.dissatisfaction(&103));
    // a group missing from the preference list rates as the list's length
    assert_eq!(3, subject.dissatisfaction(&104));
}

#[test]
fn group_accessors() {
    let group = DefaultGroup::new(11, 5);
    assert_eq!(11, group.id());
    assert_eq!(5, group.capacity());
    let other = TestGroup::new(12, 0);
    assert_eq!(12, other.id());
    assert_eq!(0, other.capacity());
}

#[test]
fn group_metadata_tracks_membership() {
    let mut metadata = GroupMetaData::new(101, Vec::new(), 2);
    assert_eq!(101, metadata.id());
    assert_eq!(2, metadata.capacity());
    assert!(!metadata.full());
    assert!(metadata.add_subject_id(1).is_ok());
    assert!(metadata.add_subject_id(2).is_ok());
    assert!(metadata.full());
    // the group is full: adding a third subject id fails
    assert!(metadata.add_subject_id(3).is_err());
    assert_eq!(&vec![1_u64, 2], metadata.subject_ids());
}

#[test]
fn group_metadata_zero_capacity_is_full() {
    let mut metadata = GroupMetaData::new(7, Vec::new(), 0);
    assert!(metadata.full());
    let error = metadata.add_subject_id(1).unwrap_err();
    assert!(error.message().contains("Insufficient capacity"));
}

#[test]
fn assignment_maps_round_trip() {
    let mut subjects_map: HashMap<u64, u64> = HashMap::new();
    subjects_map.insert(1, 101);
    subjects_map.insert(2, 101);
    let mut groups_map: HashMap<u64, Vec<u64>> = HashMap::new();
    groups_map.insert(101, vec![1, 2]);
    let assignment = Assignment::from_maps(subjects_map.clone(), groups_map.clone());
    let (s2, g2) = assignment.into_maps();
    assert_eq!(subjects_map, s2);
    assert_eq!(groups_map, g2);
}
