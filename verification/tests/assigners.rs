use group_assignment::Assigner;
use group_assignment::Subject;
use group_assignment::DefaultGroup;
use group_assignment::FirstComeFirstServed;
use group_assignment::ProposeAndReject;
use group_assignment::TestGroup;
use group_assignment::TestSubject;

#[test]
fn assign() {
    let subject_ids = [1_u64, 2, 3, 4];
    let group_ids = [101_u64, 102, 103];
    let subjects = vec![
        TestSubject::new(subject_ids[0], vec![group_ids[0], group_ids[2]]),
        TestSubject::new(subject_ids[1], vec![group_ids[0], group_ids[1]]),
        TestSubject::new(subject_ids[2], vec![group_ids[0], group_ids[1]]),
        TestSubject::new(subject_ids[3], vec![group_ids[1]]),
    ];
    let groups = vec![
        TestGroup::new(group_ids[0], 2),
        TestGroup::new(group_ids[1], 1),
        TestGroup::new(group_ids[2], 3),
    ];

    let assignment = FirstComeFirstServed::assign(&subjects, &groups).unwrap();
    // the first subject is assigned to the first group
    assert_eq!(&group_ids[0], assignment.subject_to_group_id(&subjects[0]).unwrap());
    assert!(assignment.group_to_subjects_ids(&groups[0]).unwrap().contains(&subject_ids[0]));
    // the second subject is assigned to the first group
    assert_eq!(&group_ids[0], assignment.subject_to_group_id(&subjects[1]).unwrap());
    assert!(assignment.group_to_subjects_ids(&groups[0]).unwrap().contains(&subject_ids[1]));
    // the third subject is assigned to the second group
    assert_eq!(&group_ids[1], assignment.subject_to_group_id(&subjects[2]).unwrap());
    assert!(assignment.group_to_subjects_ids(&groups[1]).unwrap().contains(&subject_ids[2]));
    // the fourth subject is assigned to the third group
    assert_eq!(&group_ids[2], assignment.subject_to_group_id(&subjects[3]).unwrap());
    assert!(assignment.group_to_subjects_ids(&groups[2]).unwrap().contains(&subject_ids[3]));
}

#[test]
fn first_come_first_served_assign() {
    // the same allocation through the first come first served principle,
    // checked group by group
    let first_subject_id = 1_u64;
    let second_subject_id = 2_u64;
    let third_subject_id = 3_u64;
    let fourth_subject_id = 4_u64;
    let first_group_id = 101_u64;
    let second_group_id = 102_u64;
    let third_group_id = 103_u64;
    let subjects = vec![
        TestSubject::new(first_subject_id, vec![first_group_id, third_group_id]),
        TestSubject::new(second_subject_id, vec![first_group_id, second_group_id]),
        TestSubject::new(third_subject_id, vec![first_group_id, second_group_id]),
        TestSubject::new(fourth_subject_id, vec![second_group_id]),
    ];
    let groups = vec![
        TestGroup::new(first_group_id, 2),
        TestGroup::new(second_group_id, 1),
        TestGroup::new(third_group_id, 3),
    ];
    let assignment = FirstComeFirstServed::assign(&subjects, &groups).unwrap();
    assert_eq!(&first_group_id, assignment.subject_to_group_id(&subjects[0]).unwrap());
    assert!(assignment.group_to_subjects_ids(&groups[0]).unwrap().contains(&first_subject_id));
    assert_eq!(&first_group_id, assignment.subject_to_group_id(&subjects[1]).unwrap());
    assert!(assignment.group_to_subjects_ids(&groups[0]).unwrap().contains(&second_subject_id));
    assert_eq!(&second_group_id, assignment.subject_to_group_id(&subjects[2]).unwrap());
    assert!(assignment.group_to_subjects_ids(&groups[1]).unwrap().contains(&third_subject_id));
    assert_eq!(&third_group_id, assignment.subject_to_group_id(&subjects[3]).unwrap());
    assert!(assignment.group_to_subjects_ids(&groups[2]).unwrap().contains(&fourth_subject_id));
}

#[test]
fn mod_assign() {
    let subject_ids = [1_u64, 2, 3, 4, 5, 6, 7, 8];
    let group_ids = [101_u64, 102, 103, 104, 105];
    let preferences1 = vec![group_ids[0], group_ids[1], group_ids[2], group_ids[3], group_ids[4]];
    let preferences2 = vec![group_ids[1], group_ids[0], group_ids[3], group_ids[2], group_ids[4]];
    let preferences3 = vec![group_ids[2], group_ids[3], group_ids[4], group_ids[1], group_ids[0]];
    let subjects = vec![
        TestSubject::new(subject_ids[0], preferences1.clone()),
        TestSubject::new(subject_ids[1], preferences1.clone()),
        TestSubject::new(subject_ids[2], preferences1.clone()),
        TestSubject::new(subject_ids[3], preferences2.clone()),
        TestSubject::new(subject_ids[4], preferences2.clone()),
        TestSubject::new(subject_ids[5], preferences3.clone()),
        TestSubject::new(subject_ids[6], preferences3.clone()),
        TestSubject::new(subject_ids[7], preferences3.clone()),
    ];
    let capacities = [1_i32, 1, 1, 3, 3];
    let groups: Vec<DefaultGroup> = group_ids
        .iter()
        .zip(capacities.iter())
        .map(|(id, c)| DefaultGroup::new(*id, *c))
        .collect();

    let assignment = ProposeAndReject::assign(&subjects, &groups).unwrap();
    // only two subjects are assigned to the least desired group despite
    // its capacity being 3
    assert_eq!(assignment.group_to_subjects_ids(&groups[4]).unwrap().len(), 2);
    let mut total_dissatisfaction: u64 = 0;
    for subject in subjects.iter() {
        let gid = *assignment.subject_to_group_id(subject).unwrap();
        total_dissatisfaction += subject.dissatisfaction(&gid) as u64;
    }
    assert_eq!(total_dissatisfaction, 12);
}

#[test]
fn assign_no_necessary_replacements() {
    let subject_ids = vec![1_u64, 2, 3, 4];
    let group_ids = vec![101_u64, 102, 103];
    let preference_by_order = vec![group_ids[0], group_ids[1], group_ids[2]];
    let subjects = vec![
        TestSubject::new(subject_ids[0], preference_by_order.clone()),
        TestSubject::new(subject_ids[1], preference_by_order.clone()),
        TestSubject::new(subject_ids[2], preference_by_order),
        TestSubject::new(subject_ids[3], vec![group_ids[0], group_ids[2], group_ids[1]]),
    ];
    let capacities = [2_i32, 1, 1];
    let groups: Vec<DefaultGroup> = group_ids
        .iter()
        .zip(capacities.iter())
        .map(|(id, c)| DefaultGroup::new(*id, *c))
        .collect();
    let assignment = ProposeAndReject::assign(&subjects, &groups).unwrap();

    let mut number_of_assigned_subjects: usize = 0;
    for group in groups.iter() {
        number_of_assigned_subjects += assignment.group_to_subjects_ids(group).unwrap().len();
    }
    assert_eq!(number_of_assigned_subjects, subject_ids.len());
    let mut total_dissatisfaction: u64 = 0;
    for subject in subjects.iter() {
        let gid = *assignment.subject_to_group_id(subject).unwrap();
        total_dissatisfaction += subject.dissatisfaction(&gid) as u64;
    }
    assert_eq!(total_dissatisfaction, 2);
}

#[test]
fn assign_complete_after_first_step() {
    let subject_ids = [1_u64, 2, 3];
    let group_ids = [101_u64, 102];
    let subjects = vec![
        TestSubject::new(subject_ids[0], vec![group_ids[1]]),
        TestSubject::new(subject_ids[1], vec![group_ids[0], group_ids[1]]),
        TestSubject::new(subject_ids[2], vec![group_ids[0]]),
    ];
    let groups = vec![DefaultGroup::new(group_ids[0], 3), DefaultGroup::new(group_ids[1], 1)];
    let assignment = ProposeAndReject::assign(&subjects, &groups).unwrap();
    // the first subject is assigned to the second group
    assert_eq!(&group_ids[1], assignment.subject_to_group_id(&subjects[0]).unwrap());
    assert!(assignment.group_to_subjects_ids(&groups[1]).unwrap().contains(&subject_ids[0]));
    // the second subject is mapped to the first group
    assert_eq!(&group_ids[0], assignment.subject_to_group_id(&subjects[1]).unwrap());
    assert!(assignment.group_to_subjects_ids(&groups[0]).unwrap().contains(&subject_ids[1]));
    // the third subject is mapped to the first group
    assert_eq!(&group_ids[0], assignment.subject_to_group_id(&subjects[2]).unwrap());
    assert!(assignment.group_to_subjects_ids(&groups[0]).unwrap().contains(&subject_ids[2]));
}

#[test]
fn mod_assign_complete_after_first_step() {
    // the same expectations with the plain test group type
    let first_subject_id = 1_u64;
    let second_subject_id = 2_u64;
    let third_subject_id = 3_u64;
    let first_group_id = 101_u64;
    let second_group_id = 102_u64;
    let subjects = vec![
        TestSubject::new(first_subject_id, vec![second_group_id]),
        TestSubject::new(second_subject_id, vec![first_group_id, second_group_id]),
        TestSubject::new(third_subject_id, vec![first_group_id]),
    ];
    let groups = vec![TestGroup::new(first_group_id, 3), TestGroup::new(second_group_id, 1)];
    let assignment = ProposeAndReject::assign(&subjects, &groups).unwrap();
    assert_eq!(&second_group_id, assignment.subject_to_group_id(&subjects[0]).unwrap());
    assert!(assignment.group_to_subjects_ids(&groups[1]).unwrap().contains(&first_subject_id));
    assert_eq!(&first_group_id, assignment.subject_to_group_id(&subjects[1]).unwrap());
    assert!(assignment.group_to_subjects_ids(&groups[0]).unwrap().contains(&second_subject_id));
    assert_eq!(&first_group_id, assignment.subject_to_group_id(&subjects[2]).unwrap());
    assert!(assignment.group_to_subjects_ids(&groups[0]).unwrap().contains(&third_subject_id));
}

#[test]
fn assign_complete_after_first_step_only_full() {
    let subject_id = 1_u64;
    let group_id = 101_u64;
    let subjects = vec![TestSubject::new(subject_id, vec![group_id])];
    let groups = vec![DefaultGroup::new(group_id, 1)];
    let assignment = ProposeAndReject::assign(&subjects, &groups).unwrap();
    assert_eq!(&group_id, assignment.subject_to_group_id(&subjects[0]).unwrap());
    assert!(assignment.group_to_subjects_ids(&groups[0]).unwrap().contains(&subject_id));
}

#[test]
fn assign_no_first_choice() {
    // both subjects have dissatisfaction 1 toward every group: their
    // preference list names only a group id that does not exist
    let first_subject_id = 1_u64;
    let second_subject_id = 2_u64;
    let first_group_id = 101_u64;
    let second_group_id = 102_u64;
    let subjects = vec![
        TestSubject::new(first_subject_id, vec![999]),
        TestSubject::new(second_subject_id, vec![999]),
    ];
    let groups = vec![DefaultGroup::new(first_group_id, 1), DefaultGroup::new(second_group_id, 1)];
    let assignment = ProposeAndReject::assign(&subjects, &groups).unwrap();
    assert_eq!(1, assignment.group_to_subjects_ids(&groups[0]).unwrap().len());
    assert_eq!(1, assignment.group_to_subjects_ids(&groups[1]).unwrap().len());
}

#[test]
fn assign_fails_on_insufficient_total_capacity() {
    let subjects = vec![
        TestSubject::new(1, vec![101]),
        TestSubject::new(2, vec![101]),
        TestSubject::new(3, vec![101]),
    ];
    let groups = vec![TestGroup::new(101, 1), TestGroup::new(102, 1)];
    assert!(FirstComeFirstServed::assign(&subjects, &groups).is_err());
    assert!(ProposeAndReject::assign(&subjects, &groups).is_err());
    match ProposeAndReject::assign(&subjects, &groups) {
        Ok(_) => panic!("the capacity precheck must fail"),
        Err(error) => assert!(error.message().contains("Insufficient capacity")),
    }
}

#[test]
fn assign_empty_inputs() {
    let subjects: Vec<TestSubject> = Vec::new();
    let groups: Vec<TestGroup> = Vec::new();
    let assignment = FirstComeFirstServed::assign(&subjects, &groups).unwrap();
    let other = ProposeAndReject::assign(&subjects, &groups).unwrap();
    let absent = TestSubject::new(7, vec![101]);
    assert!(assignment.subject_to_group_id(&absent).is_none());
    assert!(other.subject_to_group_id(&absent).is_none());
}

#[test]
fn assign_conservation_and_capacity() {
    // every subject lands in exactly one group list and no group exceeds
    // its capacity, for both assigners
    let subject_ids = [1_u64, 2, 3, 4, 5, 6, 7, 8];
    let group_ids = [101_u64, 102, 103, 104, 105];
    let preferences1 = vec![group_ids[0], group_ids[1], group_ids[2], group_ids[3], group_ids[4]];
    let preferences3 = vec![group_ids[2], group_ids[3], group_ids[4], group_ids[1], group_ids[0]];
    let subjects: Vec<TestSubject> = subject_ids
        .iter()
        .map(|id| {
            if *id <= 4 {
                TestSubject::new(*id, preferences1.clone())
            } else {
                TestSubject::new(*id, preferences3.clone())
            }
        })
        .collect();
    let capacities = [1_i32, 1, 1, 3, 3];
    let groups: Vec<DefaultGroup> = group_ids
        .iter()
        .zip(capacities.iter())
        .map(|(id, c)| DefaultGroup::new(*id, *c))
        .collect();
    for assignment in [
        FirstComeFirstServed::assign(&subjects, &groups).unwrap(),
        ProposeAndReject::assign(&subjects, &groups).unwrap(),
    ] {
        let mut seen: Vec<u64> = Vec::new();
        for (g, cap) in groups.iter().zip(capacities.iter()) {
            let members = assignment.group_to_subjects_ids(g).unwrap();
            assert!(members.len() <= *cap as usize);
            for m in members.iter() {
                assert!(!seen.contains(m));
                seen.push(*m);
            }
        }
        assert_eq!(seen.len(), subjects.len());
        for id in subject_ids.iter() {
            assert!(seen.contains(id));
        }
    }
}

#[test]
fn propose_and_reject_no_worse_than_first_come_first_served() {
    // on this input the propose-and-reject total dissatisfaction does not
    // exceed the first come first served total
    let subject_ids = [1_u64, 2, 3, 4, 5, 6, 7, 8];
    let group_ids = [101_u64, 102, 103, 104, 105];
    let preferences1 = vec![group_ids[0], group_ids[1], group_ids[2], group_ids[3], group_ids[4]];
    let preferences2 = vec![group_ids[1], group_ids[0], group_ids[3], group_ids[2], group_ids[4]];
    let preferences3 = vec![group_ids[2], group_ids[3], group_ids[4], group_ids[1], group_ids[0]];
    let subjects = vec![
        TestSubject::new(subject_ids[0], preferences1.clone()),
        TestSubject::new(subject_ids[1], preferences1.clone()),
        TestSubject::new(subject_ids[2], preferences1.clone()),
        TestSubject::new(subject_ids[3], preferences2.clone()),
        TestSubject::new(subject_ids[4], preferences2.clone()),
        TestSubject::new(subject_ids[5], preferences3.clone()),
        TestSubject::new(subject_ids[6], preferences3.clone()),
        TestSubject::new(subject_ids[7], preferences3.clone()),
    ];
    let capacities = [1_i32, 1, 1, 3, 3];
    let groups: Vec<DefaultGroup> = group_ids
        .iter()
        .zip(capacities.iter())
        .map(|(id, c)| DefaultGroup::new(*id, *c))
        .collect();
    let fcfs = FirstComeFirstServed::assign(&subjects, &groups).unwrap();
    let pnr = ProposeAndReject::assign(&subjects, &groups).unwrap();
    let mut fcfs_total: u64 = 0;
    let mut pnr_total: u64 = 0;
    for subject in subjects.iter() {
        fcfs_total += subject.dissatisfaction(fcfs.subject_to_group_id(subject).unwrap()) as u64;
        pnr_total += subject.dissatisfaction(pnr.subject_to_group_id(subject).unwrap()) as u64;
    }
    assert!(pnr_total <= fcfs_total);
}
