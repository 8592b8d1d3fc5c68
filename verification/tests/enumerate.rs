use party_balance::enumerate::{advance, is_all_zero, Enumerator};

fn collect(counts: Vec<usize>) -> Vec<Vec<usize>> {
    let mut enumerator = Enumerator::new(counts);
    let mut all = Vec::new();
    while let Some(assignment) = enumerator.next() {
        all.push(assignment);
    }
    assert!(enumerator.is_done());
    assert_eq!(enumerator.next(), None);
    all
}

#[test]
fn enumeration_counts_the_product() {
    assert_eq!(collect(vec![2, 3]).len(), 6);
    assert_eq!(collect(vec![3, 1, 4]).len(), 12);
    assert_eq!(collect(vec![5, 5, 5, 5]).len(), 625);
    assert_eq!(collect(vec![1, 1]).len(), 1);
}

#[test]
fn enumeration_runs_in_odometer_order() {
    assert_eq!(
        collect(vec![2, 3]),
        vec![vec![0, 0], vec![0, 1], vec![0, 2], vec![1, 0], vec![1, 1], vec![1, 2]]
    );
}

#[test]
fn all_zero_comes_first_and_only_once() {
    let all = collect(vec![3, 2, 4]);
    assert_eq!(all[0], vec![0, 0, 0]);
    let zeros = all.iter().filter(|a| a.iter().all(|d| *d == 0)).count();
    assert_eq!(zeros, 1);
}

#[test]
fn every_assignment_appears_once() {
    let all = collect(vec![3, 2, 4]);
    for a in 0..3 {
        for b in 0..2 {
            for c in 0..4 {
                let hits = all.iter().filter(|x| **x == vec![a, b, c]).count();
                assert_eq!(hits, 1);
            }
        }
    }
}

#[test]
fn a_member_without_jobs_leaves_nothing_to_enumerate() {
    assert_eq!(collect(vec![3, 0]).len(), 0);
    assert_eq!(collect(vec![0, 3]).len(), 0);
    assert_eq!(collect(vec![0, 0, 0]).len(), 0);
    let enumerator = Enumerator::new(vec![2, 0, 2]);
    assert!(enumerator.is_done());
}

#[test]
fn no_members_give_one_empty_assignment() {
    assert_eq!(collect(vec![]), vec![Vec::<usize>::new()]);
}

#[test]
fn enumeration_restarts() {
    let mut enumerator = Enumerator::new(vec![2, 2]);
    assert_eq!(enumerator.next(), Some(vec![0, 0]));
    assert_eq!(enumerator.next(), Some(vec![0, 1]));
    enumerator.reset();
    assert!(!enumerator.is_done());
    assert_eq!(enumerator.next(), Some(vec![0, 0]));
    assert_eq!(enumerator.next(), Some(vec![0, 1]));
    assert_eq!(enumerator.next(), Some(vec![1, 0]));
    assert_eq!(enumerator.next(), Some(vec![1, 1]));
    assert_eq!(enumerator.next(), None);
    assert_eq!(enumerator.next(), None);
    enumerator.reset();
    assert_eq!(enumerator.next(), Some(vec![0, 0]));
}

#[test]
fn advance_raises_the_last_digit() {
    let counts = vec![2, 3];
    let mut combination = vec![0, 0];
    assert!(!advance(&counts, &mut combination));
    assert_eq!(combination, vec![0, 1]);
}

#[test]
fn advance_carries() {
    let counts = vec![2, 3, 2];
    let mut combination = vec![0, 2, 1];
    assert!(!advance(&counts, &mut combination));
    assert_eq!(combination, vec![1, 0, 0]);
}

#[test]
fn advance_wraps_after_the_last_assignment() {
    let counts = vec![2, 3];
    let mut combination = vec![1, 2];
    assert!(advance(&counts, &mut combination));
    assert_eq!(combination, vec![0, 0]);
}

#[test]
fn advance_wraps_at_once_when_there_is_one_assignment() {
    let counts = vec![1, 1, 1];
    let mut combination = vec![0, 0, 0];
    assert!(advance(&counts, &mut combination));
    assert_eq!(combination, vec![0, 0, 0]);
}

#[test]
fn all_zero_is_recognised() {
    assert!(is_all_zero(&vec![0, 0, 0]));
    assert!(is_all_zero(&vec![]));
    assert!(!is_all_zero(&vec![0, 1, 0]));
    assert!(!is_all_zero(&vec![0, 0, 7]));
}
