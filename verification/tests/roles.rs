use party_balance::roles::{has_role, role_of, Role, LEVEL_CAP};

#[test]
fn tanks_are_classified() {
    for id in [1u8, 3, 32, 37] {
        assert_eq!(role_of(id), Some(Role::Tank));
    }
}

#[test]
fn healers_are_classified() {
    for id in [6u8, 26, 33] {
        assert_eq!(role_of(id), Some(Role::Healer));
    }
}

#[test]
fn damage_dealers_are_classified() {
    for id in [2u8, 4, 5, 7, 29, 31, 34, 35, 38] {
        assert_eq!(role_of(id), Some(Role::Dps));
    }
}

#[test]
fn unlisted_jobs_have_no_role() {
    for id in [0u8, 8, 9, 25, 27, 28, 30, 36, 39, 80, 255] {
        assert_eq!(role_of(id), None);
        assert!(!has_role(id));
    }
}

#[test]
fn every_job_has_at_most_one_role_and_sixteen_have_one() {
    let mut listed = 0;
    for id in 0u8..=255 {
        if has_role(id) {
            listed += 1;
            assert!(role_of(id).is_some());
        } else {
            assert!(role_of(id).is_none());
        }
    }
    assert_eq!(listed, 16);
}

#[test]
fn level_cap_is_eighty() {
    assert_eq!(LEVEL_CAP, 80);
}
