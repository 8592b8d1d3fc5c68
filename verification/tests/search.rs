use party_balance::party::{ClassJob, Party, PartyError, PlayerCharacter};
use party_balance::ranking::RankingStore;
use party_balance::roles::{role_of, Role, LEVEL_CAP};
use party_balance::score::{score, PartyConfig};
use party_balance::search::search;
use party_balance::validate::is_valid;

const TANK: u8 = 1;
const HEALER: u8 = 6;
const DPS: u8 = 2;

fn job(class_id: u8, level: u8) -> ClassJob {
    ClassJob::new(class_id, level, format!("job {}", class_id))
}

fn player(name: &str, jobs: Vec<ClassJob>) -> PlayerCharacter {
    PlayerCharacter { class_jobs: jobs, name: name.to_owned() }
}

fn form(members: Vec<Vec<ClassJob>>) -> Party {
    let players = members
        .into_iter()
        .enumerate()
        .map(|(i, jobs)| player(&format!("player {}", i + 1), jobs))
        .collect();
    match Party::new(players) {
        Ok(party) => party,
        Err(error) => panic!("no party: {:?}", error),
    }
}

fn drain(store: &mut RankingStore) -> Vec<PartyConfig> {
    let mut all = Vec::new();
    while let Some(config) = store.pop_best() {
        all.push(config);
    }
    all
}

#[test]
fn two_tanks_give_no_configuration() {
    let party = form(vec![vec![job(TANK, 50)], vec![job(TANK, 50)]]);
    let store = search(&party);
    assert!(store.is_empty());
    assert_eq!(store.len(), 0);
}

#[test]
fn tank_and_healer_at_the_same_level_give_one_configuration() {
    let party = form(vec![vec![job(TANK, 50)], vec![job(HEALER, 50)]]);
    let mut store = search(&party);
    assert_eq!(store.len(), 1);
    let config = store.pop_best().unwrap();
    assert_eq!(config.index, vec![0, 0]);
    assert_eq!(config.var, 0);
    assert_eq!(config.avg, 50);
    assert!(store.pop_best().is_none());
}

#[test]
fn a_party_at_the_level_cap_gives_no_configuration() {
    let party = form(vec![vec![job(TANK, LEVEL_CAP)], vec![job(HEALER, LEVEL_CAP)]]);
    assert!(search(&party).is_empty());
}

#[test]
fn a_party_above_the_level_cap_gives_no_configuration() {
    let party = form(vec![vec![job(TANK, 90)], vec![job(HEALER, LEVEL_CAP)]]);
    assert!(search(&party).is_empty());
}

#[test]
fn one_member_below_the_cap_is_enough() {
    let party = form(vec![vec![job(TANK, LEVEL_CAP)], vec![job(HEALER, 79)]]);
    let mut store = search(&party);
    let config = store.pop_best().unwrap();
    assert_eq!(config.var, 2);
    assert_eq!(config.avg, 79);
    assert!(store.is_empty());
}

#[test]
fn a_locked_job_gives_no_configuration() {
    let party = form(vec![vec![job(TANK, 50)], vec![job(HEALER, 0)]]);
    assert!(search(&party).is_empty());
}

#[test]
fn three_members_ten_twenty_thirty() {
    let party = form(vec![vec![job(TANK, 10)], vec![job(HEALER, 20)], vec![job(DPS, 30)]]);
    let mut store = search(&party);
    assert_eq!(store.len(), 1);
    let config = store.pop_best().unwrap();
    assert_eq!(config.index, vec![0, 0, 0]);
    assert_eq!(config.var, 80);
    assert_eq!(config.avg, 20);
}

#[test]
fn a_member_without_jobs_gives_no_configuration() {
    let party = form(vec![vec![job(TANK, 50)], vec![]]);
    assert!(search(&party).is_empty());
    let party = party_of_three_with_an_empty_member();
    assert!(search(&party).is_empty());
}

fn party_of_three_with_an_empty_member() -> Party {
    form(vec![vec![], vec![job(TANK, 50)], vec![job(HEALER, 40)]])
}

#[test]
fn the_average_is_rounded_down() {
    let party = form(vec![vec![job(TANK, 10)], vec![job(HEALER, 15)]]);
    let config = score(&party, vec![0, 0]);
    assert_eq!(config.avg, 12);
    assert_eq!(config.var, 10);
    let party = form(vec![vec![job(TANK, 1)], vec![job(HEALER, 1)], vec![job(DPS, 3)]]);
    let config = score(&party, vec![0, 0, 0]);
    assert_eq!(config.avg, 1);
    assert_eq!(config.var, 8);
}

#[test]
fn the_spread_of_four_members() {
    let party = form(vec![
        vec![job(TANK, 0), job(TANK, 80)],
        vec![job(HEALER, 255)],
        vec![job(DPS, 7)],
        vec![job(DPS, 7), job(DPS, 1)],
    ]);
    let config = score(&party, vec![1, 0, 0, 1]);
    // pairs: 175, 73, 79, 248, 254, 6
    assert_eq!(config.var, 2 * (175 + 73 + 79 + 248 + 254 + 6));
    assert_eq!(config.avg, (80 + 255 + 7 + 1) / 4);
    assert_eq!(config.index, vec![1, 0, 0, 1]);
    let extreme = score(&party, vec![0, 0, 0, 0]);
    assert_eq!(extreme.var, 2 * (255 + 7 + 7 + 248 + 248 + 0));
}

#[test]
fn the_rules_are_decided_by_counting() {
    let party = form(vec![
        vec![job(TANK, 50), job(HEALER, 50), job(DPS, 50), job(9, 50)],
        vec![job(TANK, 50), job(HEALER, 50), job(DPS, 50), job(9, 50)],
        vec![job(TANK, 50), job(HEALER, 50), job(DPS, 50), job(9, 50)],
    ]);
    // one tank, one healer, one damage dealer
    assert!(is_valid(&party, &vec![0, 1, 2]));
    // one tank, one healer, one job without a role
    assert!(is_valid(&party, &vec![0, 1, 3]));
    // two tanks
    assert!(!is_valid(&party, &vec![0, 0, 1]));
    // two healers
    assert!(!is_valid(&party, &vec![0, 1, 1]));
    // no healer
    assert!(!is_valid(&party, &vec![0, 2, 2]));
    // no tank
    assert!(!is_valid(&party, &vec![1, 2, 2]));
}

#[test]
fn results_come_out_by_ascending_spread() {
    let party = form(vec![
        vec![job(TANK, 10), job(3, 45), job(HEALER, 70), job(DPS, 33)],
        vec![job(HEALER, 50), job(33, 12), job(TANK, 61), job(4, 80)],
        vec![job(DPS, 30), job(5, 64), job(HEALER, 5), job(TANK, 22)],
        vec![job(7, 41), job(TANK, 80), job(26, 17), job(38, 3)],
    ]);
    let mut store = search(&party);
    let total = store.len();
    let all = drain(&mut store);
    assert_eq!(all.len(), total);
    assert!(total > 10);
    for pair in all.windows(2) {
        assert!(pair[0].var <= pair[1].var);
    }
}

#[test]
fn results_are_exactly_the_valid_assignments() {
    let party = form(vec![
        vec![job(TANK, 10), job(3, 45), job(HEALER, 70), job(DPS, 0)],
        vec![job(HEALER, 50), job(33, 12), job(TANK, 61)],
        vec![job(DPS, 30), job(5, 64), job(HEALER, 5), job(TANK, 22), job(2, 80)],
    ]);
    let mut store = search(&party);
    let all = drain(&mut store);
    let mut expected = 0;
    for a in 0..4 {
        for b in 0..3 {
            for c in 0..5 {
                let assignment = vec![a, b, c];
                assert!(party.admits(&assignment));
                let hits = all.iter().filter(|config| config.index == assignment).count();
                if is_valid(&party, &assignment) {
                    expected += 1;
                    assert_eq!(hits, 1);
                    let rated = score(&party, assignment.clone());
                    let held = all.iter().find(|config| config.index == assignment).unwrap();
                    assert_eq!(held.var, rated.var);
                    assert_eq!(held.avg, rated.avg);
                } else {
                    assert_eq!(hits, 0);
                }
            }
        }
    }
    assert_eq!(all.len(), expected);
    assert!(expected > 0);
}

#[test]
fn every_result_meets_the_rules() {
    let party = form(vec![
        vec![job(TANK, 10), job(3, 80), job(HEALER, 70), job(DPS, 0)],
        vec![job(HEALER, 80), job(33, 12), job(TANK, 61), job(4, 80)],
        vec![job(DPS, 80), job(5, 64), job(HEALER, 0), job(TANK, 22)],
    ]);
    let mut store = search(&party);
    let all = drain(&mut store);
    assert!(!all.is_empty());
    for config in &all {
        let mut tanks = 0;
        let mut healers = 0;
        let mut below_cap = 0;
        let mut levels = Vec::new();
        for (member, choice) in config.index.iter().enumerate() {
            let job = party.job(member, *choice).unwrap();
            match role_of(job.class_id) {
                Some(Role::Tank) => tanks += 1,
                Some(Role::Healer) => healers += 1,
                _ => {}
            }
            assert!(job.level > 0);
            if job.level < LEVEL_CAP {
                below_cap += 1;
            }
            levels.push(job.level as i32);
        }
        assert_eq!(tanks, 1);
        assert_eq!(healers, 1);
        assert!(below_cap >= 1);
        assert_eq!(config.var % 2, 0);
        let mut unordered = 0;
        for i in 0..levels.len() {
            for j in 0..i {
                unordered += (levels[i] - levels[j]).abs();
            }
        }
        assert_eq!(config.var as i32, 2 * unordered);
        assert_eq!(config.avg as i32, levels.iter().sum::<i32>() / levels.len() as i32);
    }
}

#[test]
fn a_party_needs_two_members() {
    assert_eq!(Party::new(vec![]).err(), Some(PartyError::TooFewMembers));
    assert_eq!(
        Party::new(vec![player("alone", vec![job(TANK, 1)])]).err(),
        Some(PartyError::TooFewMembers)
    );
}

#[test]
fn a_party_takes_at_most_four_members() {
    let five = (0..5).map(|i| player(&format!("member {}", i), vec![job(TANK, 1)])).collect();
    assert_eq!(Party::new(five).err(), Some(PartyError::TooManyMembers));
    let four = (0..4).map(|i| player(&format!("member {}", i), vec![job(TANK, 1)])).collect();
    assert_eq!(Party::new(four).unwrap().len(), 4);
}

#[test]
fn a_party_keeps_its_members_in_order() {
    let party = form(vec![vec![job(TANK, 10), job(DPS, 11)], vec![job(HEALER, 20)]]);
    assert_eq!(party.len(), 2);
    assert_eq!(party.job_counts(), vec![2, 1]);
    assert_eq!(party.member(0).unwrap().name, "player 1");
    assert_eq!(party.member(1).unwrap().name, "player 2");
    assert!(party.member(2).is_none());
    assert_eq!(party.members().len(), 2);
    assert_eq!(party.job(0, 1).unwrap().level, 11);
    assert_eq!(party.job(0, 1).unwrap().name(), "job 2");
    assert!(party.job(0, 2).is_none());
    assert!(party.job(2, 0).is_none());
    assert_eq!(party.chosen_job(&vec![1, 0], 0).class_id, DPS);
}

#[test]
fn a_party_admits_only_well_formed_assignments() {
    let party = form(vec![vec![job(TANK, 10), job(DPS, 11)], vec![job(HEALER, 20)]]);
    assert!(party.admits(&vec![0, 0]));
    assert!(party.admits(&vec![1, 0]));
    assert!(!party.admits(&vec![2, 0]));
    assert!(!party.admits(&vec![0, 1]));
    assert!(!party.admits(&vec![0]));
    assert!(!party.admits(&vec![0, 0, 0]));
}

#[test]
fn a_job_knows_its_name() {
    let job = ClassJob::new(33, 42, "Astrologian".to_owned());
    assert_eq!(job.name(), "Astrologian");
    assert_eq!(job.class_id, 33);
    assert_eq!(job.level, 42);
}
