use party_balance::party::{ClassJob, Party, PlayerCharacter};
use party_balance::present::{is_quit, lines, next_step, Step};
use party_balance::ranking::RankingStore;
use party_balance::score::PartyConfig;
use party_balance::search::search;

fn two_results() -> RankingStore {
    let mut store = RankingStore::new();
    store.insert(PartyConfig { index: vec![0, 1], var: 12, avg: 30 });
    store.insert(PartyConfig { index: vec![1, 0], var: 4, avg: 31 });
    store
}

#[test]
fn only_the_quit_token_quits() {
    assert!(is_quit("q"));
    assert!(!is_quit(""));
    assert!(!is_quit("Q"));
    assert!(!is_quit("qq"));
    assert!(!is_quit(" q"));
    assert!(!is_quit("q "));
    assert!(!is_quit("quit"));
    assert!(!is_quit("é"));
}

#[test]
fn an_empty_line_shows_the_next_result() {
    let mut store = two_results();
    match next_step(&mut store, "") {
        Step::Show(config) => {
            assert_eq!(config.index, vec![1, 0]);
            assert_eq!(config.var, 4);
            assert_eq!(config.avg, 31);
        }
        Step::Stop => panic!("stopped early"),
    }
    assert_eq!(store.len(), 1);
}

#[test]
fn any_other_line_shows_the_next_result() {
    let mut store = two_results();
    assert!(matches!(next_step(&mut store, "next"), Step::Show(_)));
    match next_step(&mut store, "Q") {
        Step::Show(config) => assert_eq!(config.var, 12),
        Step::Stop => panic!("stopped early"),
    }
    assert!(store.is_empty());
}

#[test]
fn the_quit_token_stops_and_keeps_the_store() {
    let mut store = two_results();
    assert!(matches!(next_step(&mut store, "q"), Step::Stop));
    assert_eq!(store.len(), 2);
}

#[test]
fn an_empty_store_stops() {
    let mut store = RankingStore::new();
    assert!(matches!(next_step(&mut store, ""), Step::Stop));
    assert!(matches!(next_step(&mut store, "q"), Step::Stop));
    assert!(store.is_empty());
}

#[test]
fn presentation_runs_until_the_store_is_empty() {
    let mut store = two_results();
    let mut shown = Vec::new();
    let mut input = String::new();
    loop {
        match next_step(&mut store, &input) {
            Step::Show(config) => shown.push(config.var),
            Step::Stop => break,
        }
        input = "more".to_owned();
    }
    assert_eq!(shown, vec![4, 12]);
}

#[test]
fn lines_name_each_member_with_the_chosen_job() {
    let members = vec![
        PlayerCharacter {
            class_jobs: vec![
                ClassJob::new(1, 30, "Gladiator".to_owned()),
                ClassJob::new(2, 35, "Pugilist".to_owned()),
            ],
            name: "Aya".to_owned(),
        },
        PlayerCharacter {
            class_jobs: vec![
                ClassJob::new(7, 12, "Thaumaturge".to_owned()),
                ClassJob::new(6, 33, "Conjurer".to_owned()),
            ],
            name: "Bo".to_owned(),
        },
    ];
    let party = Party::new(members).unwrap();
    let mut store = search(&party);
    let best = store.pop_best().unwrap();
    assert_eq!(best.index, vec![0, 1]);
    let shown = lines(&party, &best);
    assert_eq!(shown.len(), 2);
    assert_eq!(shown[0].member, "Aya");
    assert_eq!(shown[0].job, "Gladiator");
    assert_eq!(shown[0].level, 30);
    assert_eq!(shown[1].member, "Bo");
    assert_eq!(shown[1].job, "Conjurer");
    assert_eq!(shown[1].level, 33);
    assert_eq!(best.var, 6);
    assert_eq!(best.avg, 31);
}
