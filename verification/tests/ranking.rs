use party_balance::ranking::RankingStore;
use party_balance::score::PartyConfig;

fn config(tag: usize, var: u32) -> PartyConfig {
    PartyConfig { index: vec![tag], var, avg: 0 }
}

#[test]
fn an_empty_store_gives_nothing() {
    let mut store = RankingStore::new();
    assert!(store.is_empty());
    assert_eq!(store.len(), 0);
    assert!(store.pop_best().is_none());
    assert!(store.drain_sorted().is_empty());
}

#[test]
fn the_lowest_spread_leaves_first() {
    let mut store = RankingStore::new();
    for (tag, var) in [50u32, 10, 40, 20, 30].into_iter().enumerate() {
        store.insert(config(tag, var));
    }
    assert_eq!(store.len(), 5);
    let mut order = Vec::new();
    while let Some(best) = store.pop_best() {
        order.push((best.var, best.index[0]));
    }
    assert_eq!(order, vec![(10, 1), (20, 3), (30, 4), (40, 2), (50, 0)]);
    assert!(store.is_empty());
}

#[test]
fn repeated_pops_never_go_down() {
    let mut store = RankingStore::new();
    let mut seed: u32 = 12345;
    for tag in 0..500 {
        seed = seed.wrapping_mul(1103515245).wrapping_add(12345);
        store.insert(config(tag, (seed >> 16) % 97));
    }
    let mut last = 0;
    let mut count = 0;
    while let Some(best) = store.pop_best() {
        assert!(last <= best.var);
        last = best.var;
        count += 1;
    }
    assert_eq!(count, 500);
}

#[test]
fn equal_spreads_all_come_out() {
    let mut store = RankingStore::new();
    for tag in 0..6 {
        store.insert(config(tag, 8));
    }
    store.insert(config(6, 2));
    assert_eq!(store.pop_best().unwrap().index, vec![6]);
    let mut tags: Vec<usize> = Vec::new();
    while let Some(best) = store.pop_best() {
        assert_eq!(best.var, 8);
        tags.push(best.index[0]);
    }
    tags.sort();
    assert_eq!(tags, vec![0, 1, 2, 3, 4, 5]);
}

#[test]
fn inserts_and_pops_interleave() {
    let mut store = RankingStore::new();
    store.insert(config(0, 7));
    store.insert(config(1, 3));
    assert_eq!(store.pop_best().unwrap().var, 3);
    store.insert(config(2, 1));
    store.insert(config(3, 9));
    assert_eq!(store.pop_best().unwrap().var, 1);
    assert_eq!(store.pop_best().unwrap().var, 7);
    store.insert(config(4, 0));
    assert_eq!(store.pop_best().unwrap().var, 0);
    assert_eq!(store.pop_best().unwrap().var, 9);
    assert!(store.pop_best().is_none());
}

#[test]
fn draining_sorts_and_empties() {
    let mut store = RankingStore::new();
    for (tag, var) in [6u32, 2, 8, 2, 0, 4, 6].into_iter().enumerate() {
        store.insert(config(tag, var));
    }
    let all = store.drain_sorted();
    let vars: Vec<u32> = all.iter().map(|c| c.var).collect();
    assert_eq!(vars, vec![0, 2, 2, 4, 6, 6, 8]);
    let mut tags: Vec<usize> = all.iter().map(|c| c.index[0]).collect();
    tags.sort();
    assert_eq!(tags, vec![0, 1, 2, 3, 4, 5, 6]);
    assert!(store.is_empty());
}
