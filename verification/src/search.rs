//! The search: every assignment is enumerated, the ones that meet the rules
//! are rated, and the rated selections are collected best first.

use vstd::prelude::*;
use vstd::multiset::Multiset;
use vstd::multiset::group_multiset_axioms;
use crate::enumerate::as_nats;
use crate::enumerate::assignment_at;
use crate::enumerate::combinations;
use crate::enumerate::lemma_assignment_at_position;
use crate::enumerate::lemma_rank_in_range;
use crate::enumerate::lemma_rank_position;
use crate::enumerate::rank;
use crate::enumerate::well_formed;
use crate::enumerate::Enumerator;
use crate::party::chosen_job;
use crate::party::chosen_levels;
use crate::party::chosen_roles;
use crate::party::job_counts;
use crate::party::MemberView;
use crate::party::Party;
use crate::ranking::RankingStore;
use crate::roles::Role;
use crate::roles::LEVEL_CAP;
use crate::score::config_of;
use crate::score::lemma_variance_counts_pairs_twice;
use crate::score::score;
use crate::score::unordered_gaps;
use crate::score::ConfigView;
use crate::validate::is_valid;
use crate::validate::lemma_valid_levels;
use crate::validate::lemma_valid_roles;
use crate::validate::valid;

verus! {

/// A rated selection is a result of the search on a party when its indices
/// form a well-formed assignment that meets the rules and its rating is the
/// rating of that assignment.
pub open spec fn is_result(party: Seq<MemberView>, config: ConfigView) -> bool {
    &&& well_formed(job_counts(party), config.index)
    &&& valid(party, config.index)
    &&& config == config_of(party, config.index)
}

/// The spread of every result is even: it is twice the sum, over the
/// unordered pairs of members, of the distance between their chosen levels.
pub proof fn lemma_result_spread(party: Seq<MemberView>, config: ConfigView)
    requires
        is_result(party, config),
    ensures
        config.var % 2 == 0,
        config.var == 2 * unordered_gaps(chosen_levels(party, config.index), party.len()),
{
    lemma_variance_counts_pairs_twice(chosen_levels(party, config.index));
}

/// In every result exactly one member plays a tank and exactly one plays a
/// healer.
pub proof fn lemma_result_roles(party: Seq<MemberView>, config: ConfigView)
    requires
        is_result(party, config),
    ensures
        exists|i: int|
            0 <= i < party.len() && #[trigger] chosen_roles(party, config.index)[i] == Some(
                Role::Tank,
            ) && forall|j: int|
                0 <= j < party.len() && #[trigger] chosen_roles(party, config.index)[j] == Some(
                    Role::Tank,
                ) ==> j == i,
        exists|i: int|
            0 <= i < party.len() && #[trigger] chosen_roles(party, config.index)[i] == Some(
                Role::Healer,
            ) && forall|j: int|
                0 <= j < party.len() && #[trigger] chosen_roles(party, config.index)[j] == Some(
                    Role::Healer,
                ) ==> j == i,
{
    lemma_valid_roles(party, config.index);
}

/// In every result no chosen job is locked, and some chosen job is below the
/// level cap.
pub proof fn lemma_result_levels(party: Seq<MemberView>, config: ConfigView)
    requires
        is_result(party, config),
    ensures
        forall|i: int|
            0 <= i < party.len() ==> (#[trigger] chosen_job(party, config.index, i)).level > 0,
        exists|i: int|
            0 <= i < party.len() && (#[trigger] chosen_job(party, config.index, i)).level
                < LEVEL_CAP,
{
    lemma_valid_levels(party, config.index);
}

/// The results among the first `n` assignments of the enumeration.
spec fn found(party: Seq<MemberView>, n: nat) -> Multiset<ConfigView>
    decreases n,
{
    if n == 0 {
        Multiset::empty()
    } else {
        let assignment = assignment_at(job_counts(party), (n - 1) as nat);
        if valid(party, assignment) {
            found(party, (n - 1) as nat).insert(config_of(party, assignment))
        } else {
            found(party, (n - 1) as nat)
        }
    }
}

/// The first `n` assignments yield each result of rank below `n` once, and
/// nothing else.
proof fn lemma_found_counts(party: Seq<MemberView>, n: nat, config: ConfigView)
    requires
        n <= combinations(job_counts(party)),
    ensures
        found(party, n).count(config) == if is_result(party, config) && rank(
            job_counts(party),
            config.index,
        ) < n {
            1nat
        } else {
            0nat
        },
    decreases n,
{
    broadcast use group_multiset_axioms;

    if n > 0 {
        let radices = job_counts(party);
        let k = (n - 1) as nat;
        lemma_found_counts(party, k, config);
        lemma_assignment_at_position(radices, k);
        if is_result(party, config) {
            lemma_rank_position(radices, config.index);
        }
    }
}

/// Finds every selection of one job per member that meets the rules, rates
/// it, and collects the rated selections in a store that hands them out
/// lowest spread first.
///
/// The store holds each result exactly once and nothing else. Where a member
/// has no job there is no assignment, and the store stays empty.
pub fn search(party: &Party) -> (store: RankingStore)
    ensures
        store.wf(),
        forall|config: ConfigView|
            #![trigger store@.count(config)]
            store@.count(config) == if is_result(party@, config) {
                1nat
            } else {
                0nat
            },
{
    let counts = party.job_counts();
    assert(as_nats(counts@) =~= job_counts(party@));
    let mut enumerator = Enumerator::new(counts);
    let mut store = RankingStore::new();
    loop
        invariant
            enumerator.wf(),
            enumerator.radices() == job_counts(party@),
            store.wf(),
            store@ == found(party@, enumerator.position()),
        ensures
            store.wf(),
            store@ == found(party@, combinations(job_counts(party@))),
        decreases combinations(job_counts(party@)) - enumerator.position(),
    {
        match enumerator.next() {
            None => {
                break ;
            },
            Some(assignment) => {
                if is_valid(party, &assignment) {
                    store.insert(score(party, assignment));
                }
            },
        }
    }
    proof {
        let total = combinations(job_counts(party@));
        assert forall|config: ConfigView| #![trigger store@.count(config)]
            store@.count(config) == if is_result(party@, config) {
                1nat
            } else {
                0nat
            } by {
            lemma_found_counts(party@, total, config);
            if is_result(party@, config) {
                lemma_rank_in_range(job_counts(party@), config.index);
            }
        }
    }
    store
}

} // verus!
