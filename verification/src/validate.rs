//! The rules that an assignment has to meet to be offered at all.

use vstd::prelude::*;
use vstd::multiset::group_multiset_axioms;
use vstd::seq_lib::group_to_multiset_ensures;
use crate::enumerate::as_nats;
use crate::enumerate::well_formed;
use crate::party::chosen_job;
use crate::party::chosen_levels;
use crate::party::chosen_roles;
use crate::party::job_counts;
use crate::party::MemberView;
use crate::party::Party;
use crate::roles::role_of;
use crate::roles::Role;
use crate::roles::LEVEL_CAP;

verus! {

/// How many of the chosen jobs have the given role.
pub open spec fn role_count(party: Seq<MemberView>, assignment: Seq<nat>, role: Role) -> nat {
    chosen_roles(party, assignment).to_multiset().count(Some(role))
}

/// No level is 0: every job has been unlocked.
pub open spec fn all_unlocked(levels: Seq<int>) -> bool {
    forall|i: int| 0 <= i < levels.len() ==> levels[i] > 0
}

/// Every level has reached the cap: nothing is left to gain.
pub open spec fn all_capped(levels: Seq<int>) -> bool {
    forall|i: int| 0 <= i < levels.len() ==> levels[i] >= LEVEL_CAP
}

/// The rules of a party selection: exactly one tank, exactly one healer,
/// no locked job, and at least one job below the level cap.
///
/// Nothing is asked of the other members' roles: the two counts already rule
/// out a second tank or healer.
pub open spec fn valid(party: Seq<MemberView>, assignment: Seq<nat>) -> bool {
    &&& role_count(party, assignment, Role::Tank) == 1
    &&& role_count(party, assignment, Role::Healer) == 1
    &&& all_unlocked(chosen_levels(party, assignment))
    &&& !all_capped(chosen_levels(party, assignment))
}

/// A value that a sequence holds exactly once stands at one position of it
/// and at no other.
pub proof fn lemma_counted_once<A>(items: Seq<A>, value: A)
    requires
        items.to_multiset().count(value) == 1,
    ensures
        exists|i: int|
            0 <= i < items.len() && #[trigger] items[i] == value && forall|j: int|
                0 <= j < items.len() && #[trigger] items[j] == value ==> j == i,
    decreases items.len(),
{
    broadcast use group_to_multiset_ensures, group_multiset_axioms;

    if items.len() == 0 {
        assert(items.to_multiset().len() == 0);
    } else {
        let front = items.drop_last();
        let last = items.len() - 1;
        assert(items =~= front.push(items.last()));
        assert(items.to_multiset() =~= front.to_multiset().insert(items.last()));
        if items.last() == value {
            assert(front.to_multiset().count(value) == 0);
            assert(!front.contains(value));
            assert forall|j: int| 0 <= j < items.len() && #[trigger] items[j] == value implies j
                == last by {
                if j < last {
                    assert(front[j] == value);
                }
            }
            assert(items[last] == value);
        } else {
            lemma_counted_once(front, value);
            let i = choose|i: int|
                0 <= i < front.len() && #[trigger] front[i] == value && forall|j: int|
                    0 <= j < front.len() && #[trigger] front[j] == value ==> j == i;
            assert forall|j: int| 0 <= j < items.len() && #[trigger] items[j] == value implies j
                == i by {
                if j < last {
                    assert(front[j] == value);
                }
            }
            assert(items[i] == value);
        }
    }
}

/// In an assignment that meets the rules exactly one member plays a tank and
/// exactly one plays a healer.
pub proof fn lemma_valid_roles(party: Seq<MemberView>, assignment: Seq<nat>)
    requires
        valid(party, assignment),
    ensures
        exists|i: int|
            0 <= i < party.len() && #[trigger] chosen_roles(party, assignment)[i] == Some(
                Role::Tank,
            ) && forall|j: int|
                0 <= j < party.len() && #[trigger] chosen_roles(party, assignment)[j] == Some(
                    Role::Tank,
                ) ==> j == i,
        exists|i: int|
            0 <= i < party.len() && #[trigger] chosen_roles(party, assignment)[i] == Some(
                Role::Healer,
            ) && forall|j: int|
                0 <= j < party.len() && #[trigger] chosen_roles(party, assignment)[j] == Some(
                    Role::Healer,
                ) ==> j == i,
{
    lemma_counted_once(chosen_roles(party, assignment), Some(Role::Tank));
    lemma_counted_once(chosen_roles(party, assignment), Some(Role::Healer));
}

/// In an assignment that meets the rules no chosen job is locked, and some
/// chosen job is below the level cap.
pub proof fn lemma_valid_levels(party: Seq<MemberView>, assignment: Seq<nat>)
    requires
        valid(party, assignment),
    ensures
        forall|i: int|
            0 <= i < party.len() ==> (#[trigger] chosen_job(party, assignment, i)).level > 0,
        exists|i: int|
            0 <= i < party.len() && (#[trigger] chosen_job(party, assignment, i)).level
                < LEVEL_CAP,
{
    let levels = chosen_levels(party, assignment);
    assert forall|i: int| 0 <= i < party.len() implies (#[trigger] chosen_job(
        party,
        assignment,
        i,
    )).level > 0 by {
        assert(levels[i] > 0);
    }
    let i = choose|i: int| 0 <= i < levels.len() && !(levels[i] >= LEVEL_CAP);
    assert(chosen_job(party, assignment, i).level < LEVEL_CAP);
}

/// Decides whether a well-formed assignment meets the rules.
pub fn is_valid(party: &Party, assignment: &Vec<usize>) -> (ok: bool)
    requires
        well_formed(job_counts(party@), as_nats(assignment@)),
    ensures
        ok == valid(party@, as_nats(assignment@)),
{
    let ghost roles = chosen_roles(party@, as_nats(assignment@));
    let ghost levels = chosen_levels(party@, as_nats(assignment@));
    let n: usize = party.len();
    let mut num_tanks: usize = 0;
    let mut num_healers: usize = 0;
    let mut all_max: bool = true;
    let mut all_open: bool = true;
    let mut i: usize = 0;
    proof {
        broadcast use group_to_multiset_ensures, group_multiset_axioms;

        assert(roles.take(0).to_multiset().len() == 0);
    }
    while i < n
        invariant
            n == party@.len(),
            i <= n,
            well_formed(job_counts(party@), as_nats(assignment@)),
            roles == chosen_roles(party@, as_nats(assignment@)),
            levels == chosen_levels(party@, as_nats(assignment@)),
            num_tanks <= i,
            num_healers <= i,
            num_tanks == roles.take(i as int).to_multiset().count(Some(Role::Tank)),
            num_healers == roles.take(i as int).to_multiset().count(Some(Role::Healer)),
            all_open <==> forall|j: int| 0 <= j < i ==> levels[j] > 0,
            all_max <==> forall|j: int| 0 <= j < i ==> levels[j] == 0 || levels[j] >= LEVEL_CAP,
        decreases n - i,
    {
        let job = party.chosen_job(assignment, i);
        proof {
            broadcast use group_to_multiset_ensures, group_multiset_axioms;

            assert(roles.take(i + 1) =~= roles.take(i as int).push(roles[i as int]));
            assert(levels[i as int] == job@.level);
        }
        match role_of(job.class_id) {
            Some(Role::Tank) => {
                num_tanks += 1;
            },
            Some(Role::Healer) => {
                num_healers += 1;
            },
            _ => {},
        }
        if job.level == 0 {
            all_open = false;
        } else if job.level < LEVEL_CAP {
            all_max = false;
        }
        i += 1;
    }
    assert(roles.take(n as int) =~= roles);
    num_tanks == 1 && num_healers == 1 && all_open && !all_max
}

} // verus!
