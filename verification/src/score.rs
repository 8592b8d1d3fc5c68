//! How well balanced a selection is: the spread of the chosen levels.

use vstd::prelude::*;
use crate::enumerate::as_nats;
use crate::enumerate::well_formed;
use crate::party::chosen_levels;
use crate::party::job_counts;
use crate::party::MemberView;
use crate::party::Party;

verus! {

/// A selection with its rating.
#[derive(Clone, Debug, PartialEq, Eq)]
pub struct PartyConfig {
    /// The position of the chosen job in each member's list.
    pub index: Vec<usize>,
    /// The spread of the chosen levels; lower is better balanced.
    pub var: u32,
    /// The mean of the chosen levels, rounded down.
    pub avg: u32,
}

/// What a [`PartyConfig`] stands for.
pub struct ConfigView {
    pub index: Seq<nat>,
    pub var: nat,
    pub avg: nat,
}

impl View for PartyConfig {
    type V = ConfigView;

    open spec fn view(&self) -> ConfigView {
        ConfigView { index: as_nats(self.index@), var: self.var as nat, avg: self.avg as nat }
    }
}

/// The distance between two levels.
pub open spec fn gap(a: int, b: int) -> nat {
    if a >= b {
        (a - b) as nat
    } else {
        (b - a) as nat
    }
}

/// The distances from member `i` to each other member among the first `n`.
pub open spec fn row_gaps(levels: Seq<int>, i: int, n: nat) -> nat
    decreases n,
{
    if n == 0 {
        0
    } else if n - 1 == i {
        row_gaps(levels, i, (n - 1) as nat)
    } else {
        row_gaps(levels, i, (n - 1) as nat) + gap(levels[i], levels[n - 1])
    }
}

/// The distances from each of the first `m` members to each other member
/// among the first `n`.
pub open spec fn pair_gaps(levels: Seq<int>, m: nat, n: nat) -> nat
    decreases m,
{
    if m == 0 {
        0
    } else {
        pair_gaps(levels, (m - 1) as nat, n) + row_gaps(levels, m - 1, n)
    }
}

/// The distances between the members of each pair, every pair taken once.
pub open spec fn unordered_gaps(levels: Seq<int>, m: nat) -> nat
    decreases m,
{
    if m == 0 {
        0
    } else {
        unordered_gaps(levels, (m - 1) as nat) + row_gaps(levels, m - 1, (m - 1) as nat)
    }
}

/// The spread of a party's levels: the sum of the distances over every
/// ordered pair of distinct members, so that each pair counts twice.
pub open spec fn variance(levels: Seq<int>) -> nat {
    pair_gaps(levels, levels.len(), levels.len())
}

/// The sum of the first `n` levels.
pub open spec fn level_sum(levels: Seq<int>, n: nat) -> int
    decreases n,
{
    if n == 0 {
        0
    } else {
        level_sum(levels, (n - 1) as nat) + levels[n - 1]
    }
}

/// The mean level, rounded down.
pub open spec fn average(levels: Seq<int>) -> int {
    level_sum(levels, levels.len()) / (levels.len() as int)
}

/// The rated selection that an assignment gives.
pub open spec fn config_of(party: Seq<MemberView>, assignment: Seq<nat>) -> ConfigView {
    ConfigView {
        index: assignment,
        var: variance(chosen_levels(party, assignment)),
        avg: average(chosen_levels(party, assignment)) as nat,
    }
}

/// Taking one more member into view adds, for each member already counted,
/// its distance to the new one.
proof fn lemma_pair_gaps_widen(levels: Seq<int>, m: nat, n: nat)
    requires
        m <= n,
    ensures
        pair_gaps(levels, m, n + 1) == pair_gaps(levels, m, n) + row_gaps(levels, n as int, m),
    decreases m,
{
    if m > 0 {
        lemma_pair_gaps_widen(levels, (m - 1) as nat, n);
        assert(gap(levels[m - 1], levels[n as int]) == gap(levels[n as int], levels[m - 1]));
    }
}

/// Among the first `n` members, the ordered pairs weigh twice the unordered.
proof fn lemma_pair_gaps_double(levels: Seq<int>, n: nat)
    ensures
        pair_gaps(levels, n, n) == 2 * unordered_gaps(levels, n),
    decreases n,
{
    if n > 0 {
        let k = (n - 1) as nat;
        lemma_pair_gaps_double(levels, k);
        lemma_pair_gaps_widen(levels, k, k);
    }
}

/// The spread is twice the sum, over the unordered pairs of members, of the
/// distance between their levels; so it is always even.
pub proof fn lemma_variance_counts_pairs_twice(levels: Seq<int>)
    ensures
        variance(levels) == 2 * unordered_gaps(levels, levels.len()),
        variance(levels) % 2 == 0,
{
    lemma_pair_gaps_double(levels, levels.len());
}

/// The distance between two levels.
fn level_gap(a: u8, b: u8) -> (d: u8)
    ensures
        d == gap(a as int, b as int),
{
    if a >= b {
        a - b
    } else {
        b - a
    }
}

/// Rates a well-formed assignment.
///
/// The search rates only assignments that meet the rules; the rating itself
/// is defined for every well-formed one.
pub fn score(party: &Party, assignment: Vec<usize>) -> (config: PartyConfig)
    requires
        well_formed(job_counts(party@), as_nats(assignment@)),
    ensures
        config@ == config_of(party@, as_nats(assignment@)),
        config.index@ == assignment@,
{
    let ghost levels = chosen_levels(party@, as_nats(assignment@));
    let n: usize = party.len();
    let mut var: u32 = 0;
    let mut sum: u32 = 0;
    let mut i: usize = 0;
    while i < n
        invariant
            n == party@.len(),
            n <= 4,
            i <= n,
            well_formed(job_counts(party@), as_nats(assignment@)),
            levels == chosen_levels(party@, as_nats(assignment@)),
            var == pair_gaps(levels, i as nat, n as nat),
            var <= 1020 * i,
            sum == level_sum(levels, i as nat),
            sum <= 255 * i,
        decreases n - i,
    {
        let level: u8 = party.chosen_job(&assignment, i).level;
        let mut row: u32 = 0;
        let mut j: usize = 0;
        while j < n
            invariant
                n == party@.len(),
                n <= 4,
                i < n,
                j <= n,
                well_formed(job_counts(party@), as_nats(assignment@)),
                levels == chosen_levels(party@, as_nats(assignment@)),
                level == levels[i as int],
                row == row_gaps(levels, i as int, j as nat),
                row <= 255 * j,
            decreases n - j,
        {
            if i != j {
                let other: u8 = party.chosen_job(&assignment, j).level;
                row += level_gap(level, other) as u32;
            }
            j += 1;
        }
        var += row;
        sum += level as u32;
        i += 1;
    }
    let avg: u32 = sum / (n as u32);
    PartyConfig { index: assignment, var, avg }
}

} // verus!
