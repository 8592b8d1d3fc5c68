//! Handing the results out one at a time, for a front end that shows each
//! and then waits for a line of input.

use vstd::prelude::*;
use crate::enumerate::well_formed;
use crate::party::chosen_job;
use crate::party::job_counts;
use crate::party::MemberView;
use crate::party::Party;
use crate::ranking::is_best;
use crate::ranking::RankingStore;
use crate::score::PartyConfig;

verus! {

/// The input that ends the presentation.
pub open spec fn quit_token() -> Seq<char> {
    seq!['q']
}

/// What the front end does next.
#[derive(Debug)]
pub enum Step {
    /// Show this selection, then read a line of input.
    Show(PartyConfig),
    /// Nothing more to show.
    Stop,
}

/// Whether a line of input asks to stop.
pub fn is_quit(input: &str) -> (quit: bool)
    ensures
        quit == (input@ == quit_token()),
{
    if input.unicode_len() == 1 {
        let first = input.get_char(0);
        assert(first == 'q' ==> input@ =~= quit_token());
        first == 'q'
    } else {
        false
    }
}

/// Decides the next step from the store and the line that was read last.
///
/// The presentation stops when that line is the quit token or the store is
/// empty, and the store is then left as it is. Any other line, an empty one
/// too, takes a best selection out of the store to be shown.
pub fn next_step(store: &mut RankingStore, input: &str) -> (step: Step)
    requires
        old(store).wf(),
    ensures
        final(store).wf(),
        input@ == quit_token() || old(store)@.len() == 0 ==> step is Stop && final(store)@ == old(
            store,
        )@,
        input@ != quit_token() && old(store)@.len() > 0 ==> {
            &&& step matches Step::Show(config)
            &&& is_best(old(store)@, config@)
            &&& final(store)@ == old(store)@.remove(config@)
        },
{
    if is_quit(input) {
        return Step::Stop;
    }
    match store.pop_best() {
        Some(config) => Step::Show(config),
        None => Step::Stop,
    }
}

/// One line of a shown selection: a member with the job chosen for them.
#[derive(Clone, Debug, PartialEq, Eq)]
pub struct Line {
    pub member: String,
    pub job: String,
    pub level: u8,
}

/// What a [`Line`] stands for.
pub struct LineView {
    pub member: Seq<char>,
    pub job: Seq<char>,
    pub level: u8,
}

impl View for Line {
    type V = LineView;

    open spec fn view(&self) -> LineView {
        LineView { member: self.member@, job: self.job@, level: self.level }
    }
}

/// The line for the member at a position.
pub open spec fn line_of(party: Seq<MemberView>, assignment: Seq<nat>, position: int) -> LineView {
    LineView {
        member: party[position].name,
        job: chosen_job(party, assignment, position).name,
        level: chosen_job(party, assignment, position).level,
    }
}

/// The lines of a selection: for each member, in order, the member's name
/// with the name and the level of the job chosen for them.
pub fn lines(party: &Party, config: &PartyConfig) -> (lines: Vec<Line>)
    requires
        well_formed(job_counts(party@), config@.index),
    ensures
        lines@.len() == party@.len(),
        forall|i: int| 0 <= i < lines@.len() ==> (#[trigger] lines@[i])@ == line_of(
            party@,
            config@.index,
            i,
        ),
{
    let members = party.members();
    let n: usize = members.len();
    let mut lines: Vec<Line> = Vec::new();
    let mut i: usize = 0;
    while i < n
        invariant
            n == party@.len(),
            i <= n,
            well_formed(job_counts(party@), config@.index),
            crate::party::members_view(members@) == party@,
            lines@.len() == i,
            forall|k: int| 0 <= k < i ==> (#[trigger] lines@[k])@ == line_of(
                party@,
                config@.index,
                k,
            ),
        decreases n - i,
    {
        let job = party.chosen_job(&config.index, i);
        let line = Line {
            member: members[i].name.clone(),
            job: job.name.clone(),
            level: job.level,
        };
        lines.push(line);
        i += 1;
    }
    lines
}

} // verus!
