//! Jobs, players and parties, with the mathematical view of each.

use vstd::prelude::*;
use crate::enumerate::as_nats;
use crate::enumerate::well_formed;
use crate::roles::has_role;
use crate::roles::role_of_spec;
use crate::roles::Role;

verus! {

/// The smallest party the search accepts.
pub const MIN_PARTY_SIZE: usize = 2;

/// The largest party the search accepts.
pub const MAX_PARTY_SIZE: usize = 4;

/// One job of one player, with the level the player has reached in it.
///
/// Level 0 means that the player has not unlocked the job.
#[derive(Clone, Debug, PartialEq, Eq)]
pub struct ClassJob {
    pub class_id: u8,
    pub level: u8,
    pub name: String,
}

/// What a [`ClassJob`] stands for.
pub struct JobView {
    pub class_id: u8,
    pub level: u8,
    pub name: Seq<char>,
}

impl View for ClassJob {
    type V = JobView;

    open spec fn view(&self) -> JobView {
        JobView { class_id: self.class_id, level: self.level, name: self.name@ }
    }
}

impl ClassJob {
    /// A job record from its parts.
    pub fn new(class_id: u8, level: u8, name: String) -> (job: ClassJob)
        ensures
            job@ == (JobView { class_id, level, name: name@ }),
    {
        ClassJob { class_id, level, name }
    }

    /// The job's display name.
    pub fn name(&self) -> (name: &str)
        ensures
            name@ == self@.name,
    {
        self.name.as_str()
    }
}

/// A player with the jobs the search may pick from, in a fixed order.
#[derive(Clone, Debug, PartialEq, Eq)]
pub struct PlayerCharacter {
    pub class_jobs: Vec<ClassJob>,
    pub name: String,
}

/// What a [`PlayerCharacter`] stands for.
pub struct MemberView {
    pub name: Seq<char>,
    pub jobs: Seq<JobView>,
}

/// The views of a sequence of jobs, in order.
pub open spec fn jobs_view(jobs: Seq<ClassJob>) -> Seq<JobView> {
    jobs.map_values(|job: ClassJob| job@)
}

impl View for PlayerCharacter {
    type V = MemberView;

    open spec fn view(&self) -> MemberView {
        MemberView { name: self.name@, jobs: jobs_view(self.class_jobs@) }
    }
}

/// The test that a job passes when the role tables list it.
pub open spec fn listed() -> spec_fn(JobView) -> bool {
    |job: JobView| role_of_spec(job.class_id).is_some()
}

/// The jobs that take part in party selection, in their old order.
pub open spec fn eligible(jobs: Seq<JobView>) -> Seq<JobView> {
    jobs.filter(listed())
}

impl PlayerCharacter {
    /// Drops the jobs that have no role and keeps the others in order.
    pub fn retain_eligible(&mut self)
        ensures
            final(self)@.name == old(self)@.name,
            final(self)@.jobs == eligible(old(self)@.jobs),
    {
        let ghost before = jobs_view(self.class_jobs@);
        let ghost mut seen: int = 0;
        let mut kept: usize = 0;
        proof {
            reveal(Seq::filter);
            assert(before.take(0).filter(listed()) =~= jobs_view(self.class_jobs@).take(0));
        }
        while kept < self.class_jobs.len()
            invariant
                self.name == old(self).name,
                0 <= seen <= before.len(),
                kept <= self.class_jobs@.len(),
                self.class_jobs@.len() - kept == before.len() - seen,
                jobs_view(self.class_jobs@).take(kept as int) == before.take(seen).filter(listed()),
                jobs_view(self.class_jobs@).skip(kept as int) == before.skip(seen),
            decreases self.class_jobs@.len() - kept,
        {
            let ghost current = jobs_view(self.class_jobs@);
            proof {
                assert(current[kept as int] == current.skip(kept as int)[0]);
                assert(before[seen] == before.skip(seen)[0]);
                before.take(seen).lemma_filter_push(before[seen], listed());
                assert(before.take(seen + 1) =~= before.take(seen).push(before[seen]));
            }
            if has_role(self.class_jobs[kept].class_id) {
                proof {
                    assert(current.take(kept + 1) =~= current.take(kept as int).push(
                        current[kept as int],
                    ));
                    assert(current.skip(kept + 1) =~= current.skip(kept as int).skip(1));
                    assert(before.skip(seen + 1) =~= before.skip(seen).skip(1));
                }
                kept += 1;
            } else {
                self.class_jobs.remove(kept);
                proof {
                    let after = jobs_view(self.class_jobs@);
                    assert(after =~= current.remove(kept as int));
                    assert(after.take(kept as int) =~= current.take(kept as int));
                    assert(after.skip(kept as int) =~= current.skip(kept as int).skip(1));
                    assert(before.skip(seen + 1) =~= before.skip(seen).skip(1));
                }
            }
            proof {
                seen = seen + 1;
            }
        }
        proof {
            assert(jobs_view(self.class_jobs@).take(kept as int) =~= jobs_view(self.class_jobs@));
            assert(before.take(seen) =~= before);
        }
    }
}

/// The views of a sequence of players, in order.
pub open spec fn members_view(members: Seq<PlayerCharacter>) -> Seq<MemberView> {
    members.map_values(|member: PlayerCharacter| member@)
}

/// How many jobs each member of a party offers.
pub open spec fn job_counts(party: Seq<MemberView>) -> Seq<nat> {
    Seq::new(party.len(), |i: int| party[i].jobs.len())
}

/// The job that an assignment picks for the member at a position.
pub open spec fn chosen_job(party: Seq<MemberView>, assignment: Seq<nat>, position: int) -> JobView {
    party[position].jobs[assignment[position] as int]
}

/// The levels of the jobs that an assignment picks, in member order.
pub open spec fn chosen_levels(party: Seq<MemberView>, assignment: Seq<nat>) -> Seq<int> {
    Seq::new(party.len(), |i: int| chosen_job(party, assignment, i).level as int)
}

/// The roles of the jobs that an assignment picks, in member order.
pub open spec fn chosen_roles(party: Seq<MemberView>, assignment: Seq<nat>) -> Seq<Option<Role>> {
    Seq::new(party.len(), |i: int| role_of_spec(chosen_job(party, assignment, i).class_id))
}

/// Why a group of players is no party.
#[derive(Clone, Copy, Debug, PartialEq, Eq, Structural)]
pub enum PartyError {
    /// Fewer than [`MIN_PARTY_SIZE`] players.
    TooFewMembers,
    /// More than [`MAX_PARTY_SIZE`] players.
    TooManyMembers,
}

/// Two to four players, fixed for the length of a search.
#[derive(Debug)]
pub struct Party {
    pub(crate) members: Vec<PlayerCharacter>,
}

impl View for Party {
    type V = Seq<MemberView>;

    closed spec fn view(&self) -> Seq<MemberView> {
        members_view(self.members@)
    }
}

impl Party {
    #[verifier::type_invariant]
    pub(crate) closed spec fn size_in_range(&self) -> bool {
        MIN_PARTY_SIZE <= self.members@.len() <= MAX_PARTY_SIZE
    }

    /// Forms a party, keeping the players and their jobs in the order given.
    pub fn new(members: Vec<PlayerCharacter>) -> (party: Result<Party, PartyError>)
        ensures
            members@.len() < MIN_PARTY_SIZE <==> party == Err::<Party, PartyError>(
                PartyError::TooFewMembers,
            ),
            members@.len() > MAX_PARTY_SIZE <==> party == Err::<Party, PartyError>(
                PartyError::TooManyMembers,
            ),
            MIN_PARTY_SIZE <= members@.len() <= MAX_PARTY_SIZE <==> party.is_ok(),
            party matches Ok(p) ==> p@ == members_view(members@),
    {
        if members.len() < MIN_PARTY_SIZE {
            Err(PartyError::TooFewMembers)
        } else if members.len() > MAX_PARTY_SIZE {
            Err(PartyError::TooManyMembers)
        } else {
            Ok(Party { members })
        }
    }

    /// The number of members.
    pub fn len(&self) -> (n: usize)
        ensures
            n == self@.len(),
            MIN_PARTY_SIZE <= n <= MAX_PARTY_SIZE,
    {
        proof {
            use_type_invariant(self);
        }
        self.members.len()
    }

    /// The members, in order.
    pub fn members(&self) -> (members: &Vec<PlayerCharacter>)
        ensures
            members_view(members@) == self@,
            MIN_PARTY_SIZE <= members@.len() <= MAX_PARTY_SIZE,
    {
        proof {
            use_type_invariant(self);
        }
        &self.members
    }

    /// Whether a sequence of indices picks one existing job of each member.
    pub fn admits(&self, assignment: &Vec<usize>) -> (ok: bool)
        ensures
            ok == well_formed(job_counts(self@), as_nats(assignment@)),
    {
        let n: usize = self.members.len();
        if assignment.len() != n {
            return false;
        }
        let mut i: usize = 0;
        while i < n
            invariant
                n == self.members@.len(),
                n == assignment@.len(),
                i <= n,
                forall|k: int|
                    0 <= k < i ==> (#[trigger] as_nats(assignment@)[k]) < job_counts(self@)[k],
            decreases n - i,
        {
            if assignment[i] >= self.members[i].class_jobs.len() {
                assert(!(as_nats(assignment@)[i as int] < job_counts(self@)[i as int]));
                return false;
            }
            i += 1;
        }
        true
    }

    /// The member at a position, if the party is that large.
    pub fn member(&self, position: usize) -> (member: Option<&PlayerCharacter>)
        ensures
            position >= self@.len() <==> member is None,
            member matches Some(m) ==> m@ == self@[position as int],
    {
        if position < self.members.len() {
            Some(&self.members[position])
        } else {
            None
        }
    }

    /// The job at a position of a member's list, if both positions exist.
    pub fn job(&self, position: usize, choice: usize) -> (job: Option<&ClassJob>)
        ensures
            job is Some <==> position < self@.len() && choice < self@[position as int].jobs.len(),
            job matches Some(j) ==> j@ == self@[position as int].jobs[choice as int],
    {
        if position < self.members.len() {
            let member = &self.members[position];
            if choice < member.class_jobs.len() {
                Some(&member.class_jobs[choice])
            } else {
                None
            }
        } else {
            None
        }
    }

    /// The job that a well-formed assignment picks for a member.
    pub fn chosen_job(&self, assignment: &Vec<usize>, position: usize) -> (job: &ClassJob)
        requires
            well_formed(job_counts(self@), as_nats(assignment@)),
            position < self@.len(),
        ensures
            job@ == chosen_job(self@, as_nats(assignment@), position as int),
    {
        assert(as_nats(assignment@)[position as int] < job_counts(self@)[position as int]);
        &self.members[position].class_jobs[assignment[position]]
    }

    /// How many jobs each member offers, in member order.
    pub fn job_counts(&self) -> (counts: Vec<usize>)
        ensures
            counts@.len() == self@.len(),
            forall|i: int| 0 <= i < counts@.len() ==> counts@[i] == #[trigger] job_counts(self@)[i],
    {
        let mut counts: Vec<usize> = Vec::new();
        let n: usize = self.members.len();
        let mut i: usize = 0;
        while i < n
            invariant
                n == self.members@.len(),
                i <= n,
                counts@.len() == i,
                forall|k: int|
                    0 <= k < i ==> counts@[k] == #[trigger] self.members@[k].class_jobs@.len(),
            decreases n - i,
        {
            counts.push(self.members[i].class_jobs.len());
            i += 1;
        }
        counts
    }
}

} // verus!
