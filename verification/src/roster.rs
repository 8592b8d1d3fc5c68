//! Gathering the players of a party one by one.

use vstd::prelude::*;
use crate::party::eligible;
use crate::party::members_view;
use crate::party::MemberView;
use crate::party::Party;
use crate::party::PartyError;
use crate::party::PlayerCharacter;
use crate::party::MAX_PARTY_SIZE;
use crate::party::MIN_PARTY_SIZE;

verus! {

/// The players gathered so far: at most [`MAX_PARTY_SIZE`] of them, each
/// with the jobs that take part in party selection.
#[derive(Debug)]
pub struct Roster {
    members: Vec<PlayerCharacter>,
}

impl View for Roster {
    type V = Seq<MemberView>;

    closed spec fn view(&self) -> Seq<MemberView> {
        members_view(self.members@)
    }
}

impl Roster {
    #[verifier::type_invariant]
    closed spec fn size_in_range(&self) -> bool {
        self.members@.len() <= MAX_PARTY_SIZE
    }

    /// A roster without players.
    pub fn new() -> (roster: Roster)
        ensures
            roster@ == Seq::<MemberView>::empty(),
    {
        Roster { members: Vec::new() }
    }

    /// The number of players gathered.
    pub fn len(&self) -> (n: usize)
        ensures
            n == self@.len(),
            n <= MAX_PARTY_SIZE,
    {
        proof {
            use_type_invariant(self);
        }
        self.members.len()
    }

    /// Whether to ask for another player: there is room for one, and the
    /// name that was entered last was not empty.
    pub fn wants_more(&self, last_name: &str) -> (more: bool)
        ensures
            more <==> last_name@.len() > 0 && self@.len() < MAX_PARTY_SIZE,
    {
        !last_name.is_empty() && self.members.len() < MAX_PARTY_SIZE
    }

    /// Takes a player in, with the jobs that have a role, where there is
    /// room; a full roster stays as it is. Tells whether the player was
    /// taken in.
    pub fn enlist(&mut self, member: PlayerCharacter) -> (taken: bool)
        ensures
            taken <==> old(self)@.len() < MAX_PARTY_SIZE,
            taken ==> final(self)@ == old(self)@.push(
                MemberView { name: member@.name, jobs: eligible(member@.jobs) },
            ),
            !taken ==> final(self)@ == old(self)@,
    {
        proof {
            use_type_invariant(&*self);
        }
        if self.members.len() >= MAX_PARTY_SIZE {
            return false;
        }
        let mut member = member;
        member.retain_eligible();
        let mut members: Vec<PlayerCharacter> = Vec::new();
        core::mem::swap(&mut members, &mut self.members);
        members.push(member);
        self.members = members;
        true
    }

    /// Forms the party, if at least [`MIN_PARTY_SIZE`] players were gathered.
    pub fn into_party(self) -> (party: Result<Party, PartyError>)
        ensures
            self@.len() < MIN_PARTY_SIZE <==> party == Err::<Party, PartyError>(
                PartyError::TooFewMembers,
            ),
            self@.len() >= MIN_PARTY_SIZE <==> party.is_ok(),
            party matches Ok(p) ==> p@ == self@,
    {
        proof {
            use_type_invariant(&self);
        }
        Party::new(self.members)
    }
}

} // verus!
