//! What the remote lookups hand back, and what is read off the answers.

use vstd::prelude::*;

verus! {

/// The names of the servers that exist.
#[derive(Clone, Debug, PartialEq, Eq)]
pub struct ServerList {
    pub servers: Vec<String>,
}

impl ServerList {
    /// Whether a server of exactly this name exists.
    pub fn server_exists(&self, name: &str) -> (found: bool)
        ensures
            found <==> exists|i: int| 0 <= i < self.servers@.len() && self.servers@[i]@ == name@,
    {
        let wanted = name.to_owned();
        let mut i: usize = 0;
        while i < self.servers.len()
            invariant
                i <= self.servers@.len(),
                wanted@ == name@,
                forall|k: int| 0 <= k < i ==> self.servers@[k]@ != name@,
            decreases self.servers@.len() - i,
        {
            if self.servers[i] == wanted {
                return true;
            }
            i += 1;
        }
        false
    }
}

/// How many players a search matched.
#[derive(Clone, Copy, Debug, PartialEq, Eq)]
pub struct Pagination {
    pub results: u8,
}

/// One player that a search by name matched.
#[derive(Clone, Debug, PartialEq, Eq)]
pub struct PlayerSearchEntry {
    pub id: u32,
    pub name: String,
}

/// The answer to a search for a player by name.
#[derive(Clone, Debug, PartialEq, Eq)]
pub struct PlayerSearchResult {
    pub pagination: Pagination,
    pub results: Vec<PlayerSearchEntry>,
}

/// What a search for a player by name came to.
#[derive(Debug)]
pub enum Match<'a> {
    /// Exactly one player has the name.
    Found(&'a PlayerSearchEntry),
    /// No player has the name.
    NotFound,
    /// Several players have the name.
    Ambiguous,
}

impl PlayerSearchResult {
    /// An answer that announces a match also lists one.
    pub open spec fn consistent(&self) -> bool {
        self.pagination.results == 1 ==> self.results@.len() >= 1
    }

    /// Whether an answer that announces a match also lists one.
    pub fn is_consistent(&self) -> (ok: bool)
        ensures
            ok == self.consistent(),
    {
        self.pagination.results != 1 || self.results.len() >= 1
    }

    /// Reads the outcome off the announced number of matches: the first
    /// listed player for one match, nobody for none, and no choice for more.
    pub fn single(&self) -> (outcome: Match<'_>)
        requires
            self.consistent(),
        ensures
            self.pagination.results == 1 <==> outcome == Match::Found(&self.results@[0]),
            self.pagination.results == 0 <==> outcome == Match::NotFound,
            self.pagination.results > 1 <==> outcome == Match::Ambiguous,
    {
        if self.pagination.results == 1 {
            Match::Found(&self.results[0])
        } else if self.pagination.results == 0 {
            Match::NotFound
        } else {
            Match::Ambiguous
        }
    }
}

} // verus!
