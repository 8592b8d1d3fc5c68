//! Balanced party selection for cooperative levelling.
//!
//! Every player of a party owns several jobs, each with its own level. The
//! library picks one job per player so that the party holds exactly one tank
//! and one healer, nobody plays a locked job and somebody still has levels to
//! gain, and it ranks all such selections by how close the chosen levels are.
//!
//! The modules follow the data flow: [`roles`] classifies jobs, [`party`]
//! holds the data, [`enumerate`] walks every selection, [`validate`] filters,
//! [`score`] rates, [`ranking`] orders, [`search`] ties them together and
//! [`present`] hands the results out one at a time. [`lookup`] and [`roster`]
//! serve the front end that gathers the players.

pub mod enumerate;
pub mod lookup;
pub mod party;
pub mod present;
pub mod ranking;
pub mod roles;
pub mod roster;
pub mod score;
pub mod search;
pub mod validate;
