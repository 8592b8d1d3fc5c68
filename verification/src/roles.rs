//! The fixed tables that assign a role to a job identifier.

use vstd::prelude::*;

verus! {

/// The highest level a job can reach.
pub const LEVEL_CAP: u8 = 80;

/// The category a job belongs to.
#[derive(Clone, Copy, Debug, PartialEq, Eq, Structural)]
pub enum Role {
    Tank,
    Healer,
    Dps,
}

/// The job identifiers that count as tanks.
pub open spec fn tank_jobs() -> Set<u8> {
    set![1u8, 3u8, 32u8, 37u8]
}

/// The job identifiers that count as healers.
pub open spec fn healer_jobs() -> Set<u8> {
    set![6u8, 26u8, 33u8]
}

/// The job identifiers that count as damage dealers.
pub open spec fn dps_jobs() -> Set<u8> {
    set![2u8, 4u8, 5u8, 7u8, 29u8, 31u8, 34u8, 35u8, 38u8]
}

/// The role of a job: the table that lists it, if any does.
pub open spec fn role_of_spec(job_id: u8) -> Option<Role> {
    if tank_jobs().contains(job_id) {
        Some(Role::Tank)
    } else if healer_jobs().contains(job_id) {
        Some(Role::Healer)
    } else if dps_jobs().contains(job_id) {
        Some(Role::Dps)
    } else {
        None
    }
}

/// No job identifier is listed under two roles.
pub proof fn lemma_role_tables_disjoint()
    ensures
        tank_jobs().disjoint(healer_jobs()),
        tank_jobs().disjoint(dps_jobs()),
        healer_jobs().disjoint(dps_jobs()),
{
}

/// A job has a role exactly when the table of that role lists it.
pub proof fn lemma_role_matches_table(job_id: u8)
    ensures
        role_of_spec(job_id) == Some(Role::Tank) <==> tank_jobs().contains(job_id),
        role_of_spec(job_id) == Some(Role::Healer) <==> healer_jobs().contains(job_id),
        role_of_spec(job_id) == Some(Role::Dps) <==> dps_jobs().contains(job_id),
        role_of_spec(job_id) is None <==> !(tank_jobs() + healer_jobs() + dps_jobs()).contains(
            job_id,
        ),
{
}

/// Looks a job identifier up in the role tables.
pub fn role_of(job_id: u8) -> (role: Option<Role>)
    ensures
        role == role_of_spec(job_id),
{
    if job_id == 1 || job_id == 3 || job_id == 32 || job_id == 37 {
        Some(Role::Tank)
    } else if job_id == 6 || job_id == 26 || job_id == 33 {
        Some(Role::Healer)
    } else if job_id == 2 || job_id == 4 || job_id == 5 || job_id == 7 || job_id == 29 || job_id
        == 31 || job_id == 34 || job_id == 35 || job_id == 38 {
        Some(Role::Dps)
    } else {
        None
    }
}

/// Whether a job takes part in party selection at all.
pub fn has_role(job_id: u8) -> (listed: bool)
    ensures
        listed == role_of_spec(job_id).is_some(),
{
    role_of(job_id).is_some()
}

} // verus!
