//! Quota observations.

use crate::double::Double;
use crate::timestamp::Timestamp;
use vstd::prelude::*;

verus! {

/// What a quota source reports at one instant.
#[derive(Clone, Debug, PartialEq)]
pub struct QuotaSnapshot {
    pub observed_at: Timestamp,
    pub fresh: bool,
    pub windows: Vec<QuotaWindow>,
}

/// One reset window of a quota.
#[derive(Clone, Debug, PartialEq)]
pub struct QuotaWindow {
    pub id: String,
    pub used_fraction: Double,
    pub resets_at: Timestamp,
    pub duration_minutes: Option<u64>,
    pub reached: bool,
}

/// A snapshot that does not say otherwise is fresh.
pub fn default_true() -> (fresh: bool)
    ensures
        fresh,
{
    true
}

} // verus!
