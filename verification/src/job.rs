//! The jobs contract.

use vstd::prelude::*;
use crate::order::Ranked;
use crate::site::HourIndex;
use crate::tiers::Tier;

verus! {

/// A job's number in its file. **Data.**
#[derive(Debug, Clone, Copy, PartialEq, Eq, Structural)]
pub struct JobId(pub u32);

impl JobId {
    /// The id with this number. **Calculation.**
    #[must_use]
    pub fn new(id: u32) -> (j: JobId)
        ensures
            j.0 == id,
    {
        JobId(id)
    }

    /// The id's number. **Calculation.**
    #[must_use]
    pub fn get(self) -> (id: u32)
        ensures
            id == self.0,
    {
        self.0
    }
}

/// One row of the jobs contract. **Data.**
#[derive(Debug, Clone, Copy, PartialEq, Eq, Structural)]
pub struct Job {
    pub id: JobId,
    pub tier: Tier,
    pub gpus: u32,
    /// How long the job ran.
    pub actual_seconds: u32,
    pub arrival: HourIndex,
    /// The hours asked for, 0 where that is unknown.
    pub requested_hours: u32,
    pub deadline: HourIndex,
    pub pad_hours: u32,
}

impl View for Job {
    type V = Job;

    open spec fn view(&self) -> Job {
        *self
    }
}

/// Jobs stand in `(arrival, id)` order.
impl Ranked for Job {
    open spec fn in_order(a: Job, b: Job) -> bool {
        a.arrival.0 < b.arrival.0 || (a.arrival.0 == b.arrival.0 && a.id.0 <= b.id.0)
    }

    proof fn total(a: Job, b: Job) {
    }

    proof fn transitive(a: Job, b: Job, c: Job) {
    }

    fn not_after(&self, other: &Job) -> (b: bool) {
        self.arrival.0 < other.arrival.0 || (self.arrival.0 == other.arrival.0 && self.id.0
            <= other.id.0)
    }
}

}
