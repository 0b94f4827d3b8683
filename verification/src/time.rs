//! The vector-valued travel cost: walking, bus-riding and waiting durations
//! (whole seconds) plus a boarding count. The total of the three durations is
//! the sole basis for ordering; the boarding count is carried for display and
//! analysis only. Field-wise addition saturates at the numeric maximum, the
//! integer analogue of the way a floating-point sum degrades to infinity.

use vstd::prelude::*;

verus! {

/// Accumulated travel cost along several independent dimensions.
///
/// Durations are whole seconds. `transfers` counts boardings and never
/// affects ordering.
#[derive(PartialEq, Eq, Structural, Clone, Copy, Debug)]
pub struct TimeCost {
    pub walk_time: u64,
    pub bus_time: u64,
    pub wait_time: u64,
    pub transfers: u32,
}

/// `a + b` capped at `u64::MAX`.
pub open spec fn sat_add64(a: u64, b: u64) -> u64 {
    if a + b > u64::MAX {
        u64::MAX
    } else {
        (a + b) as u64
    }
}

/// `a + b` capped at `u32::MAX`.
pub open spec fn sat_add32(a: u32, b: u32) -> u32 {
    if a + b > u32::MAX {
        u32::MAX
    } else {
        (a + b) as u32
    }
}

impl TimeCost {
    /// The mathematical total of the three duration fields.
    pub open spec fn total_spec(self) -> int {
        self.walk_time + self.bus_time + self.wait_time
    }

    /// Field-wise saturating addition, the combination rule of the cost model.
    pub open spec fn spec_plus(self, other: TimeCost) -> TimeCost {
        TimeCost {
            walk_time: sat_add64(self.walk_time, other.walk_time),
            bus_time: sat_add64(self.bus_time, other.bus_time),
            wait_time: sat_add64(self.wait_time, other.wait_time),
            transfers: sat_add32(self.transfers, other.transfers),
        }
    }

    /// The all-zero cost, the identity of `plus`.
    pub open spec fn zero_spec() -> TimeCost {
        TimeCost { walk_time: 0, bus_time: 0, wait_time: 0, transfers: 0 }
    }

    /// Every duration set to `a`; used as a reduction sentinel, never as a result.
    pub fn with_all(a: u64) -> (r: TimeCost)
        ensures
            r == (TimeCost { walk_time: a, bus_time: a, wait_time: a, transfers: 0 }),
    {
        TimeCost { walk_time: a, bus_time: a, wait_time: a, transfers: 0 }
    }

    /// A pure walking cost.
    pub fn of_walking(a: u64) -> (r: TimeCost)
        ensures
            r == (TimeCost { walk_time: a, bus_time: 0, wait_time: 0, transfers: 0 }),
    {
        TimeCost { walk_time: a, bus_time: 0, wait_time: 0, transfers: 0 }
    }

    /// A pure bus-riding cost; boarding a bus counts one transfer.
    pub fn of_bus(a: u64) -> (r: TimeCost)
        ensures
            r == (TimeCost { walk_time: 0, bus_time: a, wait_time: 0, transfers: 1 }),
    {
        TimeCost { walk_time: 0, bus_time: a, wait_time: 0, transfers: 1 }
    }

    /// A pure waiting cost.
    pub fn of_waiting(a: u64) -> (r: TimeCost)
        ensures
            r == (TimeCost { walk_time: 0, bus_time: 0, wait_time: a, transfers: 0 }),
    {
        TimeCost { walk_time: 0, bus_time: 0, wait_time: a, transfers: 0 }
    }

    /// The all-zero cost.
    pub fn zero() -> (r: TimeCost)
        ensures
            r == TimeCost::zero_spec(),
    {
        TimeCost { walk_time: 0, bus_time: 0, wait_time: 0, transfers: 0 }
    }

    /// Whether the total duration is zero (the boarding count is ignored).
    pub fn is_zero(&self) -> (r: bool)
        ensures
            r == (self.total_spec() == 0),
    {
        self.walk_time == 0 && self.bus_time == 0 && self.wait_time == 0
    }

    /// The total duration, capped at `u64::MAX` where the mathematical sum
    /// does not fit.
    pub fn total(&self) -> (r: u64)
        ensures
            r == sat_add64(sat_add64(self.walk_time, self.bus_time), self.wait_time),
            self.total_spec() <= u64::MAX ==> r == self.total_spec(),
    {
        self.walk_time.saturating_add(self.bus_time).saturating_add(self.wait_time)
    }

    /// Field-wise saturating addition.
    pub fn plus(self, other: TimeCost) -> (r: TimeCost)
        ensures
            r == self.spec_plus(other),
    {
        TimeCost {
            walk_time: self.walk_time.saturating_add(other.walk_time),
            bus_time: self.bus_time.saturating_add(other.bus_time),
            wait_time: self.wait_time.saturating_add(other.wait_time),
            transfers: self.transfers.saturating_add(other.transfers),
        }
    }

    /// Exact strict comparison of total durations. Costs with equal totals
    /// but different component splits compare as equal.
    pub fn lt_total(&self, other: &TimeCost) -> (r: bool)
        ensures
            r == (self.total_spec() < other.total_spec()),
    {
        let a: u128 = self.walk_time as u128 + self.bus_time as u128 + self.wait_time as u128;
        let b: u128 = other.walk_time as u128 + other.bus_time as u128 + other.wait_time as u128;
        a < b
    }
}

/// Law: cost combination is commutative.
pub proof fn lemma_plus_commutative(a: TimeCost, b: TimeCost)
    ensures
        a.spec_plus(b) == b.spec_plus(a),
{
}

/// Law: cost combination is associative.
pub proof fn lemma_plus_associative(a: TimeCost, b: TimeCost, c: TimeCost)
    ensures
        a.spec_plus(b).spec_plus(c) == a.spec_plus(b.spec_plus(c)),
{
}

/// Law: the total of a combined cost is the sum of the totals, whenever that
/// sum fits the numeric range (no field saturates).
pub proof fn lemma_plus_total(a: TimeCost, b: TimeCost)
    requires
        a.total_spec() + b.total_spec() <= u64::MAX,
    ensures
        a.spec_plus(b).total_spec() == a.total_spec() + b.total_spec(),
{
}

/// Law: the all-zero cost is the identity of combination.
pub proof fn lemma_plus_zero_identity(a: TimeCost)
    ensures
        a.spec_plus(TimeCost::zero_spec()) == a,
        TimeCost::zero_spec().spec_plus(a) == a,
{
}

} // verus!
