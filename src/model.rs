//! The values the tracker works with: resources, work units, per-resource
//! markets, errors and the tracker's policy.

use vstd::prelude::*;

verus! {

/// The floor of every required fee rate, in fee per capacity unit.
pub const MINIMUM_BASE_FEE_RATE: u64 = 5000;

/// The most work units that may be active at the same time.
pub const MAXIMUM_THREAD_COUNT: usize = 5;

/// Capacity units over which a fee rate doubles (or, cooling down, halves).
pub const CU_SCALE: u64 = 50_000;

/// Capacity units over which a reserved fee grows by 6%.
pub const COMPOUND_SCALE: u64 = 1_000_000;

/// The reserved fee of a market that has never been used.
pub const INITIAL_RESERVED_FEE: u64 = 0;

/// A contended, mutually exclusive resource.
#[derive(Clone, Copy, Debug, PartialEq, Eq, Structural, Default)]
pub struct Addr(pub u8);

/// The identity of a work unit.
#[derive(Clone, Copy, Debug, PartialEq, Eq, Structural, Default)]
pub struct TxId(pub u8);

/// A unit of work: the capacity it asks for, the fee rate it offers and the
/// resources it will hold while it runs.
#[derive(Clone, Debug)]
pub struct Tx {
    pub id: TxId,
    pub requested_cu: u64,
    pub supplied_fee_rate: u64,
    pub addrs: Vec<Addr>,
}

/// The identifiers of a sequence of resources.
pub open spec fn addr_ids(s: Seq<Addr>) -> Seq<u8> {
    s.map_values(|a: Addr| a.0)
}

/// No resource occurs twice in `s`.
pub open spec fn distinct_ids(s: Seq<Addr>) -> bool {
    forall|i: int, j: int| 0 <= i < j < s.len() ==> #[trigger] s[i].0 != #[trigger] s[j].0
}

/// `a * b`, capped at `u64::MAX`.
pub open spec fn sat_mul(a: u64, b: u64) -> u64 {
    if a * b > u64::MAX {
        u64::MAX
    } else {
        (a * b) as u64
    }
}

/// Computes `sat_mul(a, b)`.
pub fn saturating_mul(a: u64, b: u64) -> (r: u64)
    ensures
        r == sat_mul(a, b),
{
    match a.checked_mul(b) {
        Some(p) => p,
        None => u64::MAX,
    }
}

impl Tx {
    /// A work unit with identity `id`.
    pub fn new(id: u8, requested_cu: u64, supplied_fee_rate: u64, addrs: Vec<Addr>) -> (r: Self)
        ensures
            r.id == TxId(id),
            r.requested_cu == requested_cu,
            r.supplied_fee_rate == supplied_fee_rate,
            r.addrs@ == addrs@,
    {
        Tx { id: TxId(id), requested_cu, supplied_fee_rate, addrs }
    }

    /// The resources of the work unit, each named once.
    pub open spec fn has_distinct_addrs(&self) -> bool {
        distinct_ids(self.addrs@)
    }

    /// The fee the work unit offers in total.
    pub open spec fn supplied_fee(&self) -> u64 {
        sat_mul(self.supplied_fee_rate, self.requested_cu)
    }
}

/// The pricing state of one resource.
#[derive(Clone, Copy, Debug, PartialEq, Eq, Structural)]
pub struct LocalFeeMarket {
    /// The fee rate new work on this resource has to pay at least.
    pub required_fee_rate: u64,
    /// Credit from earlier overpayment, set against future required fees.
    pub reserved_fee: u64,
    /// The tracker's clock when the resource was last released.
    pub clock: u64,
    /// The congestion epoch in which the required rate was last set.
    pub reset_counter: u64,
    /// How many admissions in the recency window hold this resource.
    pub freq: u64,
    /// Whether an admitted, unsettled work unit holds this resource.
    pub is_active: bool,
}

impl LocalFeeMarket {
    /// The state of a resource first touched in epoch `reset_counter`.
    pub open spec fn fresh(reset_counter: u64) -> LocalFeeMarket {
        LocalFeeMarket {
            required_fee_rate: MINIMUM_BASE_FEE_RATE,
            reserved_fee: INITIAL_RESERVED_FEE,
            clock: 0,
            reset_counter,
            freq: 0,
            is_active: false,
        }
    }

    /// A market for a resource first touched in epoch `reset_counter`.
    pub fn new(reset_counter: u64) -> (r: Self)
        ensures
            r == Self::fresh(reset_counter),
    {
        LocalFeeMarket {
            required_fee_rate: MINIMUM_BASE_FEE_RATE,
            reserved_fee: INITIAL_RESERVED_FEE,
            clock: 0,
            reset_counter,
            freq: 0,
            is_active: false,
        }
    }
}

/// Why an admission or a settlement was refused.
#[derive(Clone, Copy, Debug, PartialEq, Eq, Structural)]
pub enum MeasureError {
    /// The work unit's identity is already active.
    AlreadyMeasuring,
    /// A resource of the work unit is held by another active work unit.
    AlreadyActive,
    /// The work unit names no resource.
    NoAddress,
    /// The work unit to settle is not active.
    NotMeasured,
    /// Admitting the work unit would exceed `MAXIMUM_THREAD_COUNT`.
    TooManyActiveThreadCount,
    /// The fee offered (first) is below the fee required (second).
    InsufficientSuppliedFee(u64, u64),
}

/// Configuration of a tracker.
#[derive(Clone, Copy, Debug, PartialEq, Eq, Structural)]
pub struct Policy {
    /// Active work units (counting the one being admitted) from which on the
    /// tracker is congested.
    pub congestion_threshold: usize,
    /// How many recent admissions the recency window keeps.
    pub recent_tx_count: usize,
}

impl Policy {
    /// The default policy: congested from the first active work unit on, and
    /// a recency window of five admissions.
    pub fn new() -> (r: Self)
        ensures
            r.congestion_threshold == 0,
            r.recent_tx_count == 5,
    {
        Policy { congestion_threshold: 0, recent_tx_count: 5 }
    }

    /// This policy with the congestion threshold set to `u`.
    pub fn congestion_threshold(self, u: usize) -> (r: Self)
        ensures
            r.congestion_threshold == u,
            r.recent_tx_count == self.recent_tx_count,
    {
        Policy { congestion_threshold: u, ..self }
    }
}

} // verus!
