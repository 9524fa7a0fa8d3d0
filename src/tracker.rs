//! The fee tracker: admission and settlement of work units, congestion
//! detection, per-resource pricing and accounting.
//!
//! Fees, clocks and counters are `u64` values whose arithmetic saturates:
//! sums and products stop at `u64::MAX`, differences at zero.

use std::collections::{HashMap, HashSet, VecDeque};
use vstd::prelude::*;
use crate::fixed::{scale_up, scale_down, scale_up_spec, scale_down_spec, Base};
use crate::model::{
    addr_ids, distinct_ids, sat_mul, saturating_mul, Addr, LocalFeeMarket, MeasureError, Policy, Tx,
    COMPOUND_SCALE, CU_SCALE, MAXIMUM_THREAD_COUNT, MINIMUM_BASE_FEE_RATE,
};

verus! {

broadcast use vstd::std_specs::hash::group_hash_axioms, vstd::std_specs::vecdeque::group_vec_dequeue_axioms;

/// `rate` doubled once per `CU_SCALE` capacity units of `cu`, continuously.
pub open spec fn heat_up_spec(rate: u64, cu: u64) -> u64 {
    scale_up_spec(Base::Two, rate as nat, cu as nat, CU_SCALE as nat) as u64
}

/// `rate` halved once per `groups * CU_SCALE` capacity units of `cu`,
/// continuously; no groups count as one.
pub open spec fn cool_down_spec(rate: u64, cu: u64, groups: u64) -> u64 {
    let g: nat = if groups == 0 { 1 } else { groups as nat };
    scale_down_spec(rate as nat, cu as nat, g * (CU_SCALE as nat)) as u64
}

/// `fee` grown by 6% per `COMPOUND_SCALE` capacity units of `cu`, continuously.
pub open spec fn compound_spec(fee: u64, cu: u64) -> u64 {
    scale_up_spec(Base::Compound, fee as nat, cu as nat, COMPOUND_SCALE as nat) as u64
}

/// What one resource charges an admission: its required fee rate and its
/// reserved fee grown over the time the resource stood idle.
#[derive(Clone, Copy, Debug, PartialEq, Eq, Structural)]
pub struct Quote {
    pub rate: u64,
    pub reserved: u64,
}

/// The part of the fee that a resource's quote demands of an admission
/// requesting `cu` capacity units.
pub open spec fn due(q: Quote, cu: u64, congested: bool) -> u64 {
    let required = sat_mul(q.rate, cu);
    if congested {
        required.saturating_sub(q.reserved)
    } else {
        required
    }
}

/// The minimum fee of an admission: the sum of what each quote demands.
pub open spec fn due_total(qs: Seq<Quote>, cu: u64, congested: bool) -> u64
    decreases qs.len(),
{
    if qs.len() == 0 {
        0
    } else {
        due_total(qs.drop_last(), cu, congested).saturating_add(due(qs.last(), cu, congested))
    }
}

/// The sum of the required fees of the quotes, without reserved fees.
pub open spec fn required_total(qs: Seq<Quote>, cu: u64) -> u64
    decreases qs.len(),
{
    if qs.len() == 0 {
        0
    } else {
        required_total(qs.drop_last(), cu).saturating_add(sat_mul(qs.last().rate, cu))
    }
}

/// The reserved fee a resource keeps after an admission: what is left of its
/// reserve, plus its share of the excess fee in proportion to its required
/// fee, grown over the requested capacity.
pub open spec fn settled_reserve(q: Quote, cu: u64, congested: bool, excess: u64, total: u64) -> u64 {
    let required = sat_mul(q.rate, cu);
    let kept = if congested {
        q.reserved.saturating_sub(required)
    } else {
        q.reserved
    };
    let share = if total == 0 {
        0
    } else {
        (excess as int * required as int / total as int) as u64
    };
    compound_spec(kept.saturating_add(share), cu)
}

/// The market of resource `a` in `m`, or a fresh one of epoch `epoch`.
pub open spec fn market_in(m: Map<u8, LocalFeeMarket>, a: u8, epoch: u64) -> LocalFeeMarket {
    if m.contains_key(a) {
        m[a]
    } else {
        LocalFeeMarket::fresh(epoch)
    }
}

/// A market after an admission held it, before the recency window moved.
pub open spec fn committed(m: LocalFeeMarket, q: Quote, reserved: u64, epoch: u64) -> LocalFeeMarket {
    LocalFeeMarket {
        required_fee_rate: q.rate,
        reserved_fee: reserved,
        clock: m.clock,
        reset_counter: epoch,
        freq: m.freq.saturating_add(1),
        is_active: true,
    }
}

/// A market after `n` windowed admissions holding it expired.
pub open spec fn expired_by(m: LocalFeeMarket, n: nat) -> LocalFeeMarket {
    LocalFeeMarket { freq: (if m.freq >= n { (m.freq - n) as u64 } else { 0u64 }), ..m }
}

/// A market after its resource was released at `clock`.
pub open spec fn released(m: LocalFeeMarket, clock: u64) -> LocalFeeMarket {
    LocalFeeMarket { clock, is_active: false, ..m }
}

/// How often resource `a` occurs in `s`.
pub open spec fn occurrences(s: Seq<Addr>, a: u8) -> nat
    decreases s.len(),
{
    if s.len() == 0 {
        0
    } else {
        occurrences(s.drop_last(), a) + if s.last().0 == a { 1nat } else { 0nat }
    }
}

/// The capacity rewarded per resource at settlement: all of it on success,
/// half of what was actually used on failure.
pub open spec fn reward_per_resource(tx: Tx, result: Result<(), u64>) -> u64 {
    match result {
        Ok(()) => tx.requested_cu,
        Err(actual_cu) => actual_cu / 2,
    }
}

/// How many entries of the window `w` hold resource `a`, counted with multiplicity.
pub open spec fn window_occurrences(w: Seq<Seq<Addr>>, a: u8) -> nat
    decreases w.len(),
{
    if w.len() == 0 {
        0
    } else {
        window_occurrences(w.drop_last(), a) + occurrences(w.last(), a)
    }
}

/// The congestion-pricing state shared by all resources.
pub struct BaseFeeTracker {
    pub policy: Policy,
    /// Capacity units settled so far.
    pub clock: u64,
    /// The congestion epoch.
    pub reset_counter: u64,
    pub is_congested: bool,
    /// The market of each resource touched so far.
    pub fee_markets: HashMap<u8, LocalFeeMarket>,
    /// The identities of the admitted, unsettled work units.
    pub active_txs: HashSet<u8>,
    pub nonconflicting_group_count: u64,
    /// The resources of the most recent admissions, oldest first.
    pub recent_addrs: VecDeque<Vec<Addr>>,
    /// Capacity units rewarded at settlement.
    pub rewarded_cu: u64,
    /// The fee supplied by all admissions.
    pub total_supplied_fee: u64,
}

impl BaseFeeTracker {
    /// The resources of each windowed admission, oldest first.
    pub open spec fn window(&self) -> Seq<Seq<Addr>> {
        self.recent_addrs@.map_values(|v: Vec<Addr>| v@)
    }

    /// Every resource in the recency window has a market.
    pub open spec fn wf(&self) -> bool {
        forall|i: int, j: int|
            0 <= i < self.window().len() && 0 <= j < self.window()[i].len()
                ==> self.fee_markets@.contains_key(#[trigger] self.window()[i][j].0)
    }

    /// Every windowed admission names each resource once, and each market's
    /// `freq` counts the windowed admissions holding its resource.
    pub open spec fn tracks_window(&self) -> bool {
        &&& forall|i: int| 0 <= i < self.window().len() ==> distinct_ids(#[trigger] self.window()[i])
        &&& forall|a: u8| #[trigger] self.fee_markets@.contains_key(a)
            ==> self.fee_markets@[a].freq == window_occurrences(self.window(), a)
    }

    /// The fee collected: rewarded capacity at the minimum fee rate.
    pub open spec fn collected_fee_spec(&self) -> u64 {
        sat_mul(self.rewarded_cu, MINIMUM_BASE_FEE_RATE)
    }

    /// The fee burnt: everything supplied beyond the fee collected.
    pub open spec fn burnt_fee_spec(&self) -> u64 {
        self.total_supplied_fee.saturating_sub(self.collected_fee_spec())
    }

    /// The market of resource `a`, or the one it would be created with.
    pub open spec fn market_spec(&self, a: u8) -> LocalFeeMarket {
        market_in(self.fee_markets@, a, self.reset_counter)
    }

    /// The congestion state an admission moves to.
    pub open spec fn next_congested(&self) -> bool {
        let n = self.active_txs@.len() + 1;
        if n < self.policy.congestion_threshold && self.is_congested {
            false
        } else if n >= self.policy.congestion_threshold && !self.is_congested {
            true
        } else {
            self.is_congested
        }
    }

    /// The congestion epoch an admission moves to: a new one when congestion ends.
    pub open spec fn next_reset_counter(&self) -> u64 {
        let n = self.active_txs@.len() + 1;
        if n < self.policy.congestion_threshold && self.is_congested {
            self.reset_counter.saturating_add(1)
        } else {
            self.reset_counter
        }
    }

    /// The quote of resource `a` for an admission requesting `cu` capacity
    /// units, priced in congestion state `congested` and epoch `epoch`.
    pub open spec fn quote_spec(&self, a: u8, cu: u64, congested: bool, epoch: u64) -> Quote {
        let m = self.market_spec(a);
        let idle = self.clock.saturating_sub(m.clock);
        let reserved = compound_spec(m.reserved_fee, idle);
        if congested && epoch == m.reset_counter {
            let cooled = cool_down_spec(m.required_fee_rate, idle, self.nonconflicting_group_count);
            let floored = if cooled < MINIMUM_BASE_FEE_RATE { MINIMUM_BASE_FEE_RATE } else { cooled };
            Quote { rate: heat_up_spec(floored, cu), reserved }
        } else {
            Quote { rate: MINIMUM_BASE_FEE_RATE, reserved }
        }
    }

    /// The quotes of the resources of `tx`, in order.
    pub open spec fn quotes_spec(&self, tx: Tx) -> Seq<Quote> {
        Seq::new(
            tx.addrs@.len(),
            |k: int|
                self.quote_spec(tx.addrs@[k].0, tx.requested_cu, self.next_congested(), self.next_reset_counter()),
        )
    }

    /// The minimum fee the admission of `tx` has to supply. Both the rates and
    /// the discount by reserved fees follow the congestion state the admission
    /// moves to.
    pub open spec fn minimum_fee(&self, tx: Tx) -> u64 {
        due_total(self.quotes_spec(tx), tx.requested_cu, self.next_congested())
    }

    /// Whether no resource of `tx` is part of a windowed admission.
    pub open spec fn is_new_group(&self, tx: Tx) -> bool {
        forall|k: int| 0 <= k < tx.addrs@.len() ==> #[trigger] self.market_spec(tx.addrs@[k].0).freq == 0
    }

    /// Whether admitting `tx` pushes the oldest admission out of the window.
    pub open spec fn expires(&self, tx: Tx) -> bool {
        self.window().len() + 1 > self.policy.recent_tx_count
    }

    /// The resources of the admission that leaves the window when `tx` is admitted.
    pub open spec fn expired_entry(&self, tx: Tx) -> Seq<Addr> {
        if self.expires(tx) {
            self.window().push(tx.addrs@)[0]
        } else {
            Seq::empty()
        }
    }

    /// The outcome of admitting `tx`.
    pub open spec fn admission(&self, tx: Tx) -> Result<(), MeasureError> {
        if self.active_txs@.len() + 1 > MAXIMUM_THREAD_COUNT {
            Err(MeasureError::TooManyActiveThreadCount)
        } else if tx.addrs@.len() == 0 {
            Err(MeasureError::NoAddress)
        } else if exists|k: int| 0 <= k < tx.addrs@.len() && #[trigger] self.market_spec(tx.addrs@[k].0).is_active {
            Err(MeasureError::AlreadyActive)
        } else if tx.supplied_fee() < self.minimum_fee(tx) {
            Err(MeasureError::InsufficientSuppliedFee(tx.supplied_fee(), self.minimum_fee(tx)))
        } else if self.active_txs@.contains(tx.id.0) {
            Err(MeasureError::AlreadyMeasuring)
        } else {
            Ok(())
        }
    }

    /// The market of resource `a` after `tx` was admitted, before the window moved.
    pub open spec fn market_committed(&self, tx: Tx, k: int) -> LocalFeeMarket {
        let qs = self.quotes_spec(tx);
        let cu = tx.requested_cu;
        let excess = (tx.supplied_fee() - self.minimum_fee(tx)) as u64;
        let reserved = settled_reserve(qs[k], cu, self.next_congested(), excess, required_total(qs, cu));
        committed(self.market_spec(tx.addrs@[k].0), qs[k], reserved, self.next_reset_counter())
    }

    /// `self` is the state reached by settling `tx` with outcome `result` in
    /// state `pre`.
    pub open spec fn settled_from(&self, pre: BaseFeeTracker, tx: Tx, result: Result<(), u64>) -> bool {
        let ids = addr_ids(tx.addrs@);
        let clock = pre.clock.saturating_add(tx.requested_cu);
        &&& self.policy == pre.policy
        &&& self.reset_counter == pre.reset_counter
        &&& self.is_congested == pre.is_congested
        &&& self.nonconflicting_group_count == pre.nonconflicting_group_count
        &&& self.total_supplied_fee == pre.total_supplied_fee
        &&& self.window() == pre.window()
        &&& self.active_txs@ == pre.active_txs@.remove(tx.id.0)
        &&& self.clock == clock
        &&& self.rewarded_cu == pre.rewarded_cu.saturating_add(
            sat_mul(tx.addrs@.len() as u64, reward_per_resource(tx, result)),
        )
        &&& self.fee_markets@.dom() == pre.fee_markets@.dom()
        &&& forall|a: u8| #[trigger] pre.fee_markets@.contains_key(a) ==> self.fee_markets@[a] == if ids.contains(a) {
            released(pre.fee_markets@[a], clock)
        } else {
            pre.fee_markets@[a]
        }
    }

    /// `self` is the state reached by admitting `tx` in state `pre`.
    pub open spec fn admitted_from(&self, pre: BaseFeeTracker, tx: Tx) -> bool {
        let ids = addr_ids(tx.addrs@);
        let gone = pre.expired_entry(tx);
        let grouped = if pre.is_new_group(tx) {
            pre.nonconflicting_group_count.saturating_add(1)
        } else {
            pre.nonconflicting_group_count
        };
        let cleared = forall|j: int| 0 <= j < gone.len() ==> #[trigger] self.fee_markets@[gone[j].0].freq == 0;
        &&& self.policy == pre.policy
        &&& self.clock == pre.clock
        &&& self.rewarded_cu == pre.rewarded_cu
        &&& self.active_txs@ == pre.active_txs@.insert(tx.id.0)
        &&& self.is_congested == pre.next_congested()
        &&& self.reset_counter == pre.next_reset_counter()
        &&& self.total_supplied_fee == pre.total_supplied_fee.saturating_add(tx.supplied_fee())
        &&& self.window() == (if pre.expires(tx) {
            pre.window().push(tx.addrs@).drop_first()
        } else {
            pre.window().push(tx.addrs@)
        })
        &&& self.nonconflicting_group_count == (if pre.expires(tx) && cleared {
            grouped.saturating_sub(1)
        } else {
            grouped
        })
        &&& forall|k: int| 0 <= k < ids.len() ==> {
            &&& self.fee_markets@.contains_key(#[trigger] ids[k])
            &&& self.fee_markets@[ids[k]] == expired_by(pre.market_committed(tx, k), occurrences(gone, ids[k]))
        }
        &&& forall|a: u8| !ids.contains(a) ==> {
            &&& (#[trigger] self.fee_markets@.contains_key(a)) == pre.fee_markets@.contains_key(a)
            &&& pre.fee_markets@.contains_key(a) ==> self.fee_markets@[a] == expired_by(pre.fee_markets@[a], occurrences(gone, a))
        }
    }
}


/// A copy of the resources `v`.
fn copy_addrs(v: &Vec<Addr>) -> (r: Vec<Addr>)
    ensures
        r@ == v@,
{
    let mut r: Vec<Addr> = Vec::new();
    let mut i: usize = 0;
    while i < v.len()
        invariant
            i <= v.len(),
            r@ == v@.subrange(0, i as int),
        decreases v.len() - i,
    {
        r.push(v[i]);
        i = i + 1;
    }
    proof {
        assert(v@.subrange(0, v@.len() as int) =~= v@);
    }
    r
}

/// The market of resource `a` in `markets`, or a fresh one of epoch `epoch`.
fn market_of(markets: &HashMap<u8, LocalFeeMarket>, a: u8, epoch: u64) -> (m: LocalFeeMarket)
    ensures
        m == market_in(markets@, a, epoch),
{
    match markets.get(&a) {
        Some(m) => *m,
        None => LocalFeeMarket::new(epoch),
    }
}

/// Computes `due_total(qs@, cu, congested)`.
fn due_sum(qs: &Vec<Quote>, cu: u64, congested: bool) -> (r: u64)
    ensures
        r == due_total(qs@, cu, congested),
{
    let mut acc: u64 = 0;
    let mut i: usize = 0;
    while i < qs.len()
        invariant
            i <= qs.len(),
            acc == due_total(qs@.subrange(0, i as int), cu, congested),
        decreases qs.len() - i,
    {
        let q = qs[i];
        let required = saturating_mul(q.rate, cu);
        let d = if congested { required.saturating_sub(q.reserved) } else { required };
        proof {
            assert(qs@.subrange(0, i + 1).drop_last() =~= qs@.subrange(0, i as int));
        }
        acc = acc.saturating_add(d);
        i = i + 1;
    }
    proof {
        assert(qs@.subrange(0, qs@.len() as int) =~= qs@);
    }
    acc
}

/// Computes `required_total(qs@, cu)`.
fn required_sum(qs: &Vec<Quote>, cu: u64) -> (r: u64)
    ensures
        r == required_total(qs@, cu),
{
    let mut acc: u64 = 0;
    let mut i: usize = 0;
    while i < qs.len()
        invariant
            i <= qs.len(),
            acc == required_total(qs@.subrange(0, i as int), cu),
        decreases qs.len() - i,
    {
        let required = saturating_mul(qs[i].rate, cu);
        proof {
            assert(qs@.subrange(0, i + 1).drop_last() =~= qs@.subrange(0, i as int));
        }
        acc = acc.saturating_add(required);
        i = i + 1;
    }
    proof {
        assert(qs@.subrange(0, qs@.len() as int) =~= qs@);
    }
    acc
}

proof fn lemma_required_within_total(qs: Seq<Quote>, cu: u64, k: int)
    requires
        0 <= k < qs.len(),
    ensures
        sat_mul(qs[k].rate, cu) <= required_total(qs, cu),
    decreases qs.len(),
{
    if k < qs.len() - 1 {
        lemma_required_within_total(qs.drop_last(), cu, k);
    }
}

/// Computes `settled_reserve(q, cu, congested, excess, total)`.
fn settle_reserve(q: Quote, cu: u64, congested: bool, excess: u64, total: u64) -> (r: u64)
    requires
        sat_mul(q.rate, cu) <= total,
    ensures
        r == settled_reserve(q, cu, congested, excess, total),
{
    let required = saturating_mul(q.rate, cu);
    let kept = if congested { q.reserved.saturating_sub(required) } else { q.reserved };
    let share: u64 = if total == 0 {
        0
    } else {
        proof {
            let e = excess as int;
            let q = required as int;
            let t = total as int;
            assert(e * q / t <= e) by (nonlinear_arith)
                requires 0 <= e, 0 <= q <= t, t > 0;
            assert(e * q <= 0xffff_ffff_ffff_ffff * 0xffff_ffff_ffff_ffff) by (nonlinear_arith)
                requires 0 <= e <= 0xffff_ffff_ffff_ffff, 0 <= q <= 0xffff_ffff_ffff_ffff;
        }
        (excess as u128 * required as u128 / total as u128) as u64
    };
    scale_up(Base::Compound, kept.saturating_add(share), cu, COMPOUND_SCALE)
}

/// Records in `markets` that the resources of `tx` were admitted at the
/// quotes `qs`.
fn commit_markets(
    markets: &mut HashMap<u8, LocalFeeMarket>,
    tx: &Tx,
    qs: &Vec<Quote>,
    fresh_epoch: u64,
    congested: bool,
    epoch: u64,
    excess: u64,
    total: u64,
)
    requires
        tx.has_distinct_addrs(),
        qs@.len() == tx.addrs@.len(),
        forall|k: int| 0 <= k < qs@.len() ==> sat_mul(#[trigger] qs@[k].rate, tx.requested_cu) <= total,
    ensures
        forall|k: int| 0 <= k < tx.addrs@.len() ==> {
            &&& final(markets)@.contains_key(#[trigger] tx.addrs@[k].0)
            &&& final(markets)@[tx.addrs@[k].0] == committed(
                market_in(old(markets)@, tx.addrs@[k].0, fresh_epoch),
                qs@[k],
                settled_reserve(qs@[k], tx.requested_cu, congested, excess, total),
                epoch,
            )
        },
        forall|a: u8| (forall|k: int| 0 <= k < tx.addrs@.len() ==> #[trigger] tx.addrs@[k].0 != a) ==> {
            &&& (#[trigger] final(markets)@.contains_key(a)) == old(markets)@.contains_key(a)
            &&& old(markets)@.contains_key(a) ==> final(markets)@[a] == old(markets)@[a]
        },
{
    let ghost pre = markets@;
    let cu = tx.requested_cu;
    let mut i: usize = 0;
    while i < tx.addrs.len()
        invariant
            i <= tx.addrs@.len(),
            tx.has_distinct_addrs(),
            qs@.len() == tx.addrs@.len(),
            forall|k: int| 0 <= k < qs@.len() ==> sat_mul(#[trigger] qs@[k].rate, cu) <= total,
            forall|k: int| 0 <= k < i ==> {
                &&& markets@.contains_key(#[trigger] tx.addrs@[k].0)
                &&& markets@[tx.addrs@[k].0] == committed(
                    market_in(pre, tx.addrs@[k].0, fresh_epoch),
                    qs@[k],
                    settled_reserve(qs@[k], cu, congested, excess, total),
                    epoch,
                )
            },
            forall|a: u8| (forall|k: int| 0 <= k < i ==> #[trigger] tx.addrs@[k].0 != a) ==> {
                &&& (#[trigger] markets@.contains_key(a)) == pre.contains_key(a)
                &&& pre.contains_key(a) ==> markets@[a] == pre[a]
            },
        decreases tx.addrs@.len() - i,
    {
        let a = tx.addrs[i].0;
        proof {
            assert forall|k: int| 0 <= k < i implies #[trigger] tx.addrs@[k].0 != a by {
                assert(tx.addrs@[k].0 != tx.addrs@[i as int].0);
            }
        }
        let m = market_of(markets, a, fresh_epoch);
        let q = qs[i];
        let reserved = settle_reserve(q, cu, congested, excess, total);
        let updated = LocalFeeMarket {
            required_fee_rate: q.rate,
            reserved_fee: reserved,
            clock: m.clock,
            reset_counter: epoch,
            freq: m.freq.saturating_add(1),
            is_active: true,
        };
        let ghost before = markets@;
        markets.insert(a, updated);
        i = i + 1;
        proof {
            assert forall|b: u8| (forall|k: int| 0 <= k < i ==> #[trigger] tx.addrs@[k].0 != b) implies {
                &&& (#[trigger] markets@.contains_key(b)) == pre.contains_key(b)
                &&& pre.contains_key(b) ==> markets@[b] == pre[b]
            } by {
                assert(tx.addrs@[i - 1].0 != b);
                assert(forall|k: int| 0 <= k < i - 1 ==> #[trigger] tx.addrs@[k].0 != b);
                assert(before.contains_key(b) == pre.contains_key(b));
                assert(pre.contains_key(b) ==> before[b] == pre[b]);
            }
        }
    }
}

/// Removes from `markets` one windowed admission holding the resources of
/// `entry`; returns whether none of them is held by a windowed admission any more.
fn expire(markets: &mut HashMap<u8, LocalFeeMarket>, entry: &Vec<Addr>) -> (cleared: bool)
    requires
        forall|j: int| 0 <= j < entry@.len() ==> old(markets)@.contains_key(#[trigger] entry@[j].0),
    ensures
        final(markets)@.dom() == old(markets)@.dom(),
        forall|a: u8| #[trigger] old(markets)@.contains_key(a)
            ==> final(markets)@[a] == expired_by(old(markets)@[a], occurrences(entry@, a)),
        cleared == forall|j: int| 0 <= j < entry@.len() ==> #[trigger] final(markets)@[entry@[j].0].freq == 0,
{
    let ghost pre = markets@;
    let mut i: usize = 0;
    while i < entry.len()
        invariant
            i <= entry@.len(),
            forall|j: int| 0 <= j < entry@.len() ==> pre.contains_key(#[trigger] entry@[j].0),
            markets@.dom() == pre.dom(),
            forall|a: u8| #[trigger] pre.contains_key(a)
                ==> markets@[a] == expired_by(pre[a], occurrences(entry@.subrange(0, i as int), a)),
        decreases entry@.len() - i,
    {
        let a = entry[i].0;
        proof {
            assert(entry@.subrange(0, i + 1).drop_last() =~= entry@.subrange(0, i as int));
        }
        match markets.get(&a) {
            Some(m) => {
                let updated = LocalFeeMarket { freq: m.freq.saturating_sub(1), ..*m };
                markets.insert(a, updated);
                proof {
                    assert(markets@.dom() =~= pre.dom());
                }
            },
            None => {},
        }
        i = i + 1;
    }
    proof {
        assert(entry@.subrange(0, entry@.len() as int) =~= entry@);
    }
    let mut cleared = true;
    let mut j: usize = 0;
    while j < entry.len()
        invariant
            j <= entry@.len(),
            forall|k: int| 0 <= k < entry@.len() ==> markets@.contains_key(#[trigger] entry@[k].0),
            cleared == forall|k: int| 0 <= k < j ==> #[trigger] markets@[entry@[k].0].freq == 0,
        decreases entry@.len() - j,
    {
        match markets.get(&entry[j].0) {
            Some(m) => {
                if m.freq != 0 {
                    cleared = false;
                }
            },
            None => {},
        }
        j = j + 1;
    }
    cleared
}


impl BaseFeeTracker {
    /// A tracker with no history, run by `policy`.
    pub fn new(policy: Policy) -> (r: Self)
        ensures
            r.policy == policy,
            r.clock == 0,
            r.reset_counter == 0,
            !r.is_congested,
            r.fee_markets@ == Map::<u8, LocalFeeMarket>::empty(),
            r.active_txs@ == Set::<u8>::empty(),
            r.nonconflicting_group_count == 0,
            r.window() == Seq::<Seq<Addr>>::empty(),
            r.rewarded_cu == 0,
            r.total_supplied_fee == 0,
            r.wf(),
            r.tracks_window(),
    {
        let r = BaseFeeTracker {
            policy,
            clock: 0,
            reset_counter: 0,
            is_congested: false,
            fee_markets: HashMap::new(),
            active_txs: HashSet::new(),
            nonconflicting_group_count: 0,
            recent_addrs: VecDeque::new(),
            rewarded_cu: 0,
            total_supplied_fee: 0,
        };
        proof {
            assert(r.window() =~= Seq::<Seq<Addr>>::empty());
        }
        r
    }

    /// `fee_rate` doubled once per `CU_SCALE` capacity units of `cu`.
    pub fn heat_up(&self, fee_rate: u64, cu: u64) -> (r: u64)
        ensures
            r == heat_up_spec(fee_rate, cu),
    {
        scale_up(Base::Two, fee_rate, cu, CU_SCALE)
    }

    /// `fee_rate` halved once per `CU_SCALE` capacity units of `cu`, times the
    /// number of non-conflicting groups (at least one).
    pub fn cool_down(&self, fee_rate: u64, cu: u64) -> (r: u64)
        ensures
            r == cool_down_spec(fee_rate, cu, self.nonconflicting_group_count),
    {
        let groups: u128 = if self.nonconflicting_group_count == 0 {
            1
        } else {
            self.nonconflicting_group_count as u128
        };
        assert(groups * 50_000 <= 0x1_0000_0000_0000_0000_0000_0000) by (nonlinear_arith)
            requires groups <= 0xffff_ffff_ffff_ffff;
        scale_down(fee_rate, cu, groups * CU_SCALE as u128)
    }

    /// The fee collected: rewarded capacity at the minimum fee rate.
    pub fn collected_fee(&self) -> (r: u64)
        ensures
            r == self.collected_fee_spec(),
    {
        saturating_mul(self.rewarded_cu, MINIMUM_BASE_FEE_RATE)
    }

    /// The fee burnt: everything supplied beyond the fee collected.
    pub fn burnt_fee(&self) -> (r: u64)
        ensures
            r == self.burnt_fee_spec(),
    {
        self.total_supplied_fee.saturating_sub(self.collected_fee())
    }

    fn next_congestion(&self) -> (r: (bool, u64))
        requires
            self.active_txs@.len() < MAXIMUM_THREAD_COUNT,
        ensures
            r.0 == self.next_congested(),
            r.1 == self.next_reset_counter(),
    {
        let n = self.active_txs.len() + 1;
        if n < self.policy.congestion_threshold && self.is_congested {
            (false, self.reset_counter.saturating_add(1))
        } else if n >= self.policy.congestion_threshold && !self.is_congested {
            (true, self.reset_counter)
        } else {
            (self.is_congested, self.reset_counter)
        }
    }

    fn quote(&self, a: u8, cu: u64, congested: bool, epoch: u64) -> (q: Quote)
        ensures
            q == self.quote_spec(a, cu, congested, epoch),
    {
        let m = market_of(&self.fee_markets, a, self.reset_counter);
        let idle = self.clock.saturating_sub(m.clock);
        let reserved = scale_up(Base::Compound, m.reserved_fee, idle, COMPOUND_SCALE);
        if congested && epoch == m.reset_counter {
            let cooled = self.cool_down(m.required_fee_rate, idle);
            let floored = if cooled < MINIMUM_BASE_FEE_RATE { MINIMUM_BASE_FEE_RATE } else { cooled };
            Quote { rate: self.heat_up(floored, cu), reserved }
        } else {
            Quote { rate: MINIMUM_BASE_FEE_RATE, reserved }
        }
    }

    fn quotes(&self, tx: &Tx, congested: bool, epoch: u64) -> (qs: Vec<Quote>)
        ensures
            qs@.len() == tx.addrs@.len(),
            forall|k: int| 0 <= k < qs@.len()
                ==> #[trigger] qs@[k] == self.quote_spec(tx.addrs@[k].0, tx.requested_cu, congested, epoch),
    {
        let mut qs: Vec<Quote> = Vec::new();
        let mut i: usize = 0;
        while i < tx.addrs.len()
            invariant
                i <= tx.addrs@.len(),
                qs@.len() == i,
                forall|k: int| 0 <= k < i
                    ==> #[trigger] qs@[k] == self.quote_spec(tx.addrs@[k].0, tx.requested_cu, congested, epoch),
            decreases tx.addrs@.len() - i,
        {
            qs.push(self.quote(tx.addrs[i].0, tx.requested_cu, congested, epoch));
            i = i + 1;
        }
        qs
    }

    fn any_active(&self, tx: &Tx) -> (r: bool)
        ensures
            r == exists|k: int| 0 <= k < tx.addrs@.len() && #[trigger] self.market_spec(tx.addrs@[k].0).is_active,
    {
        let mut i: usize = 0;
        while i < tx.addrs.len()
            invariant
                i <= tx.addrs@.len(),
                forall|k: int| 0 <= k < i ==> !#[trigger] self.market_spec(tx.addrs@[k].0).is_active,
            decreases tx.addrs@.len() - i,
        {
            if market_of(&self.fee_markets, tx.addrs[i].0, self.reset_counter).is_active {
                assert(self.market_spec(tx.addrs@[i as int].0).is_active);
                return true;
            }
            i = i + 1;
        }
        false
    }

    fn all_unused(&self, tx: &Tx) -> (r: bool)
        ensures
            r == self.is_new_group(*tx),
    {
        let mut i: usize = 0;
        while i < tx.addrs.len()
            invariant
                i <= tx.addrs@.len(),
                forall|k: int| 0 <= k < i ==> #[trigger] self.market_spec(tx.addrs@[k].0).freq == 0,
            decreases tx.addrs@.len() - i,
        {
            if market_of(&self.fee_markets, tx.addrs[i].0, self.reset_counter).freq != 0 {
                assert(self.market_spec(tx.addrs@[i as int].0).freq != 0);
                return false;
            }
            i = i + 1;
        }
        true
    }
}


impl BaseFeeTracker {
    /// Admits `tx`: prices its resources, checks the fee it supplies and, if
    /// every check passes, marks its resources active and records it in the
    /// recency window. A refused admission changes nothing.
    #[verifier::rlimit(60)]
    pub fn start_measuring(&mut self, tx: &Tx) -> (r: Result<(), MeasureError>)
        requires
            old(self).wf(),
            tx.has_distinct_addrs(),
        ensures
            r == old(self).admission(*tx),
            r is Err ==> *final(self) == *old(self),
            r is Ok ==> final(self).admitted_from(*old(self), *tx),
            final(self).total_supplied_fee >= old(self).total_supplied_fee,
            final(self).rewarded_cu == old(self).rewarded_cu,
            final(self).wf(),
    {
        let ghost pre = *self;
        if self.active_txs.len() >= MAXIMUM_THREAD_COUNT {
            return Err(MeasureError::TooManyActiveThreadCount);
        }
        if tx.addrs.len() == 0 {
            return Err(MeasureError::NoAddress);
        }
        let (congested, epoch) = self.next_congestion();
        if self.any_active(tx) {
            return Err(MeasureError::AlreadyActive);
        }
        let qs = self.quotes(tx, congested, epoch);
        proof {
            assert(qs@ =~= pre.quotes_spec(*tx));
        }
        let minimum = due_sum(&qs, tx.requested_cu, congested);
        let supplied = saturating_mul(tx.supplied_fee_rate, tx.requested_cu);
        if supplied < minimum {
            return Err(MeasureError::InsufficientSuppliedFee(supplied, minimum));
        }
        if self.active_txs.contains(&tx.id.0) {
            return Err(MeasureError::AlreadyMeasuring);
        }
        let new_group = self.all_unused(tx);
        let total = required_sum(&qs, tx.requested_cu);
        proof {
            assert forall|k: int| 0 <= k < qs@.len() implies sat_mul(#[trigger] qs@[k].rate, tx.requested_cu) <= total by {
                lemma_required_within_total(qs@, tx.requested_cu, k);
            }
        }
        let fresh_epoch = self.reset_counter;
        commit_markets(&mut self.fee_markets, tx, &qs, fresh_epoch, congested, epoch, supplied - minimum, total);
        let ghost committed_markets = self.fee_markets@;
        self.active_txs.insert(tx.id.0);
        self.is_congested = congested;
        self.reset_counter = epoch;
        if new_group {
            self.nonconflicting_group_count = self.nonconflicting_group_count.saturating_add(1);
        }
        self.total_supplied_fee = self.total_supplied_fee.saturating_add(supplied);
        self.recent_addrs.push_back(copy_addrs(&tx.addrs));
        proof {
            assert(self.window() =~= pre.window().push(tx.addrs@));
            assert forall|k: int| 0 <= k < tx.addrs@.len() implies #[trigger] addr_ids(tx.addrs@)[k] == tx.addrs@[k].0 by {}
        }
        let ghost grouped = self.nonconflicting_group_count;
        proof {
            assert(self.window() == pre.window().push(tx.addrs@));
            assert(self.active_txs@ == pre.active_txs@.insert(tx.id.0));
            assert(self.total_supplied_fee == pre.total_supplied_fee.saturating_add(tx.supplied_fee()));
            assert(grouped == if pre.is_new_group(*tx) {
                pre.nonconflicting_group_count.saturating_add(1)
            } else {
                pre.nonconflicting_group_count
            });
        }
        let ghost mut gone: Seq<Addr> = Seq::empty();
        if self.recent_addrs.len() > self.policy.recent_tx_count {
            let ghost pushed = self.window();
            match self.recent_addrs.pop_front() {
                Some(entry) => {
                    proof {
                        assert(self.window() =~= pushed.drop_first());
                        assert(entry@ == pushed[0]);
                        if pre.window().len() > 0 {
                            assert(entry@ == pre.window()[0]);
                            assert forall|j: int| 0 <= j < entry@.len() implies committed_markets.contains_key(#[trigger] entry@[j].0) by {
                                assert(pre.window()[0][j] == entry@[j]);
                                if !pre.fee_markets@.contains_key(entry@[j].0) {
                                    assert(false);
                                }
                            }
                        } else {
                            assert(entry@ == tx.addrs@);
                        }
                        gone = entry@;
                    }
                    let cleared = expire(&mut self.fee_markets, &entry);
                    proof {
                        assert(self.fee_markets@.dom() == committed_markets.dom());
                    }
                    if cleared {
                        self.nonconflicting_group_count = self.nonconflicting_group_count.saturating_sub(1);
                    }
                    proof {
                        assert(self.nonconflicting_group_count == if forall|j: int| 0 <= j < gone.len() ==> #[trigger] self.fee_markets@[gone[j].0].freq == 0 {
                            grouped.saturating_sub(1)
                        } else {
                            grouped
                        });
                    }
                },
                None => {},
            }
        }
        proof {
            let ids = addr_ids(tx.addrs@);
            assert(gone == pre.expired_entry(*tx));
            assert(self.window() == (if pre.expires(*tx) {
                pre.window().push(tx.addrs@).drop_first()
            } else {
                pre.window().push(tx.addrs@)
            }));
            if !pre.expires(*tx) {
                assert forall|a: u8| #[trigger] committed_markets.contains_key(a) implies
                    self.fee_markets@[a] == expired_by(committed_markets[a], occurrences(gone, a)) by {
                    assert(occurrences(gone, a) == 0);
                }
            }
            assert forall|k: int| 0 <= k < ids.len() implies {
                &&& self.fee_markets@.contains_key(#[trigger] ids[k])
                &&& self.fee_markets@[ids[k]] == expired_by(pre.market_committed(*tx, k), occurrences(gone, ids[k]))
            } by {
                assert(ids[k] == tx.addrs@[k].0);
                assert(committed_markets.contains_key(ids[k]));
                assert(market_in(pre.fee_markets@, ids[k], fresh_epoch) == pre.market_spec(ids[k]));
            }
            assert forall|a: u8| !ids.contains(a) implies {
                &&& (#[trigger] self.fee_markets@.contains_key(a)) == pre.fee_markets@.contains_key(a)
                &&& pre.fee_markets@.contains_key(a) ==> self.fee_markets@[a] == expired_by(pre.fee_markets@[a], occurrences(gone, a))
            } by {
                assert forall|k: int| 0 <= k < tx.addrs@.len() implies #[trigger] tx.addrs@[k].0 != a by {
                    assert(ids[k] == tx.addrs@[k].0);
                }
                assert(committed_markets.contains_key(a) == pre.fee_markets@.contains_key(a));
                assert(self.fee_markets@.dom() == committed_markets.dom());
                assert(self.fee_markets@.contains_key(a) == committed_markets.contains_key(a));
                if pre.fee_markets@.contains_key(a) {
                    assert(committed_markets[a] == pre.fee_markets@[a]);
                    assert(self.fee_markets@[a] == expired_by(committed_markets[a], occurrences(gone, a)));
                }
            }
            assert forall|i: int, j: int|
                0 <= i < self.window().len() && 0 <= j < self.window()[i].len() implies
                self.fee_markets@.contains_key(#[trigger] self.window()[i][j].0) by {
                let w = pre.window().push(tx.addrs@);
                let i0 = if pre.expires(*tx) { i + 1 } else { i };
                assert(self.window()[i] == w[i0]);
                if i0 < pre.window().len() {
                    assert(w[i0] == pre.window()[i0]);
                    assert(pre.fee_markets@.contains_key(pre.window()[i0][j].0));
                } else {
                    assert(w[i0] == tx.addrs@);
                    assert(committed_markets.contains_key(tx.addrs@[j].0));
                }
                assert(committed_markets.contains_key(self.window()[i][j].0));
            }
        }
        Ok(())
    }
}


impl BaseFeeTracker {
    /// Settles the active work unit `tx`: advances the clock by its requested
    /// capacity, releases its resources and rewards the capacity it used.
    pub fn stop_measuring(&mut self, tx: &Tx, result: Result<(), u64>) -> (r: Result<(), MeasureError>)
        requires
            old(self).wf(),
        ensures
            r == (if old(self).active_txs@.contains(tx.id.0) {
                Ok::<(), MeasureError>(())
            } else {
                Err(MeasureError::NotMeasured)
            }),
            r is Err ==> *final(self) == *old(self),
            r is Ok ==> final(self).settled_from(*old(self), *tx, result),
            final(self).total_supplied_fee == old(self).total_supplied_fee,
            final(self).rewarded_cu >= old(self).rewarded_cu,
            final(self).wf(),
    {
        let ghost pre = *self;
        if !self.active_txs.contains(&tx.id.0) {
            return Err(MeasureError::NotMeasured);
        }
        self.active_txs.remove(&tx.id.0);
        self.clock = self.clock.saturating_add(tx.requested_cu);
        let mut i: usize = 0;
        while i < tx.addrs.len()
            invariant
                i <= tx.addrs@.len(),
                self.clock == pre.clock.saturating_add(tx.requested_cu),
                self.fee_markets@.dom() == pre.fee_markets@.dom(),
                self.policy == pre.policy,
                self.reset_counter == pre.reset_counter,
                self.is_congested == pre.is_congested,
                self.nonconflicting_group_count == pre.nonconflicting_group_count,
                self.total_supplied_fee == pre.total_supplied_fee,
                self.recent_addrs@ == pre.recent_addrs@,
                self.active_txs@ == pre.active_txs@.remove(tx.id.0),
                self.rewarded_cu == pre.rewarded_cu,
                forall|a: u8| #[trigger] pre.fee_markets@.contains_key(a) ==> self.fee_markets@[a] == if exists|k: int|
                    0 <= k < i && tx.addrs@[k].0 == a {
                    released(pre.fee_markets@[a], self.clock)
                } else {
                    pre.fee_markets@[a]
                },
            decreases tx.addrs@.len() - i,
        {
            let a = tx.addrs[i].0;
            match self.fee_markets.get(&a) {
                Some(m) => {
                    let updated = LocalFeeMarket { clock: self.clock, is_active: false, ..*m };
                    self.fee_markets.insert(a, updated);
                    proof {
                        assert(self.fee_markets@.dom() =~= pre.fee_markets@.dom());
                    }
                },
                None => {},
            }
            i = i + 1;
            proof {
                assert forall|b: u8| #[trigger] pre.fee_markets@.contains_key(b) implies self.fee_markets@[b] == if exists|k: int|
                    0 <= k < i && tx.addrs@[k].0 == b {
                    released(pre.fee_markets@[b], self.clock)
                } else {
                    pre.fee_markets@[b]
                } by {
                    if b == a {
                        assert(tx.addrs@[i - 1].0 == b);
                    } else if exists|k: int| 0 <= k < i && tx.addrs@[k].0 == b {
                        let k = choose|k: int| 0 <= k < i && tx.addrs@[k].0 == b;
                        assert(k < i - 1);
                    }
                }
            }
        }
        let per_resource = match result {
            Ok(()) => tx.requested_cu,
            Err(actual_cu) => actual_cu / 2,
        };
        self.rewarded_cu = self.rewarded_cu.saturating_add(saturating_mul(tx.addrs.len() as u64, per_resource));
        proof {
            assert(self.window() =~= pre.window());
            let ids = addr_ids(tx.addrs@);
            assert forall|a: u8| #[trigger] pre.fee_markets@.contains_key(a) implies
                (ids.contains(a) <==> exists|k: int| 0 <= k < tx.addrs@.len() && tx.addrs@[k].0 == a) by {
                if ids.contains(a) {
                    let k = choose|k: int| 0 <= k < ids.len() && ids[k] == a;
                    assert(tx.addrs@[k].0 == a);
                }
                if exists|k: int| 0 <= k < tx.addrs@.len() && tx.addrs@[k].0 == a {
                    let k = choose|k: int| 0 <= k < tx.addrs@.len() && tx.addrs@[k].0 == a;
                    assert(ids[k] == a);
                }
            }
        }
        Ok(())
    }
}

} // verus!
