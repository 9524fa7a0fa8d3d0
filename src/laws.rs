//! Properties of the tracker that relate several operations or hold of every
//! input.

use vstd::prelude::*;
use vstd::arithmetic::div_mod::{
    lemma_div_denominator, lemma_fundamental_div_mod, lemma_fundamental_div_mod_converse_mod,
};
use crate::fixed::{frac_from, root_spec, Base, FIXED_ONE, FRAC_BITS};
use crate::model::{
    addr_ids, sat_mul, MeasureError, Tx, CU_SCALE, MAXIMUM_THREAD_COUNT, MINIMUM_BASE_FEE_RATE,
};
use crate::model::{distinct_ids, Addr, LocalFeeMarket};
use crate::tracker::{
    cool_down_spec, due, due_total, occurrences, reward_per_resource, window_occurrences, BaseFeeTracker,
    Quote,
};

verus! {

proof fn lemma_frac_scaled(base: Base, g: nat, rem: nat, den: nat, i: nat, acc: nat)
    requires
        g > 0,
    ensures
        frac_from(base, g * rem, g * den, i, acc) == frac_from(base, rem, den, i, acc),
    decreases FRAC_BITS - i,
{
    if i < FRAC_BITS {
        assert(2 * (g * rem) >= g * den <==> 2 * rem >= den) by (nonlinear_arith)
            requires g > 0;
        assert(2 * (g * rem) == g * (2 * rem)) by (nonlinear_arith);
        if 2 * rem >= den {
            assert(2 * (g * rem) - g * den == g * (2 * rem - den)) by (nonlinear_arith);
            lemma_frac_scaled(base, g, (2 * rem - den) as nat, den, i + 1, acc * root_spec(base, (i + 1) as u32) / FIXED_ONE as nat);
        } else {
            lemma_frac_scaled(base, g, 2 * rem, den, i + 1, acc);
        }
    }
}

/// Cooling down with `groups` non-conflicting groups over `cu` capacity units
/// is cooling down with a single group over `cu / groups` units.
pub proof fn lemma_cool_down_scaling(rate: u64, cu: u64, groups: u64)
    requires
        groups >= 1,
        cu % groups == 0,
    ensures
        cool_down_spec(rate, cu, groups) == cool_down_spec(rate, cu / groups, 1),
{
    let g = groups as int;
    let s = CU_SCALE as int;
    let c = (cu / groups) as int;
    lemma_fundamental_div_mod(cu as int, g);
    assert(cu == g * c);
    lemma_div_denominator(cu as int, g, s);
    lemma_fundamental_div_mod(c, s);
    let q = c / s;
    let r = c % s;
    assert(cu == q * (g * s) + g * r) by (nonlinear_arith)
        requires cu == g * c, c == q * s + r;
    assert(0 <= g * r < g * s) by (nonlinear_arith)
        requires 0 <= r < s, g >= 1;
    lemma_fundamental_div_mod_converse_mod(cu as int, g * s, q, g * r);
    assert(cu as int % (g * s) == g * r);
    assert(1 * s == s);
    lemma_frac_scaled(Base::Two, groups as nat, r as nat, s as nat, 0, FIXED_ONE as nat);
}

/// Once a work unit holding resource `a` is admitted, any other admission
/// touching `a` is refused until it is settled; when it gets past the count
/// and emptiness checks, it is refused with `AlreadyActive`.
pub proof fn lemma_mutual_exclusion(pre: BaseFeeTracker, post: BaseFeeTracker, tx: Tx, other: Tx, a: u8)
    requires
        post.admitted_from(pre, tx),
        addr_ids(tx.addrs@).contains(a),
        addr_ids(other.addrs@).contains(a),
    ensures
        post.admission(other) is Err,
        post.active_txs@.len() + 1 <= MAXIMUM_THREAD_COUNT ==> post.admission(other) == Err::<(), MeasureError>(MeasureError::AlreadyActive),
{
    let k = choose|k: int| 0 <= k < addr_ids(tx.addrs@).len() && addr_ids(tx.addrs@)[k] == a;
    let j = choose|j: int| 0 <= j < addr_ids(other.addrs@).len() && addr_ids(other.addrs@)[j] == a;
    assert(post.fee_markets@.contains_key(addr_ids(tx.addrs@)[k]));
    assert(post.market_spec(a).is_active);
    assert(other.addrs@[j].0 == a);
    assert(post.market_spec(other.addrs@[j].0).is_active);
}

/// The collected and burnt fees split the total supplied fee, whenever the
/// rewarded capacity at the minimum rate does not exceed what was supplied.
pub proof fn lemma_fee_split(t: BaseFeeTracker)
    requires
        t.collected_fee_spec() <= t.total_supplied_fee,
    ensures
        t.collected_fee_spec() + t.burnt_fee_spec() == t.total_supplied_fee,
{
}

proof fn lemma_baseline_total(qs: Seq<Quote>, cu: u64)
    requires
        forall|k: int| 0 <= k < qs.len() ==> #[trigger] qs[k].rate == MINIMUM_BASE_FEE_RATE,
        qs.len() * MINIMUM_BASE_FEE_RATE * cu <= u64::MAX,
    ensures
        due_total(qs, cu, false) == qs.len() * MINIMUM_BASE_FEE_RATE * cu,
    decreases qs.len(),
{
    if qs.len() > 0 {
        let n = qs.len() as int;
        let r = MINIMUM_BASE_FEE_RATE as int;
        let c = cu as int;
        assert((n - 1) * r * c <= n * r * c && r * c <= n * r * c) by (nonlinear_arith)
            requires n >= 1, r >= 0, c >= 0;
        assert(n * r * c == (n - 1) * r * c + r * c) by (nonlinear_arith);
        let rest = qs.drop_last();
        assert forall|k: int| 0 <= k < rest.len() implies #[trigger] rest[k].rate == MINIMUM_BASE_FEE_RATE by {
            assert(rest[k] == qs[k]);
        }
        assert(rest.len() == n - 1);
        lemma_baseline_total(rest, cu);
        assert(qs.last().rate == MINIMUM_BASE_FEE_RATE);
        assert(sat_mul(MINIMUM_BASE_FEE_RATE, cu) == r * c);
        assert(due(qs.last(), cu, false) == r * c);
        assert(due_total(rest, cu, false) == (n - 1) * r * c);
        assert(due_total(qs, cu, false) == due_total(rest, cu, false).saturating_add(due(qs.last(), cu, false)));
        assert((n - 1) * r * c + r * c <= u64::MAX);
        assert(due_total(qs, cu, false) == n * r * c);
    } else {
        let c = cu as int;
        assert(0 * (MINIMUM_BASE_FEE_RATE as int) * c == 0) by (nonlinear_arith);
    }
}

/// While the congestion threshold is out of reach of an uncongested tracker,
/// the tracker stays uncongested, every resource is priced at the minimum fee
/// rate, and an admission requires exactly the minimum fee rate times its
/// requested capacity for each of its resources, whatever the history.
pub proof fn lemma_uncongested_baseline(t: BaseFeeTracker, tx: Tx)
    requires
        !t.is_congested,
        t.active_txs@.len() + 1 < t.policy.congestion_threshold,
    ensures
        !t.next_congested(),
        forall|k: int| 0 <= k < tx.addrs@.len() ==> #[trigger] t.quotes_spec(tx)[k].rate == MINIMUM_BASE_FEE_RATE,
        tx.addrs@.len() * MINIMUM_BASE_FEE_RATE * tx.requested_cu <= u64::MAX
            ==> t.minimum_fee(tx) == tx.addrs@.len() * MINIMUM_BASE_FEE_RATE * tx.requested_cu,
{
    if tx.addrs@.len() * MINIMUM_BASE_FEE_RATE * tx.requested_cu <= u64::MAX {
        lemma_baseline_total(t.quotes_spec(tx), tx.requested_cu);
    }
}

/// Admission adds exactly the supplied fee to the total, and leaves the
/// rewarded capacity alone, as long as the sums fit in a `u64`.
pub proof fn lemma_admission_accounting(pre: BaseFeeTracker, post: BaseFeeTracker, tx: Tx)
    requires
        post.admitted_from(pre, tx),
        tx.supplied_fee_rate * tx.requested_cu + pre.total_supplied_fee <= u64::MAX,
    ensures
        post.total_supplied_fee == pre.total_supplied_fee + tx.supplied_fee_rate * tx.requested_cu,
        post.rewarded_cu == pre.rewarded_cu,
{
    assert(tx.supplied_fee_rate * tx.requested_cu <= u64::MAX);
}

/// Settlement adds exactly the rewarded capacity of each resource (all of the
/// requested capacity on success, half of the actual capacity on failure) and
/// leaves the total supplied fee alone, as long as the sums fit in a `u64`.
pub proof fn lemma_settlement_accounting(
    pre: BaseFeeTracker,
    post: BaseFeeTracker,
    tx: Tx,
    result: Result<(), u64>,
)
    requires
        post.settled_from(pre, tx, result),
        pre.rewarded_cu + tx.addrs@.len() * reward_per_resource(tx, result) <= u64::MAX,
    ensures
        post.rewarded_cu == pre.rewarded_cu + tx.addrs@.len() * reward_per_resource(tx, result),
        post.total_supplied_fee == pre.total_supplied_fee,
{
    let n = tx.addrs@.len() as int;
    let r = reward_per_resource(tx, result) as int;
    if r >= 1 {
        assert(n <= n * r) by (nonlinear_arith)
            requires r >= 1, n >= 0;
    } else {
        assert(n * r == 0) by (nonlinear_arith)
            requires r == 0;
        let x = tx.addrs@.len() as u64;
        assert(x * 0 == 0) by (nonlinear_arith);
        assert(sat_mul(x, 0) == 0);
    }
}

proof fn lemma_occurrences_distinct(s: Seq<Addr>, a: u8)
    requires
        distinct_ids(s),
    ensures
        occurrences(s, a) == if addr_ids(s).contains(a) { 1nat } else { 0nat },
    decreases s.len(),
{
    if s.len() > 0 {
        let t = s.drop_last();
        assert(distinct_ids(t)) by {
            assert forall|i: int, j: int| 0 <= i < j < t.len() implies #[trigger] t[i].0 != #[trigger] t[j].0 by {
                assert(s[i].0 != s[j].0);
            }
        }
        lemma_occurrences_distinct(t, a);
        if addr_ids(t).contains(a) {
            let k = choose|k: int| 0 <= k < addr_ids(t).len() && addr_ids(t)[k] == a;
            assert(s[k].0 == a);
            assert(s[k].0 != s[s.len() - 1].0);
            assert(addr_ids(s)[k] == a);
        } else if s.last().0 == a {
            assert(addr_ids(s)[s.len() - 1] == a);
        } else {
            if addr_ids(s).contains(a) {
                let k = choose|k: int| 0 <= k < addr_ids(s).len() && addr_ids(s)[k] == a;
                assert(k < s.len() - 1);
                assert(addr_ids(t)[k] == a);
            }
        }
    }
}

proof fn lemma_occurrences_absent(s: Seq<Addr>, a: u8)
    requires
        forall|j: int| 0 <= j < s.len() ==> #[trigger] s[j].0 != a,
    ensures
        occurrences(s, a) == 0,
    decreases s.len(),
{
    if s.len() > 0 {
        lemma_occurrences_absent(s.drop_last(), a);
    }
}

proof fn lemma_window_absent(w: Seq<Seq<Addr>>, a: u8)
    requires
        forall|i: int, j: int| 0 <= i < w.len() && 0 <= j < w[i].len() ==> #[trigger] w[i][j].0 != a,
    ensures
        window_occurrences(w, a) == 0,
    decreases w.len(),
{
    if w.len() > 0 {
        let last = w.last();
        assert forall|j: int| 0 <= j < last.len() implies #[trigger] last[j].0 != a by {
            assert(w[w.len() - 1][j].0 != a);
        }
        lemma_occurrences_absent(last, a);
        let v = w.drop_last();
        assert forall|i: int, j: int| 0 <= i < v.len() && 0 <= j < v[i].len() implies #[trigger] v[i][j].0 != a by {
            assert(w[i][j].0 != a);
        }
        lemma_window_absent(v, a);
    }
}

proof fn lemma_window_bound(w: Seq<Seq<Addr>>, a: u8)
    requires
        forall|i: int| 0 <= i < w.len() ==> distinct_ids(#[trigger] w[i]),
    ensures
        window_occurrences(w, a) <= w.len(),
    decreases w.len(),
{
    if w.len() > 0 {
        assert(distinct_ids(w[w.len() - 1]));
        lemma_occurrences_distinct(w.last(), a);
        let v = w.drop_last();
        assert forall|i: int| 0 <= i < v.len() implies distinct_ids(#[trigger] v[i]) by {
            assert(distinct_ids(w[i]));
        }
        lemma_window_bound(v, a);
    }
}

proof fn lemma_window_drop_first(w: Seq<Seq<Addr>>, a: u8)
    requires
        w.len() > 0,
    ensures
        window_occurrences(w, a) == occurrences(w[0], a) + window_occurrences(w.drop_first(), a),
    decreases w.len(),
{
    if w.len() > 1 {
        let v = w.drop_last();
        lemma_window_drop_first(v, a);
        assert(v[0] == w[0]);
        assert(v.drop_first() =~= w.drop_first().drop_last());
        assert(w.drop_first().last() == w.last());
        assert(window_occurrences(w.drop_first(), a) == window_occurrences(w.drop_first().drop_last(), a)
            + occurrences(w.drop_first().last(), a));
        assert(window_occurrences(w, a) == window_occurrences(v, a) + occurrences(w.last(), a));
    } else {
        assert(w.drop_last().len() == 0);
        assert(w.drop_first().len() == 0);
        assert(w.last() == w[0]);
        assert(window_occurrences(w.drop_last(), a) == 0);
        assert(window_occurrences(w.drop_first(), a) == 0);
    }
}

/// Every admission keeps each market's `freq` equal to the number of windowed
/// admissions holding its resource: an admission adds one to the count of
/// each resource it holds, and the admission leaving the window takes one
/// from each of its own.
pub proof fn lemma_admission_tracks_window(pre: BaseFeeTracker, post: BaseFeeTracker, tx: Tx)
    requires
        pre.wf(),
        pre.tracks_window(),
        pre.window().len() < u64::MAX,
        tx.has_distinct_addrs(),
        post.admitted_from(pre, tx),
    ensures
        post.tracks_window(),
{
    let ids = addr_ids(tx.addrs@);
    let pushed = pre.window().push(tx.addrs@);
    let gone = pre.expired_entry(tx);
    assert forall|i: int| 0 <= i < pushed.len() implies distinct_ids(#[trigger] pushed[i]) by {
        if i < pre.window().len() {
            assert(pushed[i] == pre.window()[i]);
        }
    }
    assert forall|i: int| 0 <= i < post.window().len() implies distinct_ids(#[trigger] post.window()[i]) by {
        if pre.expires(tx) {
            assert(post.window()[i] == pushed[i + 1]);
        } else {
            assert(post.window()[i] == pushed[i]);
        }
    }
    assert forall|a: u8| #[trigger] post.fee_markets@.contains_key(a)
        implies post.fee_markets@[a].freq == window_occurrences(post.window(), a) by {
        assert(pushed.drop_last() =~= pre.window());
        lemma_occurrences_distinct(tx.addrs@, a);
        let grown = window_occurrences(pushed, a);
        if pre.expires(tx) {
            lemma_window_drop_first(pushed, a);
        } else {
            assert(occurrences(gone, a) == 0);
        }
        assert(window_occurrences(post.window(), a) + occurrences(gone, a) == grown);
        if ids.contains(a) {
            let k = choose|k: int| 0 <= k < ids.len() && ids[k] == a;
            if !pre.fee_markets@.contains_key(a) {
                assert forall|i: int, j: int| 0 <= i < pre.window().len() && 0 <= j < pre.window()[i].len()
                    implies #[trigger] pre.window()[i][j].0 != a by {
                    assert(pre.fee_markets@.contains_key(pre.window()[i][j].0));
                }
                lemma_window_absent(pre.window(), a);
            }
            lemma_window_bound(pre.window(), a);
            assert(pre.market_spec(a).freq == window_occurrences(pre.window(), a));
            assert(post.fee_markets@[ids[k]] == crate::tracker::expired_by(pre.market_committed(tx, k), occurrences(gone, a)));
        } else {
            assert(post.fee_markets@[a] == crate::tracker::expired_by(pre.fee_markets@[a], occurrences(gone, a)));
        }
    }
}


/// Settlement leaves the recency window and every market's `freq` as they
/// were, so it keeps `freq` counting the windowed admissions.
pub proof fn lemma_settlement_tracks_window(
    pre: BaseFeeTracker,
    post: BaseFeeTracker,
    tx: Tx,
    result: Result<(), u64>,
)
    requires
        pre.tracks_window(),
        post.settled_from(pre, tx, result),
    ensures
        post.tracks_window(),
{
    assert forall|a: u8| #[trigger] post.fee_markets@.contains_key(a)
        implies post.fee_markets@[a].freq == window_occurrences(post.window(), a) by {
        assert(pre.fee_markets@.contains_key(a));
    }
}


/// Some unit of `units` holds resource `a`.
pub open spec fn held(units: Map<u8, Seq<Addr>>, a: u8) -> bool {
    exists|id: u8| #[trigger] units.contains_key(id) && addr_ids(units[id]).contains(a)
}

/// `units` maps each active identity of `t` to the resources of its unit;
/// no resource belongs to two of them; and a market is active exactly when
/// one of them holds its resource.
pub open spec fn holds_exclusively(t: BaseFeeTracker, units: Map<u8, Seq<Addr>>) -> bool {
    &&& units.dom() == t.active_txs@
    &&& forall|i: u8, j: u8, a: u8|
        #[trigger] units.contains_key(i) && #[trigger] units.contains_key(j) && i != j
            && #[trigger] addr_ids(units[i]).contains(a) ==> !addr_ids(units[j]).contains(a)
    &&& forall|i: u8, a: u8| #[trigger] units.contains_key(i) && #[trigger] addr_ids(units[i]).contains(a)
        ==> t.fee_markets@.contains_key(a)
    &&& forall|a: u8| #[trigger] t.fee_markets@.contains_key(a) ==> (t.fee_markets@[a].is_active <==> held(units, a))
}

/// Admitting `tx` adds it to the units that hold their resources exclusively.
pub proof fn lemma_admission_keeps_exclusive(
    pre: BaseFeeTracker,
    post: BaseFeeTracker,
    tx: Tx,
    units: Map<u8, Seq<Addr>>,
)
    requires
        holds_exclusively(pre, units),
        pre.admission(tx) is Ok,
        post.admitted_from(pre, tx),
    ensures
        holds_exclusively(post, units.insert(tx.id.0, tx.addrs@)),
{
    let ids = addr_ids(tx.addrs@);
    let next = units.insert(tx.id.0, tx.addrs@);
    assert(!units.contains_key(tx.id.0));
    assert(next.dom() =~= post.active_txs@);
    // No resource of `tx` was held before.
    assert forall|a: u8| ids.contains(a) implies !held(units, a) by {
        let k = choose|k: int| 0 <= k < ids.len() && ids[k] == a;
        assert(tx.addrs@[k].0 == a);
        assert(!pre.market_spec(tx.addrs@[k].0).is_active);
        if held(units, a) {
            let id = choose|id: u8| #[trigger] units.contains_key(id) && addr_ids(units[id]).contains(a);
            assert(pre.fee_markets@.contains_key(a));
        }
    }
    assert forall|i: u8, j: u8, a: u8|
        #[trigger] next.contains_key(i) && #[trigger] next.contains_key(j) && i != j
            && #[trigger] addr_ids(next[i]).contains(a) implies !addr_ids(next[j]).contains(a) by {
        if i == tx.id.0 {
            assert(!held(units, a));
            if addr_ids(next[j]).contains(a) {
                assert(units.contains_key(j) && addr_ids(units[j]).contains(a));
            }
        } else if j == tx.id.0 {
            assert(units.contains_key(i) && addr_ids(units[i]).contains(a));
            assert(held(units, a));
        } else {
            assert(units.contains_key(i) && units.contains_key(j));
        }
    }
    assert forall|i: u8, a: u8| #[trigger] next.contains_key(i) && #[trigger] addr_ids(next[i]).contains(a)
        implies post.fee_markets@.contains_key(a) by {
        if i == tx.id.0 {
            let k = choose|k: int| 0 <= k < ids.len() && ids[k] == a;
            assert(post.fee_markets@.contains_key(ids[k]));
        } else {
            assert(units.contains_key(i));
            assert(pre.fee_markets@.contains_key(a));
            if !ids.contains(a) {
                assert(post.fee_markets@.contains_key(a) == pre.fee_markets@.contains_key(a));
            } else {
                let k = choose|k: int| 0 <= k < ids.len() && ids[k] == a;
                assert(post.fee_markets@.contains_key(ids[k]));
            }
        }
    }
    assert forall|a: u8| #[trigger] post.fee_markets@.contains_key(a)
        implies (post.fee_markets@[a].is_active <==> held(next, a)) by {
        if ids.contains(a) {
            let k = choose|k: int| 0 <= k < ids.len() && ids[k] == a;
            assert(post.fee_markets@[ids[k]].is_active);
            assert(next.contains_key(tx.id.0) && addr_ids(next[tx.id.0]).contains(a));
        } else {
            assert(pre.fee_markets@.contains_key(a));
            assert(post.fee_markets@[a].is_active == pre.fee_markets@[a].is_active);
            if held(units, a) {
                let id = choose|id: u8| #[trigger] units.contains_key(id) && addr_ids(units[id]).contains(a);
                assert(next.contains_key(id) && addr_ids(next[id]).contains(a));
            }
            if held(next, a) {
                let id = choose|id: u8| #[trigger] next.contains_key(id) && addr_ids(next[id]).contains(a);
                assert(id != tx.id.0);
                assert(units.contains_key(id) && addr_ids(units[id]).contains(a));
            }
        }
    }
}

/// Settling an active unit with the resources it was admitted with removes it
/// from the units that hold their resources exclusively, and frees exactly
/// its resources.
pub proof fn lemma_settlement_keeps_exclusive(
    pre: BaseFeeTracker,
    post: BaseFeeTracker,
    tx: Tx,
    result: Result<(), u64>,
    units: Map<u8, Seq<Addr>>,
)
    requires
        holds_exclusively(pre, units),
        units.contains_key(tx.id.0),
        units[tx.id.0] == tx.addrs@,
        post.settled_from(pre, tx, result),
    ensures
        holds_exclusively(post, units.remove(tx.id.0)),
{
    let ids = addr_ids(tx.addrs@);
    let next = units.remove(tx.id.0);
    assert(next.dom() =~= post.active_txs@);
    assert forall|i: u8, a: u8| #[trigger] next.contains_key(i) && #[trigger] addr_ids(next[i]).contains(a)
        implies post.fee_markets@.contains_key(a) by {
        assert(units.contains_key(i));
    }
    assert forall|a: u8| #[trigger] post.fee_markets@.contains_key(a)
        implies (post.fee_markets@[a].is_active <==> held(next, a)) by {
        assert(pre.fee_markets@.contains_key(a));
        if ids.contains(a) {
            assert(!post.fee_markets@[a].is_active);
            if held(next, a) {
                let id = choose|id: u8| #[trigger] next.contains_key(id) && addr_ids(next[id]).contains(a);
                assert(units.contains_key(id) && units.contains_key(tx.id.0) && id != tx.id.0);
                assert(addr_ids(units[tx.id.0]).contains(a));
            }
        } else {
            assert(post.fee_markets@[a] == pre.fee_markets@[a]);
            if held(units, a) {
                let id = choose|id: u8| #[trigger] units.contains_key(id) && addr_ids(units[id]).contains(a);
                assert(id != tx.id.0);
                assert(next.contains_key(id) && addr_ids(next[id]).contains(a));
            }
            if held(next, a) {
                let id = choose|id: u8| #[trigger] next.contains_key(id) && addr_ids(next[id]).contains(a);
                assert(units.contains_key(id) && addr_ids(units[id]).contains(a));
            }
        }
    }
}


/// A tracker with no markets and no active units holds nothing: the empty set
/// of units holds its resources exclusively.
pub proof fn lemma_fresh_tracker_exclusive(t: BaseFeeTracker)
    requires
        t.fee_markets@ == Map::<u8, LocalFeeMarket>::empty(),
        t.active_txs@ == Set::<u8>::empty(),
    ensures
        holds_exclusively(t, Map::empty()),
{
    assert(Map::<u8, Seq<Addr>>::empty().dom() =~= t.active_txs@);
}

} // verus!
