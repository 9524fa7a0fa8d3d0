use fee_tracker::model::{Addr, LocalFeeMarket, MeasureError, Policy, Tx, MINIMUM_BASE_FEE_RATE};
use fee_tracker::tracker::BaseFeeTracker;

fn uncongested() -> BaseFeeTracker {
    BaseFeeTracker::new(Policy::new().congestion_threshold(usize::MAX))
}

fn freq(tracker: &BaseFeeTracker, a: u8) -> u64 {
    tracker.fee_markets.get(&a).unwrap().freq
}

#[test]
fn heat_up_within_a_doubling() {
    let tracker = BaseFeeTracker::new(Policy::new());
    assert_eq!(tracker.heat_up(5000, 200), 5013);
    assert_eq!(tracker.heat_up(5013, 200), 5026);
    assert_eq!(tracker.heat_up(5000, 25_000), 7071);
    assert_eq!(tracker.heat_up(0, 1_000_000), 0);
    assert_eq!(tracker.heat_up(u64::MAX, 50_000), u64::MAX);
    assert_eq!(tracker.heat_up(1, 50_000 * 70), u64::MAX);
}

#[test]
fn cool_down_within_a_halving() {
    let tracker = BaseFeeTracker::new(Policy::new());
    assert_eq!(tracker.cool_down(5000, 200), 4986);
    assert_eq!(tracker.cool_down(10_000, 25_000), 7071);
    assert_eq!(tracker.cool_down(u64::MAX, u64::MAX), 0);
}

#[test]
fn cool_down_scales_with_groups() {
    let mut tracker = BaseFeeTracker::new(Policy::new());
    let single = tracker.cool_down(40_000, 10_000);
    tracker.nonconflicting_group_count = 3;
    assert_eq!(tracker.cool_down(40_000, 30_000), single);
    tracker.nonconflicting_group_count = 0;
    assert_eq!(tracker.cool_down(40_000, 10_000), single);
}

#[test]
fn second_holder_is_refused() {
    let mut tracker = BaseFeeTracker::new(Policy::new());
    let tx1 = Tx::new(1, 200, 11_000, vec![Addr(7), Addr(8)]);
    let tx2 = Tx::new(2, 200, 20_000, vec![Addr(9), Addr(8)]);
    assert_eq!(tracker.start_measuring(&tx1), Ok(()));
    assert_eq!(tracker.start_measuring(&tx2), Err(MeasureError::AlreadyActive));
    assert_eq!(tracker.stop_measuring(&tx1, Ok(())), Ok(()));
    assert_eq!(tracker.start_measuring(&tx2), Ok(()));
}

#[test]
fn refusals_change_nothing() {
    let mut tracker = BaseFeeTracker::new(Policy::new());
    let tx = Tx::new(1, 200, 6000, vec![Addr(7)]);
    assert_eq!(tracker.start_measuring(&tx), Ok(()));
    let snapshot = (
        tracker.clock,
        tracker.reset_counter,
        tracker.is_congested,
        tracker.nonconflicting_group_count,
        tracker.total_supplied_fee,
        tracker.rewarded_cu,
        tracker.recent_addrs.len(),
        tracker.active_txs.len(),
        tracker.fee_markets.len(),
        *tracker.fee_markets.get(&7).unwrap(),
    );
    let cheap = Tx::new(2, 200, 1, vec![Addr(8)]);
    assert!(matches!(tracker.start_measuring(&cheap), Err(MeasureError::InsufficientSuppliedFee(200, _))));
    assert_eq!(tracker.start_measuring(&Tx::new(3, 200, 6000, vec![Addr(7)])), Err(MeasureError::AlreadyActive));
    assert_eq!(tracker.start_measuring(&Tx::new(1, 200, 6000, vec![Addr(9)])), Err(MeasureError::AlreadyMeasuring));
    assert_eq!(tracker.start_measuring(&Tx::new(4, 200, 6000, vec![])), Err(MeasureError::NoAddress));
    let after = (
        tracker.clock,
        tracker.reset_counter,
        tracker.is_congested,
        tracker.nonconflicting_group_count,
        tracker.total_supplied_fee,
        tracker.rewarded_cu,
        tracker.recent_addrs.len(),
        tracker.active_txs.len(),
        tracker.fee_markets.len(),
        *tracker.fee_markets.get(&7).unwrap(),
    );
    assert_eq!(snapshot, after);
    assert!(tracker.fee_markets.get(&8).is_none());
}

#[test]
fn too_many_active_units() {
    let mut tracker = uncongested();
    for i in 0..5u8 {
        assert_eq!(tracker.start_measuring(&Tx::new(i, 10, 5000, vec![Addr(i)])), Ok(()));
    }
    let tx = Tx::new(9, 10, 5000, vec![Addr(9)]);
    assert_eq!(tracker.start_measuring(&tx), Err(MeasureError::TooManyActiveThreadCount));
    assert_eq!(tracker.stop_measuring(&Tx::new(0, 10, 5000, vec![Addr(0)]), Ok(())), Ok(()));
    assert_eq!(tracker.start_measuring(&tx), Ok(()));
}

#[test]
fn settling_an_unknown_unit() {
    let mut tracker = BaseFeeTracker::new(Policy::new());
    let tx = Tx::new(1, 200, 6000, vec![Addr(7)]);
    assert_eq!(tracker.stop_measuring(&tx, Ok(())), Err(MeasureError::NotMeasured));
    assert_eq!(tracker.clock, 0);
    assert_eq!(tracker.rewarded_cu, 0);
}

#[test]
fn accounting_stays_monotonic_and_split() {
    let mut tracker = BaseFeeTracker::new(Policy::new());
    let tx = Tx::new(1, 200, 6000, vec![Addr(7), Addr(8)]);
    let mut last_total = 0;
    let mut last_rewarded = 0;
    for round in 0..4u64 {
        let _ = tracker.start_measuring(&tx);
        let outcome = if round % 2 == 0 { Ok(()) } else { Err(150) };
        let _ = tracker.stop_measuring(&tx, outcome);
        assert!(tracker.total_supplied_fee >= last_total);
        assert!(tracker.rewarded_cu >= last_rewarded);
        assert_eq!(tracker.collected_fee() + tracker.burnt_fee(), tracker.total_supplied_fee);
        last_total = tracker.total_supplied_fee;
        last_rewarded = tracker.rewarded_cu;
    }
}

#[test]
fn uncongested_fee_is_the_baseline() {
    let mut tracker = uncongested();
    let tx = Tx::new(1, 300, 9000, vec![Addr(7)]);
    for _ in 0..3 {
        assert_eq!(tracker.start_measuring(&tx), Ok(()));
        assert!(!tracker.is_congested);
        assert_eq!(tracker.stop_measuring(&tx, Ok(())), Ok(()));
        let probe = Tx::new(2, 300, 0, vec![Addr(7)]);
        assert_eq!(
            tracker.start_measuring(&probe),
            Err(MeasureError::InsufficientSuppliedFee(0, MINIMUM_BASE_FEE_RATE * 300))
        );
    }
}

#[test]
fn congestion_raises_the_required_fee() {
    let mut tracker = BaseFeeTracker::new(Policy::new());
    let tx = Tx::new(3, 200, 5013, vec![Addr(7)]);
    assert_eq!(tracker.start_measuring(&tx), Ok(()));
    assert!(tracker.is_congested);
    assert_eq!(tracker.stop_measuring(&tx, Ok(())), Ok(()));
    match tracker.start_measuring(&tx) {
        Err(MeasureError::InsufficientSuppliedFee(offered, required)) => {
            assert_eq!(offered, 1_002_600);
            assert!(required > offered);
            let richer = Tx::new(3, 200, required / 200, vec![Addr(7)]);
            assert_eq!(tracker.start_measuring(&richer), Ok(()));
        }
        other => panic!("unexpected outcome {:?}", other),
    }
}

#[test]
fn window_keeps_recent_alternating_admissions() {
    let mut tracker = uncongested();
    let a = Tx::new(1, 100, 5000, vec![Addr(7)]);
    let b = Tx::new(2, 100, 5000, vec![Addr(8)]);
    for i in 0..7 {
        let tx = if i % 2 == 0 { &a } else { &b };
        assert_eq!(tracker.start_measuring(tx), Ok(()));
        assert_eq!(tracker.stop_measuring(tx, Ok(())), Ok(()));
    }
    assert_eq!(tracker.recent_addrs.len(), 5);
    assert_eq!(freq(&tracker, 7), 3);
    assert_eq!(freq(&tracker, 8), 2);
    assert_eq!(tracker.nonconflicting_group_count, 2);
}

#[test]
fn window_expiry_ends_groups() {
    let mut tracker = uncongested();
    let a = Tx::new(1, 100, 5000, vec![Addr(7)]);
    let b = Tx::new(2, 100, 5000, vec![Addr(8)]);
    let c = Tx::new(3, 100, 5000, vec![Addr(9)]);
    let mut counts = Vec::new();
    for tx in [&a, &b, &c, &c, &c, &c, &c, &c] {
        assert_eq!(tracker.start_measuring(tx), Ok(()));
        assert_eq!(tracker.stop_measuring(tx, Ok(())), Ok(()));
        counts.push(tracker.nonconflicting_group_count);
    }
    assert_eq!(counts, vec![1, 2, 3, 3, 3, 2, 1, 1]);
    assert_eq!(freq(&tracker, 7), 0);
    assert_eq!(freq(&tracker, 8), 0);
    assert_eq!(freq(&tracker, 9), 5);
}

#[test]
fn partial_failure_rewards_half_per_resource() {
    let mut tracker = uncongested();
    let tx = Tx::new(1, 200, 10_000, vec![Addr(7), Addr(8)]);
    assert_eq!(tracker.start_measuring(&tx), Ok(()));
    assert_eq!(tracker.stop_measuring(&tx, Err(100)), Ok(()));
    assert_eq!(tracker.rewarded_cu, 100);
    assert_eq!(tracker.collected_fee(), 100 * MINIMUM_BASE_FEE_RATE);
    assert_eq!(tracker.clock, 200);
}

fn market_with_reserve(reserved_fee: u64) -> LocalFeeMarket {
    LocalFeeMarket {
        required_fee_rate: MINIMUM_BASE_FEE_RATE,
        reserved_fee,
        clock: 0,
        reset_counter: 0,
        freq: 0,
        is_active: false,
    }
}

#[test]
fn reserve_gives_no_discount_when_congestion_ends() {
    let mut tracker = BaseFeeTracker::new(Policy::new().congestion_threshold(2));
    tracker.is_congested = true;
    tracker.fee_markets.insert(7, market_with_reserve(1_000_000));
    let tx = Tx::new(1, 200, 0, vec![Addr(7)]);
    assert_eq!(tracker.start_measuring(&tx), Err(MeasureError::InsufficientSuppliedFee(0, 1_000_000)));
    assert!(tracker.is_congested);
}

#[test]
fn reserve_discounts_when_congestion_starts() {
    let mut tracker = BaseFeeTracker::new(Policy::new());
    tracker.fee_markets.insert(7, market_with_reserve(1_000_000));
    let short = Tx::new(1, 200, 12, vec![Addr(7)]);
    assert_eq!(tracker.start_measuring(&short), Err(MeasureError::InsufficientSuppliedFee(2400, 2600)));
    let tx = Tx::new(1, 200, 13, vec![Addr(7)]);
    assert_eq!(tracker.start_measuring(&tx), Ok(()));
    assert!(tracker.is_congested);
    assert_eq!(tracker.fee_markets.get(&7).unwrap().reserved_fee, 0);
}

#[test]
fn uncongested_fee_counts_every_resource() {
    let mut tracker = uncongested();
    let tx = Tx::new(1, 300, 0, vec![Addr(7), Addr(8), Addr(9)]);
    assert_eq!(
        tracker.start_measuring(&tx),
        Err(MeasureError::InsufficientSuppliedFee(0, 3 * MINIMUM_BASE_FEE_RATE * 300))
    );
}
