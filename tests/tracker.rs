use fee_tracker::model::{Addr, MeasureError, Policy, Tx, CU_SCALE, MINIMUM_BASE_FEE_RATE};
use fee_tracker::tracker::BaseFeeTracker;
use MeasureError::{InsufficientSuppliedFee, NotMeasured};

#[test]
fn tracker_default() {
    let tracker = BaseFeeTracker::new(Policy::new());
    assert_eq!(tracker.nonconflicting_group_count, 0);
    assert_eq!(tracker.burnt_fee(), 0);
    assert_eq!(tracker.collected_fee(), 0);
    assert_eq!(tracker.fee_markets.is_empty(), true);
}

#[test]
fn exponential_heat_up() {
    let tracker = BaseFeeTracker::new(Policy::new());
    let cu = CU_SCALE;
    assert_eq!(tracker.heat_up(5000, cu * 0), 5000 * 1);
    assert_eq!(tracker.heat_up(5000, cu * 1), 5000 * 2);
    assert_eq!(tracker.heat_up(5000, cu * 2), 5000 * 4);
    assert_eq!(tracker.heat_up(5000, cu * 3), 5000 * 8);
}

#[test]
fn exponential_normal_cool_down() {
    let tracker = BaseFeeTracker::new(Policy::new());
    let cu = CU_SCALE;
    assert_eq!(tracker.cool_down(5000 * 8, cu * 0), 5000 * 8);
    assert_eq!(tracker.cool_down(5000 * 8, cu * 1), 5000 * 4);
    assert_eq!(tracker.cool_down(5000 * 8, cu * 2), 5000 * 2);
    assert_eq!(tracker.cool_down(5000 * 8, cu * 3), 5000 * 1);
}

#[test]
fn exponential_slow_cool_down() {
    let mut tracker = BaseFeeTracker::new(Policy::new());
    tracker.nonconflicting_group_count = 5;
    let cu = CU_SCALE;
    assert_eq!(tracker.cool_down(5000 * 8, cu * 0 * 5), 5000 * 8);
    assert_eq!(tracker.cool_down(5000 * 8, cu * 1 * 5), 5000 * 4);
    assert_eq!(tracker.cool_down(5000 * 8, cu * 2 * 5), 5000 * 2);
    assert_eq!(tracker.cool_down(5000 * 8, cu * 3 * 5), 5000 * 1);
}

#[test]
fn tracker_no_congestion() {
    let mut tracker = BaseFeeTracker::new(Policy::new().congestion_threshold(usize::MAX));
    let tx = Tx::new(3, 200, 5000, vec![Addr(7)]);
    assert_eq!(tracker.start_measuring(&tx), Ok(()));
    assert_eq!(tracker.is_congested, false);
    assert_eq!(tracker.stop_measuring(&tx, Ok(())), Ok(()));

    assert_eq!(tracker.start_measuring(&tx), Ok(()));
    assert_eq!(tracker.stop_measuring(&tx, Ok(())), Ok(()));
}

#[test]
fn tracker_congestion() {
    let mut tracker = BaseFeeTracker::new(Policy::new());
    let tx = Tx::new(3, 200, 1002600 / 200, vec![Addr(7)]);
    assert_eq!(tracker.start_measuring(&tx), Ok(()));
    assert_eq!(tracker.is_congested, true);
    assert_eq!(tracker.stop_measuring(&tx, Ok(())), Ok(()));

    assert_eq!(tracker.start_measuring(&tx), Err(InsufficientSuppliedFee(1002600, 1005200)));
    let tx = Tx::new(3, 200, 1005200 / 200, vec![Addr(7)]);
    assert_eq!(tracker.start_measuring(&tx), Ok(()));
    assert_eq!(tracker.stop_measuring(&tx, Ok(())), Ok(()));
}

#[test]
fn tracker_locality() {
    let mut tracker = BaseFeeTracker::new(Policy::new());
    let tx1 = Tx::new(3, 200, 1002600 / 200, vec![Addr(7)]);
    let tx2 = Tx::new(4, 200, 1002600 / 200, vec![Addr(8)]);
    assert_eq!(tracker.start_measuring(&tx1), Ok(()));
    assert_eq!(tracker.is_congested, true);
    assert_eq!(tracker.stop_measuring(&tx1, Ok(())), Ok(()));

    assert_eq!(tracker.start_measuring(&tx1), Err(InsufficientSuppliedFee(1002600, 1005200)));

    assert_eq!(tracker.start_measuring(&tx2), Ok(()));
    assert_eq!(tracker.stop_measuring(&tx2, Ok(())), Ok(()));
}

#[test]
fn tracker_cool_down() {
    let mut tracker = BaseFeeTracker::new(Policy::new());
    let tx1 = Tx::new(3, 200, 1002600 / 200, vec![Addr(7)]);
    let tx2 = Tx::new(4, 200, 1002600 / 200, vec![Addr(8)]);
    assert_eq!(tracker.start_measuring(&tx1), Ok(()));
    assert_eq!(tracker.stop_measuring(&tx1, Ok(())), Ok(()));

    assert_eq!(tracker.start_measuring(&tx2), Ok(()));
    assert_eq!(tracker.stop_measuring(&tx2, Ok(())), Ok(()));
    assert_eq!(tracker.nonconflicting_group_count, 2);

    assert_eq!(tracker.start_measuring(&tx1), Err(InsufficientSuppliedFee(1002600, 1003800)));
    assert_eq!(tracker.stop_measuring(&tx1, Ok(())), Err(NotMeasured));

    assert_eq!(tracker.start_measuring(&tx2), Err(InsufficientSuppliedFee(1002600, 1005200)));
    assert_eq!(tracker.stop_measuring(&tx2, Ok(())), Err(NotMeasured));
}

#[test]
fn tracker_insufficient_fee() {
    let mut tracker = BaseFeeTracker::new(Policy::new().congestion_threshold(usize::MAX));
    let tx = Tx::new(3, 200, 4999, vec![Addr(7)]);
    assert_eq!(tracker.start_measuring(&tx), Err(InsufficientSuppliedFee(999800, 1000000)));
}

#[test]
fn tracker_burn_and_collect_with_success_tx() {
    let mut tracker = BaseFeeTracker::new(Policy::new());
    let cu = 200;
    let tx = Tx::new(3, cu, 1002600 / cu, vec![Addr(7)]);
    assert_eq!(tracker.start_measuring(&tx), Ok(()));
    assert_eq!(tracker.stop_measuring(&tx, Ok(())), Ok(()));
    assert_eq!(tracker.burnt_fee(), 2600);
    assert_eq!(tracker.collected_fee(), cu * MINIMUM_BASE_FEE_RATE);
}

#[test]
fn tracker_burn_and_collect_with_fail_tx() {
    let mut tracker = BaseFeeTracker::new(Policy::new());
    let cu = 200;
    let actual_cu = 100;
    let tx = Tx::new(3, cu, 1002600 / cu, vec![Addr(7)]);
    assert_eq!(tracker.start_measuring(&tx), Ok(()));
    assert_eq!(tracker.stop_measuring(&tx, Err(actual_cu)), Ok(()));
    assert_eq!(tracker.burnt_fee(), 1000000 - 1000000 / 4 + 2600);
    assert_eq!(tracker.collected_fee(), (actual_cu / 2) * MINIMUM_BASE_FEE_RATE);
}
