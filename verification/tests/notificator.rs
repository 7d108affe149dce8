use dataflow::capability::Ledger;
use dataflow::frontier::Antichain;
use dataflow::notificator::Notificator;
use dataflow::order::Nested;

#[test]
fn nothing_fires_while_a_frontier_is_at_or_before_the_time() {
    let mut ledger: Ledger<u64> = Ledger::new(0);
    let mut notificator = Notificator::new();
    assert!(notificator.notify_at(ledger.issue(3)).is_none());
    assert_eq!(notificator.len(), 1);
    assert!(notificator.is_pending(&3));
    assert!(!notificator.is_pending(&4));
    let at = vec![Antichain::from_elem(3u64)];
    assert!(notificator.for_each(&at).is_empty());
    let before = vec![Antichain::from_elem(4u64), Antichain::from_elem(2u64)];
    assert!(notificator.for_each(&before).is_empty());
    assert!(!Notificator::has_passed(&before, &3));
    assert_eq!(notificator.len(), 1);
}

#[test]
fn a_time_fires_once_when_every_frontier_has_passed_it() {
    let mut ledger: Ledger<u64> = Ledger::new(0);
    let mut notificator = Notificator::new();
    assert!(notificator.notify_at(ledger.issue(3)).is_none());
    let past = vec![Antichain::from_elem(4u64), Antichain::new()];
    assert!(Notificator::has_passed(&past, &3));
    let fired = notificator.for_each(&past);
    assert_eq!(fired.len(), 1);
    assert_eq!(fired[0].time(), 3);
    assert_eq!(fired[0].output(), 0);
    // It does not fire again.
    assert!(notificator.for_each(&past).is_empty());
    assert_eq!(notificator.len(), 0);
    assert!(!notificator.is_pending(&3));
}

#[test]
fn a_second_request_for_a_pending_time_is_handed_back() {
    let mut ledger: Ledger<u64> = Ledger::new(0);
    let mut notificator = Notificator::new();
    assert!(notificator.notify_at(ledger.issue(3)).is_none());
    let spare = notificator.notify_at(ledger.issue(3)).unwrap();
    assert_eq!(spare.time(), 3);
    assert_eq!(notificator.len(), 1);
    assert_eq!(notificator.pending_times(), vec![3]);
    let fired = notificator.for_each(&vec![]);
    assert_eq!(fired.len(), 1);
}

#[test]
fn times_fire_in_order() {
    let mut ledger: Ledger<u64> = Ledger::new(0);
    let mut notificator = Notificator::new();
    for time in [9u64, 2, 7, 4, 11, 5] {
        assert!(notificator.notify_at(ledger.issue(time)).is_none());
    }
    let frontier = vec![Antichain::from_elem(8u64)];
    let fired: Vec<u64> = notificator.for_each(&frontier).iter().map(|c| c.time()).collect();
    assert_eq!(fired, vec![2, 4, 5, 7]);
    let mut left = notificator.pending_times();
    left.sort();
    assert_eq!(left, vec![9, 11]);
    let fired: Vec<u64> = notificator.for_each(&vec![]).iter().map(|c| c.time()).collect();
    assert_eq!(fired, vec![9, 11]);
}

#[test]
fn nested_times_fire_in_lexicographic_order() {
    let mut ledger: Ledger<Nested> = Ledger::new(0);
    let mut notificator = Notificator::new();
    for (outer, iteration) in [(1, 0), (0, 9), (0, 2), (2, 0)] {
        assert!(notificator.notify_at(ledger.issue(Nested::new(outer, iteration))).is_none());
    }
    let frontier = vec![Antichain::from_elem(Nested::new(1, 1))];
    let fired: Vec<Nested> = notificator.for_each(&frontier).iter().map(|c| c.time()).collect();
    assert_eq!(fired, vec![Nested::new(0, 2), Nested::new(0, 9), Nested::new(1, 0)]);
    assert!(notificator.is_pending(&Nested::new(2, 0)));
}
