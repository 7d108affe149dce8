use dataflow::capability::Ledger;
use dataflow::frontier::Antichain;
use dataflow::notificator::Notificator;
use dataflow::order::{Product, Timestamp};

fn pair(outer: u64, inner: u64) -> Product {
    Product::new(outer, inner)
}

fn sorted(mut times: Vec<Product>) -> Vec<(u64, u64)> {
    times.sort_by_key(|t| (t.outer, t.inner));
    times.iter().map(|t| (t.outer, t.inner)).collect()
}

#[test]
fn a_product_is_ordered_coordinate_by_coordinate() {
    assert!(pair(1, 2).less_equal(&pair(1, 2)));
    assert!(pair(1, 2).less_equal(&pair(3, 2)));
    assert!(!pair(1, 2).less_equal(&pair(3, 1)));
    assert!(!pair(3, 1).less_equal(&pair(1, 2)));
    assert_eq!(pair(1, 2).join(&pair(3, 1)), pair(3, 2));
    assert_eq!(Product::minimum(), pair(0, 0));
    assert_eq!(pair(1, 2).advance_by(3), Some(pair(1, 5)));
    assert_eq!(pair(1, u64::MAX).advance_by(1), None);
    assert_eq!(pair(1, 0).advance_by(1 << 64), None);
}

#[test]
fn incomparable_times_stand_side_by_side_in_a_frontier() {
    let mut f = Antichain::from_elem(pair(0, 3));
    assert!(f.insert(pair(2, 1)));
    assert!(f.insert(pair(1, 2)));
    assert_eq!(f.len(), 3);
    assert!(!f.insert(pair(2, 2)));
    assert!(f.less_equal(&pair(5, 1)));
    assert!(!f.less_equal(&pair(1, 1)));
    assert!(!f.less_than(&pair(2, 1)));
    assert!(f.less_than(&pair(2, 2)));
    // A time before two of the elements takes their place.
    assert!(f.insert(pair(1, 1)));
    assert_eq!(sorted(f.elements()), vec![(0, 3), (1, 1)]);
}

#[test]
fn the_frontier_of_incomparable_capabilities_holds_them_all() {
    let mut ledger: Ledger<Product> = Ledger::new(0);
    let a = ledger.issue(pair(0, 2));
    let b = ledger.issue(pair(1, 0));
    let c = ledger.issue(pair(1, 2));
    assert_eq!(sorted(ledger.frontier().elements()), vec![(0, 2), (1, 0)]);
    assert_eq!(ledger.release(a), Ok(()));
    assert_eq!(ledger.frontier().elements(), vec![pair(1, 0)]);
    assert_eq!(ledger.release(b), Ok(()));
    assert_eq!(ledger.frontier().elements(), vec![pair(1, 2)]);
    assert_eq!(ledger.release(c), Ok(()));
}

#[test]
fn incomparable_times_fire_in_some_order_and_comparable_ones_in_theirs() {
    let mut ledger: Ledger<Product> = Ledger::new(0);
    let mut notificator = Notificator::new();
    for time in [pair(2, 2), pair(0, 1), pair(1, 0), pair(1, 1), pair(0, 5)] {
        assert!(notificator.notify_at(ledger.issue(time)).is_none());
    }
    let frontier = vec![Antichain::from_times(&vec![pair(0, 4), pair(3, 0)])];
    let fired: Vec<Product> = notificator.for_each(&frontier).iter().map(|c| c.time()).collect();
    assert_eq!(fired.len(), 4);
    let at = |t: Product| fired.iter().position(|x| *x == t).unwrap();
    assert!(at(pair(0, 1)) < at(pair(1, 1)));
    assert!(at(pair(1, 0)) < at(pair(1, 1)));
    assert!(at(pair(1, 1)) < at(pair(2, 2)));
    assert_eq!(notificator.pending_times(), vec![pair(0, 5)]);
}
