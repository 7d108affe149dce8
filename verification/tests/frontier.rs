use dataflow::frontier::Antichain;
use dataflow::order::{less_than, same_time, Nested, Timestamp};

#[test]
fn integers_are_ordered_by_value() {
    assert!(3u64.less_equal(&3));
    assert!(3u64.less_equal(&4));
    assert!(!4u64.less_equal(&3));
    assert_eq!(3u64.join(&7), 7);
    assert_eq!(u64::minimum(), 0);
    assert!(less_than(&3u64, &4));
    assert!(!less_than(&3u64, &3));
    assert!(same_time(&5u64, &5));
}

#[test]
fn integers_advance_by_addition() {
    assert_eq!(5u64.advance_by(0), Some(5));
    assert_eq!(5u64.advance_by(3), Some(8));
    assert_eq!(u64::MAX.advance_by(1), None);
    assert_eq!((u64::MAX - 1).advance_by(1), Some(u64::MAX));
}

#[test]
fn nested_times_are_ordered_lexicographically() {
    let a = Nested::new(1, 9);
    let b = Nested::new(2, 0);
    let c = Nested::new(2, 5);
    assert!(a.less_equal(&b));
    assert!(b.less_equal(&c));
    assert!(a.less_equal(&c));
    assert!(!c.less_equal(&b));
    assert!(!b.less_equal(&a));
    assert_eq!(a.join(&c), c);
    assert_eq!(c.join(&a), c);
    assert_eq!(Nested::minimum(), Nested::new(0, 0));
}

#[test]
fn nested_times_advance_the_iteration_and_carry_into_the_epoch() {
    assert_eq!(Nested::new(3, 4).advance_by(1), Some(Nested::new(3, 5)));
    assert_eq!(Nested::new(3, 4).advance_by(0), Some(Nested::new(3, 4)));
    assert_eq!(Nested::new(3, u64::MAX).advance_by(1), Some(Nested::new(4, 0)));
    assert_eq!(Nested::new(3, u64::MAX - 1).advance_by(5), Some(Nested::new(4, 3)));
    assert_eq!(Nested::new(u64::MAX, u64::MAX).advance_by(1), None);
    assert_eq!(Nested::new(u64::MAX, 7).advance_by(u64::MAX as u128), None);
    assert_eq!(Nested::new(0, 0).advance_by(1u128 << 64), Some(Nested::new(1, 0)));
    assert_eq!(Nested::new(1, 0).advance_by(u128::MAX), None);
}

#[test]
fn empty_frontier_dominates_nothing() {
    let f: Antichain<u64> = Antichain::new();
    assert!(f.is_empty());
    assert_eq!(f.len(), 0);
    assert!(!f.less_equal(&0));
    assert!(!f.less_than(&u64::MAX));
}

#[test]
fn insert_keeps_only_minimal_elements() {
    let mut f = Antichain::from_elem(5u64);
    assert!(!f.insert(7));
    assert_eq!(f.elements(), vec![5]);
    assert!(f.insert(3));
    assert_eq!(f.elements(), vec![3]);
    assert!(!f.insert(3));
    assert!(f.less_equal(&3));
    assert!(!f.less_than(&3));
    assert!(f.less_than(&4));
    assert!(!f.less_equal(&2));
}

#[test]
fn frontier_of_times_is_their_minimum() {
    let f = Antichain::from_times(&vec![9u64, 4, 6, 4]);
    assert_eq!(f.elements(), vec![4]);
    let g = Antichain::from_times(&vec![Nested::new(2, 0), Nested::new(1, 7), Nested::new(1, 8)]);
    assert_eq!(g.elements(), vec![Nested::new(1, 7)]);
    let e: Antichain<u64> = Antichain::from_times(&vec![]);
    assert!(e.is_empty());
}

#[test]
fn a_later_frontier_is_an_advance_of_an_earlier_one() {
    let early = Antichain::from_elem(2u64);
    let late = Antichain::from_elem(5u64);
    let done: Antichain<u64> = Antichain::new();
    assert!(late.is_advanced_from(&early));
    assert!(!early.is_advanced_from(&late));
    assert!(done.is_advanced_from(&late));
    assert!(!late.is_advanced_from(&done));
    assert!(early.is_advanced_from(&early.duplicate()));
}

#[test]
fn a_time_can_be_moved_forward_only_so_far() {
    // Steps taken one after the other are the steps taken at once.
    let start = 5u64;
    let there = start.advance_by(3).unwrap().advance_by(4).unwrap();
    assert_eq!(Some(there), start.advance_by(7));
    // From the last time no step leads on.
    assert_eq!(u64::MAX.advance_by(0), Some(u64::MAX));
    assert_eq!(u64::MAX.advance_by(1), None);
    assert_eq!(Nested::new(u64::MAX, u64::MAX).advance_by(1), None);
    assert_eq!(0u64.advance_by(u128::MAX), None);
}
