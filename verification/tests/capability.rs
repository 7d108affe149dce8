use dataflow::capability::Ledger;
use dataflow::violation::ProtocolViolation;

#[test]
fn a_new_ledger_holds_nothing() {
    let ledger: Ledger<u64> = Ledger::new(3);
    assert!(ledger.is_empty());
    assert_eq!(ledger.count(&0), 0);
    assert!(ledger.frontier().is_empty());
    assert!(ledger.times().is_empty());
}

#[test]
fn issue_clone_and_drop_are_counted() {
    let mut ledger: Ledger<u64> = Ledger::new(3);
    let first = ledger.issue(5);
    assert_eq!(first.time(), 5);
    assert_eq!(first.output(), 3);
    assert_eq!(ledger.count(&5), 1);
    let second = ledger.clone_capability(&first).unwrap();
    assert_eq!(second.time(), 5);
    assert_eq!(second.output(), 3);
    assert_eq!(ledger.count(&5), 2);
    let third = ledger.issue(5);
    assert_eq!(ledger.count(&5), 3);
    // Live copies are those issued, less those dropped.
    assert_eq!(ledger.release(first), Ok(()));
    assert_eq!(ledger.count(&5), 2);
    assert_eq!(ledger.frontier().elements(), vec![5]);
    assert_eq!(ledger.release(second), Ok(()));
    assert_eq!(ledger.count(&5), 1);
    assert_eq!(ledger.frontier().elements(), vec![5]);
    // The time leaves the frontier only with its last copy.
    assert_eq!(ledger.release(third), Ok(()));
    assert_eq!(ledger.count(&5), 0);
    assert!(ledger.frontier().is_empty());
    assert!(ledger.is_empty());
}

#[test]
fn downgrade_moves_one_copy_forward() {
    let mut ledger: Ledger<u64> = Ledger::new(0);
    let mut a = ledger.issue(2);
    let b = ledger.clone_capability(&a).unwrap();
    assert_eq!(ledger.downgrade(&mut a, 7), Ok(()));
    assert_eq!(a.time(), 7);
    assert_eq!(ledger.count(&2), 1);
    assert_eq!(ledger.count(&7), 1);
    assert_eq!(ledger.frontier().elements(), vec![2]);
    assert_eq!(ledger.release(b), Ok(()));
    assert_eq!(ledger.frontier().elements(), vec![7]);
    // To its own time is no change.
    assert_eq!(ledger.downgrade(&mut a, 7), Ok(()));
    assert_eq!(ledger.count(&7), 1);
    let mut times = ledger.times();
    times.sort();
    assert_eq!(times, vec![7]);
}

#[test]
fn downgrade_backward_is_refused() {
    let mut ledger: Ledger<u64> = Ledger::new(0);
    let mut cap = ledger.issue(4);
    assert_eq!(ledger.downgrade(&mut cap, 3), Err(ProtocolViolation::DowngradeBackward));
    assert_eq!(cap.time(), 4);
    assert_eq!(ledger.count(&4), 1);
    assert_eq!(ledger.count(&3), 0);
}

#[test]
fn a_capability_of_another_output_is_unknown() {
    let mut here: Ledger<u64> = Ledger::new(0);
    let mut there: Ledger<u64> = Ledger::new(1);
    let _keep = here.issue(4);
    let mut stray = there.issue(4);
    assert!(here.clone_capability(&stray).is_err());
    assert_eq!(here.downgrade(&mut stray, 9), Err(ProtocolViolation::UnknownCapability));
    assert_eq!(stray.time(), 4);
    assert_eq!(here.release(stray), Err(ProtocolViolation::UnknownCapability));
    assert_eq!(here.count(&4), 1);
}

#[test]
fn a_capability_without_a_live_copy_is_unknown() {
    let mut first: Ledger<u64> = Ledger::new(0);
    let mut second: Ledger<u64> = Ledger::new(0);
    let mut cap = first.issue(6);
    // The second ledger keeps the same output but has issued nothing for 6.
    let _other = second.issue(5);
    assert!(second.clone_capability(&cap).is_err());
    assert_eq!(second.downgrade(&mut cap, 8), Err(ProtocolViolation::UnknownCapability));
    assert_eq!(second.release(cap), Err(ProtocolViolation::UnknownCapability));
    assert_eq!(second.count(&5), 1);
}
