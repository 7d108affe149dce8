use dataflow::capture::replay;
use dataflow::capture::{Capture, Event};
use dataflow::frontier::Antichain;
use dataflow::order::Product;
use dataflow::graph::Graph;
use dataflow::violation::ProtocolViolation;
use dataflow::worker::Worker;

fn captured(batches: Vec<(u64, Vec<u64>)>) -> Capture<u64, u64> {
    let mut log = Capture::new();
    for (time, data) in batches {
        log.record_messages(time, data);
    }
    log
}

#[test]
fn an_empty_log_holds_nothing() {
    let log: Capture<u64, u64> = Capture::new();
    assert_eq!(log.len(), 0);
    assert!(log.extract().is_empty());
}

#[test]
fn a_stream_is_read_back_as_it_was_captured() {
    let stream = vec![(0, vec![5, 6]), (1, vec![7]), (4, vec![]), (9, vec![8, 9, 10])];
    assert_eq!(captured(stream.clone()).extract(), stream);
}

#[test]
fn batches_of_one_time_are_joined_in_order_of_arrival() {
    let log = captured(vec![(2, vec![1]), (0, vec![2, 3]), (2, vec![4]), (0, vec![]), (2, vec![5])]);
    assert_eq!(log.len(), 5);
    assert_eq!(log.extract(), vec![(2, vec![1, 4, 5]), (0, vec![2, 3])]);
}

#[test]
fn progress_events_carry_no_records() {
    let mut log: Capture<u64, u64> = Capture::new();
    assert!(log.watch(&Antichain::from_elem(0)));
    log.record_messages(0, vec![1, 2]);
    assert!(log.watch(&Antichain::from_elem(1)));
    log.record_messages(1, vec![3]);
    assert!(log.watch(&Antichain::new()));
    assert_eq!(log.len(), 5);
    assert_eq!(log.extract(), vec![(0, vec![1, 2]), (1, vec![3])]);
}

#[test]
fn the_log_records_how_the_frontier_moves() {
    let mut log: Capture<u64, u64> = Capture::new();
    assert!(log.last_frontier().is_empty());
    // Nothing is recorded while the frontier stays where it is.
    assert!(!log.watch(&Antichain::new()));
    assert_eq!(log.len(), 0);
    assert!(log.watch(&Antichain::from_elem(0)));
    assert!(!log.watch(&Antichain::from_elem(0)));
    assert!(log.watch(&Antichain::from_elem(4)));
    assert_eq!(log.last_frontier().elements(), vec![4]);
    assert!(log.watch(&Antichain::new()));
    assert!(log.last_frontier().is_empty());
    let mut counts = std::collections::BTreeMap::new();
    let mut progress = Vec::new();
    for event in log.into_events() {
        match event {
            Event::Progress(updates) => {
                for (time, delta) in updates.iter() {
                    *counts.entry(*time).or_insert(0) += delta;
                }
                progress.push(updates);
            },
            Event::Messages(..) => panic!("no batch was recorded"),
        }
    }
    assert_eq!(progress, vec![vec![(0, 1)], vec![(0, -1), (4, 1)], vec![(4, -1)]]);
    // In the end every time has left the frontier as often as it entered.
    assert!(counts.values().all(|n| *n == 0));
}

#[test]
fn a_frontier_of_incomparable_times_is_recorded_element_by_element() {
    let mut log: Capture<Product, u64> = Capture::new();
    let first = Antichain::from_times(&vec![Product::new(0, 2), Product::new(1, 0)]);
    let second = Antichain::from_times(&vec![Product::new(0, 3), Product::new(1, 0)]);
    assert!(log.watch(&first));
    assert!(log.watch(&second));
    let events = log.into_events();
    assert_eq!(events.len(), 2);
    match &events[1] {
        Event::Progress(updates) => {
            assert_eq!(updates, &vec![(Product::new(0, 2), -1), (Product::new(0, 3), 1)]);
        },
        Event::Messages(..) => panic!("no batch was recorded"),
    }
}

#[test]
fn two_captures_of_the_same_data_extract_to_the_same_log() {
    // The integers 0..3 as a range, and as a vector.
    let mut first: Capture<u64, u64> = Capture::new();
    first.record_messages(0, (0..3).collect());
    let mut second: Capture<u64, u64> = Capture::new();
    second.record_messages(0, vec![0, 1, 2]);
    let one = first.extract();
    assert_eq!(one, second.extract());
    assert_eq!(one, vec![(0, vec![0, 1, 2])]);
}

#[test]
fn extracting_a_replayed_extract_changes_nothing() {
    let once = captured(vec![(3, vec![1]), (1, vec![2]), (3, vec![3])]).extract();
    let twice = captured(once.clone()).extract();
    assert_eq!(once, twice);
}


/// Streams `batches` through a dataflow of their own and captures them where
/// they arrive.
fn stream_and_capture(batches: Vec<(u64, Vec<u64>)>) -> Capture<u64, u64> {
    let mut graph = Graph::new();
    let source = graph.source();
    let passed_on = graph.concat(&vec![source]).unwrap();
    let tap = graph.operator(&vec![passed_on]).unwrap();
    let (mut worker, mut caps): (Worker<u64, u64>, _) = Worker::new(graph.seal(), 1);
    for cap in caps.remove(tap.node) {
        assert_eq!(worker.release(cap), Ok(()));
    }
    let cap = caps.remove(source.node).remove(0);
    assert_eq!(replay(batches, &mut worker, &cap, 0), Ok(()));
    assert_eq!(worker.release(cap), Ok(()));
    let mut log = Capture::new();
    while worker.step() {}
    while log.take_from(&mut worker, tap.node, 0, 0).unwrap() {}
    assert!(worker.frontier(tap.node, 0).unwrap().is_empty());
    log
}

#[test]
fn two_independent_dataflows_capture_the_same_stream() {
    let first = stream_and_capture(vec![(0, (0..3).collect())]);
    let second = stream_and_capture(vec![(0, vec![0, 1, 2])]);
    let one = first.extract();
    assert_eq!(one, second.extract());
    assert_eq!(one, vec![(0, vec![0, 1, 2])]);
}

#[test]
fn a_captured_stream_replays_as_itself() {
    let stream = vec![(0, vec![1, 2]), (3, vec![]), (4, vec![5]), (9, vec![6, 7, 8])];
    let once = stream_and_capture(stream.clone()).extract();
    assert_eq!(once, stream);
    let twice = stream_and_capture(once.clone()).extract();
    assert_eq!(twice, once);
    // Batches of one time come back as one.
    let split = vec![(2, vec![1]), (2, vec![2, 3]), (5, vec![4]), (2, vec![5])];
    assert_eq!(
        stream_and_capture(split).extract(),
        vec![(2, vec![1, 2, 3, 5]), (5, vec![4])]
    );
}

#[test]
fn replay_sends_nothing_unless_it_can_send_all() {
    let mut graph = Graph::new();
    let source = graph.source();
    let tap = graph.operator(&vec![source]).unwrap();
    let (mut worker, mut caps): (Worker<u64, u64>, _) = Worker::new(graph.seal(), 1);
    let mut cap = caps.remove(source.node).remove(0);
    assert_eq!(worker.downgrade(&mut cap, 2), Ok(()));
    let batches = vec![(2, vec![1]), (1, vec![2]), (3, vec![3])];
    assert_eq!(
        replay(batches.clone(), &mut worker, &cap, 0),
        Err(ProtocolViolation::TimeNotCovered)
    );
    assert_eq!(worker.waiting(tap.node, 0), 0);
    assert_eq!(
        replay(vec![(2, vec![1])], &mut worker, &cap, 1),
        Err(ProtocolViolation::UnknownEndpoint)
    );
    let other = caps.remove(0).remove(0);
    assert_eq!(worker.release(other), Ok(()));
    assert_eq!(replay(vec![(2, vec![1]), (7, vec![2])], &mut worker, &cap, 0), Ok(()));
    assert_eq!(worker.waiting(tap.node, 0), 2);
    assert_eq!(worker.inspect(tap.node, 0, 1).unwrap().time, 7);
    assert_eq!(worker.inspect(tap.node, 0, 1).unwrap().data, vec![2]);
    assert!(worker.inspect(tap.node, 0, 2).is_none());
    assert!(worker.inspect(tap.node, 1, 0).is_none());
    assert_eq!(worker.waiting(tap.node, 0), 2);
    let mut log = Capture::new();
    assert_eq!(log.take_from(&mut worker, tap.node, 3, 0), Err(ProtocolViolation::UnknownEndpoint));
    assert_eq!(log.take_from(&mut worker, tap.node, 0, 0), Ok(true));
    assert_eq!(log.take_from(&mut worker, tap.node, 0, 0), Ok(true));
    assert_eq!(log.take_from(&mut worker, tap.node, 0, 0), Ok(false));
    assert_eq!(log.extract(), vec![(2, vec![1]), (7, vec![2])]);
    assert_eq!(worker.release(cap), Ok(()));
    let gone = worker.frontier(tap.node, 0).unwrap();
    assert!(gone.is_empty());
}
