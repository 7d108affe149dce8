use dataflow::capability::Capability;
use dataflow::graph::{Graph, Stream};
use dataflow::operator::Operator;
use dataflow::violation::ProtocolViolation;
use dataflow::worker::Worker;

struct Flow {
    worker: Worker<u64, u64>,
    left: Capability<u64>,
    right: Capability<u64>,
    both: Stream,
}

/// Two sources that feed the two inputs of one operator.
fn two_inputs() -> Flow {
    let mut graph = Graph::new();
    let left = graph.source();
    let right = graph.source();
    let both = graph.operator(&vec![left, right]).unwrap();
    let (mut worker, mut caps) = Worker::new(graph.seal(), 1);
    for cap in caps.remove(both.node) {
        assert_eq!(worker.release(cap), Ok(()));
    }
    let right = caps.remove(1).remove(0);
    let left = caps.remove(0).remove(0);
    Flow { worker, left, right, both }
}

#[test]
fn nothing_is_ready_while_an_input_may_still_deliver() {
    let Flow { mut worker, mut left, mut right, both } = two_inputs();
    let mut op: Operator<u64, u64> = Operator::new(both.node, 0);
    assert_eq!(worker.give(&left, 0, 0, vec![1, 2]), Ok(()));
    assert_eq!(worker.give(&right, 0, 0, vec![3]), Ok(()));
    assert_eq!(op.accept(&mut worker, 0), Ok(true));
    assert_eq!(op.accept(&mut worker, 0), Ok(false));
    assert_eq!(op.accept(&mut worker, 1), Ok(true));
    assert_eq!(op.held_back(), 1);
    assert!(op.ready(&worker).is_empty());
    // One input moves on; the other still stands at the time.
    assert_eq!(worker.downgrade(&mut left, 1), Ok(()));
    assert!(op.ready(&worker).is_empty());
    assert_eq!(worker.downgrade(&mut right, 1), Ok(()));
    let mut ready = op.ready(&worker);
    assert_eq!(ready.len(), 1);
    let (cap, data) = ready.remove(0);
    assert_eq!(cap.time(), 0);
    assert_eq!(cap.output(), both.node);
    assert_eq!(data, vec![1, 2, 3]);
    assert_eq!(op.held_back(), 0);
    // The time does not come again.
    assert!(op.ready(&worker).is_empty());
    assert_eq!(worker.release(cap), Ok(()));
    assert_eq!(worker.release(left), Ok(()));
    assert_eq!(worker.release(right), Ok(()));
    assert!(op.ready(&worker).is_empty());
}

#[test]
fn times_become_ready_in_order_with_all_their_records() {
    let Flow { mut worker, mut left, right, both } = two_inputs();
    let mut op: Operator<u64, u64> = Operator::new(both.node, 0);
    assert_eq!(worker.release(right), Ok(()));
    assert_eq!(worker.give(&left, 4, 0, vec![40]), Ok(()));
    assert_eq!(worker.give(&left, 2, 0, vec![20, 21]), Ok(()));
    assert_eq!(worker.give(&left, 4, 0, vec![41]), Ok(()));
    assert_eq!(worker.give(&left, 9, 0, vec![90]), Ok(()));
    while op.accept(&mut worker, 0).unwrap() {}
    assert_eq!(op.held_back(), 3);
    // One capability is retained for each time, not for each batch.
    assert_eq!(worker.downgrade(&mut left, 5), Ok(()));
    let ready: Vec<(u64, Vec<u64>)> =
        op.ready(&worker).into_iter().map(|(cap, data)| {
            let time = cap.time();
            assert_eq!(worker.release(cap), Ok(()));
            (time, data)
        }).collect();
    assert_eq!(ready, vec![(2, vec![20, 21]), (4, vec![40, 41])]);
    assert_eq!(op.held_back(), 1);
    // What the operator holds back keeps its own output open.
    assert!(worker.is_live(&left));
    assert_eq!(worker.release(left), Ok(()));
    let ready = op.ready(&worker);
    assert_eq!(ready.len(), 1);
    assert_eq!(ready[0].0.time(), 9);
    assert_eq!(ready[0].1, vec![90]);
}

#[test]
fn an_instance_takes_only_its_own_batches() {
    let mut graph = Graph::new();
    let source = graph.source();
    let sink = graph.operator(&vec![source]).unwrap();
    let (mut worker, mut caps): (Worker<u64, u64>, _) = Worker::new(graph.seal(), 2);
    for cap in caps.remove(sink.node) {
        assert_eq!(worker.release(cap), Ok(()));
    }
    let mut mine = caps.remove(source.node);
    let cap = mine.remove(0);
    assert_eq!(worker.release(mine.remove(0)), Ok(()));
    assert_eq!(worker.give(&cap, 0, 1, vec![1]), Ok(()));
    assert_eq!(worker.give(&cap, 0, 0, vec![2]), Ok(()));
    assert_eq!(worker.give(&cap, 0, 1, vec![3]), Ok(()));
    assert_eq!(worker.release(cap), Ok(()));
    let mut first: Operator<u64, u64> = Operator::new(sink.node, 0);
    let mut second: Operator<u64, u64> = Operator::new(sink.node, 1);
    while second.accept(&mut worker, 0).unwrap() {}
    assert_eq!(worker.waiting(sink.node, 0), 1);
    // The batch of the other instance still keeps the time open.
    assert!(second.ready(&worker).is_empty());
    while first.accept(&mut worker, 0).unwrap() {}
    let mut a = first.ready(&worker);
    let mut b = second.ready(&worker);
    assert_eq!(a.len(), 1);
    assert_eq!(b.len(), 1);
    assert_eq!(a[0].1, vec![2]);
    assert_eq!(b[0].1, vec![1, 3]);
    assert_eq!(worker.release(a.remove(0).0), Ok(()));
    assert_eq!(worker.release(b.remove(0).0), Ok(()));
}

#[test]
fn an_operator_of_no_input_is_refused() {
    let Flow { mut worker, left, right, both } = two_inputs();
    let mut op: Operator<u64, u64> = Operator::new(both.node, 0);
    assert_eq!(op.accept(&mut worker, 2), Err(ProtocolViolation::UnknownEndpoint));
    let mut nowhere: Operator<u64, u64> = Operator::new(17, 0);
    assert_eq!(nowhere.accept(&mut worker, 0), Err(ProtocolViolation::UnknownEndpoint));
    assert_eq!(nowhere.drain(&mut worker), Err(ProtocolViolation::UnknownEndpoint));
    assert!(nowhere.ready(&worker).is_empty());
    assert_eq!(op.drain(&mut worker), Ok(false));
    assert_eq!(worker.release(left), Ok(()));
    assert_eq!(worker.release(right), Ok(()));
}

#[test]
fn drain_takes_what_waits_at_every_input() {
    let Flow { mut worker, mut left, mut right, both } = two_inputs();
    let mut op: Operator<u64, u64> = Operator::new(both.node, 0);
    assert_eq!(worker.give(&left, 1, 0, vec![10]), Ok(()));
    assert_eq!(worker.give(&right, 0, 0, vec![20]), Ok(()));
    assert_eq!(worker.give(&left, 0, 0, vec![11]), Ok(()));
    assert_eq!(worker.give(&right, 1, 0, vec![21, 22]), Ok(()));
    assert_eq!(op.drain(&mut worker), Ok(true));
    assert_eq!(op.drain(&mut worker), Ok(false));
    assert_eq!(worker.waiting(both.node, 0), 0);
    assert_eq!(worker.waiting(both.node, 1), 0);
    assert_eq!(op.held_back(), 2);
    // One capability is retained for each of the two times.
    assert_eq!(worker.output_frontier(both.node).elements(), vec![0]);
    assert_eq!(worker.downgrade(&mut left, 1), Ok(()));
    assert_eq!(worker.downgrade(&mut right, 1), Ok(()));
    let mut ready = op.ready(&worker);
    assert_eq!(ready.len(), 1);
    let (cap, data) = ready.remove(0);
    // The first input is drained before the second.
    assert_eq!((cap.time(), data), (0, vec![11, 20]));
    assert_eq!(worker.release(cap), Ok(()));
    assert_eq!(worker.output_frontier(both.node).elements(), vec![1]);
    assert_eq!(worker.release(left), Ok(()));
    assert_eq!(worker.release(right), Ok(()));
    let mut ready = op.ready(&worker);
    assert_eq!(ready.len(), 1);
    let (cap, data) = ready.remove(0);
    assert_eq!((cap.time(), data), (1, vec![10, 21, 22]));
    assert_eq!(worker.release(cap), Ok(()));
    assert!(worker.output_frontier(both.node).is_empty());
}

#[test]
fn drain_leaves_the_batches_of_other_instances() {
    let mut graph = Graph::new();
    let source = graph.source();
    let sink = graph.operator(&vec![source]).unwrap();
    let watched = graph.concat(&vec![source]).unwrap();
    let (mut worker, mut caps): (Worker<u64, u64>, _) = Worker::new(graph.seal(), 3);
    for cap in caps.remove(sink.node) {
        assert_eq!(worker.release(cap), Ok(()));
    }
    let mut mine = caps.remove(source.node);
    let cap = mine.remove(0);
    for spare in mine {
        assert_eq!(worker.release(spare), Ok(()));
    }
    for (instance, record) in [(2, 1), (1, 2), (2, 3), (0, 4), (1, 5)] {
        assert_eq!(worker.give(&cap, 0, instance, vec![record]), Ok(()));
    }
    assert_eq!(worker.release(cap), Ok(()));
    let mut second: Operator<u64, u64> = Operator::new(sink.node, 1);
    assert_eq!(second.drain(&mut worker), Ok(true));
    let left: Vec<(usize, Vec<u64>)> = (0..worker.waiting(sink.node, 0))
        .map(|at| worker.inspect(sink.node, 0, at).unwrap())
        .map(|m| (m.worker, m.data.clone()))
        .collect();
    assert_eq!(left, vec![(2, vec![1]), (2, vec![3]), (0, vec![4])]);
    // What the worker runs itself is not drained by an operator.
    let mut wrong: Operator<u64, u64> = Operator::new(watched.node, 1);
    assert_eq!(wrong.drain(&mut worker), Err(ProtocolViolation::UnknownEndpoint));
    assert_eq!(worker.waiting(watched.node, 0), 5);
}
