use dataflow::graph::{Graph, Kind, Stream};
use dataflow::violation::ProtocolViolation;

#[test]
fn operators_are_numbered_in_the_order_in_which_they_are_added() {
    let mut graph = Graph::new();
    assert_eq!(graph.len(), 0);
    let a = graph.source();
    let b = graph.operator(&vec![a]).unwrap();
    let c = graph.concat(&vec![a, b]).unwrap();
    let d = graph.probe(c).unwrap();
    assert_eq!((a.node, b.node, c.node, d.node), (0, 1, 2, 3));
    assert_eq!(graph.len(), 4);
    let topology = graph.seal();
    assert_eq!(topology.len(), 4);
    assert_eq!(topology.kind(0), Kind::Operator);
    assert_eq!(topology.kind(1), Kind::Operator);
    assert_eq!(topology.kind(2), Kind::Forward);
    assert_eq!(topology.kind(3), Kind::Sink);
    assert_eq!(topology.inputs(0), 0);
    assert_eq!(topology.inputs(2), 2);
    assert_eq!(topology.source(2, 0), Some(0));
    assert_eq!(topology.source(2, 1), Some(1));
    assert_eq!(topology.source(3, 0), Some(2));
    assert_eq!(topology.summary(2), 0);
}

#[test]
fn a_stream_of_no_operator_is_refused() {
    let mut graph = Graph::new();
    let a = graph.source();
    let nowhere = Stream { node: 5 };
    assert_eq!(graph.operator(&vec![a, nowhere]), Err(ProtocolViolation::UnknownEndpoint));
    assert_eq!(graph.concat(&vec![nowhere]), Err(ProtocolViolation::UnknownEndpoint));
    assert_eq!(graph.probe(nowhere), Err(ProtocolViolation::UnknownEndpoint));
    assert_eq!(graph.len(), 1);
    let (handle, _) = graph.feedback(1).unwrap();
    assert_eq!(graph.connect_loop(nowhere, handle), Err(ProtocolViolation::UnknownEndpoint));
}

#[test]
fn a_loop_must_move_time_forward() {
    let mut graph = Graph::new();
    assert!(matches!(graph.feedback(0), Err(ProtocolViolation::NonIncreasingFeedback)));
    assert_eq!(graph.len(), 0);
    assert!(graph.feedback(1).is_ok());
    assert!(graph.feedback(u64::MAX).is_ok());
    assert_eq!(graph.len(), 2);
}

#[test]
fn a_loop_is_closed_once() {
    let mut graph = Graph::new();
    let (first, stream) = graph.feedback(2).unwrap();
    let body = graph.operator(&vec![stream]).unwrap();
    assert_eq!(graph.connect_loop(body, first), Ok(()));
    let mut other = Graph::new();
    let (second, _) = other.feedback(2).unwrap();
    // The loop of this graph is closed already.
    assert_eq!(graph.connect_loop(body, second), Err(ProtocolViolation::UnknownEndpoint));
    let topology = graph.seal();
    assert_eq!(topology.source(0, 0), Some(1));
    assert_eq!(topology.summary(0), 2);
    assert_eq!(topology.kind(0), Kind::Forward);
}

#[test]
fn least_steps_follow_the_shortest_way() {
    // 0 -> 2 -> 3 -> (loop of 2 steps back into 2), and 0 -> 4 -> 5 with a
    // second loop of 7 steps from 5 back into 4; 3 also feeds 4.
    let mut graph = Graph::new();
    let source = graph.source();
    let (short_handle, short) = graph.feedback(2).unwrap();
    let a = graph.concat(&vec![source, short]).unwrap();
    let b = graph.operator(&vec![a]).unwrap();
    assert_eq!(graph.connect_loop(b, short_handle), Ok(()));
    let (long_handle, long) = graph.feedback(7).unwrap();
    let c = graph.concat(&vec![source, b, long]).unwrap();
    let d = graph.operator(&vec![c]).unwrap();
    assert_eq!(graph.connect_loop(d, long_handle), Ok(()));
    let t = graph.seal();
    for node in 0..t.len() {
        assert_eq!(t.steps(node, node), Some(0));
        // Nothing leads back to the source.
        if node != source.node {
            assert_eq!(t.steps(node, source.node), None);
        }
    }
    assert_eq!(t.steps(source.node, a.node), Some(0));
    assert_eq!(t.steps(source.node, b.node), Some(0));
    assert_eq!(t.steps(source.node, short.node), Some(2));
    assert_eq!(t.steps(b.node, a.node), Some(2));
    assert_eq!(t.steps(a.node, short.node), Some(2));
    assert_eq!(t.steps(short.node, b.node), Some(0));
    assert_eq!(t.steps(b.node, d.node), Some(0));
    assert_eq!(t.steps(d.node, c.node), Some(7));
    assert_eq!(t.steps(d.node, long.node), Some(7));
    assert_eq!(t.steps(long.node, d.node), Some(0));
    // The second loop does not lead back into the first.
    assert_eq!(t.steps(d.node, b.node), None);
    assert_eq!(t.steps(c.node, a.node), None);
    assert_eq!(t.steps(short.node, long.node), Some(7));
}

#[test]
fn steps_that_exceed_every_number_lead_nowhere() {
    let mut graph = Graph::new();
    let source = graph.source();
    let mut last = source;
    let mut handles = Vec::new();
    // Chain feedback operators of the largest summary behind one another.
    let mut chain = Vec::new();
    for _ in 0..3 {
        let (handle, stream) = graph.feedback(u64::MAX).unwrap();
        handles.push(handle);
        chain.push(stream);
    }
    for (handle, stream) in handles.into_iter().zip(chain.iter()) {
        assert_eq!(graph.connect_loop(last, handle), Ok(()));
        last = *stream;
    }
    let t = graph.seal();
    assert_eq!(t.steps(source.node, chain[0].node), Some(u64::MAX as u128));
    assert_eq!(t.steps(source.node, chain[1].node), Some(2 * (u64::MAX as u128)));
    assert_eq!(t.steps(source.node, chain[2].node), Some(3 * (u64::MAX as u128)));
}
