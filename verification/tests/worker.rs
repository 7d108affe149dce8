use dataflow::capability::Capability;
use dataflow::command::extract;
use dataflow::exchange::Pact;
use dataflow::frontier::Antichain;
use dataflow::graph::{Graph, Kind, Stream};
use dataflow::input::InputHandle;
use dataflow::operator::Operator;
use dataflow::order::Nested;
use dataflow::probe::ProbeHandle;
use dataflow::violation::ProtocolViolation;
use dataflow::worker::Worker;

fn release_all<D>(worker: &mut Worker<u64, D>, caps: Vec<Capability<u64>>) {
    for cap in caps {
        assert_eq!(worker.release(cap), Ok(()));
    }
}

fn frontiers<D>(worker: &Worker<u64, D>) -> Vec<Antichain<u64>> {
    let mut all = Vec::new();
    for node in 0..worker.len() {
        let mut input = 0;
        while worker.knows(node, input) {
            all.push(worker.frontier(node, input).unwrap());
            input += 1;
        }
    }
    all
}

fn assert_advanced(now: &Vec<Antichain<u64>>, before: &Vec<Antichain<u64>>) {
    assert_eq!(now.len(), before.len());
    for (n, b) in now.iter().zip(before.iter()) {
        assert!(n.is_advanced_from(b));
    }
}

#[test]
fn a_held_capability_keeps_the_frontier_closed() {
    let mut graph = Graph::new();
    let source = graph.source();
    let probe = graph.probe(source).unwrap();
    let (mut worker, mut caps): (Worker<u64, u64>, _) = Worker::new(graph.seal(), 1);
    let handle = ProbeHandle::new(probe);
    assert_eq!(handle.frontier(&worker).elements(), vec![0]);
    assert!(handle.less_equal(&worker, &0));
    assert!(!handle.less_than(&worker, &0));
    assert!(handle.less_than(&worker, &1));
    assert!(!handle.done(&worker));
    // Stepping does not help: only the holder of the capability can.
    for _ in 0..10 {
        assert!(!worker.step());
        assert!(!handle.done(&worker));
    }
    let cap = caps.remove(0).remove(0);
    assert_eq!(worker.release(cap), Ok(()));
    assert!(handle.done(&worker));
    assert!(!handle.less_than(&worker, &u64::MAX));
}

#[test]
fn records_keep_their_time_and_order_through_a_pipeline() {
    let mut graph = Graph::new();
    let source = graph.source();
    let middle = graph.concat(&vec![source]).unwrap();
    let last = graph.operator(&vec![middle]).unwrap();
    let (mut worker, mut caps): (Worker<u64, u64>, _) = Worker::new(graph.seal(), 1);
    release_all(&mut worker, caps.remove(last.node));
    let mut input = InputHandle::new(caps.remove(source.node).remove(0), 0);
    input.send(10);
    input.send(11);
    assert_eq!(input.advance_to(&mut worker, 3), Ok(()));
    input.send(12);
    assert_eq!(input.advance_to(&mut worker, 5), Ok(()));
    assert_eq!(input.time(), 5);
    assert_eq!(worker.waiting(middle.node, 0), 2);
    assert_eq!(worker.waiting(last.node, 0), 0);
    assert!(worker.step());
    assert_eq!(worker.waiting(middle.node, 0), 0);
    assert_eq!(worker.waiting(last.node, 0), 2);
    assert!(!worker.step());
    let (cap, data) = worker.next(last.node, 0, 0).unwrap().unwrap();
    assert_eq!(cap.time(), 0);
    assert_eq!(cap.output(), last.node);
    assert_eq!(data, vec![10, 11]);
    assert_eq!(worker.frontier(last.node, 0).unwrap().elements(), vec![3]);
    assert_eq!(worker.release(cap), Ok(()));
    let (cap, data) = worker.next(last.node, 0, 0).unwrap().unwrap();
    assert_eq!(cap.time(), 3);
    assert_eq!(data, vec![12]);
    assert_eq!(worker.release(cap), Ok(()));
    assert!(worker.next(last.node, 0, 0).unwrap().is_none());
    assert_eq!(worker.frontier(last.node, 0).unwrap().elements(), vec![5]);
    assert_eq!(input.close(&mut worker), Ok(()));
    assert!(worker.frontier(last.node, 0).unwrap().is_empty());
}

#[test]
fn every_consumer_of_a_stream_receives_every_batch() {
    let mut graph = Graph::new();
    let source = graph.source();
    let left = graph.operator(&vec![source]).unwrap();
    let right = graph.operator(&vec![source, source]).unwrap();
    let (mut worker, mut caps): (Worker<u64, String>, _) = Worker::new(graph.seal(), 1);
    release_all(&mut worker, caps.remove(right.node));
    release_all(&mut worker, caps.remove(left.node));
    let cap = caps.remove(source.node).remove(0);
    assert_eq!(worker.give(&cap, 4, 0, vec!["a".to_string(), "b".to_string()]), Ok(()));
    assert_eq!(worker.release(cap), Ok(()));
    for (node, input) in [(left.node, 0), (right.node, 0), (right.node, 1)] {
        let (cap, data) = worker.next(node, input, 0).unwrap().unwrap();
        assert_eq!(cap.time(), 4);
        assert_eq!(data, vec!["a".to_string(), "b".to_string()]);
        assert_eq!(worker.release(cap), Ok(()));
    }
}

#[test]
fn sending_needs_a_live_capability_that_covers_the_time() {
    let mut graph = Graph::new();
    let source = graph.source();
    let sink = graph.operator(&vec![source]).unwrap();
    let (mut worker, mut caps): (Worker<u64, u64>, _) = Worker::new(graph.seal(), 2);
    release_all(&mut worker, caps.remove(sink.node));
    let mut mine = caps.remove(source.node);
    let mut cap = mine.remove(0);
    let other = mine.remove(0);
    assert_eq!(worker.downgrade(&mut cap, 5), Ok(()));
    assert_eq!(worker.give(&cap, 4, 0, vec![1]), Err(ProtocolViolation::TimeNotCovered));
    assert_eq!(worker.give(&cap, 5, 2, vec![1]), Err(ProtocolViolation::UnknownEndpoint));
    assert_eq!(worker.waiting(sink.node, 0), 0);
    assert_eq!(worker.give(&cap, 5, 1, vec![1]), Ok(()));
    assert_eq!(worker.give(&cap, 9, 0, vec![2]), Ok(()));
    assert_eq!(worker.waiting(sink.node, 0), 2);
    assert_eq!(worker.downgrade(&mut cap, 4), Err(ProtocolViolation::DowngradeBackward));
    assert_eq!(cap.time(), 5);

    // A capability of another worker is unknown here.
    let mut elsewhere = Graph::new();
    elsewhere.source();
    elsewhere.source();
    elsewhere.source();
    let (mut second, mut foreign): (Worker<u64, u64>, _) = Worker::new(elsewhere.seal(), 1);
    let mut stray = foreign.remove(2).remove(0);
    assert!(!worker.is_live(&stray));
    assert_eq!(worker.give(&stray, 0, 0, vec![1]), Err(ProtocolViolation::UnknownCapability));
    assert_eq!(worker.downgrade(&mut stray, 1), Err(ProtocolViolation::UnknownCapability));
    assert!(worker.clone_capability(&stray).is_err());
    assert_eq!(second.release(stray), Ok(()));

    // A released capability is no longer live.
    let copy = worker.clone_capability(&other).unwrap();
    assert_eq!(worker.release(other), Ok(()));
    assert!(worker.is_live(&copy));
    assert_eq!(worker.release(copy), Ok(()));
    assert_eq!(worker.release(cap), Ok(()));
    // Instance 1 takes its batch; instance 0 has its own.
    let (got, data) = worker.next(sink.node, 0, 1).unwrap().unwrap();
    assert_eq!((got.time(), data), (5, vec![1]));
    assert!(worker.next(sink.node, 0, 1).unwrap().is_none());
    let (got0, data0) = worker.next(sink.node, 0, 0).unwrap().unwrap();
    assert_eq!((got0.time(), data0), (9, vec![2]));
    assert_eq!(worker.release(got), Ok(()));
    assert_eq!(worker.release(got0), Ok(()));
}

#[test]
fn unknown_endpoints_are_refused() {
    let mut graph = Graph::new();
    let source = graph.source();
    let op = graph.operator(&vec![source]).unwrap();
    let (mut worker, _caps): (Worker<u64, u64>, _) = Worker::new(graph.seal(), 1);
    assert!(matches!(worker.next(7, 0, 0), Err(ProtocolViolation::UnknownEndpoint)));
    assert!(matches!(worker.next(op.node, 1, 0), Err(ProtocolViolation::UnknownEndpoint)));
    assert!(matches!(worker.frontier(source.node, 0), Err(ProtocolViolation::UnknownEndpoint)));
    assert_eq!(worker.forward(op.node, 0), Err(ProtocolViolation::UnknownEndpoint));
    assert_eq!(worker.forward(9, 0), Err(ProtocolViolation::UnknownEndpoint));
    // What the worker runs itself is not for the driving code to pull.
    let mut other = Graph::new();
    let from = other.source();
    let merged = other.concat(&vec![from]).unwrap();
    let watch = other.probe(merged).unwrap();
    let (mut second, _held): (Worker<u64, u64>, _) = Worker::new(other.seal(), 1);
    assert!(matches!(second.next(merged.node, 0, 0), Err(ProtocolViolation::UnknownEndpoint)));
    assert!(matches!(second.next(watch.node, 0, 0), Err(ProtocolViolation::UnknownEndpoint)));
    assert_eq!(second.forward(merged.node, 0), Ok(false));
    assert_eq!(second.forward(merged.node, 1), Err(ProtocolViolation::UnknownEndpoint));
    assert!(!worker.knows(op.node, 1));
    assert!(worker.knows(op.node, 0));
    assert!(ProbeHandle { node: 42 }.done(&worker));
    assert!(!ProbeHandle { node: 42 }.less_equal(&worker, &0));
}

#[test]
fn an_input_cannot_go_back_in_time() {
    let mut graph = Graph::new();
    let source = graph.source();
    let op = graph.operator(&vec![source]).unwrap();
    let (mut worker, mut caps): (Worker<u64, u64>, _) = Worker::new(graph.seal(), 1);
    release_all(&mut worker, caps.remove(op.node));
    let mut input = InputHandle::new(caps.remove(source.node).remove(0), 0);
    assert_eq!(input.advance_to(&mut worker, 4), Ok(()));
    input.send(1);
    assert_eq!(input.advance_to(&mut worker, 3), Err(ProtocolViolation::AdvanceBackward));
    assert_eq!(input.time(), 4);
    assert_eq!(worker.waiting(op.node, 0), 0);
    assert_eq!(input.advance_to(&mut worker, 4), Ok(()));
    assert_eq!(worker.waiting(op.node, 0), 1);
    assert_eq!(input.close(&mut worker), Ok(()));
}

/// One pass of the loop body: halve the even, triple and add one to the odd,
/// and drop what has reached one.
fn collatz(x: u64) -> u64 {
    if x % 2 == 0 {
        x / 2
    } else {
        3 * x + 1
    }
}

#[test]
fn a_bounded_loop_runs_dry() {
    let asked = vec!["program".to_string(), "name=iteration".to_string()];
    assert_eq!(extract(asked), Some("iteration".to_string()));
    let mut graph = Graph::new();
    let source = graph.source();
    let (handle, fed_back) = graph.feedback(1).unwrap();
    let merged = graph.concat(&vec![source, fed_back]).unwrap();
    let body = graph.operator(&vec![merged]).unwrap();
    assert_eq!(graph.connect_loop(body, handle), Ok(()));
    let probe = graph.probe(body).unwrap();
    let (mut worker, mut caps): (Worker<u64, u64>, _) = Worker::new(graph.seal(), 1);
    let watch = ProbeHandle::new(probe);
    release_all(&mut worker, caps.remove(body.node));
    let mut input = InputHandle::new(caps.remove(source.node).remove(0), 0);
    for x in 1..5 {
        input.send(x);
    }
    assert_eq!(input.close(&mut worker), Ok(()));

    let mut seen: Vec<(u64, u64)> = Vec::new();
    let mut before = frontiers(&worker);
    let mut rounds = 0;
    while !watch.done(&worker) {
        rounds += 1;
        assert!(rounds < 100, "the loop must run dry");
        worker.step();
        while let Some((cap, data)) = worker.next(body.node, 0, 0).unwrap() {
            let time = cap.time();
            let mut out = Vec::new();
            for x in data {
                let y = collatz(x);
                seen.push((time, y));
                if y != 1 {
                    out.push(y);
                }
            }
            if !out.is_empty() {
                assert_eq!(worker.give(&cap, time, 0, out), Ok(()));
            }
            assert_eq!(worker.release(cap), Ok(()));
        }
        let now = frontiers(&worker);
        assert_advanced(&now, &before);
        before = now;
    }
    // Every value is seen at the pass on which the loop produced it.
    let mut expected: Vec<(u64, u64)> = Vec::new();
    for start in 1..5u64 {
        let mut x = start;
        let mut pass = 0;
        loop {
            x = collatz(x);
            expected.push((pass, x));
            if x == 1 {
                break;
            }
            pass += 1;
        }
    }
    seen.sort();
    expected.sort();
    assert_eq!(seen, expected);
    // Thirteen records pass the body: 1 four times, 2 three times, 4 twice,
    // and 5, 8, 10 and 16 once each.
    let mut values: Vec<u64> = seen.iter().map(|(_, x)| *x).collect();
    values.sort();
    assert_eq!(values, vec![1, 1, 1, 1, 2, 2, 2, 4, 4, 5, 8, 10, 16]);
    // The frontier has moved past every pass that produced anything.
    let last_pass = seen.iter().map(|(t, _)| *t).max().unwrap();
    assert_eq!(last_pass, 6);
    for (time, _) in seen {
        assert!(!watch.less_equal(&worker, &time));
    }
    assert!(worker.frontier(merged.node, 1).unwrap().is_empty());
}

#[test]
fn a_loop_that_keeps_its_capability_never_finishes() {
    let mut graph = Graph::new();
    let source = graph.source();
    let (handle, fed_back) = graph.feedback(1).unwrap();
    let body = graph.operator(&vec![source, fed_back]).unwrap();
    assert_eq!(graph.connect_loop(body, handle), Ok(()));
    let (mut worker, mut caps): (Worker<u64, u64>, _) = Worker::new(graph.seal(), 1);
    release_all(&mut worker, caps.remove(source.node));
    // The body holds on to its first capability: its own input from the loop
    // stays open from the next pass on, and the input of the feedback
    // operator from this one.
    for _ in 0..5 {
        worker.step();
        assert_eq!(worker.frontier(body.node, 1).unwrap().elements(), vec![1]);
        assert_eq!(worker.frontier(fed_back.node, 0).unwrap().elements(), vec![0]);
        assert!(worker.frontier(body.node, 0).unwrap().is_empty());
    }
    release_all(&mut worker, caps.remove(body.node - 1));
    assert!(worker.frontier(body.node, 1).unwrap().is_empty());
}

struct WordCount {
    worker: Worker<u64, (String, i64)>,
    inputs: Vec<InputHandle<u64, (String, i64)>>,
    split: Stream,
    count: Stream,
    probe: ProbeHandle,
    counting: Vec<Operator<u64, (String, i64)>>,
    counts: Vec<Vec<(String, i64)>>,
}

fn word_count(peers: usize) -> WordCount {
    let mut graph = Graph::new();
    let source = graph.source();
    let split = graph.operator(&vec![source]).unwrap();
    let count = graph.operator(&vec![split]).unwrap();
    let probe = graph.probe(count).unwrap();
    let (mut worker, mut caps) = Worker::new(graph.seal(), peers);
    release_all(&mut worker, caps.remove(count.node));
    release_all(&mut worker, caps.remove(split.node));
    let mut inputs = Vec::new();
    for (instance, cap) in caps.remove(source.node).into_iter().enumerate() {
        inputs.push(InputHandle::new(cap, instance));
    }
    WordCount {
        worker,
        inputs,
        split,
        count,
        probe: ProbeHandle::new(probe),
        counting: (0..peers).map(|me| Operator::new(count.node, me)).collect(),
        counts: (0..peers).map(|_| Vec::new()).collect(),
    }
}

impl WordCount {
    /// Schedules every operator of every instance once.
    fn step(&mut self) {
        let peers = self.inputs.len();
        for me in 0..peers {
            // Split lines into words, and exchange the words by their length.
            while let Some((cap, lines)) = self.worker.next(self.split.node, 0, me).unwrap() {
                let mut keyed = Vec::new();
                for (line, diff) in lines {
                    for word in line.split_whitespace() {
                        keyed.push((word.len() as u64, (word.to_owned(), diff)));
                    }
                }
                let time = cap.time();
                assert_eq!(
                    self.worker.give_routed(&cap, time, Pact::Exchange, me, keyed),
                    Ok(())
                );
                assert_eq!(self.worker.release(cap), Ok(()));
            }
            // Hold the words back until their time is complete.
            self.counting[me].drain(&mut self.worker).unwrap();
            for (cap, words) in self.counting[me].ready(&self.worker) {
                let time = cap.time();
                let mut out = Vec::new();
                for (word, diff) in words {
                    let at = match self.counts[me].iter().position(|(w, _)| *w == word) {
                        Some(at) => at,
                        None => {
                            self.counts[me].push((word.clone(), 0));
                            self.counts[me].len() - 1
                        },
                    };
                    self.counts[me][at].1 += diff;
                    out.push((word, self.counts[me][at].1));
                }
                assert_eq!(self.worker.give(&cap, time, me, out), Ok(()));
                assert_eq!(self.worker.release(cap), Ok(()));
            }
        }
        self.worker.step();
    }

    fn total(&self, word: &str) -> i64 {
        self.counts.iter().flatten().filter(|(w, _)| w == word).map(|(_, n)| *n).sum()
    }
}

fn run_word_count(peers: usize, rounds: u64) {
    let mut flow = word_count(peers);
    for round in 0..rounds {
        for input in flow.inputs.iter_mut() {
            input.send(("round one".to_owned(), 1));
            assert_eq!(input.advance_to(&mut flow.worker, round + 1), Ok(()));
        }
        let mut steps = 0;
        while flow.probe.less_than(&flow.worker, &(round + 1)) {
            flow.step();
            steps += 1;
            assert!(steps < 10);
        }
        // Once the probe has passed the round, its words are all counted.
        let sent = (round + 1) as i64 * peers as i64;
        assert_eq!(flow.total("round"), sent);
        assert_eq!(flow.total("one"), sent);
    }
    // Every word is counted by one instance alone: the one its length selects.
    for (instance, counts) in flow.counts.iter().enumerate() {
        for (word, _) in counts {
            assert_eq!(word.len() % peers, instance);
        }
    }
    assert_eq!(flow.counts.iter().flatten().count(), 2);
    let WordCount { mut worker, inputs, probe, .. } = flow;
    for input in inputs {
        assert_eq!(input.close(&mut worker), Ok(()));
    }
    assert!(probe.done(&worker));
}

#[test]
fn word_count_with_one_worker() {
    run_word_count(1, 10);
}

#[test]
fn word_count_with_two_workers() {
    run_word_count(2, 10);
}

#[test]
fn word_count_with_three_workers() {
    run_word_count(3, 10);
}

#[test]
fn word_count_is_the_same_for_every_number_of_workers() {
    let asked = vec!["program".to_string(), "name=word-count".to_string(), "-w".to_string()];
    assert_eq!(extract(asked), Some("word-count".to_string()));
    for peers in 1..=6 {
        for rounds in [1, 3] {
            run_word_count(peers, rounds);
        }
    }
}

#[test]
fn a_pipeline_keeps_records_with_their_instance() {
    let mut graph = Graph::new();
    let source = graph.source();
    let op = graph.operator(&vec![source]).unwrap();
    let (mut worker, mut caps): (Worker<u64, u64>, _) = Worker::new(graph.seal(), 3);
    release_all(&mut worker, caps.remove(op.node));
    let mut mine = caps.remove(source.node);
    let cap = mine.remove(0);
    release_all(&mut worker, mine);
    let keyed = vec![(0, 10), (1, 11), (2, 12), (4, 14)];
    assert_eq!(worker.give_routed(&cap, 0, Pact::Pipeline, 2, keyed.clone()), Ok(()));
    assert_eq!(worker.waiting(op.node, 0), 1);
    let (got, data) = worker.next(op.node, 0, 2).unwrap().unwrap();
    assert_eq!(data, vec![10, 11, 12, 14]);
    assert_eq!(worker.release(got), Ok(()));
    // An exchange sends each record where its key selects, and no empty batch.
    assert_eq!(worker.give_routed(&cap, 1, Pact::Exchange, 2, keyed), Ok(()));
    assert_eq!(worker.waiting(op.node, 0), 3);
    for (instance, expected) in [(0, vec![10]), (1, vec![11, 14]), (2, vec![12])] {
        let (got, data) = worker.next(op.node, 0, instance).unwrap().unwrap();
        assert_eq!(got.time(), 1);
        assert_eq!(data, expected);
        assert_eq!(worker.release(got), Ok(()));
    }
    assert_eq!(worker.give_routed(&cap, 1, Pact::Exchange, 2, vec![(3, 13)]), Ok(()));
    assert_eq!(worker.waiting(op.node, 0), 1);
    assert_eq!(
        worker.give_routed(&cap, 1, Pact::Exchange, 3, vec![(3, 13)]),
        Err(ProtocolViolation::UnknownEndpoint)
    );
    assert_eq!(worker.release(cap), Ok(()));
}

#[test]
fn sinks_drop_what_reaches_them() {
    let mut graph = Graph::new();
    let source = graph.source();
    let probe = graph.probe(source).unwrap();
    let topology = graph.seal();
    assert_eq!(topology.kind(probe.node), Kind::Sink);
    let (mut worker, mut caps): (Worker<u64, u64>, _) = Worker::new(topology, 1);
    let cap = caps.remove(source.node).remove(0);
    assert_eq!(worker.give(&cap, 0, 0, vec![1, 2, 3]), Ok(()));
    assert_eq!(worker.give(&cap, 2, 0, vec![4]), Ok(()));
    assert_eq!(worker.release(cap), Ok(()));
    let watch = ProbeHandle::new(probe);
    assert_eq!(watch.frontier(&worker).elements(), vec![0]);
    assert_eq!(worker.forward(probe.node, 0), Ok(true));
    assert_eq!(watch.frontier(&worker).elements(), vec![2]);
    assert!(worker.step());
    assert!(watch.done(&worker));
    assert_eq!(worker.forward(probe.node, 0), Ok(false));
    assert!(!worker.step());
}

#[test]
fn two_loops_that_share_a_stream_both_run_dry() {
    let mut graph = Graph::new();
    let source = graph.source();
    let (handle0, stream0) = graph.feedback(1).unwrap();
    let (handle1, stream1) = graph.feedback(1).unwrap();
    let halve = graph.operator(&vec![stream0]).unwrap();
    let triple = graph.operator(&vec![stream1]).unwrap();
    let merged = graph.concat(&vec![source, halve, triple]).unwrap();
    // The stream is parted by the parity of its records: each part takes
    // its share of every batch.
    let evens = graph.operator(&vec![merged]).unwrap();
    let odds = graph.operator(&vec![merged]).unwrap();
    assert_eq!(graph.connect_loop(evens, handle0), Ok(()));
    assert_eq!(graph.connect_loop(odds, handle1), Ok(()));
    let watch = ProbeHandle::new(graph.probe(merged).unwrap());
    let (mut worker, mut caps): (Worker<u64, u64>, _) = Worker::new(graph.seal(), 1);
    for node in [odds.node, evens.node, triple.node, halve.node] {
        release_all(&mut worker, caps.remove(node));
    }
    let mut input = InputHandle::new(caps.remove(source.node).remove(0), 0);
    for x in 1..5 {
        input.send(x);
    }
    assert_eq!(input.close(&mut worker), Ok(()));

    let mut seen: Vec<u64> = Vec::new();
    let mut before = frontiers(&worker);
    let mut rounds = 0;
    while !watch.done(&worker) {
        rounds += 1;
        assert!(rounds < 100, "the loops must run dry");
        worker.step();
        for (node, parity) in [(evens.node, 0), (odds.node, 1)] {
            while let Some((cap, data)) = worker.next(node, 0, 0).unwrap() {
                if parity == 0 {
                    seen.extend(data.iter());
                }
                let keyed = data.into_iter().map(|x| (x % 2, x)).collect();
                let mut parts = dataflow::exchange::distribute(keyed, 2);
                let mine = parts.remove(parity);
                if !mine.is_empty() {
                    assert_eq!(worker.give(&cap, cap.time(), 0, mine), Ok(()));
                }
                assert_eq!(worker.release(cap), Ok(()));
            }
        }
        while let Some((cap, data)) = worker.next(halve.node, 0, 0).unwrap() {
            let out: Vec<u64> = data.into_iter().map(|x| x / 2).filter(|x| *x != 1).collect();
            if !out.is_empty() {
                assert_eq!(worker.give(&cap, cap.time(), 0, out), Ok(()));
            }
            assert_eq!(worker.release(cap), Ok(()));
        }
        while let Some((cap, data)) = worker.next(triple.node, 0, 0).unwrap() {
            let out: Vec<u64> = data.into_iter().map(|x| 3 * x + 1).filter(|x| *x != 1).collect();
            if !out.is_empty() {
                assert_eq!(worker.give(&cap, cap.time(), 0, out), Ok(()));
            }
            assert_eq!(worker.release(cap), Ok(()));
        }
        let now = frontiers(&worker);
        assert_advanced(&now, &before);
        before = now;
    }
    seen.sort();
    // What was sent, and what each record passes through on its way down to
    // one: 1 -> 4 -> 2; 2; 3 -> 10 -> 5 -> 16 -> 8 -> 4 -> 2; 4 -> 2.
    assert_eq!(seen, vec![1, 2, 2, 2, 2, 3, 4, 4, 4, 5, 8, 10, 16]);
    for f in frontiers(&worker) {
        assert!(f.is_empty());
    }
}

#[test]
fn the_output_frontier_follows_capabilities_and_waiting_batches() {
    let mut graph = Graph::new();
    let source = graph.source();
    let (handle, fed_back) = graph.feedback(3).unwrap();
    let body = graph.operator(&vec![source, fed_back]).unwrap();
    assert_eq!(graph.connect_loop(body, handle), Ok(()));
    let (mut worker, mut caps): (Worker<u64, u64>, _) = Worker::new(graph.seal(), 1);
    release_all(&mut worker, caps.remove(body.node));
    let mut cap = caps.remove(source.node).remove(0);
    assert_eq!(worker.output_frontier(source.node).elements(), vec![0]);
    assert_eq!(worker.output_frontier(body.node).elements(), vec![0]);
    assert_eq!(worker.output_frontier(fed_back.node).elements(), vec![3]);
    assert!(worker.output_frontier(17).is_empty());
    assert_eq!(worker.downgrade(&mut cap, 10), Ok(()));
    assert_eq!(worker.give(&cap, 12, 0, vec![1]), Ok(()));
    assert_eq!(worker.downgrade(&mut cap, 20), Ok(()));
    // The batch that waits at the body keeps its output open at 12.
    assert_eq!(worker.output_frontier(source.node).elements(), vec![20]);
    assert_eq!(worker.output_frontier(body.node).elements(), vec![12]);
    assert_eq!(worker.output_frontier(fed_back.node).elements(), vec![15]);
    assert_eq!(worker.frontier(body.node, 0).unwrap().elements(), vec![12]);
    assert_eq!(worker.frontier(body.node, 1).unwrap().elements(), vec![15]);
    let (got, _) = worker.next(body.node, 0, 0).unwrap().unwrap();
    assert_eq!(worker.output_frontier(body.node).elements(), vec![12]);
    assert_eq!(worker.frontier(body.node, 0).unwrap().elements(), vec![20]);
    assert_eq!(worker.release(got), Ok(()));
    assert_eq!(worker.output_frontier(body.node).elements(), vec![20]);
    assert_eq!(worker.output_frontier(fed_back.node).elements(), vec![23]);
    assert_eq!(worker.release(cap), Ok(()));
    assert!(worker.output_frontier(body.node).is_empty());
    assert!(worker.output_frontier(fed_back.node).is_empty());
}

#[test]
fn a_worker_without_instances_holds_no_capability() {
    let mut graph = Graph::new();
    let source = graph.source();
    let op = graph.operator(&vec![source]).unwrap();
    let (worker, caps): (Worker<u64, u64>, _) = Worker::new(graph.seal(), 0);
    assert_eq!(worker.instances(), 0);
    assert_eq!(worker.len(), 2);
    assert_eq!(worker.inputs(op.node), 1);
    assert_eq!(worker.inputs(source.node), 0);
    assert_eq!(worker.inputs(5), 0);
    assert!(caps.iter().all(|c| c.is_empty()));
    assert!(worker.frontier(op.node, 0).unwrap().is_empty());
}

#[test]
fn each_epoch_of_a_loop_runs_dry_before_the_probe_passes_it() {
    let mut graph = Graph::new();
    let source = graph.source();
    let (handle, fed_back) = graph.feedback(1).unwrap();
    let merged = graph.concat(&vec![source, fed_back]).unwrap();
    let body = graph.operator(&vec![merged]).unwrap();
    assert_eq!(graph.connect_loop(body, handle), Ok(()));
    let watch = ProbeHandle::new(graph.probe(body).unwrap());
    let (mut worker, mut caps): (Worker<Nested, u64>, _) = Worker::new(graph.seal(), 1);
    for cap in caps.remove(body.node) {
        assert_eq!(worker.release(cap), Ok(()));
    }
    let mut input = InputHandle::new(caps.remove(source.node).remove(0), 0);
    assert_eq!(input.time(), Nested::new(0, 0));
    let mut passes: Vec<Vec<u64>> = Vec::new();
    for (epoch, start) in [6u64, 1, 7].into_iter().enumerate() {
        let epoch = epoch as u64;
        input.send(start);
        assert_eq!(input.advance_to(&mut worker, Nested::new(epoch + 1, 0)), Ok(()));
        let mut last = 0;
        let mut steps = 0;
        while watch.less_than(&worker, &Nested::new(epoch + 1, 0)) {
            steps += 1;
            assert!(steps < 100);
            worker.step();
            while let Some((cap, data)) = worker.next(body.node, 0, 0).unwrap() {
                let time = cap.time();
                // Only this epoch is under way, and its passes ascend.
                assert_eq!(time.outer, epoch);
                assert!(time.iteration >= last);
                last = time.iteration;
                let out: Vec<u64> = data.into_iter().map(collatz).filter(|x| *x != 1).collect();
                if !out.is_empty() {
                    assert_eq!(worker.give(&cap, time, 0, out), Ok(()));
                }
                assert_eq!(worker.release(cap), Ok(()));
            }
        }
        passes.push(vec![start, last]);
        assert_eq!(watch.frontier(&worker).elements(), vec![Nested::new(epoch + 1, 0)]);
    }
    // 6 goes through the body eight times before it reaches one, on the
    // passes 0 to 7; 1 three times (1 -> 4 -> 2 -> 1); 7 sixteen times.
    assert_eq!(passes, vec![vec![6, 7], vec![1, 2], vec![7, 15]]);
    assert_eq!(
        input.advance_to(&mut worker, Nested::new(2, 9)),
        Err(ProtocolViolation::AdvanceBackward)
    );
    assert_eq!(input.close(&mut worker), Ok(()));
    assert!(watch.done(&worker));
}

#[test]
fn a_batch_that_cannot_move_forward_leaves_the_loop() {
    let mut graph = Graph::new();
    let source = graph.source();
    let (handle, fed_back) = graph.feedback(2).unwrap();
    let body = graph.operator(&vec![fed_back]).unwrap();
    assert_eq!(graph.connect_loop(source, handle), Ok(()));
    let (mut worker, mut caps): (Worker<u64, u64>, _) = Worker::new(graph.seal(), 1);
    release_all(&mut worker, caps.remove(body.node));
    let mut cap = caps.remove(source.node).remove(0);
    assert_eq!(worker.downgrade(&mut cap, u64::MAX - 2), Ok(()));
    assert_eq!(worker.give(&cap, u64::MAX - 2, 0, vec![1]), Ok(()));
    assert_eq!(worker.give(&cap, u64::MAX - 1, 0, vec![2]), Ok(()));
    assert_eq!(worker.give(&cap, u64::MAX, 0, vec![3]), Ok(()));
    assert_eq!(worker.release(cap), Ok(()));
    // Only the first batch can be stamped two steps later.
    assert_eq!(worker.frontier(body.node, 0).unwrap().elements(), vec![u64::MAX]);
    assert!(worker.step());
    assert_eq!(worker.waiting(fed_back.node, 0), 0);
    assert_eq!(worker.waiting(body.node, 0), 1);
    let (got, data) = worker.next(body.node, 0, 0).unwrap().unwrap();
    assert_eq!((got.time(), data), (u64::MAX, vec![1]));
    assert_eq!(worker.release(got), Ok(()));
    assert!(worker.frontier(body.node, 0).unwrap().is_empty());
}

#[test]
fn forwarded_batches_stay_with_their_instance() {
    let mut graph = Graph::new();
    let source = graph.source();
    let merged = graph.concat(&vec![source]).unwrap();
    let op = graph.operator(&vec![merged]).unwrap();
    let (mut worker, mut caps): (Worker<u64, u64>, _) = Worker::new(graph.seal(), 2);
    release_all(&mut worker, caps.remove(op.node));
    let mut mine = caps.remove(source.node);
    let cap = mine.remove(0);
    release_all(&mut worker, mine);
    assert_eq!(worker.give(&cap, 1, 1, vec![10]), Ok(()));
    assert_eq!(worker.give(&cap, 1, 0, vec![20]), Ok(()));
    assert_eq!(worker.release(cap), Ok(()));
    assert_eq!(worker.inspect(merged.node, 0, 0).unwrap().worker, 1);
    assert_eq!(worker.forward(merged.node, 0), Ok(true));
    assert_eq!(worker.waiting(op.node, 0), 1);
    assert_eq!(worker.inspect(op.node, 0, 0).unwrap().worker, 1);
    assert_eq!(worker.inspect(op.node, 0, 0).unwrap().data, vec![10]);
    assert!(worker.step());
    assert!(worker.next(op.node, 0, 2).unwrap().is_none());
    let (a, data) = worker.next(op.node, 0, 0).unwrap().unwrap();
    assert_eq!(data, vec![20]);
    let (b, data) = worker.next(op.node, 0, 1).unwrap().unwrap();
    assert_eq!(data, vec![10]);
    assert_eq!(worker.release(a), Ok(()));
    assert_eq!(worker.release(b), Ok(()));
}

#[test]
fn a_pass_takes_a_batch_once_round_a_loop_that_the_worker_runs() {
    let mut graph = Graph::new();
    let source = graph.source();
    let (handle, fed_back) = graph.feedback(1).unwrap();
    let merged = graph.concat(&vec![source, fed_back]).unwrap();
    assert_eq!(graph.connect_loop(merged, handle), Ok(()));
    let tap = graph.operator(&vec![merged]).unwrap();
    let (mut worker, mut caps): (Worker<u64, u64>, _) = Worker::new(graph.seal(), 1);
    release_all(&mut worker, caps.remove(tap.node));
    let mut cap = caps.remove(source.node).remove(0);
    assert_eq!(worker.downgrade(&mut cap, u64::MAX - 3), Ok(()));
    assert_eq!(worker.give(&cap, u64::MAX - 3, 0, vec![7]), Ok(()));
    assert_eq!(worker.release(cap), Ok(()));
    // The first pass finds nothing at the feedback operator, and moves the
    // batch from the merging operator to its two consumers.
    assert!(worker.step());
    assert_eq!(worker.waiting(merged.node, 0), 0);
    assert_eq!(worker.waiting(fed_back.node, 0), 1);
    assert_eq!(worker.waiting(tap.node, 0), 1);
    assert_eq!(worker.inspect(fed_back.node, 0, 0).unwrap().time, u64::MAX - 3);
    // Every further pass takes the batch once round the loop, one step on.
    for trip in 1..=3u64 {
        assert!(worker.step());
        assert_eq!(worker.waiting(merged.node, 1), 0);
        assert_eq!(worker.waiting(fed_back.node, 0), 1);
        assert_eq!(worker.inspect(fed_back.node, 0, 0).unwrap().time, u64::MAX - 3 + trip);
        assert_eq!(worker.waiting(tap.node, 0), 1 + trip as usize);
        assert_eq!(
            worker.inspect(tap.node, 0, trip as usize).unwrap().time,
            u64::MAX - 3 + trip
        );
    }
    // No time is left for another trip: the batch leaves the loop.
    assert!(worker.step());
    assert_eq!(worker.waiting(fed_back.node, 0), 0);
    assert_eq!(worker.waiting(tap.node, 0), 4);
    assert!(!worker.step());
    assert_eq!(worker.frontier(tap.node, 0).unwrap().elements(), vec![u64::MAX - 3]);
}

#[test]
fn batches_sent_together_arrive_in_order_or_not_at_all() {
    let mut graph = Graph::new();
    let source = graph.source();
    let op = graph.operator(&vec![source]).unwrap();
    let (mut worker, mut caps): (Worker<u64, u64>, _) = Worker::new(graph.seal(), 2);
    release_all(&mut worker, caps.remove(op.node));
    let mut mine = caps.remove(source.node);
    let mut cap = mine.remove(0);
    release_all(&mut worker, mine);
    assert_eq!(worker.downgrade(&mut cap, 2), Ok(()));
    assert_eq!(
        worker.give_each(&cap, vec![(2, 0, vec![1]), (1, 1, vec![2])]),
        Err(ProtocolViolation::TimeNotCovered)
    );
    assert_eq!(
        worker.give_each(&cap, vec![(1, 0, vec![1]), (3, 2, vec![2])]),
        Err(ProtocolViolation::UnknownEndpoint)
    );
    assert_eq!(worker.waiting(op.node, 0), 0);
    assert_eq!(worker.give_each(&cap, vec![]), Ok(()));
    assert_eq!(worker.waiting(op.node, 0), 0);
    assert_eq!(
        worker.give_each(&cap, vec![(5, 1, vec![1]), (2, 0, vec![2, 3]), (5, 1, vec![])]),
        Ok(())
    );
    let waiting: Vec<(u64, usize, Vec<u64>)> = (0..worker.waiting(op.node, 0))
        .map(|at| worker.inspect(op.node, 0, at).unwrap())
        .map(|m| (m.time, m.worker, m.data.clone()))
        .collect();
    assert_eq!(waiting, vec![(5, 1, vec![1]), (2, 0, vec![2, 3]), (5, 1, vec![])]);
    assert_eq!(worker.release(cap), Ok(()));
    // A capability of another dataflow is unknown here.
    let mut elsewhere = Graph::new();
    for _ in 0..3 {
        elsewhere.source();
    }
    let (mut second, mut held): (Worker<u64, u64>, _) = Worker::new(elsewhere.seal(), 1);
    let foreign = held.remove(2).remove(0);
    assert_eq!(
        worker.give_each(&foreign, vec![(5, 0, vec![9])]),
        Err(ProtocolViolation::UnknownCapability)
    );
    assert_eq!(worker.waiting(op.node, 0), 3);
    assert_eq!(second.release(foreign), Ok(()));
}
