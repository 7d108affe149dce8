//! Probes: where the driving code watches the progress of a dataflow.

use crate::frontier::Antichain;
use crate::graph::Stream;
use crate::order::{strictly_before, Timestamp};
use crate::worker::Worker;
use vstd::prelude::*;

verus! {

/// A handle on a point of the graph at which progress is observed: the
/// input of a probe operator. The driving code steps the worker for as long
/// as the probe says that a time of interest may still arrive.
#[derive(Clone, Copy, Debug, PartialEq, Eq, Structural)]
pub struct ProbeHandle {
    pub node: usize,
}

impl ProbeHandle {
    /// The handle for the probe operator `probe`.
    pub fn new(probe: Stream) -> (handle: ProbeHandle)
        ensures
            handle.node == probe.node,
    {
        ProbeHandle { node: probe.node }
    }

    /// A record at or before `time` may still arrive at the probe.
    pub open spec fn expects<T: Timestamp, D>(&self, worker: &Worker<T, D>, time: T) -> bool {
        worker.has_input(self.node as int, 0) && worker.may_arrive(self.node as int, 0, time)
    }

    /// A record strictly before `time` may still arrive at the probe.
    pub open spec fn expects_before<T: Timestamp, D>(
        &self,
        worker: &Worker<T, D>,
        time: T,
    ) -> bool {
        exists|x: T| #[trigger] self.expects(worker, x) && strictly_before(x, time)
    }

    /// The frontier at the probe: the minimal times at which records may
    /// still arrive there. Empty where the probe is no operator of the
    /// graph.
    pub fn frontier<T: Timestamp, D>(&self, worker: &Worker<T, D>) -> (f: Antichain<T>)
        requires
            worker.wf(),
        ensures
            f.wf(),
            forall|t: T| #[trigger] f.dominates(t) <==> self.expects(worker, t),
    {
        match worker.frontier(self.node, 0) {
            Ok(f) => f,
            Err(_) => Antichain::new(),
        }
    }

    /// Whether a record strictly before `time` may still arrive at the
    /// probe.
    pub fn less_than<T: Timestamp, D>(&self, worker: &Worker<T, D>, time: &T) -> (r: bool)
        requires
            worker.wf(),
        ensures
            r == self.expects_before(worker, *time),
    {
        let f = self.frontier(worker);
        let r = f.less_than(time);
        proof {
            if r {
                let e = choose|e: T| f@.contains(e) && strictly_before(e, *time);
                T::leq_reflexive(e);
                assert(f.dominates(e));
                assert(self.expects(worker, e));
            }
            if self.expects_before(worker, *time) {
                let x = choose|x: T| #[trigger]
                    self.expects(worker, x) && strictly_before(x, *time);
                assert(f.dominates(x));
                let e = choose|e: T| f@.contains(e) && e.leq(x);
                T::leq_transitive(e, x, *time);
                if e == *time {
                    T::leq_antisymmetric(x, *time);
                }
                assert(strictly_before(e, *time));
            }
        }
        r
    }

    /// Whether a record at or before `time` may still arrive at the probe.
    pub fn less_equal<T: Timestamp, D>(&self, worker: &Worker<T, D>, time: &T) -> (r: bool)
        requires
            worker.wf(),
        ensures
            r == self.expects(worker, *time),
    {
        let f = self.frontier(worker);
        f.less_equal(time)
    }

    /// Whether nothing can arrive at the probe any more.
    pub fn done<T: Timestamp, D>(&self, worker: &Worker<T, D>) -> (r: bool)
        requires
            worker.wf(),
        ensures
            r == forall|t: T| !self.expects(worker, t),
    {
        let f = self.frontier(worker);
        let r = f.is_empty();
        proof {
            if r {
                assert forall|t: T| !self.expects(worker, t) by {
                    if self.expects(worker, t) {
                        assert(f.dominates(t));
                    }
                }
            } else {
                let e = choose|e: T| f@.contains(e);
                if f@ =~= Set::<T>::empty() {
                }
                T::leq_reflexive(e);
                assert(f.dominates(e));
                assert(self.expects(worker, e));
            }
        }
        r
    }
}

} // verus!
