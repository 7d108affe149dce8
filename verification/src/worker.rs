//! The worker: the state of a running dataflow, and the steps that move
//! records and capabilities through it.

use crate::capability::{applied, Capability, CapabilityEvent, Ledger};
use crate::exchange::{route, routed, Pact};
use crate::frontier::Antichain;
use crate::graph::{edge, Kind, Node, Topology};
use crate::order::{advanced_fewer_steps, Timestamp};
use crate::vectors::reversed;
use crate::violation::ProtocolViolation;
use vstd::multiset::Multiset;
use vstd::prelude::*;

verus! {

/// A batch of records that share a time, on its way to one of the parallel
/// instances of an operator.
pub struct Message<T, D> {
    pub time: T,
    /// The instance of the consuming operator that the batch is for.
    pub worker: usize,
    pub data: Vec<D>,
}

/// `copy` holds a clone of each element of `records`, in order.
pub open spec fn copy_of<D: Clone>(records: Seq<D>, copy: Seq<D>) -> bool {
    &&& copy.len() == records.len()
    &&& forall|i: int| 0 <= i < records.len() ==> cloned(records[i], #[trigger] copy[i])
}

/// The position of the first message for `worker`, if there is one.
pub open spec fn first_for<T, D>(queue: Seq<Message<T, D>>, worker: usize) -> Option<int>
    decreases queue.len(),
{
    if queue.len() == 0 {
        None
    } else {
        match first_for(queue.drop_last(), worker) {
            Some(i) => Some(i),
            None => if queue.last().worker == worker {
                Some(queue.len() - 1)
            } else {
                None
            },
        }
    }
}

/// `first_for` names the first message for `worker`.
pub proof fn first_for_finds<T, D>(queue: Seq<Message<T, D>>, worker: usize)
    ensures
        match first_for(queue, worker) {
            Some(i) => 0 <= i < queue.len() && queue[i].worker == worker && forall|k: int|
                0 <= k < i ==> (#[trigger] queue[k]).worker != worker,
            None => forall|k: int| 0 <= k < queue.len() ==> (#[trigger] queue[k]).worker != worker,
        },
    decreases queue.len(),
{
    if queue.len() > 0 {
        first_for_finds(queue.drop_last(), worker);
        match first_for(queue.drop_last(), worker) {
            Some(i) => {
                assert(queue.drop_last()[i] == queue[i]);
                assert forall|k: int| 0 <= k < i implies (#[trigger] queue[k]).worker != worker by {
                    assert(queue.drop_last()[k] == queue[k]);
                }
            },
            None => {
                assert forall|k: int| 0 <= k < queue.len() - 1 implies (#[trigger] queue[k]).worker
                    != worker by {
                    assert(queue.drop_last()[k] == queue[k]);
                }
            },
        }
    }
}

/// The state of a running dataflow: for every input of every operator the
/// batches that wait there, and for every operator the capabilities that
/// are live at its output.
pub struct Worker<T: Timestamp, D> {
    topology: Topology,
    peers: usize,
    queues: Vec<Vec<Vec<Message<T, D>>>>,
    ledgers: Vec<Ledger<T>>,
}

impl<T: Timestamp, D> Worker<T, D> {
    /// The graph that the worker runs.
    pub closed spec fn topology(&self) -> Topology {
        self.topology
    }

    /// The operators of the graph.
    pub open spec fn nodes(&self) -> Seq<Node> {
        self.topology().nodes()
    }

    /// The number of parallel instances of every operator.
    pub closed spec fn peers(&self) -> usize {
        self.peers
    }

    /// The batches that wait at an input, the oldest first.
    pub closed spec fn queue(&self, node: int, input: int) -> Seq<Message<T, D>> {
        self.queues@[node]@[input]@
    }

    /// The times of the capabilities that are live at the output of an
    /// operator.
    pub closed spec fn held(&self, node: int) -> Multiset<T> {
        self.ledgers@[node]@
    }

    /// `input` is an input of the operator `node`.
    pub open spec fn has_input(&self, node: int, input: int) -> bool {
        0 <= node < self.nodes().len() && 0 <= input < self.nodes()[node].sources@.len()
    }

    /// `input` is an input of the operator `node`, and the operator is one
    /// that the driving code runs.
    pub open spec fn driven_input(&self, node: int, input: int) -> bool {
        self.has_input(node, input) && self.nodes()[node].kind == Kind::Operator
    }

    /// The graph is well formed, every input of every operator has its queue
    /// and every operator its ledger, and every batch that waits is for an
    /// instance that exists.
    pub closed spec fn wf(&self) -> bool {
        &&& self.topology.wf()
        &&& self.queues@.len() == self.topology.nodes().len()
        &&& self.ledgers@.len() == self.topology.nodes().len()
        &&& forall|b: int|
            0 <= b < self.queues@.len() ==> (#[trigger] self.queues@[b])@.len()
                == self.topology.nodes()[b].sources@.len()
        &&& forall|b: int| 0 <= b < self.ledgers@.len() ==> (#[trigger] self.ledgers@[b]).id() == b
        &&& forall|b: int, p: int, i: int|
            0 <= b < self.queues@.len() && 0 <= p < self.queues@[b]@.len() && 0 <= i
                < self.queues@[b]@[p]@.len() ==> (#[trigger] self.queues@[b]@[p]@[i]).worker
                < self.peers
    }

    /// The operator `a` may still put out records at the time `w`: it holds
    /// a capability for `w`, or a batch waits at one of its inputs that
    /// leaves it at `w`.
    pub open spec fn stamped(&self, a: int, w: T) -> bool {
        ||| self.held(a).count(w) > 0
        ||| exists|p: int, i: int|
            self.has_input(a, p) && 0 <= i < self.queue(a, p).len() && (#[trigger] self.queue(
                a,
                p,
            )[i]).time.advanced(self.nodes()[a].summary as nat) == Some(w)
    }

    /// A record that leaves `a` at the time `w` can come out of `u` at or
    /// before `t`.
    pub open spec fn carried(&self, a: int, w: T, u: int, t: T) -> bool {
        match self.topology().least(a, u) {
            Some(k) => match w.advanced(k as nat) {
                Some(x) => x.leq(t),
                None => false,
            },
            None => false,
        }
    }

    /// Records at or before `t` may still come out of the operator `u`.
    pub open spec fn may_emit(&self, u: int, t: T) -> bool {
        exists|a: int, w: T|
            0 <= a < self.nodes().len() && #[trigger] self.stamped(a, w) && self.carried(a, w, u, t)
    }

    /// A batch at or before `t` waits at the input.
    pub open spec fn waits(&self, node: int, input: int, t: T) -> bool {
        exists|i: int|
            0 <= i < self.queue(node, input).len() && (#[trigger] self.queue(node, input)[i]).time.leq(
                t,
            )
    }

    /// Records at or before `t` may still arrive at the input: one waits
    /// there already, or the operator that feeds the input may still put
    /// one out.
    pub open spec fn may_arrive(&self, node: int, input: int, t: T) -> bool {
        ||| self.waits(node, input, t)
        ||| match self.nodes()[node].sources@[input] {
            Some(u) => self.may_emit(u as int, t),
            None => false,
        }
    }

    /// The time `t` is complete for the operator `node`: at none of its
    /// inputs can a record at or before `t` still arrive.
    pub open spec fn complete(&self, node: int, t: T) -> bool {
        forall|input: int| self.has_input(node, input) ==> !self.may_arrive(node, input, t)
    }

    /// Every time that may still arrive at an input now could arrive there
    /// in `earlier`, and every time at which an operator may still put out
    /// records now was one in `earlier`: no frontier has gone back, at
    /// either end of any edge.
    pub open spec fn advanced_from(&self, earlier: &Worker<T, D>) -> bool {
        &&& self.topology() == earlier.topology()
        &&& forall|node: int, input: int, t: T|
            self.has_input(node, input) && #[trigger] self.may_arrive(node, input, t)
                ==> earlier.may_arrive(node, input, t)
        &&& forall|node: int, t: T|
            0 <= node < self.nodes().len() && #[trigger] self.may_emit(node, t)
                ==> earlier.may_emit(node, t)
    }

    /// In `earlier`, records that leave `a` at `w` were already expected
    /// wherever they can come out.
    pub open spec fn expected_in(&self, earlier: &Worker<T, D>, a: int, w: T) -> bool {
        forall|u: int, t: T|
            0 <= u < self.nodes().len() && #[trigger] self.carried(a, w, u, t) ==> earlier.may_emit(
                u,
                t,
            )
    }

    /// What may still arrive is closed under later times.
    pub proof fn lemma_may_arrive_later(&self, node: int, input: int, x: T, t: T)
        requires
            self.may_arrive(node, input, x),
            x.leq(t),
        ensures
            self.may_arrive(node, input, t),
    {
        if self.waits(node, input, x) {
            let i = choose|i: int|
                0 <= i < self.queue(node, input).len() && (#[trigger] self.queue(
                    node,
                    input,
                )[i]).time.leq(x);
            T::leq_transitive(self.queue(node, input)[i].time, x, t);
        } else {
            let u = self.nodes()[node].sources@[input].unwrap() as int;
            let (a, w) = choose|a: int, w: T|
                0 <= a < self.nodes().len() && #[trigger] self.stamped(a, w) && self.carried(
                    a,
                    w,
                    u,
                    x,
                );
            let k = self.topology().least(a, u).unwrap();
            T::leq_transitive(w.advanced(k as nat).unwrap(), x, t);
            assert(self.carried(a, w, u, t));
        }
    }

    /// No frontier goes back where every batch that waits and every time at
    /// which an operator may put out records was expected before.
    pub proof fn lemma_advanced_from(&self, earlier: &Worker<T, D>)
        requires
            self.wf(),
            self.topology() == earlier.topology(),
            forall|b: int, p: int, i: int|
                self.has_input(b, p) && 0 <= i < self.queue(b, p).len() ==> earlier.may_arrive(
                    b,
                    p,
                    (#[trigger] self.queue(b, p)[i]).time,
                ),
            forall|a: int, w: T|
                0 <= a < self.nodes().len() && #[trigger] self.stamped(a, w) ==> self.expected_in(
                    earlier,
                    a,
                    w,
                ),
        ensures
            self.advanced_from(earlier),
    {
        assert forall|node: int, input: int, t: T|
            self.has_input(node, input) && #[trigger] self.may_arrive(
                node,
                input,
                t,
            ) implies earlier.may_arrive(node, input, t) by {
            if self.waits(node, input, t) {
                let i = choose|i: int|
                    0 <= i < self.queue(node, input).len() && (#[trigger] self.queue(
                        node,
                        input,
                    )[i]).time.leq(t);
                earlier.lemma_may_arrive_later(node, input, self.queue(node, input)[i].time, t);
            } else {
                let u = self.nodes()[node].sources@[input].unwrap() as int;
                let (a, w) = choose|a: int, w: T|
                    0 <= a < self.nodes().len() && #[trigger] self.stamped(a, w) && self.carried(
                        a,
                        w,
                        u,
                        t,
                    );
                assert(self.expected_in(earlier, a, w));
                self.topology().lemma_connected_within();
                assert(earlier.may_emit(u, t));
            }
        }
        assert forall|node: int, t: T|
            0 <= node < self.nodes().len() && #[trigger] self.may_emit(
                node,
                t,
            ) implies earlier.may_emit(node, t) by {
            let (a, w) = choose|a: int, w: T|
                0 <= a < self.nodes().len() && #[trigger] self.stamped(a, w) && self.carried(
                    a,
                    w,
                    node,
                    t,
                );
            assert(self.expected_in(earlier, a, w));
        }
    }

    /// Progress composes: an advance of an advance is an advance.
    pub proof fn lemma_advanced_from_transitive(&self, middle: &Worker<T, D>, earlier: &Worker<T, D>)
        requires
            self.advanced_from(middle),
            middle.advanced_from(earlier),
        ensures
            self.advanced_from(earlier),
    {
        assert forall|node: int, input: int, t: T|
            self.has_input(node, input) && #[trigger] self.may_arrive(
                node,
                input,
                t,
            ) implies earlier.may_arrive(node, input, t) by {
            assert(middle.may_arrive(node, input, t));
        }
        assert forall|node: int, t: T|
            0 <= node < self.nodes().len() && #[trigger] self.may_emit(
                node,
                t,
            ) implies earlier.may_emit(node, t) by {
            assert(middle.may_emit(node, t));
        }
    }

    /// A change of capabilities after another change: where the second
    /// change leaves every batch where it was and touches the capabilities
    /// of one operator only, and the first touched the capabilities of no
    /// other operator, the two together are an advance, wait for the same
    /// batches as the first, and touch the capabilities of that operator
    /// only.
    pub proof fn lemma_capabilities_changed_after(
        &self,
        middle: &Worker<T, D>,
        earlier: &Worker<T, D>,
        node: int,
    )
        requires
            self.advanced_from(middle),
            middle.advanced_from(earlier),
            self.same_queues_but(middle, -1, -1),
            self.same_held_but(middle, node),
            middle.same_held_but(earlier, node),
        ensures
            self.advanced_from(earlier),
            self.same_held_but(earlier, node),
            forall|b: int, p: int|
                self.has_input(b, p) ==> #[trigger] self.queue(b, p) == middle.queue(b, p),
    {
        self.lemma_advanced_from_transitive(middle, earlier);
        assert forall|a: int|
            0 <= a < self.nodes().len() && a != node implies #[trigger] self.held(a)
            == earlier.held(a) by {
            assert(middle.held(a) == earlier.held(a));
        }
    }

    /// No batch waits anywhere, and no capability is live.
    pub open spec fn at_rest(&self) -> bool {
        &&& forall|b: int, p: int| self.has_input(b, p) ==> (#[trigger] self.queue(b, p)).len() == 0
        &&& forall|a: int, w: T|
            0 <= a < self.nodes().len() ==> #[trigger] self.held(a).count(w) == 0
    }

    /// A dataflow at rest is done: once no batch waits and no capability is
    /// live, nothing can arrive at any input and nothing can come out of
    /// any operator, so that every frontier is empty and has passed every
    /// time that the run has produced, in loops as elsewhere.
    pub proof fn at_rest_every_time_is_complete(&self, node: int, input: int, t: T)
        requires
            self.at_rest(),
        ensures
            !self.may_emit(node, t),
            self.has_input(node, input) ==> !self.may_arrive(node, input, t),
            self.complete(node, t),
    {
        assert forall|u: int| !self.may_emit(u, t) by {
            if self.may_emit(u, t) {
                let (a, w) = choose|a: int, w: T|
                    0 <= a < self.nodes().len() && #[trigger] self.stamped(a, w) && self.carried(
                        a,
                        w,
                        u,
                        t,
                    );
                assert(self.held(a).count(w) == 0);
                let (p, i) = choose|p: int, i: int|
                    self.has_input(a, p) && 0 <= i < self.queue(a, p).len() && (
                    #[trigger] self.queue(a, p)[i]).time.advanced(self.nodes()[a].summary as nat)
                        == Some(w);
                assert(self.queue(a, p).len() == 0);
            }
        }
        assert forall|q: int| self.has_input(node, q) implies !self.may_arrive(node, q, t) by {
            assert(self.queue(node, q).len() == 0);
        }
    }

    /// Completeness is final: a time that is complete for an operator stays
    /// complete whatever happens later, so that what the operator does once
    /// the time is complete is never overtaken by a late record.
    pub proof fn completeness_is_final(&self, later: &Worker<T, D>, node: int, t: T)
        requires
            later.advanced_from(self),
            self.complete(node, t),
        ensures
            later.complete(node, t),
    {
        assert forall|input: int| later.has_input(node, input) implies !later.may_arrive(
            node,
            input,
            t,
        ) by {
            assert(self.has_input(node, input));
            assert(!self.may_arrive(node, input, t));
            if later.may_arrive(node, input, t) {
                assert(self.may_arrive(node, input, t));
            }
        }
    }

    /// Nothing is sent behind the frontier: once an operator cannot put out
    /// records at or before a time any more, it holds no capability at or
    /// before that time, however the dataflow goes on, and so has no
    /// permission to send there.
    pub proof fn nothing_is_sent_behind_the_frontier(
        &self,
        later: &Worker<T, D>,
        cap: &Capability<T>,
        t: T,
    )
        requires
            self.wf(),
            later.advanced_from(self),
            cap.owner() < self.nodes().len(),
            !self.may_emit(cap.owner() as int, t),
            cap.at().leq(t),
        ensures
            !later.holds(cap),
    {
        if later.holds(cap) {
            let u = cap.owner() as int;
            assert(later.stamped(u, cap.at()));
            later.topology().lemma_least_to_self(u);
            T::advanced_zero(cap.at());
            assert(later.carried(u, cap.at(), u, t));
            assert(later.may_emit(u, t));
        }
    }
}

/// No frontier goes back: where a later state of the worker is an advance of
/// an earlier one, the frontier of every input in the later state is an
/// advance of its frontier in the earlier state.
pub proof fn frontiers_never_go_back<T: Timestamp, D>(
    earlier: &Worker<T, D>,
    later: &Worker<T, D>,
    node: int,
    input: int,
    before: &Antichain<T>,
    after: &Antichain<T>,
)
    requires
        later.advanced_from(earlier),
        later.has_input(node, input),
        forall|t: T| #[trigger] before.dominates(t) <==> earlier.may_arrive(node, input, t),
        forall|t: T| #[trigger] after.dominates(t) <==> later.may_arrive(node, input, t),
    ensures
        after.advanced_from(before),
{
    assert forall|t: T| after.dominates(t) implies before.dominates(t) by {
        assert(later.may_arrive(node, input, t));
        assert(earlier.may_arrive(node, input, t));
    }
}

/// `n` copies of `t`.
pub open spec fn copies<T>(t: T, n: nat) -> Multiset<T>
    decreases n,
{
    if n == 0 {
        Multiset::empty()
    } else {
        copies(t, (n - 1) as nat).insert(t)
    }
}

/// Adds `x` to `out`.
fn note<T: Timestamp>(out: &mut Vec<T>, x: T)
    ensures
        forall|y: T| #[trigger] final(out)@.contains(y) <==> old(out)@.contains(y) || y == x,
{
    let ghost before = out@;
    out.push(x);
    proof {
        assert forall|y: T| #[trigger] out@.contains(y) <==> before.contains(y) || y == x by {
            if out@.contains(y) {
                let i = choose|i: int| 0 <= i < out@.len() && out@[i] == y;
                if i < before.len() {
                    assert(before[i] == y);
                }
            }
            if before.contains(y) {
                let i = choose|i: int| 0 <= i < before.len() && before[i] == y;
                assert(out@[i] == y);
            }
            if y == x {
                assert(out@[before.len() as int] == y);
            }
        }
    }
}

/// Adds to `out` every time that `found` holds.
fn note_all<T: Timestamp>(out: &mut Vec<T>, found: &Vec<Option<T>>)
    ensures
        forall|x: T| #[trigger]
            final(out)@.contains(x) <==> old(out)@.contains(x) || found@.contains(Some(x)),
{
    let mut i: usize = 0;
    while i < found.len()
        invariant
            i <= found@.len(),
            forall|x: T| #[trigger]
                out@.contains(x) <==> old(out)@.contains(x) || found@.take(i as int).contains(
                    Some(x),
                ),
        decreases found@.len() - i,
    {
        match found[i] {
            Some(x) => {
                note(out, x);
            },
            None => {},
        }
        proof {
            let head = found@.take(i as int);
            let next = found@.take(i + 1);
            assert(next =~= head.push(found@[i as int]));
            assert forall|x: T| #[trigger]
                out@.contains(x) <==> old(out)@.contains(x) || next.contains(Some(x)) by {
                if head.contains(Some(x)) {
                    let j = choose|j: int| 0 <= j < head.len() && head[j] == Some(x);
                    assert(next[j] == Some(x));
                }
                if next.contains(Some(x)) {
                    let j = choose|j: int| 0 <= j < next.len() && next[j] == Some(x);
                    if j < i {
                        assert(head[j] == Some(x));
                    }
                }
                if found@[i as int] == Some(x) {
                    assert(next[i as int] == Some(x));
                }
            }
        }
        i += 1;
    }
    proof {
        assert(found@.take(i as int) =~= found@);
    }
}

impl<T: Timestamp, D> Worker<T, D> {
    /// A worker for `topology` in which every operator has `peers` parallel
    /// instances. Nothing waits at any input. Every instance of every
    /// operator that the driving code runs starts with a capability for the
    /// least time, handed back here operator by operator: whoever holds one
    /// keeps the whole dataflow from finishing until it is released.
    pub fn new(topology: Topology, peers: usize) -> (made: (Worker<T, D>, Vec<Vec<Capability<T>>>))
        requires
            topology.wf(),
        ensures
            made.0.wf(),
            made.0.topology() == topology,
            made.0.peers() == peers,
            made.1@.len() == topology.nodes().len(),
            forall|node: int, input: int|
                made.0.has_input(node, input) ==> #[trigger] made.0.queue(node, input)
                    == Seq::<Message<T, D>>::empty(),
            forall|node: int|
                0 <= node < topology.nodes().len() ==> {
                    &&& (#[trigger] made.1@[node])@.len() == (if topology.nodes()[node].kind
                        == Kind::Operator {
                        peers as int
                    } else {
                        0
                    })
                    &&& made.0.held(node) == copies(T::least(), made.1@[node]@.len())
                },
            forall|node: int, i: int|
                0 <= node < topology.nodes().len() && 0 <= i < made.1@[node]@.len() ==> (
                #[trigger] made.1@[node]@[i]).at() == T::least() && made.1@[node]@[i].owner()
                    == node,
    {
        let mut queues: Vec<Vec<Vec<Message<T, D>>>> = Vec::new();
        let mut ledgers: Vec<Ledger<T>> = Vec::new();
        let mut caps: Vec<Vec<Capability<T>>> = Vec::new();
        let mut b: usize = 0;
        while b < topology.len()
            invariant
                topology.wf(),
                b <= topology.nodes().len(),
                queues@.len() == b,
                ledgers@.len() == b,
                caps@.len() == b,
                forall|c: int|
                    0 <= c < b ==> (#[trigger] queues@[c])@.len()
                        == topology.nodes()[c].sources@.len(),
                forall|c: int, p: int|
                    0 <= c < b && 0 <= p < queues@[c]@.len() ==> (#[trigger] queues@[c]@[p])@
                        == Seq::<Message<T, D>>::empty(),
                forall|c: int| 0 <= c < b ==> (#[trigger] ledgers@[c]).id() == c,
                forall|c: int|
                    0 <= c < b ==> {
                        &&& (#[trigger] caps@[c])@.len() == (if topology.nodes()[c].kind
                            == Kind::Operator {
                            peers as int
                        } else {
                            0
                        })
                        &&& ledgers@[c]@ == copies(T::least(), caps@[c]@.len())
                    },
                forall|c: int, i: int|
                    0 <= c < b && 0 <= i < caps@[c]@.len() ==> (#[trigger] caps@[c]@[i]).at()
                        == T::least() && caps@[c]@[i].owner() == c,
            decreases topology.nodes().len() - b,
        {
            let mut inputs: Vec<Vec<Message<T, D>>> = Vec::new();
            while inputs.len() < topology.inputs(b)
                invariant
                    b < topology.nodes().len(),
                    inputs@.len() <= topology.nodes()[b as int].sources@.len(),
                    forall|p: int|
                        0 <= p < inputs@.len() ==> (#[trigger] inputs@[p])@ == Seq::<
                            Message<T, D>,
                        >::empty(),
                decreases topology.nodes()[b as int].sources@.len() - inputs@.len(),
            {
                inputs.push(Vec::new());
            }
            let mut ledger: Ledger<T> = Ledger::new(b);
            let mut issued: Vec<Capability<T>> = Vec::new();
            if let Kind::Operator = topology.kind(b) {
                while issued.len() < peers
                    invariant
                        issued@.len() <= peers,
                        ledger.id() == b,
                        ledger@ == copies(T::least(), issued@.len()),
                        forall|i: int|
                            0 <= i < issued@.len() ==> (#[trigger] issued@[i]).at() == T::least()
                                && issued@[i].owner() == b,
                    decreases peers - issued@.len(),
                {
                    let cap = ledger.issue(T::minimum());
                    issued.push(cap);
                }
            }
            queues.push(inputs);
            ledgers.push(ledger);
            caps.push(issued);
            b += 1;
        }
        let worker = Worker { topology, peers, queues, ledgers };
        (worker, caps)
    }

    /// The number of operators.
    pub fn len(&self) -> (n: usize)
        ensures
            n == self.nodes().len(),
    {
        self.topology.len()
    }

    /// The number of parallel instances of every operator.
    pub fn instances(&self) -> (n: usize)
        ensures
            n == self.peers(),
    {
        self.peers
    }

    /// The number of inputs of the operator `node`; none where the graph has
    /// no such operator.
    pub fn inputs(&self, node: usize) -> (n: usize)
        ensures
            forall|input: int| 0 <= input < n <==> self.has_input(node as int, input),
            0 <= node < self.nodes().len() ==> n == self.nodes()[node as int].sources@.len(),
    {
        if node < self.topology.len() {
            self.topology.inputs(node)
        } else {
            0
        }
    }

    /// Whether `node` is an operator that the driving code runs.
    pub fn is_driven(&self, node: usize) -> (r: bool)
        ensures
            r == self.drives(node as int),
    {
        if node < self.topology.len() {
            match self.topology.kind(node) {
                Kind::Operator => true,
                _ => false,
            }
        } else {
            false
        }
    }

    /// Whether `input` is an input of the operator `node`.
    pub fn knows(&self, node: usize, input: usize) -> (r: bool)
        ensures
            r == self.has_input(node as int, input as int),
    {
        node < self.topology.len() && input < self.topology.inputs(node)
    }

    /// Whether `cap` is a live capability of one of the operators.
    pub fn is_live(&self, cap: &Capability<T>) -> (r: bool)
        requires
            self.wf(),
        ensures
            r == self.holds(cap),
    {
        let owner = cap.output();
        let at = cap.time();
        owner < self.topology.len() && self.ledgers[owner].count(&at) > 0
    }

    /// The number of batches that wait at an input; none where the graph
    /// has no such input.
    pub fn waiting(&self, node: usize, input: usize) -> (n: usize)
        requires
            self.wf(),
        ensures
            n == (if self.has_input(node as int, input as int) {
                self.queue(node as int, input as int).len()
            } else {
                0
            }),
    {
        if self.knows(node, input) {
            self.queues[node][input].len()
        } else {
            0
        }
    }

    /// Looks at a batch that waits at an input without taking it: the batch
    /// at the position `at`, the oldest being at position 0. Nothing in the
    /// dataflow changes.
    pub fn inspect(&self, node: usize, input: usize, at: usize) -> (r: Option<&Message<T, D>>)
        requires
            self.wf(),
        ensures
            r is Some <==> self.has_input(node as int, input as int) && at < self.queue(
                node as int,
                input as int,
            ).len(),
            r matches Some(m) ==> *m == self.queue(node as int, input as int)[at as int],
    {
        if self.knows(node, input) && at < self.queues[node][input].len() {
            Some(&self.queues[node][input][at])
        } else {
            None
        }
    }

    /// Adds to `out` the time of every batch that waits at the input.
    fn gather_waiting(&self, node: usize, input: usize, out: &mut Vec<T>)
        requires
            self.wf(),
            self.has_input(node as int, input as int),
        ensures
            forall|x: T| #[trigger]
                final(out)@.contains(x) <==> old(out)@.contains(x) || exists|i: int|
                    0 <= i < self.queue(node as int, input as int).len() && (#[trigger] self.queue(
                        node as int,
                        input as int,
                    )[i]).time == x,
    {
        let mut found: Vec<Option<T>> = Vec::new();
        let mut i: usize = 0;
        while i < self.queues[node][input].len()
            invariant
                self.wf(),
                self.has_input(node as int, input as int),
                i <= self.queue(node as int, input as int).len(),
                found@.len() == i,
                forall|j: int|
                    0 <= j < i ==> #[trigger] found@[j] == Some(
                        self.queue(node as int, input as int)[j].time,
                    ),
            decreases self.queue(node as int, input as int).len() - i,
        {
            found.push(Some(self.queues[node][input][i].time));
            i += 1;
        }
        note_all(out, &found);
        proof {
            let q = self.queue(node as int, input as int);
            assert forall|x: T|
                found@.contains(Some(x)) <==> exists|j: int|
                    0 <= j < q.len() && (#[trigger] q[j]).time == x by {
                if found@.contains(Some(x)) {
                    let j = choose|j: int| 0 <= j < found@.len() && found@[j] == Some(x);
                    assert(q[j].time == x);
                }
                if exists|j: int| 0 <= j < q.len() && (#[trigger] q[j]).time == x {
                    let j = choose|j: int| 0 <= j < q.len() && (#[trigger] q[j]).time == x;
                    assert(found@[j] == Some(x));
                }
            }
        }
    }

    /// Adds to `out` every time that a record can have `k` steps after it
    /// leaves the operator `a`.
    fn gather_emitted(&self, a: usize, k: u128, out: &mut Vec<T>)
        requires
            self.wf(),
            a < self.nodes().len(),
        ensures
            forall|x: T| #[trigger]
                final(out)@.contains(x) <==> old(out)@.contains(x) || exists|w: T| #[trigger]
                    self.stamped(a as int, w) && w.advanced(k as nat) == Some(x),
    {
        let held = self.ledgers[a].times();
        let summary = self.topology.summary(a);
        let mut found: Vec<Option<T>> = Vec::new();
        let mut i: usize = 0;
        while i < held.len()
            invariant
                i <= held@.len(),
                found@.len() == i,
                forall|j: int| 0 <= j < i ==> #[trigger] found@[j] == held@[j].advanced(k as nat),
            decreases held@.len() - i,
        {
            found.push(held[i].advance_by(k));
            i += 1;
        }
        note_all(out, &found);
        proof {
            held@.to_multiset_ensures();
            assert forall|x: T|
                found@.contains(Some(x)) <==> exists|j: int|
                    0 <= j < held@.len() && (#[trigger] held@[j]).advanced(k as nat) == Some(
                        x,
                    ) by {
                if found@.contains(Some(x)) {
                    let j = choose|j: int| 0 <= j < found@.len() && found@[j] == Some(x);
                    assert(held@[j].advanced(k as nat) == Some(x));
                }
                if exists|j: int|
                    0 <= j < held@.len() && (#[trigger] held@[j]).advanced(k as nat) == Some(x) {
                    let j = choose|j: int|
                        0 <= j < held@.len() && (#[trigger] held@[j]).advanced(k as nat) == Some(
                            x,
                        );
                    assert(found@[j] == Some(x));
                }
            }
        }
        let ghost after_held = out@;
        let mut p: usize = 0;
        while p < self.queues[a].len()
            invariant
                self.wf(),
                a < self.nodes().len(),
                summary == self.nodes()[a as int].summary,
                p <= self.nodes()[a as int].sources@.len(),
                forall|x: T| #[trigger]
                    out@.contains(x) <==> after_held.contains(x) || exists|q: int, j: int|
                        0 <= q < p && 0 <= j < self.queue(a as int, q).len() && self.leaves_at(
                            a as int,
                            (#[trigger] self.queue(a as int, q)[j]).time,
                            k,
                            x,
                        ),
            decreases self.nodes()[a as int].sources@.len() - p,
        {
            let ghost before_input = out@;
            let mut found: Vec<Option<T>> = Vec::new();
            let mut i: usize = 0;
            while i < self.queues[a][p].len()
                invariant
                    self.wf(),
                    a < self.nodes().len(),
                    summary == self.nodes()[a as int].summary,
                    p < self.nodes()[a as int].sources@.len(),
                    i <= self.queue(a as int, p as int).len(),
                    found@.len() == i,
                    forall|j: int|
                        0 <= j < i ==> #[trigger] found@[j] == self.leaving(
                            a as int,
                            self.queue(a as int, p as int)[j].time,
                            k,
                        ),
                decreases self.queue(a as int, p as int).len() - i,
            {
                let time = self.queues[a][p][i].time;
                let leaves = match time.advance_by(summary as u128) {
                    Some(w) => w.advance_by(k),
                    None => None,
                };
                found.push(leaves);
                i += 1;
            }
            note_all(out, &found);
            proof {
                let q = self.queue(a as int, p as int);
                assert forall|x: T|
                    found@.contains(Some(x)) <==> exists|j: int|
                        0 <= j < q.len() && self.leaves_at(a as int, (#[trigger] q[j]).time, k, x) by {
                    if found@.contains(Some(x)) {
                        let j = choose|j: int| 0 <= j < found@.len() && found@[j] == Some(x);
                        assert(self.leaves_at(a as int, q[j].time, k, x));
                    }
                    if exists|j: int|
                        0 <= j < q.len() && self.leaves_at(a as int, (#[trigger] q[j]).time, k, x) {
                        let j = choose|j: int|
                            0 <= j < q.len() && self.leaves_at(
                                a as int,
                                (#[trigger] q[j]).time,
                                k,
                                x,
                            );
                        assert(found@[j] == Some(x));
                    }
                }
            }
            proof {
                assert forall|x: T| #[trigger]
                    out@.contains(x) <==> after_held.contains(x) || exists|q: int, j: int|
                        0 <= q < p + 1 && 0 <= j < self.queue(a as int, q).len() && self.leaves_at(
                            a as int,
                            (#[trigger] self.queue(a as int, q)[j]).time,
                            k,
                            x,
                        ) by {
                    if out@.contains(x) && !after_held.contains(x) {
                        if before_input.contains(x) {
                            let (q, j) = choose|q: int, j: int|
                                0 <= q < p && 0 <= j < self.queue(a as int, q).len()
                                    && self.leaves_at(
                                    a as int,
                                    (#[trigger] self.queue(a as int, q)[j]).time,
                                    k,
                                    x,
                                );
                            assert(0 <= q < p + 1);
                        } else {
                            let j = choose|j: int|
                                0 <= j < self.queue(a as int, p as int).len() && self.leaves_at(
                                    a as int,
                                    (#[trigger] self.queue(a as int, p as int)[j]).time,
                                    k,
                                    x,
                                );
                            assert(0 <= p < p + 1);
                        }
                    }
                    if exists|q: int, j: int|
                        0 <= q < p + 1 && 0 <= j < self.queue(a as int, q).len() && self.leaves_at(
                            a as int,
                            (#[trigger] self.queue(a as int, q)[j]).time,
                            k,
                            x,
                        ) {
                        let (q, j) = choose|q: int, j: int|
                            0 <= q < p + 1 && 0 <= j < self.queue(a as int, q).len()
                                && self.leaves_at(
                                a as int,
                                (#[trigger] self.queue(a as int, q)[j]).time,
                                k,
                                x,
                            );
                        if q < p {
                            assert(before_input.contains(x));
                        }
                    }
                }
            }
            p += 1;
        }
        proof {
            assert forall|x: T| #[trigger]
                out@.contains(x) <==> old(out)@.contains(x) || exists|w: T| #[trigger]
                    self.stamped(a as int, w) && w.advanced(k as nat) == Some(x) by {
                if out@.contains(x) && !old(out)@.contains(x) {
                    if after_held.contains(x) {
                        let j = choose|j: int|
                            0 <= j < held@.len() && (#[trigger] held@[j]).advanced(k as nat)
                                == Some(x);
                        assert(held@.contains(held@[j]));
                        assert(self.stamped(a as int, held@[j]));
                    } else {
                        let (q, j) = choose|q: int, j: int|
                            0 <= q < self.nodes()[a as int].sources@.len() && 0 <= j < self.queue(
                                a as int,
                                q,
                            ).len() && self.leaves_at(
                                a as int,
                                (#[trigger] self.queue(a as int, q)[j]).time,
                                k,
                                x,
                            );
                        let w = self.queue(a as int, q)[j].time.advanced(summary as nat).unwrap();
                        assert(self.stamped(a as int, w));
                    }
                }
                if exists|w: T| #[trigger]
                    self.stamped(a as int, w) && w.advanced(k as nat) == Some(x) {
                    let w = choose|w: T| #[trigger]
                        self.stamped(a as int, w) && w.advanced(k as nat) == Some(x);
                    if self.held(a as int).count(w) > 0 {
                        assert(held@.contains(w));
                        let j = choose|j: int| 0 <= j < held@.len() && held@[j] == w;
                        assert(held@[j].advanced(k as nat) == Some(x));
                        assert(after_held.contains(x));
                    } else {
                        let (q, j) = choose|q: int, j: int|
                            self.has_input(a as int, q) && 0 <= j < self.queue(a as int, q).len() && (
                            #[trigger] self.queue(a as int, q)[j]).time.advanced(
                                self.nodes()[a as int].summary as nat,
                            ) == Some(w);
                        assert(self.leaves_at(a as int, self.queue(a as int, q)[j].time, k, x));
                    }
                }
            }
        }
    }

    /// The time that a batch which waits at `a` for the time `time` has `k`
    /// steps after it leaves `a`, if there is such a time.
    pub open spec fn leaving(&self, a: int, time: T, k: u128) -> Option<T> {
        match time.advanced(self.nodes()[a].summary as nat) {
            Some(w) => w.advanced(k as nat),
            None => None,
        }
    }

    /// A batch that waits at `a` for the time `time` has, `k` steps after it
    /// leaves `a`, the time `x`.
    pub open spec fn leaves_at(&self, a: int, time: T, k: u128, x: T) -> bool {
        self.leaving(a, time, k) == Some(x)
    }

    /// Adds to `times` every time at which a record that some operator may
    /// still put out comes out of the operator `u`.
    fn gather_output(&self, u: usize, times: &mut Vec<T>)
        requires
            self.wf(),
            u < self.nodes().len(),
        ensures
            forall|x: T| #[trigger]
                final(times)@.contains(x) <==> old(times)@.contains(x) || exists|b: int, w: T|
                    0 <= b < self.nodes().len() && #[trigger] self.stamped(b, w) && self.lands(
                        b,
                        w,
                        u as int,
                        x,
                    ),
    {
        let mut a: usize = 0;
        while a < self.topology.len()
            invariant
                self.wf(),
                u < self.nodes().len(),
                a <= self.nodes().len(),
                forall|x: T| #[trigger]
                    times@.contains(x) <==> old(times)@.contains(x) || exists|b: int, w: T|
                        0 <= b < a && #[trigger] self.stamped(b, w) && self.lands(b, w, u as int, x),
            decreases self.nodes().len() - a,
        {
            let ghost before = times@;
            let steps = self.topology.steps(a, u);
            if let Some(k) = steps {
                self.gather_emitted(a, k, times);
            }
            proof {
                assert forall|x: T| #[trigger]
                    times@.contains(x) <==> old(times)@.contains(x) || exists|b: int, w: T|
                        0 <= b < a + 1 && #[trigger] self.stamped(b, w) && self.lands(
                            b,
                            w,
                            u as int,
                            x,
                        ) by {
                    if times@.contains(x) && !old(times)@.contains(x) {
                        if before.contains(x) {
                            let (b, w) = choose|b: int, w: T|
                                0 <= b < a && #[trigger] self.stamped(b, w) && self.lands(
                                    b,
                                    w,
                                    u as int,
                                    x,
                                );
                            assert(0 <= b < a + 1);
                        } else {
                            let k = steps.unwrap();
                            let w = choose|w: T| #[trigger]
                                self.stamped(a as int, w) && w.advanced(k as nat) == Some(x);
                            assert(self.lands(a as int, w, u as int, x));
                        }
                    }
                    if exists|b: int, w: T|
                        0 <= b < a + 1 && #[trigger] self.stamped(b, w) && self.lands(
                            b,
                            w,
                            u as int,
                            x,
                        ) {
                        let (b, w) = choose|b: int, w: T|
                            0 <= b < a + 1 && #[trigger] self.stamped(b, w) && self.lands(
                                b,
                                w,
                                u as int,
                                x,
                            );
                        if b < a {
                            assert(before.contains(x));
                        } else {
                            let k = steps.unwrap();
                            assert(self.stamped(a as int, w) && w.advanced(k as nat) == Some(
                                x,
                            ));
                        }
                    }
                }
            }
            a += 1;
        }
    }

    /// The frontier of the output of an operator: the minimal times at
    /// which the operator may still put out records, because it holds a
    /// capability or because records are on their way to it. Empty where
    /// the graph has no such operator.
    pub fn output_frontier(&self, node: usize) -> (f: Antichain<T>)
        requires
            self.wf(),
        ensures
            f.wf(),
            forall|t: T| #[trigger]
                f.dominates(t) <==> 0 <= node < self.nodes().len() && self.may_emit(node as int, t),
    {
        let mut times: Vec<T> = Vec::new();
        if node < self.topology.len() {
            self.gather_output(node, &mut times);
        }
        let f = Antichain::from_times(&times);
        proof {
            assert forall|t: T| #[trigger]
                f.dominates(t) <==> 0 <= node < self.nodes().len() && self.may_emit(
                    node as int,
                    t,
                ) by {
                if f.dominates(t) {
                    let x = choose|x: T| times@.to_set().contains(x) && x.leq(t);
                    assert(times@.contains(x));
                    let (b, w) = choose|b: int, w: T|
                        0 <= b < self.nodes().len() && #[trigger] self.stamped(b, w) && self.lands(
                            b,
                            w,
                            node as int,
                            x,
                        );
                    assert(self.carried(b, w, node as int, t));
                }
                if 0 <= node < self.nodes().len() && self.may_emit(node as int, t) {
                    let (b, w) = choose|b: int, w: T|
                        0 <= b < self.nodes().len() && #[trigger] self.stamped(b, w)
                            && self.carried(b, w, node as int, t);
                    let k = self.topology().least(b, node as int).unwrap();
                    let x = w.advanced(k as nat).unwrap();
                    assert(self.lands(b, w, node as int, x));
                    assert(times@.contains(x));
                    assert(times@.to_set().contains(x));
                }
            }
        }
        f
    }

    /// The frontier of an input: the minimal times at which records may
    /// still arrive there. An input that the graph lacks is refused.
    pub fn frontier(&self, node: usize, input: usize) -> (r: Result<Antichain<T>, ProtocolViolation>)
        requires
            self.wf(),
        ensures
            r is Ok <==> self.has_input(node as int, input as int),
            match r {
                Ok(f) => f.wf() && forall|t: T| #[trigger]
                    f.dominates(t) <==> self.may_arrive(node as int, input as int, t),
                Err(e) => e == ProtocolViolation::UnknownEndpoint,
            },
    {
        if !self.knows(node, input) {
            return Err(ProtocolViolation::UnknownEndpoint);
        }
        let mut times: Vec<T> = Vec::new();
        self.gather_waiting(node, input, &mut times);
        let ghost waiting = times@;
        let source = self.topology.source(node, input);
        if let Some(u) = source {
            proof {
                self.topology.lemma_connected_within();
            }
            self.gather_output(u, &mut times);
        }
        let f = Antichain::from_times(&times);
        proof {
            let q = self.queue(node as int, input as int);
            assert forall|t: T| #[trigger]
                f.dominates(t) <==> self.may_arrive(node as int, input as int, t) by {
                if f.dominates(t) {
                    let x = choose|x: T| times@.to_set().contains(x) && x.leq(t);
                    assert(times@.contains(x));
                    if waiting.contains(x) {
                        let i = choose|i: int| 0 <= i < q.len() && (#[trigger] q[i]).time == x;
                        assert(q[i].time.leq(t));
                    } else {
                        let u = source.unwrap();
                        let (b, w) = choose|b: int, w: T|
                            0 <= b < self.nodes().len() && #[trigger] self.stamped(b, w)
                                && self.lands(b, w, u as int, x);
                        assert(self.carried(b, w, u as int, t));
                    }
                }
                if self.waits(node as int, input as int, t) {
                    let i = choose|i: int| 0 <= i < q.len() && (#[trigger] q[i]).time.leq(t);
                    assert(waiting.contains(q[i].time));
                    assert(times@.contains(q[i].time));
                    assert(times@.to_set().contains(q[i].time));
                } else if self.may_arrive(node as int, input as int, t) {
                    let u = source.unwrap();
                    let (b, w) = choose|b: int, w: T|
                        0 <= b < self.nodes().len() && #[trigger] self.stamped(b, w)
                            && self.carried(b, w, u as int, t);
                    let k = self.topology().least(b, u as int).unwrap();
                    let x = w.advanced(k as nat).unwrap();
                    assert(self.lands(b, w, u as int, x));
                    assert(times@.contains(x));
                    assert(times@.to_set().contains(x));
                }
            }
        }
        Ok(f)
    }

    /// A record that leaves `a` at the time `w` comes out of `u` at `x` on
    /// the shortest way.
    pub open spec fn lands(&self, a: int, w: T, u: int, x: T) -> bool {
        match self.topology().least(a, u) {
            Some(k) => w.advanced(k as nat) == Some(x),
            None => false,
        }
    }
}

impl<T: Timestamp, D> Worker<T, D> {
    /// `node` is an operator that the driving code runs.
    pub open spec fn drives(&self, node: int) -> bool {
        0 <= node < self.nodes().len() && self.nodes()[node].kind == Kind::Operator
    }

    /// `cap` is a live capability of one of the operators.
    pub open spec fn holds(&self, cap: &Capability<T>) -> bool {
        cap.owner() < self.nodes().len() && self.held(cap.owner() as int).count(cap.at()) > 0
    }

    /// The same batches wait at every input as in `other`, but perhaps at
    /// the one named.
    pub open spec fn same_queues_but(&self, other: &Worker<T, D>, node: int, input: int) -> bool {
        forall|b: int, p: int|
            self.has_input(b, p) && !(b == node && p == input) ==> #[trigger] self.queue(b, p)
                == other.queue(b, p)
    }

    /// The same capabilities are live at every operator as in `other`, but
    /// perhaps at the one named.
    pub open spec fn same_held_but(&self, other: &Worker<T, D>, node: int) -> bool {
        forall|a: int|
            0 <= a < self.nodes().len() && a != node ==> #[trigger] self.held(a) == other.held(a)
    }

    /// The same graph, the same batches and the same capabilities as in
    /// `other`.
    pub open spec fn unchanged_from(&self, other: &Worker<T, D>) -> bool {
        &&& self.topology() == other.topology()
        &&& self.peers() == other.peers()
        &&& forall|b: int, p: int|
            self.has_input(b, p) ==> #[trigger] self.queue(b, p) == other.queue(b, p)
        &&& forall|a: int| 0 <= a < self.nodes().len() ==> #[trigger] self.held(a) == other.held(a)
    }

    /// A state is an advance of itself.
    pub proof fn lemma_unchanged_is_advance(&self, other: &Worker<T, D>)
        requires
            self.unchanged_from(other),
        ensures
            self.advanced_from(other),
    {
        assert forall|node: int, input: int, t: T|
            self.has_input(node, input) && #[trigger] self.may_arrive(
                node,
                input,
                t,
            ) implies other.may_arrive(node, input, t) by {
            if self.waits(node, input, t) {
                assert(other.waits(node, input, t));
            } else {
                let u = self.nodes()[node].sources@[input].unwrap() as int;
                let (a, w) = choose|a: int, w: T|
                    0 <= a < self.nodes().len() && #[trigger] self.stamped(a, w) && self.carried(
                        a,
                        w,
                        u,
                        t,
                    );
                other.lemma_stamped_same(self, a, w);
                assert(other.carried(a, w, u, t));
            }
        }
        assert forall|node: int, t: T|
            0 <= node < self.nodes().len() && #[trigger] self.may_emit(
                node,
                t,
            ) implies other.may_emit(node, t) by {
            let (a, w) = choose|a: int, w: T|
                0 <= a < self.nodes().len() && #[trigger] self.stamped(a, w) && self.carried(
                    a,
                    w,
                    node,
                    t,
                );
            other.lemma_stamped_same(self, a, w);
            assert(other.carried(a, w, node, t));
        }
    }

    /// Where the same batches wait at `a` and the same capabilities are live
    /// there, `a` may put out records at the same times.
    pub proof fn lemma_stamped_same(&self, other: &Worker<T, D>, a: int, w: T)
        requires
            self.topology() == other.topology(),
            0 <= a < self.nodes().len(),
            self.held(a) == other.held(a),
            forall|p: int| self.has_input(a, p) ==> #[trigger] self.queue(a, p) == other.queue(a, p),
            other.stamped(a, w),
        ensures
            self.stamped(a, w),
    {
        if other.held(a).count(w) > 0 {
        } else {
            let (p, i) = choose|p: int, i: int|
                other.has_input(a, p) && 0 <= i < other.queue(a, p).len() && (
                #[trigger] other.queue(a, p)[i]).time.advanced(other.nodes()[a].summary as nat)
                    == Some(w);
            assert(self.queue(a, p)[i] == other.queue(a, p)[i]);
        }
    }

    /// What an operator may put out comes out, wherever it can, no earlier
    /// than it leaves: a time that the operator was expected to reach is
    /// itself expected.
    pub proof fn lemma_stamped_is_expected(&self, earlier: &Worker<T, D>, a: int, w: T)
        requires
            self.topology() == earlier.topology(),
            0 <= a < self.nodes().len(),
            earlier.stamped(a, w),
        ensures
            self.expected_in(earlier, a, w),
    {
        assert forall|u: int, t: T|
            0 <= u < self.nodes().len() && #[trigger] self.carried(
                a,
                w,
                u,
                t,
            ) implies earlier.may_emit(u, t) by {
            assert(earlier.carried(a, w, u, t));
        }
    }

    /// Takes the batch at the position `at` off an input, and issues a
    /// capability for the time at which the batch leaves the operator.
    fn pull(&mut self, node: usize, input: usize, at: usize) -> (pulled: Option<
        (Capability<T>, Vec<D>),
    >)
        requires
            old(self).wf(),
            old(self).has_input(node as int, input as int),
            at < old(self).queue(node as int, input as int).len(),
        ensures
            final(self).wf(),
            final(self).topology() == old(self).topology(),
            final(self).peers() == old(self).peers(),
            final(self).advanced_from(old(self)),
            final(self).same_queues_but(old(self), node as int, input as int),
            final(self).same_held_but(old(self), node as int),
            final(self).queue(node as int, input as int) == old(self).queue(
                node as int,
                input as int,
            ).remove(at as int),
            old(self).queue(node as int, input as int)[at as int].worker < old(self).peers(),
            match old(self).queue(node as int, input as int)[at as int].time.advanced(
                old(self).nodes()[node as int].summary as nat,
            ) {
                Some(w) => {
                    &&& pulled matches Some((cap, data))
                    &&& cap.at() == w
                    &&& cap.owner() == node
                    &&& data == old(self).queue(node as int, input as int)[at as int].data
                    &&& final(self).held(node as int) == old(self).held(node as int).insert(w)
                },
                None => pulled is None && final(self).held(node as int) == old(self).held(
                    node as int,
                ),
            },
    {
        let ghost queue = self.queue(node as int, input as int);
        assert(self.queues@[node as int]@[input as int]@[at as int].worker < self.peers);
        let message = self.queues[node][input].remove(at);
        let summary = self.topology.summary(node);
        proof {
            assert(self.queue(node as int, input as int) == queue.remove(at as int));
            assert forall|b: int, p: int|
                self.has_input(b, p) && !(b == node && p == input) implies #[trigger] self.queue(
                    b,
                    p,
                ) == old(self).queue(b, p) by {}
        }
        let pulled = match message.time.advance_by(summary as u128) {
            Some(w) => {
                let cap = self.ledgers[node].issue(w);
                Some((cap, message.data))
            },
            None => None,
        };
        proof {
            let removed = queue[at as int];
            assert forall|b: int, p: int, j: int|
                self.has_input(b, p) && 0 <= j < self.queue(b, p).len() implies old(
                    self,
                ).may_arrive(b, p, (#[trigger] self.queue(b, p)[j]).time) by {
                let m = self.queue(b, p)[j];
                T::leq_reflexive(m.time);
                if b == node && p == input {
                    if j < at {
                        assert(queue[j] == m);
                    } else {
                        assert(queue[j + 1] == m);
                    }
                } else {
                    assert(old(self).queue(b, p)[j] == m);
                }
                assert(old(self).waits(b, p, m.time));
            }
            assert forall|a: int, w: T|
                0 <= a < self.nodes().len() && #[trigger] self.stamped(
                    a,
                    w,
                ) implies self.expected_in(old(self), a, w) by {
                if self.held(a).count(w) > 0 {
                    if a == node && old(self).held(a).count(w) == 0 {
                        assert(removed.time.advanced(summary as nat) == Some(w));
                        assert(old(self).queue(a, input as int)[at as int] == removed);
                    }
                    assert(old(self).stamped(a, w));
                } else {
                    let (p, j) = choose|p: int, j: int|
                        self.has_input(a, p) && 0 <= j < self.queue(a, p).len() && (
                        #[trigger] self.queue(a, p)[j]).time.advanced(
                            self.nodes()[a].summary as nat,
                        ) == Some(w);
                    let m = self.queue(a, p)[j];
                    if a == node && p == input {
                        if j < at {
                            assert(queue[j] == m);
                        } else {
                            assert(queue[j + 1] == m);
                        }
                    } else {
                        assert(old(self).queue(a, p)[j] == m);
                    }
                    assert(old(self).stamped(a, w));
                }
                self.lemma_stamped_is_expected(old(self), a, w);
            }
            self.lemma_advanced_from(old(self));
        }
        pulled
    }

    /// Takes the oldest batch for the instance `worker` off an input of an
    /// operator that the driving code runs. With the batch comes a
    /// capability for the time of the batch, live at the output of the
    /// operator: the permission to send what is made of the batch. Refused
    /// are inputs that the graph lacks, and the inputs of operators that the
    /// worker runs itself.
    pub fn next(&mut self, node: usize, input: usize, worker: usize) -> (r: Result<
        Option<(Capability<T>, Vec<D>)>,
        ProtocolViolation,
    >)
        requires
            old(self).wf(),
        ensures
            final(self).wf(),
            final(self).topology() == old(self).topology(),
            final(self).peers() == old(self).peers(),
            final(self).advanced_from(old(self)),
            r is Ok <==> old(self).driven_input(node as int, input as int),
            match r {
                Err(e) => e == ProtocolViolation::UnknownEndpoint && final(self).unchanged_from(
                    old(self),
                ),
                Ok(pulled) => {
                    &&& final(self).same_queues_but(old(self), node as int, input as int)
                    &&& final(self).same_held_but(old(self), node as int)
                    &&& match first_for(old(self).queue(node as int, input as int), worker) {
                        None => {
                            &&& pulled is None
                            &&& final(self).queue(node as int, input as int) == old(self).queue(
                                node as int,
                                input as int,
                            )
                            &&& final(self).held(node as int) == old(self).held(node as int)
                        },
                        Some(i) => {
                            let message = old(self).queue(node as int, input as int)[i];
                            &&& final(self).queue(node as int, input as int) == old(self).queue(
                                node as int,
                                input as int,
                            ).remove(i)
                            &&& pulled matches Some((cap, data))
                            &&& cap.at() == message.time
                            &&& cap.owner() == node
                            &&& data == message.data
                            &&& final(self).held(node as int) == old(self).held(
                                node as int,
                            ).insert(message.time)
                        },
                    }
                },
            },
    {
        if !self.knows(node, input) {
            proof {
                self.lemma_unchanged_is_advance(old(self));
            }
            return Err(ProtocolViolation::UnknownEndpoint);
        }
        match self.topology.kind(node) {
            Kind::Operator => {},
            _ => {
                proof {
                    self.lemma_unchanged_is_advance(old(self));
                }
                return Err(ProtocolViolation::UnknownEndpoint);
            },
        }
        proof {
            self.topology.lemma_connected_within();
            assert(self.nodes()[node as int].summary == 0);
            assert forall|k: int| 0 <= k < self.queue(node as int, input as int).len() implies (
            #[trigger] self.queue(node as int, input as int)[k]).time.advanced(0) == Some(
                self.queue(node as int, input as int)[k].time,
            ) by {
                T::advanced_zero(self.queue(node as int, input as int)[k].time);
            }
        }
        let ghost queue = self.queue(node as int, input as int);
        let mut i: usize = 0;
        let mut found: Option<usize> = None;
        while i < self.queues[node][input].len()
            invariant_except_break
                found is None,
            invariant
                self.wf(),
                *self == *old(self),
                self.has_input(node as int, input as int),
                queue == self.queue(node as int, input as int),
                i <= queue.len(),
                forall|k: int| 0 <= k < i ==> (#[trigger] queue[k]).worker != worker,
            ensures
                i <= queue.len(),
                match found {
                    Some(at) => at == i && i < queue.len() && queue[i as int].worker == worker,
                    None => i == queue.len(),
                },
                forall|k: int| 0 <= k < i ==> (#[trigger] queue[k]).worker != worker,
            decreases queue.len() - i,
        {
            if self.queues[node][input][i].worker == worker {
                found = Some(i);
                break;
            }
            i += 1;
        }
        proof {
            first_for_finds(queue, worker);
            match first_for(queue, worker) {
                Some(at) => {
                    assert(queue[at].worker == worker);
                    if found is Some {
                        assert(queue[i as int].worker == worker);
                    }
                },
                None => {
                    if found is Some {
                        assert(queue[i as int].worker == worker);
                    }
                },
            }
        }
        match found {
            None => {
                proof {
                    self.lemma_unchanged_is_advance(old(self));
                }
                Ok(None)
            },
            Some(at) => Ok(self.pull(node, input, at)),
        }
    }
}

/// `after` is `before` with one more batch at its end: the batch is for the
/// time `time` and the instance `target`, and holds a clone of each record.
pub open spec fn delivered_to<T, D: Clone>(
    before: Seq<Message<T, D>>,
    after: Seq<Message<T, D>>,
    time: T,
    target: usize,
    records: Seq<D>,
) -> bool {
    &&& after.len() == before.len() + 1
    &&& after.drop_last() == before
    &&& after.last().time == time
    &&& after.last().worker == target
    &&& copy_of(records, after.last().data@)
}

impl<T: Timestamp, D: Clone> Worker<T, D> {
    /// A record that is sent under a capability was expected wherever it
    /// can come out: the capability `s` of `owner` covers the time `time`,
    /// the record goes to an input of `a`, leaves `a` at `w`, and comes out
    /// of `u` at or before `t`.
    proof fn lemma_sent_was_expected(&self, owner: int, s: T, a: int, time: T, w: T, u: int, t: T)
        requires
            self.wf(),
            0 <= owner < self.nodes().len(),
            0 <= u < self.nodes().len(),
            self.stamped(owner, s),
            s.leq(time),
            edge(self.nodes(), owner, a),
            time.advanced(self.nodes()[a].summary as nat) == Some(w),
            self.carried(a, w, u, t),
        ensures
            self.may_emit(u, t),
    {
        let sigma = self.nodes()[a].summary as nat;
        let k = self.topology().least(a, u).unwrap() as nat;
        let y = w.advanced(k).unwrap();
        T::advanced_splits(time, sigma, k);
        assert(time.advanced(sigma + k) == Some(y));
        if sigma + k > u128::MAX {
            T::advanced_is_bounded(time, sigma + k);
        }
        self.topology().lemma_least_through(owner, a, u);
        let j = self.topology().least(owner, u).unwrap() as nat;
        T::advanced_monotone(s, time, sigma + k);
        let y1 = s.advanced(sigma + k).unwrap();
        advanced_fewer_steps(s, j, (sigma + k - j) as nat);
        let z = s.advanced(j).unwrap();
        T::leq_transitive(z, y1, y);
        T::leq_transitive(z, y, t);
        assert(self.carried(owner, s, u, t));
    }

    /// Sends `records` at the time `time` to the instance `target` of every
    /// operator that consumes the output of the owner of `cap`. The
    /// capability must be live and for a time at or before `time`: it is the
    /// permission to send. Every consumer receives its own clone of the
    /// records, as one batch at the end of its input.
    pub fn give(&mut self, cap: &Capability<T>, time: T, target: usize, records: Vec<D>) -> (r:
        Result<(), ProtocolViolation>)
        requires
            old(self).wf(),
        ensures
            final(self).wf(),
            final(self).topology() == old(self).topology(),
            final(self).peers() == old(self).peers(),
            final(self).advanced_from(old(self)),
            r is Ok <==> old(self).holds(cap) && cap.at().leq(time) && target < old(self).peers(),
            match r {
                Ok(_) => {
                    &&& final(self).same_held_but(old(self), -1)
                    &&& forall|b: int, p: int|
                        old(self).has_input(b, p) ==> if old(self).nodes()[b].sources@[p] == Some(
                            cap.owner(),
                        ) {
                            delivered_to(
                                old(self).queue(b, p),
                                #[trigger] final(self).queue(b, p),
                                time,
                                target,
                                records@,
                            )
                        } else {
                            final(self).queue(b, p) == old(self).queue(b, p)
                        }
                },
                Err(e) => {
                    &&& final(self).unchanged_from(old(self))
                    &&& e == if !old(self).holds(cap) {
                        ProtocolViolation::UnknownCapability
                    } else if !cap.at().leq(time) {
                        ProtocolViolation::TimeNotCovered
                    } else {
                        ProtocolViolation::UnknownEndpoint
                    }
                },
            },
    {
        let owner = cap.output();
        let at = cap.time();
        if owner >= self.topology.len() || self.ledgers[owner].count(&at) == 0 {
            proof {
                self.lemma_unchanged_is_advance(old(self));
            }
            return Err(ProtocolViolation::UnknownCapability);
        }
        if !at.less_equal(&time) {
            proof {
                self.lemma_unchanged_is_advance(old(self));
            }
            return Err(ProtocolViolation::TimeNotCovered);
        }
        if target >= self.peers {
            proof {
                self.lemma_unchanged_is_advance(old(self));
            }
            return Err(ProtocolViolation::UnknownEndpoint);
        }
        let mut b: usize = 0;
        while b < self.queues.len()
            invariant
                self.wf(),
                self.topology == old(self).topology,
                self.peers == old(self).peers,
                self.ledgers == old(self).ledgers,
                target < self.peers,
                b <= self.nodes().len(),
                forall|c: int, p: int|
                    self.has_input(c, p) && c >= b ==> #[trigger] self.queue(c, p) == old(
                        self,
                    ).queue(c, p),
                forall|c: int, p: int|
                    self.has_input(c, p) && c < b ==> if self.nodes()[c].sources@[p] == Some(
                        owner,
                    ) {
                        delivered_to(
                            old(self).queue(c, p),
                            #[trigger] self.queue(c, p),
                            time,
                            target,
                            records@,
                        )
                    } else {
                        self.queue(c, p) == old(self).queue(c, p)
                    },
            decreases self.nodes().len() - b,
        {
            let mut p: usize = 0;
            while p < self.queues[b].len()
                invariant
                    self.wf(),
                    self.topology == old(self).topology,
                    self.peers == old(self).peers,
                    self.ledgers == old(self).ledgers,
                    target < self.peers,
                    b < self.nodes().len(),
                    p <= self.nodes()[b as int].sources@.len(),
                    forall|c: int, q: int|
                        self.has_input(c, q) && (c > b || (c == b && q >= p))
                            ==> #[trigger] self.queue(c, q) == old(self).queue(c, q),
                    forall|c: int, q: int|
                        self.has_input(c, q) && (c < b || (c == b && q < p)) ==> if self.nodes()[c].sources@[q]
                            == Some(owner) {
                            delivered_to(
                                old(self).queue(c, q),
                                #[trigger] self.queue(c, q),
                                time,
                                target,
                                records@,
                            )
                        } else {
                            self.queue(c, q) == old(self).queue(c, q)
                        },
                decreases self.nodes()[b as int].sources@.len() - p,
            {
                let feeds = match self.topology.source(b, p) {
                    Some(u) => u == owner,
                    None => false,
                };
                if feeds {
                    let ghost before = *self;
                    let data = records.clone();
                    self.queues[b][p].push(Message { time, worker: target, data });
                    proof {
                        assert(self.queue(b as int, p as int) == before.queue(
                            b as int,
                            p as int,
                        ).push(Message { time, worker: target, data }));
                        assert(self.queue(b as int, p as int).drop_last() =~= before.queue(
                            b as int,
                            p as int,
                        ));
                        assert forall|c: int, q: int|
                            self.has_input(c, q) && !(c == b && q == p) implies #[trigger] self.queue(
                                c,
                                q,
                            ) == before.queue(c, q) by {}
                        assert forall|c: int, q: int, i: int|
                            0 <= c < self.queues@.len() && 0 <= q < self.queues@[c]@.len() && 0
                                <= i < self.queues@[c]@[q]@.len() implies (
                        #[trigger] self.queues@[c]@[q]@[i]).worker < self.peers by {
                            if c == b && q == p {
                                if i < before.queue(c, q).len() {
                                    assert(self.queue(c, q)[i] == before.queue(c, q)[i]);
                                    assert(before.queues@[c]@[q]@[i].worker < before.peers);
                                }
                            } else {
                                assert(self.queue(c, q) == before.queue(c, q));
                                assert(before.queues@[c]@[q]@[i].worker < before.peers);
                            }
                        }
                    }
                }
                p += 1;
            }
            b += 1;
        }
        proof {
            let s = cap.at();
            assert(old(self).stamped(owner as int, s));
            assert forall|a: int| 0 <= a < self.nodes().len() implies #[trigger] self.held(a) == old(
                self,
            ).held(a) by {}
            assert forall|c: int, p: int, j: int|
                self.has_input(c, p) && 0 <= j < self.queue(c, p).len() implies old(
                self,
            ).may_arrive(c, p, (#[trigger] self.queue(c, p)[j]).time) by {
                let m = self.queue(c, p)[j];
                T::leq_reflexive(m.time);
                if j < old(self).queue(c, p).len() {
                    if self.nodes()[c].sources@[p] == Some(owner) {
                        assert(self.queue(c, p).drop_last()[j] == m);
                    }
                    assert(old(self).queue(c, p)[j] == m);
                    assert(old(self).waits(c, p, m.time));
                } else {
                    assert(self.nodes()[c].sources@[p] == Some(owner));
                    assert(m.time == time);
                    old(self).topology().lemma_least_to_self(owner as int);
                    T::advanced_zero(s);
                    assert(old(self).carried(owner as int, s, owner as int, time));
                    assert(old(self).may_emit(owner as int, time));
                }
            }
            assert forall|a: int, w: T|
                0 <= a < self.nodes().len() && #[trigger] self.stamped(
                    a,
                    w,
                ) implies self.expected_in(old(self), a, w) by {
                if self.held(a).count(w) > 0 {
                    assert(old(self).stamped(a, w));
                    self.lemma_stamped_is_expected(old(self), a, w);
                } else {
                    let (p, j) = choose|p: int, j: int|
                        self.has_input(a, p) && 0 <= j < self.queue(a, p).len() && (
                        #[trigger] self.queue(a, p)[j]).time.advanced(
                            self.nodes()[a].summary as nat,
                        ) == Some(w);
                    let m = self.queue(a, p)[j];
                    if j < old(self).queue(a, p).len() {
                        if self.nodes()[a].sources@[p] == Some(owner) {
                            assert(self.queue(a, p).drop_last()[j] == m);
                        }
                        assert(old(self).queue(a, p)[j] == m);
                        assert(old(self).stamped(a, w));
                        self.lemma_stamped_is_expected(old(self), a, w);
                    } else {
                        assert(self.nodes()[a].sources@[p] == Some(owner));
                        assert(m.time == time);
                        assert(edge(self.nodes(), owner as int, a));
                        assert forall|u: int, t: T|
                            0 <= u < self.nodes().len() && #[trigger] self.carried(
                                a,
                                w,
                                u,
                                t,
                            ) implies old(self).may_emit(u, t) by {
                            old(self).lemma_sent_was_expected(owner as int, s, a, time, w, u, t);
                        }
                    }
                }
            }
            self.lemma_advanced_from(old(self));
        }
        Ok(())
    }
}

impl<T: Timestamp, D> Worker<T, D> {
    /// No frontier goes back where the same batches wait as before and every
    /// capability that is live is for a time at or after one for which the
    /// same operator held a capability before.
    proof fn lemma_capabilities_only_advance(&self, earlier: &Worker<T, D>)
        requires
            self.wf(),
            self.topology() == earlier.topology(),
            forall|b: int, p: int|
                self.has_input(b, p) ==> #[trigger] self.queue(b, p) == earlier.queue(b, p),
            forall|a: int, w: T|
                0 <= a < self.nodes().len() && #[trigger] self.held(a).count(w) > 0 ==> exists|s: T|
                    #[trigger] earlier.held(a).count(s) > 0 && s.leq(w),
        ensures
            self.advanced_from(earlier),
    {
        assert forall|b: int, p: int, j: int|
            self.has_input(b, p) && 0 <= j < self.queue(b, p).len() implies earlier.may_arrive(
            b,
            p,
            (#[trigger] self.queue(b, p)[j]).time,
        ) by {
            let m = self.queue(b, p)[j];
            T::leq_reflexive(m.time);
            assert(earlier.queue(b, p)[j] == m);
            assert(earlier.waits(b, p, m.time));
        }
        assert forall|a: int, w: T|
            0 <= a < self.nodes().len() && #[trigger] self.stamped(a, w) implies self.expected_in(
            earlier,
            a,
            w,
        ) by {
            if self.held(a).count(w) > 0 {
                let s = choose|s: T| #[trigger] earlier.held(a).count(s) > 0 && s.leq(w);
                assert(earlier.stamped(a, s));
                assert forall|u: int, t: T|
                    0 <= u < self.nodes().len() && #[trigger] self.carried(
                        a,
                        w,
                        u,
                        t,
                    ) implies earlier.may_emit(u, t) by {
                    let k = self.topology().least(a, u).unwrap() as nat;
                    T::advanced_monotone(s, w, k);
                    T::leq_transitive(s.advanced(k).unwrap(), w.advanced(k).unwrap(), t);
                    assert(earlier.carried(a, s, u, t));
                }
            } else {
                let (p, j) = choose|p: int, j: int|
                    self.has_input(a, p) && 0 <= j < self.queue(a, p).len() && (
                    #[trigger] self.queue(a, p)[j]).time.advanced(self.nodes()[a].summary as nat)
                        == Some(w);
                assert(earlier.queue(a, p)[j] == self.queue(a, p)[j]);
                assert(earlier.stamped(a, w));
                self.lemma_stamped_is_expected(earlier, a, w);
            }
        }
        self.lemma_advanced_from(earlier);
    }

    /// Clones a live capability: one more copy for the same time.
    pub fn clone_capability(&mut self, cap: &Capability<T>) -> (r: Result<
        Capability<T>,
        ProtocolViolation,
    >)
        requires
            old(self).wf(),
        ensures
            final(self).wf(),
            final(self).topology() == old(self).topology(),
            final(self).peers() == old(self).peers(),
            final(self).advanced_from(old(self)),
            r is Ok <==> old(self).holds(cap),
            final(self).same_queues_but(old(self), -1, -1),
            match r {
                Ok(copy) => {
                    &&& copy.at() == cap.at()
                    &&& copy.owner() == cap.owner()
                    &&& final(self).same_held_but(old(self), cap.owner() as int)
                    &&& final(self).held(cap.owner() as int) == applied(
                        old(self).held(cap.owner() as int),
                        CapabilityEvent::Clone(cap.at()),
                    )
                },
                Err(e) => e == ProtocolViolation::UnknownCapability && final(self).unchanged_from(
                    old(self),
                ),
            },
    {
        let owner = cap.output();
        if owner >= self.topology.len() {
            proof {
                self.lemma_unchanged_is_advance(old(self));
            }
            return Err(ProtocolViolation::UnknownCapability);
        }
        let r = self.ledgers[owner].clone_capability(cap);
        proof {
            assert forall|b: int, p: int| self.has_input(b, p) implies #[trigger] self.queue(b, p)
                == old(self).queue(b, p) by {}
            if r is Ok {
                assert forall|a: int, w: T|
                    0 <= a < self.nodes().len() && #[trigger] self.held(a).count(w)
                        > 0 implies exists|s: T|
                    #[trigger] old(self).held(a).count(s) > 0 && s.leq(w) by {
                    T::leq_reflexive(w);
                    assert(old(self).held(a).count(w) > 0);
                }
                self.lemma_capabilities_only_advance(old(self));
            } else {
                assert forall|a: int| 0 <= a < self.nodes().len() implies #[trigger] self.held(a)
                    == old(self).held(a) by {}
                self.lemma_unchanged_is_advance(old(self));
            }
        }
        r
    }

    /// Downgrades a live capability to `time`, which must be at or after its
    /// own time. From then on the owner can no longer send before `time`
    /// under this capability.
    pub fn downgrade(&mut self, cap: &mut Capability<T>, time: T) -> (r: Result<
        (),
        ProtocolViolation,
    >)
        requires
            old(self).wf(),
        ensures
            final(self).wf(),
            final(self).topology() == old(self).topology(),
            final(self).peers() == old(self).peers(),
            final(self).advanced_from(old(self)),
            final(cap).owner() == old(cap).owner(),
            r is Ok <==> old(self).holds(old(cap)) && old(cap).at().leq(time),
            final(self).same_queues_but(old(self), -1, -1),
            match r {
                Ok(_) => {
                    &&& final(cap).at() == time
                    &&& final(self).same_held_but(old(self), old(cap).owner() as int)
                    &&& final(self).held(old(cap).owner() as int) == applied(
                        old(self).held(old(cap).owner() as int),
                        CapabilityEvent::Downgrade(old(cap).at(), time),
                    )
                },
                Err(e) => {
                    &&& final(cap).at() == old(cap).at()
                    &&& final(self).unchanged_from(old(self))
                    &&& e == if old(self).holds(old(cap)) {
                        ProtocolViolation::DowngradeBackward
                    } else {
                        ProtocolViolation::UnknownCapability
                    }
                },
            },
    {
        let owner = cap.output();
        if owner >= self.topology.len() {
            proof {
                self.lemma_unchanged_is_advance(old(self));
            }
            return Err(ProtocolViolation::UnknownCapability);
        }
        let ghost was = cap.at();
        let r = self.ledgers[owner].downgrade(cap, time);
        proof {
            assert forall|b: int, p: int| self.has_input(b, p) implies #[trigger] self.queue(b, p)
                == old(self).queue(b, p) by {}
            if r is Ok {
                assert forall|a: int, w: T|
                    0 <= a < self.nodes().len() && #[trigger] self.held(a).count(w)
                        > 0 implies exists|s: T|
                    #[trigger] old(self).held(a).count(s) > 0 && s.leq(w) by {
                    T::leq_reflexive(w);
                    if a == owner && w == time && old(self).held(a).count(w) == 0 {
                        assert(old(self).held(a).count(was) > 0 && was.leq(w));
                    } else {
                        assert(old(self).held(a).count(w) > 0);
                    }
                }
                self.lemma_capabilities_only_advance(old(self));
            } else {
                assert forall|a: int| 0 <= a < self.nodes().len() implies #[trigger] self.held(a)
                    == old(self).held(a) by {}
                self.lemma_unchanged_is_advance(old(self));
            }
        }
        r
    }

    /// Takes back a live capability. Once the last capability at or before a
    /// time is gone, and no batch waits that could lead to it, the time
    /// leaves every frontier downstream.
    pub fn release(&mut self, cap: Capability<T>) -> (r: Result<(), ProtocolViolation>)
        requires
            old(self).wf(),
        ensures
            final(self).wf(),
            final(self).topology() == old(self).topology(),
            final(self).peers() == old(self).peers(),
            final(self).advanced_from(old(self)),
            r is Ok <==> old(self).holds(&cap),
            final(self).same_queues_but(old(self), -1, -1),
            match r {
                Ok(_) => {
                    &&& final(self).same_held_but(old(self), cap.owner() as int)
                    &&& final(self).held(cap.owner() as int) == applied(
                        old(self).held(cap.owner() as int),
                        CapabilityEvent::Drop(cap.at()),
                    )
                },
                Err(e) => e == ProtocolViolation::UnknownCapability && final(self).unchanged_from(
                    old(self),
                ),
            },
    {
        let owner = cap.output();
        if owner >= self.topology.len() {
            proof {
                self.lemma_unchanged_is_advance(old(self));
            }
            return Err(ProtocolViolation::UnknownCapability);
        }
        let r = self.ledgers[owner].release(cap);
        proof {
            assert forall|b: int, p: int| self.has_input(b, p) implies #[trigger] self.queue(b, p)
                == old(self).queue(b, p) by {}
            if r is Ok {
                assert forall|a: int, w: T|
                    0 <= a < self.nodes().len() && #[trigger] self.held(a).count(w)
                        > 0 implies exists|s: T|
                    #[trigger] old(self).held(a).count(s) > 0 && s.leq(w) by {
                    T::leq_reflexive(w);
                    assert(old(self).held(a).count(w) > 0);
                }
                self.lemma_capabilities_only_advance(old(self));
            } else {
                assert forall|a: int| 0 <= a < self.nodes().len() implies #[trigger] self.held(a)
                    == old(self).held(a) by {}
                self.lemma_unchanged_is_advance(old(self));
            }
        }
        r
    }
}

/// The input named by `m` comes before the input `(node, input)` in the
/// order in which a pass visits the inputs: operator by operator, and the
/// inputs of one operator in turn.
pub open spec fn lies_before(m: (int, int), node: int, input: int) -> bool {
    m.0 < node || (m.0 == node && m.1 < input)
}

/// How many of `moves` are at the input `(node, input)`.
pub open spec fn moves_at(moves: Seq<(int, int)>, node: int, input: int) -> nat
    decreases moves.len(),
{
    if moves.len() == 0 {
        0
    } else {
        moves_at(moves.drop_last(), node, input) + (if moves.last() == (node, input) {
            1nat
        } else {
            0nat
        })
    }
}

/// How many of `moves` are at inputs that come before `(node, input)`.
pub open spec fn moves_before(moves: Seq<(int, int)>, node: int, input: int) -> nat
    decreases moves.len(),
{
    if moves.len() == 0 {
        0
    } else {
        moves_before(moves.drop_last(), node, input) + (if lies_before(moves.last(), node, input) {
            1nat
        } else {
            0nat
        })
    }
}

/// The moves come input by input: none is at an input that comes before
/// the input of an earlier move.
pub open spec fn in_order(moves: Seq<(int, int)>) -> bool {
    forall|i: int, j: int|
        0 <= i < j < moves.len() ==> !lies_before(
            #[trigger] moves[j],
            (#[trigger] moves[i]).0,
            moves[i].1,
        )
}

/// No more moves are counted than there are.
pub proof fn lemma_moves_counted(moves: Seq<(int, int)>, node: int, input: int)
    ensures
        moves_at(moves, node, input) <= moves.len(),
        moves_before(moves, node, input) <= moves.len(),
    decreases moves.len(),
{
    if moves.len() > 0 {
        lemma_moves_counted(moves.drop_last(), node, input);
    }
}

/// Where all but the last `done` moves are at inputs before `(node, input)`
/// and the last `done` are at that input, `done` moves are at it and all
/// the others before it.
pub proof fn lemma_moves_at_the_end(moves: Seq<(int, int)>, node: int, input: int, done: nat)
    requires
        done <= moves.len(),
        forall|i: int| 0 <= i < moves.len() - done ==> lies_before(#[trigger] moves[i], node, input),
        forall|i: int| moves.len() - done <= i < moves.len() ==> #[trigger] moves[i] == (node, input),
    ensures
        moves_at(moves, node, input) == done,
        moves_before(moves, node, input) == moves.len() - done,
    decreases moves.len(),
{
    if moves.len() > 0 {
        let shorter = moves.drop_last();
        let last = moves[moves.len() - 1];
        if done > 0 {
            assert(last == (node, input));
            assert forall|i: int| 0 <= i < shorter.len() - (done - 1) implies lies_before(
                #[trigger] shorter[i],
                node,
                input,
            ) by {
                assert(shorter[i] == moves[i]);
            }
            assert forall|i: int|
                shorter.len() - (done - 1) <= i < shorter.len() implies #[trigger] shorter[i] == (
                node,
                input,
            ) by {
                assert(shorter[i] == moves[i]);
            }
            lemma_moves_at_the_end(shorter, node, input, (done - 1) as nat);
        } else {
            assert(lies_before(last, node, input));
            assert forall|i: int| 0 <= i < shorter.len() implies lies_before(
                #[trigger] shorter[i],
                node,
                input,
            ) by {
                assert(shorter[i] == moves[i]);
            }
            lemma_moves_at_the_end(shorter, node, input, 0);
        }
    }
}

/// A pass as far as it has come: `states` and `moves` lead from `start` to
/// `now`, all but the last `done` moves are at inputs before `(b, p)` and the
/// last `done` at `(b, p)`, and every input before `(b, p)` has been visited.
#[verifier::opaque]
spec fn passing<T: Timestamp, D: Clone>(
    start: &Worker<T, D>,
    now: &Worker<T, D>,
    states: Seq<Worker<T, D>>,
    moves: Seq<(int, int)>,
    b: int,
    p: int,
    done: nat,
) -> bool {
    &&& states.len() == moves.len() + 1
    &&& states[0] == *start
    &&& states[moves.len() as int] == *now
    &&& forall|i: int| 0 <= i <= moves.len() ==> (#[trigger] states[i]).topology() == start.topology()
    &&& forall|i: int|
        0 <= i < moves.len() ==> (#[trigger] states[i]).one_move(
            &states[i + 1],
            moves[i].0,
            moves[i].1,
        )
    &&& in_order(moves)
    &&& done <= moves.len()
    &&& forall|i: int| 0 <= i < moves.len() - done ==> lies_before(#[trigger] moves[i], b, p)
    &&& forall|i: int| moves.len() - done <= i < moves.len() ==> #[trigger] moves[i] == (b, p)
    &&& forall|c: int, q: int|
        start.run_by_worker(c, q) && lies_before((c, q), b, p) ==> start.visited(
            states,
            moves,
            c,
            q,
        )
    &&& forall|c: int, q: int|
        start.run_by_worker(c, q) ==> (#[trigger] now.queue(c, q)).len() + moves_at(moves, c, q)
            >= start.queue(c, q).len()
}

/// A pass that has not begun.
proof fn lemma_pass_begins<T: Timestamp, D: Clone>(start: &Worker<T, D>)
    ensures
        passing(start, start, seq![*start], Seq::empty(), 0, 0, 0),
{
    reveal(passing);
}

/// One more move at the input that the pass is visiting.
proof fn lemma_pass_moves<T: Timestamp, D: Clone>(
    start: &Worker<T, D>,
    now: &Worker<T, D>,
    next: &Worker<T, D>,
    states: Seq<Worker<T, D>>,
    moves: Seq<(int, int)>,
    b: int,
    p: int,
    done: nat,
)
    requires
        passing(start, now, states, moves, b, p, done),
        now.one_move(next, b, p),
    ensures
        passing(start, next, states.push(*next), moves.push((b, p)), b, p, done + 1),
{
    reveal(passing);
    let longer = moves.push((b, p));
    let later = states.push(*next);
    assert(longer.drop_last() =~= moves);
    assert forall|i: int| 0 <= i <= longer.len() implies (#[trigger] later[i]).topology()
        == start.topology() by {
        if i <= moves.len() {
            assert(later[i] == states[i]);
        } else {
            assert(states[moves.len() as int].topology() == start.topology());
        }
    }
    assert forall|i: int| 0 <= i < longer.len() implies (#[trigger] later[i]).one_move(
        &later[i + 1],
        longer[i].0,
        longer[i].1,
    ) by {
        if i < moves.len() {
            assert(later[i] == states[i]);
            assert(later[i + 1] == states[i + 1]);
            assert(states[i].one_move(&states[i + 1], moves[i].0, moves[i].1));
        }
    }
    assert forall|c: int, q: int|
        start.run_by_worker(c, q) && lies_before((c, q), b, p) implies start.visited(
        later,
        longer,
        c,
        q,
    ) by {
        assert(start.visited(states, moves, c, q));
        lemma_moves_counted(moves, c, q);
        assert(later[moves_before(moves, c, q) as int] == states[moves_before(moves, c, q) as int]);
    }
    assert forall|c: int, q: int| start.run_by_worker(c, q) implies (#[trigger] next.queue(
        c,
        q,
    )).len() + moves_at(longer, c, q) >= start.queue(c, q).len() by {
        assert(now.queue(c, q).len() + moves_at(moves, c, q) >= start.queue(c, q).len());
        assert(now.moved_on(next, b, p));
        assert(now.has_input(c, q));
    }
}

/// The pass has come to an input: as many batches wait there as when the
/// pass began, or more.
proof fn lemma_pass_comes_to<T: Timestamp, D: Clone>(
    start: &Worker<T, D>,
    now: &Worker<T, D>,
    states: Seq<Worker<T, D>>,
    moves: Seq<(int, int)>,
    b: int,
    p: int,
)
    requires
        passing(start, now, states, moves, b, p, 0),
        start.run_by_worker(b, p),
    ensures
        now.queue(b, p).len() >= start.queue(b, p).len(),
{
    reveal(passing);
    lemma_moves_at_the_end(moves, b, p, 0);
    assert(now.queue(b, p).len() + moves_at(moves, b, p) >= start.queue(b, p).len());
}

/// The pass leaves an input at which it has moved as many batches as waited
/// there when it came.
proof fn lemma_pass_leaves<T: Timestamp, D: Clone>(
    start: &Worker<T, D>,
    now: &Worker<T, D>,
    states: Seq<Worker<T, D>>,
    moves: Seq<(int, int)>,
    b: int,
    p: int,
    done: nat,
)
    requires
        passing(start, now, states, moves, b, p, done),
        done <= moves.len(),
        start.run_by_worker(b, p) ==> states[moves.len() - done].queue(b, p).len() == done && done
            >= start.queue(b, p).len(),
        !start.run_by_worker(b, p) ==> done == 0,
    ensures
        passing(start, now, states, moves, b, p + 1, 0),
{
    reveal(passing);
    lemma_moves_at_the_end(moves, b, p, done);
    assert forall|i: int| 0 <= i < moves.len() implies lies_before(#[trigger] moves[i], b, p + 1) by {
        if i < moves.len() - done {
            assert(lies_before(moves[i], b, p));
        } else {
            assert(moves[i] == (b, p));
        }
    }
    assert forall|c: int, q: int|
        start.run_by_worker(c, q) && lies_before((c, q), b, p + 1) implies start.visited(
        states,
        moves,
        c,
        q,
    ) by {
        if !lies_before((c, q), b, p) {
            assert(c == b && q == p);
        }
    }
}

/// The pass goes on to the next operator.
proof fn lemma_pass_goes_on<T: Timestamp, D: Clone>(
    start: &Worker<T, D>,
    now: &Worker<T, D>,
    states: Seq<Worker<T, D>>,
    moves: Seq<(int, int)>,
    b: int,
    p: int,
)
    requires
        passing(start, now, states, moves, b, p, 0),
        forall|q: int| start.run_by_worker(b, q) ==> q < p,
    ensures
        passing(start, now, states, moves, b + 1, 0, 0),
{
    reveal(passing);
    assert forall|i: int| 0 <= i < moves.len() implies lies_before(#[trigger] moves[i], b + 1, 0) by {
        assert(lies_before(moves[i], b, p));
    }
    assert forall|c: int, q: int|
        start.run_by_worker(c, q) && lies_before((c, q), b + 1, 0) implies start.visited(
        states,
        moves,
        c,
        q,
    ) by {
        assert(lies_before((c, q), b, p));
    }
}

/// The pass has visited every operator.
proof fn lemma_pass_ends<T: Timestamp, D: Clone>(
    start: &Worker<T, D>,
    now: &Worker<T, D>,
    states: Seq<Worker<T, D>>,
    moves: Seq<(int, int)>,
)
    requires
        passing(start, now, states, moves, start.nodes().len() as int, 0, 0),
    ensures
        start.passes_to(now, states, moves),
{
    reveal(passing);
}

impl<T: Timestamp, D: Clone> Worker<T, D> {
    /// The batches that wait at the input `(b, p)` once the oldest batch has
    /// been taken off the input `(node, input)`.
    pub open spec fn without_oldest(&self, node: int, input: int, b: int, p: int) -> Seq<
        Message<T, D>,
    > {
        if b == node && p == input {
            self.queue(b, p).remove(0)
        } else {
            self.queue(b, p)
        }
    }

    /// `later` is this state after the worker has moved the oldest batch of
    /// the input on: the batch is gone from its input. Where the operator
    /// passes batches on and the time of the batch can be moved forward by
    /// the summary of the operator, every consumer of the operator has
    /// received the records at that time, for the same instance.
    pub open spec fn moved_on(&self, later: &Worker<T, D>, node: int, input: int) -> bool {
        let oldest = self.queue(node, input)[0];
        let leaves = oldest.time.advanced(self.nodes()[node].summary as nat);
        forall|b: int, p: int|
            self.has_input(b, p) ==> if self.nodes()[node].kind == Kind::Forward && leaves is Some
                && self.nodes()[b].sources@[p] == Some(node as usize) {
                delivered_to(
                    self.without_oldest(node, input, b, p),
                    #[trigger] later.queue(b, p),
                    leaves.unwrap(),
                    oldest.worker,
                    oldest.data@,
                )
            } else {
                later.queue(b, p) == self.without_oldest(node, input, b, p)
            }
    }

    /// The input belongs to an operator that the worker runs, and is fed by
    /// an operator that comes before it in the graph: the input closes no
    /// loop.
    pub open spec fn fed_from_before(&self, node: int, input: int) -> bool {
        &&& self.has_input(node, input)
        &&& self.nodes()[node].kind != Kind::Operator
        &&& match self.nodes()[node].sources@[input] {
            Some(u) => u < node,
            None => false,
        }
    }

    /// Nothing waits at the inputs before `(node, input)` that are fed from
    /// before and belong to operators that the worker runs.
    pub open spec fn drained_before(&self, node: int, input: int) -> bool {
        forall|c: int, q: int|
            self.fed_from_before(c, q) && (c < node || (c == node && q < input)) ==> (
            #[trigger] self.queue(c, q)).len() == 0
    }

    /// `input` is an input of the operator `node`, and the operator is one
    /// that the worker runs itself.
    pub open spec fn run_by_worker(&self, node: int, input: int) -> bool {
        self.has_input(node, input) && self.nodes()[node].kind != Kind::Operator
    }

    /// `later` is this state after one move of the worker: a batch waited at
    /// the input, which belongs to an operator that the worker runs, and
    /// the oldest batch there has been moved on. Nothing else has changed.
    pub open spec fn one_move(&self, later: &Worker<T, D>, node: int, input: int) -> bool {
        &&& self.run_by_worker(node, input)
        &&& self.queue(node, input).len() > 0
        &&& later.topology() == self.topology()
        &&& later.peers() == self.peers()
        &&& later.same_held_but(self, -1)
        &&& self.moved_on(later, node, input)
    }

    /// The pass has visited the input: it has moved as many batches there
    /// as waited there when it came to the input, which are all that
    /// waited there when the pass began, and perhaps more.
    pub open spec fn visited(
        &self,
        states: Seq<Worker<T, D>>,
        moves: Seq<(int, int)>,
        node: int,
        input: int,
    ) -> bool {
        &&& moves_at(moves, node, input) == states[moves_before(moves, node, input) as int].queue(
            node,
            input,
        ).len()
        &&& moves_at(moves, node, input) >= self.queue(node, input).len()
    }

    /// `moves` are a scheduling pass that leads from this state to `later`
    /// through `states`: each move takes the oldest batch that waits at an
    /// input of an operator that the worker runs and moves it on, the moves
    /// come input by input in the order of the graph, and at every such
    /// input as many batches are moved as wait there when the pass comes to
    /// it.
    pub open spec fn passes_to(
        &self,
        later: &Worker<T, D>,
        states: Seq<Worker<T, D>>,
        moves: Seq<(int, int)>,
    ) -> bool {
        &&& states.len() == moves.len() + 1
        &&& states[0] == *self
        &&& states[moves.len() as int] == *later
        &&& forall|i: int|
            0 <= i <= moves.len() ==> (#[trigger] states[i]).topology() == self.topology()
        &&& forall|i: int|
            0 <= i < moves.len() ==> (#[trigger] states[i]).one_move(
                &states[i + 1],
                moves[i].0,
                moves[i].1,
            )
        &&& in_order(moves)
        &&& forall|b: int, p: int|
            self.run_by_worker(b, p) ==> #[trigger] self.visited(states, moves, b, p)
    }

    /// Some batch waits at an input of an operator that the worker runs.
    pub open spec fn has_work(&self) -> bool {
        exists|b: int, p: int|
            self.has_input(b, p) && self.nodes()[b].kind != Kind::Operator && (
            #[trigger] self.queue(b, p)).len() > 0
    }

    /// Moves the oldest batch that waits at an input of an operator that the
    /// worker runs: a forwarding operator passes it on to its consumers, at
    /// its time moved forward by the summary of the operator; a sink drops
    /// it. Says whether there was a batch. The inputs of operators that the
    /// driving code runs are refused, and so are inputs that the graph
    /// lacks.
    pub fn forward(&mut self, node: usize, input: usize) -> (r: Result<bool, ProtocolViolation>)
        requires
            old(self).wf(),
        ensures
            final(self).wf(),
            final(self).topology() == old(self).topology(),
            final(self).peers() == old(self).peers(),
            final(self).advanced_from(old(self)),
            final(self).same_held_but(old(self), -1),
            r is Ok <==> old(self).has_input(node as int, input as int) && old(
                self,
            ).nodes()[node as int].kind != Kind::Operator,
            match r {
                Ok(moved) => {
                    &&& moved == (old(self).queue(node as int, input as int).len() > 0)
                    &&& !moved ==> final(self).unchanged_from(old(self))
                    &&& moved ==> old(self).moved_on(final(self), node as int, input as int)
                },
                Err(e) => e == ProtocolViolation::UnknownEndpoint && final(self).unchanged_from(
                    old(self),
                ),
            },
    {
        if !self.knows(node, input) {
            proof {
                self.lemma_unchanged_is_advance(old(self));
            }
            return Err(ProtocolViolation::UnknownEndpoint);
        }
        let kind = self.topology.kind(node);
        if let Kind::Operator = kind {
            proof {
                self.lemma_unchanged_is_advance(old(self));
            }
            return Err(ProtocolViolation::UnknownEndpoint);
        }
        if self.queues[node][input].len() == 0 {
            proof {
                self.lemma_unchanged_is_advance(old(self));
            }
            return Ok(false);
        }
        let target = self.queues[node][input][0].worker;
        let pulled = self.pull(node, input, 0);
        let ghost taken = *self;
        match pulled {
            None => {},
            Some((cap, data)) => {
                let time = cap.time();
                if let Kind::Forward = kind {
                    proof {
                        T::leq_reflexive(time);
                    }
                    match self.give(&cap, time, target, data) {
                        Ok(_) => {},
                        Err(_) => {},
                    }
                }
                let ghost given = *self;
                match self.release(cap) {
                    Ok(_) => {},
                    Err(_) => {},
                }
                proof {
                    given.lemma_advanced_from_transitive(&taken, old(self));
                    self.lemma_advanced_from_transitive(&given, old(self));
                    assert(self.held(node as int) =~= old(self).held(node as int));
                }
            },
        }
        proof {
            assert forall|a: int| 0 <= a < self.nodes().len() implies #[trigger] self.held(a) == old(
                self,
            ).held(a) by {
                if a != node {
                    assert(taken.held(a) == old(self).held(a));
                }
            }
        }
        Ok(true)
    }

    /// One scheduling pass: the worker visits every operator that it runs
    /// itself, in the order in which the operators were added to the graph,
    /// and the inputs of each in turn. At every input it moves as many
    /// batches as wait there when it comes to the input, the oldest first:
    /// a forwarding operator passes each batch on to its consumers, at the
    /// time of the batch moved forward by the summary of the operator, and
    /// a sink drops it. The pass is the sequence of these moves and nothing
    /// else. A batch therefore goes as far as it can without the driving
    /// code or another trip round a loop: after the pass nothing waits at
    /// an input of an operator that the worker runs, unless the input
    /// closes a loop. The operators that the driving code runs only
    /// receive. No capability changes hands, and no frontier goes back.
    /// Says whether there was any batch to move.
    pub fn step(&mut self) -> (moved: bool)
        requires
            old(self).wf(),
        ensures
            final(self).wf(),
            final(self).topology() == old(self).topology(),
            final(self).peers() == old(self).peers(),
            final(self).advanced_from(old(self)),
            final(self).same_held_but(old(self), -1),
            moved == old(self).has_work(),
            !moved ==> final(self).unchanged_from(old(self)),
            forall|b: int, p: int|
                old(self).has_input(b, p) && old(self).nodes()[b].kind == Kind::Operator ==> old(
                    self,
                ).queue(b, p).is_prefix_of(#[trigger] final(self).queue(b, p)),
            forall|b: int, p: int|
                final(self).fed_from_before(b, p) ==> (#[trigger] final(self).queue(b, p)).len()
                    == 0,
            exists|states: Seq<Worker<T, D>>, moves: Seq<(int, int)>| #[trigger]
                old(self).passes_to(final(self), states, moves),
    {
        let mut moved = false;
        let mut b: usize = 0;
        let ghost mut states: Seq<Worker<T, D>> = seq![*self];
        let ghost mut moves: Seq<(int, int)> = Seq::empty();
        proof {
            self.lemma_unchanged_is_advance(old(self));
            lemma_pass_begins(&*old(self));
        }
        while b < self.topology.len()
            invariant
                self.wf(),
                self.topology() == old(self).topology(),
                self.peers() == old(self).peers(),
                self.advanced_from(old(self)),
                self.same_held_but(old(self), -1),
                b <= self.nodes().len(),
                self.drained_before(b as int, 0),
                passing(&*old(self), &*self, states, moves, b as int, 0, 0),
                states.len() == moves.len() + 1,
                states[moves.len() as int] == *self,
                !moved ==> self.unchanged_from(old(self)),
                moved ==> old(self).has_work(),
                !moved ==> forall|c: int, q: int|
                    old(self).has_input(c, q) && c < b && old(self).nodes()[c].kind
                        != Kind::Operator ==> (#[trigger] old(self).queue(c, q)).len() == 0,
                forall|c: int, q: int|
                    old(self).has_input(c, q) && old(self).nodes()[c].kind == Kind::Operator
                        ==> old(self).queue(c, q).is_prefix_of(#[trigger] self.queue(c, q)),
            decreases self.nodes().len() - b,
        {
            let runs = match self.topology.kind(b) {
                Kind::Operator => false,
                _ => true,
            };
            let mut p: usize = 0;
            while runs && p < self.topology.inputs(b)
                invariant
                    self.wf(),
                    self.topology() == old(self).topology(),
                    self.peers() == old(self).peers(),
                    self.advanced_from(old(self)),
                    self.same_held_but(old(self), -1),
                    b < self.nodes().len(),
                    runs == (self.nodes()[b as int].kind != Kind::Operator),
                    p <= self.nodes()[b as int].sources@.len(),
                    self.drained_before(b as int, p as int),
                    passing(&*old(self), &*self, states, moves, b as int, p as int, 0),
                    states.len() == moves.len() + 1,
                    states[moves.len() as int] == *self,
                    !moved ==> self.unchanged_from(old(self)),
                    moved ==> old(self).has_work(),
                    !moved ==> forall|c: int, q: int|
                        old(self).has_input(c, q) && (c < b || (c == b && q < p)) && old(
                            self,
                        ).nodes()[c].kind != Kind::Operator ==> (#[trigger] old(self).queue(
                            c,
                            q,
                        )).len() == 0,
                    forall|c: int, q: int|
                        old(self).has_input(c, q) && old(self).nodes()[c].kind == Kind::Operator
                            ==> old(self).queue(c, q).is_prefix_of(#[trigger] self.queue(c, q)),
                decreases self.nodes()[b as int].sources@.len() - p,
            {
                let waiting = self.queues[b][p].len();
                let mut done: usize = 0;
                let ghost entry = *self;
                proof {
                    lemma_pass_comes_to(&*old(self), &*self, states, moves, b as int, p as int);
                    assert(waiting == self.queue(b as int, p as int).len());
                    if !moved {
                        assert(self.queue(b as int, p as int) == old(self).queue(
                            b as int,
                            p as int,
                        ));
                    }
                }
                while done < waiting
                    invariant
                        self.wf(),
                        self.topology() == old(self).topology(),
                        self.peers() == old(self).peers(),
                        self.advanced_from(old(self)),
                        self.same_held_but(old(self), -1),
                        self.has_input(b as int, p as int),
                        self.nodes()[b as int].kind != Kind::Operator,
                        done <= waiting,
                        self.drained_before(b as int, p as int),
                        passing(&*old(self), &*self, states, moves, b as int, p as int, done as nat),
                        states.len() == moves.len() + 1,
                        states[moves.len() as int] == *self,
                        done <= moves.len(),
                        states[moves.len() - done] == entry,
                        waiting == entry.queue(b as int, p as int).len(),
                        waiting >= old(self).queue(b as int, p as int).len(),
                        self.queue(b as int, p as int).len() >= waiting - done,
                        self.fed_from_before(b as int, p as int) ==> self.queue(
                            b as int,
                            p as int,
                        ).len() == waiting - done,
                        !moved ==> self.unchanged_from(old(self)),
                        !moved ==> done == 0 && waiting == old(self).queue(b as int, p as int).len(),
                        !moved ==> forall|c: int, q: int|
                            old(self).has_input(c, q) && (c < b || (c == b && q < p)) && old(
                                self,
                            ).nodes()[c].kind != Kind::Operator ==> (#[trigger] old(self).queue(
                                c,
                                q,
                            )).len() == 0,
                        moved ==> old(self).has_work(),
                        forall|c: int, q: int|
                            old(self).has_input(c, q) && old(self).nodes()[c].kind
                                == Kind::Operator ==> old(self).queue(c, q).is_prefix_of(
                                #[trigger] self.queue(c, q),
                            ),
                    decreases waiting - done,
                {
                    let ghost before = *self;
                    let r = self.forward(b, p);
                    proof {
                        self.lemma_advanced_from_transitive(&before, old(self));
                        assert forall|a: int| 0 <= a < self.nodes().len() implies #[trigger] self.held(
                            a,
                        ) == old(self).held(a) by {
                            assert(before.held(a) == old(self).held(a));
                        }
                        let went = r.unwrap();
                        assert(went);
                        assert(before.moved_on(self, b as int, p as int));
                        assert(before.one_move(self, b as int, p as int));
                        lemma_pass_moves(
                            &*old(self),
                            &before,
                            &*self,
                            states,
                            moves,
                            b as int,
                            p as int,
                            done as nat,
                        );
                        states = states.push(*self);
                        moves = moves.push((b as int, p as int));
                        assert(self.queue(b as int, p as int).len() >= waiting - done - 1) by {
                            assert(before.has_input(b as int, p as int));
                            assert(before.without_oldest(b as int, p as int, b as int, p as int).len()
                                == before.queue(b as int, p as int).len() - 1);
                        }
                        if !moved {
                            assert(before.queue(b as int, p as int) == old(self).queue(
                                b as int,
                                p as int,
                            ));
                            assert(went);
                        }
                        assert forall|c: int, q: int|
                            self.fed_from_before(c, q) && (c < b || (c == b && q <= p))
                                implies #[trigger] self.queue(c, q) == (if went {
                            before.without_oldest(b as int, p as int, c, q)
                        } else {
                            before.queue(c, q)
                        }) by {
                            if went {
                                assert(before.moved_on(self, b as int, p as int));
                                assert(before.has_input(c, q));
                            } else {
                                assert(self.queue(c, q) == before.queue(c, q));
                            }
                        }
                        assert(self.drained_before(b as int, p as int)) by {
                            assert forall|c: int, q: int|
                                self.fed_from_before(c, q) && (c < b || (c == b && q < p)) implies (
                            #[trigger] self.queue(c, q)).len() == 0 by {
                                assert(before.fed_from_before(c, q));
                                assert(before.queue(c, q).len() == 0);
                            }
                        }
                        if self.fed_from_before(b as int, p as int) {
                            assert(before.fed_from_before(b as int, p as int));
                            assert(before.queue(b as int, p as int).len() == waiting - done);
                            assert(went);
                            assert(self.queue(b as int, p as int) == before.queue(
                                b as int,
                                p as int,
                            ).remove(0));
                        }
                        if went && !moved {
                            assert(before.queue(b as int, p as int) == old(self).queue(
                                b as int,
                                p as int,
                            ));
                        }
                        assert forall|c: int, q: int|
                            old(self).has_input(c, q) && old(self).nodes()[c].kind
                                == Kind::Operator implies old(self).queue(c, q).is_prefix_of(
                            #[trigger] self.queue(c, q),
                        ) by {
                            assert(old(self).queue(c, q).is_prefix_of(before.queue(c, q)));
                            if went {
                                assert(before.moved_on(self, b as int, p as int));
                                assert(before.without_oldest(b as int, p as int, c, q)
                                    == before.queue(c, q));
                                if self.queue(c, q) != before.queue(c, q) {
                                    assert(self.queue(c, q).drop_last() == before.queue(c, q));
                                }
                            } else {
                                assert(self.queue(c, q) == before.queue(c, q));
                            }
                        }
                        if !went && !moved {
                            assert forall|c: int, q: int| self.has_input(c, q) implies #[trigger] self.queue(
                                c,
                                q,
                            ) == old(self).queue(c, q) by {
                                assert(before.queue(c, q) == old(self).queue(c, q));
                            }
                        }
                    }
                    match r {
                        Ok(went) => {
                            if went {
                                moved = true;
                            }
                        },
                        Err(_) => {},
                    }
                    done += 1;
                }
                proof {
                    lemma_pass_leaves(
                        &*old(self),
                        &*self,
                        states,
                        moves,
                        b as int,
                        p as int,
                        done as nat,
                    );
                }
                p += 1;
            }
            proof {
                lemma_pass_goes_on(&*old(self), &*self, states, moves, b as int, p as int);
            }
            b += 1;
        }
        proof {
            lemma_pass_ends(&*old(self), &*self, states, moves);
            if !moved {
                if old(self).has_work() {
                    let (c, q) = choose|c: int, q: int|
                        old(self).has_input(c, q) && old(self).nodes()[c].kind != Kind::Operator
                            && (#[trigger] old(self).queue(c, q)).len() > 0;
                    assert(old(self).queue(c, q).len() == 0);
                }
            }
        }
        moved
    }
}

/// The batches that a channel delivers to the targets below `upto`, each with
/// its target, in the order of the targets. A target for which the channel
/// has no record gets no batch.
pub open spec fn parts<D>(pact: Pact, from: int, keyed: Seq<(u64, D)>, targets: nat, upto: nat) -> Seq<
    (usize, Seq<D>),
>
    decreases upto,
{
    if upto == 0 {
        Seq::empty()
    } else {
        let rest = parts(pact, from, keyed, targets, (upto - 1) as nat);
        let batch = routed(pact, from, keyed, targets, upto - 1);
        if batch.len() > 0 {
            rest.push(((upto - 1) as usize, batch))
        } else {
            rest
        }
    }
}

/// `after` is `before` with one more batch for each of `parts` at its end,
/// in order: each batch is for the time `time` and the instance named in
/// its part, and holds a clone of each record of the part.
pub open spec fn delivered_all<T, D: Clone>(
    before: Seq<Message<T, D>>,
    after: Seq<Message<T, D>>,
    time: T,
    parts: Seq<(usize, Seq<D>)>,
) -> bool {
    &&& after.len() == before.len() + parts.len()
    &&& after.take(before.len() as int) == before
    &&& forall|i: int|
        0 <= i < parts.len() ==> {
            &&& (#[trigger] after[before.len() + i]).time == time
            &&& after[before.len() + i].worker == parts[i].0
            &&& copy_of(parts[i].1, after[before.len() + i].data@)
        }
}

/// The batches of a vector as plain values: each with its time and the
/// instance that it is for.
pub open spec fn addressed<T, D>(v: Seq<(T, usize, Vec<D>)>) -> Seq<(T, usize, Seq<D>)> {
    Seq::new(v.len(), |i: int| (v[i].0, v[i].1, v[i].2@))
}

/// `after` is `before` with one more batch for each of `batches` at its end,
/// in order: each is for the time and the instance of its batch, and holds
/// a clone of each of its records.
pub open spec fn delivered_each<T, D: Clone>(
    before: Seq<Message<T, D>>,
    after: Seq<Message<T, D>>,
    batches: Seq<(T, usize, Seq<D>)>,
) -> bool {
    &&& after.len() == before.len() + batches.len()
    &&& after.take(before.len() as int) == before
    &&& forall|i: int|
        0 <= i < batches.len() ==> {
            &&& (#[trigger] after[before.len() + i]).time == batches[i].0
            &&& after[before.len() + i].worker == batches[i].1
            &&& copy_of(batches[i].2, after[before.len() + i].data@)
        }
}

/// Whether every batch is for a time at or after `at`, and whether every
/// batch is for an instance below `peers`.
fn fit<T: Timestamp, D>(at: &T, peers: usize, batches: &Vec<(T, usize, Vec<D>)>) -> (r: (bool, bool))
    ensures
        r.0 == forall|i: int| 0 <= i < batches@.len() ==> at.leq((#[trigger] batches@[i]).0),
        r.1 == forall|i: int| 0 <= i < batches@.len() ==> (#[trigger] batches@[i]).1 < peers,
{
    let mut covered = true;
    let mut known = true;
    let mut i: usize = 0;
    while i < batches.len()
        invariant
            i <= batches@.len(),
            covered == forall|k: int| 0 <= k < i ==> at.leq((#[trigger] batches@[k]).0),
            known == forall|k: int| 0 <= k < i ==> (#[trigger] batches@[k]).1 < peers,
        decreases batches@.len() - i,
    {
        if !at.less_equal(&batches[i].0) {
            covered = false;
        }
        if batches[i].1 >= peers {
            known = false;
        }
        i += 1;
    }
    (covered, known)
}

impl<T: Timestamp, D: Clone> Worker<T, D> {
    /// Sends batches one after the other under one capability: each batch
    /// at its time, to its instance of every operator that consumes the
    /// output of the owner of `cap`. The capability must be live and for a
    /// time at or before that of every batch, and every instance must
    /// exist; else nothing is sent.
    pub fn give_each(&mut self, cap: &Capability<T>, batches: Vec<(T, usize, Vec<D>)>) -> (r:
        Result<(), ProtocolViolation>)
        requires
            old(self).wf(),
        ensures
            final(self).wf(),
            final(self).topology() == old(self).topology(),
            final(self).peers() == old(self).peers(),
            final(self).advanced_from(old(self)),
            r is Ok <==> old(self).holds(cap) && forall|i: int|
                0 <= i < batches@.len() ==> cap.at().leq((#[trigger] batches@[i]).0) && batches@[i].1
                    < old(self).peers(),
            match r {
                Ok(_) => {
                    &&& final(self).same_held_but(old(self), -1)
                    &&& forall|b: int, p: int|
                        old(self).has_input(b, p) ==> if old(self).nodes()[b].sources@[p] == Some(
                            cap.owner(),
                        ) {
                            delivered_each(
                                old(self).queue(b, p),
                                #[trigger] final(self).queue(b, p),
                                addressed(batches@),
                            )
                        } else {
                            final(self).queue(b, p) == old(self).queue(b, p)
                        }
                },
                Err(e) => {
                    &&& final(self).unchanged_from(old(self))
                    &&& e == if !old(self).holds(cap) {
                        ProtocolViolation::UnknownCapability
                    } else if !(forall|i: int|
                        0 <= i < batches@.len() ==> (#[trigger] batches@[i]).1 < old(self).peers()) {
                        ProtocolViolation::UnknownEndpoint
                    } else {
                        ProtocolViolation::TimeNotCovered
                    }
                },
            },
    {
        if !self.is_live(cap) {
            proof {
                self.lemma_unchanged_is_advance(old(self));
            }
            return Err(ProtocolViolation::UnknownCapability);
        }
        let at = cap.time();
        let (covered, known) = fit(&at, self.peers, &batches);
        if !known {
            proof {
                self.lemma_unchanged_is_advance(old(self));
            }
            return Err(ProtocolViolation::UnknownEndpoint);
        }
        if !covered {
            proof {
                self.lemma_unchanged_is_advance(old(self));
            }
            return Err(ProtocolViolation::TimeNotCovered);
        }
        let ghost given = addressed(batches@);
        let mut stack = reversed(batches);
        proof {
            self.lemma_unchanged_is_advance(old(self));
            assert forall|b: int, p: int| old(self).has_input(b, p) implies old(self).queue(
                b,
                p,
            ).take(old(self).queue(b, p).len() as int) == old(self).queue(b, p) by {
                assert(old(self).queue(b, p).take(old(self).queue(b, p).len() as int) =~= old(
                    self,
                ).queue(b, p));
            }
        }
        while stack.len() > 0
            invariant
                self.wf(),
                self.topology() == old(self).topology(),
                self.peers() == old(self).peers(),
                self.advanced_from(old(self)),
                self.same_held_but(old(self), -1),
                self.holds(cap),
                forall|i: int|
                    0 <= i < given.len() ==> cap.at().leq((#[trigger] given[i]).0) && given[i].1
                        < self.peers(),
                stack@.len() <= given.len(),
                forall|k: int|
                    0 <= k < stack@.len() ==> (#[trigger] stack@[k]).0 == given[given.len() - 1
                        - k].0 && stack@[k].1 == given[given.len() - 1 - k].1 && stack@[k].2@
                        == given[given.len() - 1 - k].2,
                forall|b: int, p: int|
                    old(self).has_input(b, p) ==> if old(self).nodes()[b].sources@[p] == Some(
                        cap.owner(),
                    ) {
                        delivered_each(
                            old(self).queue(b, p),
                            #[trigger] self.queue(b, p),
                            given.take(given.len() - stack@.len()),
                        )
                    } else {
                        self.queue(b, p) == old(self).queue(b, p)
                    },
            decreases stack.len(),
        {
            let ghost done = given.len() - stack@.len();
            let ghost before = *self;
            let (time, target, data) = stack.pop().unwrap();
            let ghost sent = data@;
            proof {
                assert(time == given[done].0 && target == given[done].1 && sent == given[done].2);
            }
            match self.give(cap, time, target, data) {
                Ok(_) => {},
                Err(_) => {},
            }
            proof {
                self.lemma_advanced_from_transitive(&before, old(self));
                let so_far = given.take(done);
                let now = given.take(done + 1);
                assert(now =~= so_far.push(given[done]));
                assert forall|a: int| 0 <= a < self.nodes().len() implies #[trigger] self.held(a)
                    == old(self).held(a) by {
                    assert(before.held(a) == old(self).held(a));
                }
                assert forall|b: int, p: int| old(self).has_input(b, p) implies if old(
                    self,
                ).nodes()[b].sources@[p] == Some(cap.owner()) {
                    delivered_each(old(self).queue(b, p), #[trigger] self.queue(b, p), now)
                } else {
                    self.queue(b, p) == old(self).queue(b, p)
                } by {
                    let start = old(self).queue(b, p);
                    let mid = before.queue(b, p);
                    let end = self.queue(b, p);
                    if old(self).nodes()[b].sources@[p] == Some(cap.owner()) {
                        assert(delivered_each(start, mid, so_far));
                        assert(end.take(start.len() as int) =~= mid.take(start.len() as int)) by {
                            assert forall|i: int| 0 <= i < start.len() implies end[i] == mid[i] by {
                                assert(end.drop_last()[i] == mid[i]);
                            }
                        }
                        assert forall|i: int| 0 <= i < now.len() implies {
                            &&& (#[trigger] end[start.len() + i]).time == now[i].0
                            &&& end[start.len() + i].worker == now[i].1
                            &&& copy_of(now[i].2, end[start.len() + i].data@)
                        } by {
                            if i < so_far.len() {
                                assert(end.drop_last()[start.len() + i] == mid[start.len() + i]);
                                assert(now[i] == so_far[i]);
                            } else {
                                assert(end[start.len() + i] == end.last());
                            }
                        }
                    } else {
                        assert(mid == start);
                    }
                }
            }
        }
        proof {
            assert(given.take(given.len() as int) =~= given);
        }
        Ok(())
    }

    /// Sends keyed records at the time `time` through a channel of kind
    /// `pact`, from the instance `from` of the owner of `cap`: a pipeline
    /// keeps the records with the instance `from` of every consumer, an
    /// exchange hands each record to the instance that its key selects.
    /// The capability must be live and for a time at or before `time`.
    pub fn give_routed(
        &mut self,
        cap: &Capability<T>,
        time: T,
        pact: Pact,
        from: usize,
        keyed: Vec<(u64, D)>,
    ) -> (r: Result<(), ProtocolViolation>)
        requires
            old(self).wf(),
        ensures
            final(self).wf(),
            final(self).topology() == old(self).topology(),
            final(self).peers() == old(self).peers(),
            final(self).advanced_from(old(self)),
            r is Ok <==> old(self).holds(cap) && cap.at().leq(time) && from < old(self).peers(),
            match r {
                Ok(_) => {
                    &&& final(self).same_held_but(old(self), -1)
                    &&& forall|b: int, p: int|
                        old(self).has_input(b, p) ==> if old(self).nodes()[b].sources@[p] == Some(
                            cap.owner(),
                        ) {
                            delivered_all(
                                old(self).queue(b, p),
                                #[trigger] final(self).queue(b, p),
                                time,
                                parts(
                                    pact,
                                    from as int,
                                    keyed@,
                                    old(self).peers() as nat,
                                    old(self).peers() as nat,
                                ),
                            )
                        } else {
                            final(self).queue(b, p) == old(self).queue(b, p)
                        }
                },
                Err(e) => {
                    &&& final(self).unchanged_from(old(self))
                    &&& e == if !old(self).holds(cap) {
                        ProtocolViolation::UnknownCapability
                    } else if !cap.at().leq(time) {
                        ProtocolViolation::TimeNotCovered
                    } else {
                        ProtocolViolation::UnknownEndpoint
                    }
                },
            },
    {
        if !self.is_live(cap) {
            proof {
                self.lemma_unchanged_is_advance(old(self));
            }
            return Err(ProtocolViolation::UnknownCapability);
        }
        let at = cap.time();
        if !at.less_equal(&time) {
            proof {
                self.lemma_unchanged_is_advance(old(self));
            }
            return Err(ProtocolViolation::TimeNotCovered);
        }
        if from >= self.peers {
            proof {
                self.lemma_unchanged_is_advance(old(self));
            }
            return Err(ProtocolViolation::UnknownEndpoint);
        }
        let peers = self.peers;
        let mut batches = route(pact, from, keyed, peers);
        let mut timed: Vec<(T, usize, Vec<D>)> = Vec::new();
        let mut target: usize = 0;
        while target < peers
            invariant
                target <= peers,
                batches@.len() == peers,
                forall|t: int|
                    target <= t < peers ==> (#[trigger] batches@[t])@ == routed(
                        pact,
                        from as int,
                        keyed@,
                        peers as nat,
                        t,
                    ),
                timed@.len() == parts(pact, from as int, keyed@, peers as nat, target as nat).len(),
                forall|i: int|
                    0 <= i < timed@.len() ==> (#[trigger] timed@[i]).0 == time && timed@[i].1
                        < peers && (timed@[i].1, timed@[i].2@) == parts(
                        pact,
                        from as int,
                        keyed@,
                        peers as nat,
                        target as nat,
                    )[i],
            decreases peers - target,
        {
            let mut batch: Vec<D> = Vec::new();
            std::mem::swap(&mut batch, &mut batches[target]);
            if batch.len() > 0 {
                timed.push((time, target, batch));
            }
            target += 1;
        }
        let ghost sent = parts(pact, from as int, keyed@, peers as nat, peers as nat);
        let ghost each = addressed(timed@);
        let r = self.give_each(cap, timed);
        proof {
            assert forall|b: int, p: int| old(self).has_input(b, p) implies if old(
                self,
            ).nodes()[b].sources@[p] == Some(cap.owner()) {
                delivered_all(old(self).queue(b, p), #[trigger] self.queue(b, p), time, sent)
            } else {
                self.queue(b, p) == old(self).queue(b, p)
            } by {
                if old(self).nodes()[b].sources@[p] == Some(cap.owner()) {
                    let start = old(self).queue(b, p);
                    let end = self.queue(b, p);
                    assert(delivered_each(start, end, each));
                    assert forall|i: int| 0 <= i < sent.len() implies {
                        &&& (#[trigger] end[start.len() + i]).time == time
                        &&& end[start.len() + i].worker == sent[i].0
                        &&& copy_of(sent[i].1, end[start.len() + i].data@)
                    } by {
                        assert(each[i] == (time, sent[i].0, sent[i].1));
                    }
                }
            }
        }
        r
    }
}

} // verus!
