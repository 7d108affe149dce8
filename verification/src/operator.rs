//! Operators that wait for their input to be complete: the state that one
//! instance of such an operator carries from one scheduling to the next.

use crate::capability::Capability;
use crate::capture::{
    absorb, absorbed, absorbed_keeps_one_batch_per_time, batches_of, find, one_batch_per_time,
    position_of, position_of_finds,
};
use crate::frontier::Antichain;
use crate::notificator::{distinct_times, in_time_order, passed, Notificator};
use crate::order::Timestamp;
use crate::vectors::reversed;
use crate::violation::ProtocolViolation;
use crate::worker::{first_for, first_for_finds, Message, Worker};
use vstd::prelude::*;

verus! {

/// The capabilities of a sequence of pairs.
pub open spec fn capabilities_of<T: Timestamp, D>(out: Seq<(Capability<T>, Vec<D>)>) -> Seq<
    Capability<T>,
> {
    Seq::new(out.len(), |i: int| out[i].0)
}

/// The batches of `batches` for times that are not `done`, in order.
pub open spec fn remaining<T, D>(batches: Seq<(T, Seq<D>)>, done: spec_fn(T) -> bool) -> Seq<
    (T, Seq<D>),
>
    decreases batches.len(),
{
    if batches.len() == 0 {
        Seq::empty()
    } else if done(batches.last().0) {
        remaining(batches.drop_last(), done)
    } else {
        remaining(batches.drop_last(), done).push(batches.last())
    }
}

/// Whether `time` is among the times of the first `count` capabilities.
pub open spec fn among<T: Timestamp>(caps: Seq<Capability<T>>, count: int) -> spec_fn(T) -> bool {
    |time: T| exists|i: int| 0 <= i < count && (#[trigger] caps[i]).at() == time
}

/// The state of one instance of an operator that acts on a time only once
/// the time is complete.
///
/// On every scheduling the instance takes the batches that wait at its
/// inputs and puts each with the others of its time. Each time is kept open
/// by one retained capability. Once no input can deliver at or before a
/// time any more, the records of that time are handed out together with
/// the capability, and forgotten.
pub struct Operator<T: Timestamp, D> {
    node: usize,
    instance: usize,
    notificator: Notificator<T>,
    stash: Vec<(T, Vec<D>)>,
}

impl<T: Timestamp, D> Operator<T, D> {
    /// The operator of the graph whose instance this is.
    pub closed spec fn node(&self) -> usize {
        self.node
    }

    /// Which of the parallel instances of the operator this is.
    pub closed spec fn instance(&self) -> usize {
        self.instance
    }

    /// The retained capabilities, one for each time that is held back.
    pub closed spec fn pending(&self) -> Set<Capability<T>> {
        self.notificator@
    }

    /// The records that are held back, time by time, in the order in which
    /// the times were first seen.
    pub closed spec fn buffered(&self) -> Seq<(T, Seq<D>)> {
        batches_of(self.stash@)
    }

    /// A capability for `time` is retained.
    pub open spec fn awaits(&self, time: T) -> bool {
        exists|c: Capability<T>| self.pending().contains(c) && c.at() == time
    }

    /// Each time is held back once, and the times for which records are held
    /// back are those for which a capability is retained.
    pub closed spec fn wf(&self) -> bool {
        &&& self.notificator.wf()
        &&& one_batch_per_time(batches_of(self.stash@))
        &&& forall|t: T|
            #![trigger self.awaits(t)]
            #![trigger position_of(self.buffered(), t)]
            self.awaits(t) <==> position_of(self.buffered(), t) is Some
    }

    /// The state of the instance `instance` of the operator `node`, with
    /// nothing held back.
    pub fn new(node: usize, instance: usize) -> (op: Operator<T, D>)
        ensures
            op.wf(),
            op.node() == node,
            op.instance() == instance,
            op.pending() == Set::<Capability<T>>::empty(),
            op.buffered() == Seq::<(T, Seq<D>)>::empty(),
    {
        let op = Operator { node, instance, notificator: Notificator::new(), stash: Vec::new() };
        assert(batches_of(op.stash@) =~= Seq::<(T, Seq<D>)>::empty());
        op
    }

    /// The number of times for which records are held back.
    pub fn held_back(&self) -> (n: usize)
        ensures
            n == self.buffered().len(),
    {
        self.stash.len()
    }

    /// Takes the oldest batch for this instance off an input of the
    /// operator, and puts its records behind those held back for the same
    /// time. The capability that comes with the batch keeps the time open;
    /// where one is retained for the time already, the new one is released
    /// at once. Says whether there was a batch to take. Refused where the
    /// operator has no such input, or is one that the worker runs itself.
    pub fn accept(&mut self, worker: &mut Worker<T, D>, input: usize) -> (r: Result<
        bool,
        ProtocolViolation,
    >)
        requires
            old(self).wf(),
            old(worker).wf(),
        ensures
            final(self).wf(),
            final(self).node() == old(self).node(),
            final(self).instance() == old(self).instance(),
            final(worker).wf(),
            final(worker).topology() == old(worker).topology(),
            final(worker).peers() == old(worker).peers(),
            final(worker).advanced_from(old(worker)),
            r is Ok <==> old(worker).driven_input(old(self).node() as int, input as int),
            match r {
                Err(e) => {
                    &&& e == ProtocolViolation::UnknownEndpoint
                    &&& final(worker).unchanged_from(old(worker))
                    &&& final(self).pending() == old(self).pending()
                    &&& final(self).buffered() == old(self).buffered()
                },
                Ok(taken) => {
                    let node = old(self).node() as int;
                    let queue = old(worker).queue(node, input as int);
                    &&& final(worker).same_queues_but(old(worker), node, input as int)
                    &&& final(worker).same_held_but(old(worker), node)
                    &&& match first_for(queue, old(self).instance()) {
                        None => {
                            &&& !taken
                            &&& final(worker).unchanged_from(old(worker))
                            &&& final(self).pending() == old(self).pending()
                            &&& final(self).buffered() == old(self).buffered()
                        },
                        Some(i) => {
                            &&& taken
                            &&& final(worker).queue(node, input as int) == queue.remove(i)
                            &&& final(self).buffered() == absorbed(
                                old(self).buffered(),
                                queue[i].time,
                                queue[i].data@,
                            )
                            &&& if old(self).awaits(queue[i].time) {
                                &&& final(self).pending() == old(self).pending()
                                &&& final(worker).held(node) == old(worker).held(node)
                            } else {
                                &&& final(worker).held(node) == old(worker).held(node).insert(
                                    queue[i].time,
                                )
                                &&& exists|c: Capability<T>|
                                    c.at() == queue[i].time && c.owner() == node && final(self).pending()
                                        == #[trigger] old(self).pending().insert(c)
                            }
                        },
                    }
                },
            },
    {
        let pulled = match worker.next(self.node, input, self.instance) {
            Ok(pulled) => pulled,
            Err(e) => {
                return Err(e);
            },
        };
        let ghost pulling = *worker;
        match pulled {
            None => Ok(false),
            Some((cap, data)) => {
                let time = cap.time();
                let ghost prior = self.buffered();
                let ghost added = data@;
                let ghost kept = cap;
                absorb(&mut self.stash, time, data);
                proof {
                    absorbed_keeps_one_batch_per_time(prior, time, added);
                    assert forall|t: T| position_of(self.buffered(), t) is Some <==> (position_of(
                        prior,
                        t,
                    ) is Some || t == time) by {
                        position_of_finds(self.buffered(), t);
                        position_of_finds(prior, t);
                        position_of_finds(prior, time);
                        let now = self.buffered();
                        match position_of(prior, time) {
                            Some(i) => {
                                if position_of(now, t) is Some {
                                    let j = position_of(now, t).unwrap();
                                    assert(now[j].0 == prior[j].0);
                                }
                                if position_of(prior, t) is Some {
                                    let j = position_of(prior, t).unwrap();
                                    assert(now[j].0 == prior[j].0);
                                }
                                if t == time {
                                    assert(now[i].0 == time);
                                }
                            },
                            None => {
                                if position_of(now, t) is Some {
                                    let j = position_of(now, t).unwrap();
                                    if j < prior.len() {
                                        assert(now[j] == prior[j]);
                                    }
                                }
                                if position_of(prior, t) is Some {
                                    let j = position_of(prior, t).unwrap();
                                    assert(now[j] == prior[j]);
                                }
                                if t == time {
                                    assert(now[prior.len() as int].0 == time);
                                }
                            },
                        }
                    }
                }
                let spare = self.notificator.notify_at(cap);
                proof {
                    assert forall|t: T|
                        #![trigger self.awaits(t)]
                        #![trigger position_of(self.buffered(), t)]
                        self.awaits(t) <==> position_of(self.buffered(), t) is Some by {
                        assert(position_of(self.buffered(), t) is Some <==> (position_of(prior, t) is Some
                            || t == time));
                        assert(old(self).awaits(t) <==> position_of(old(self).buffered(), t) is Some);
                        if self.awaits(t) {
                            let c = choose|c: Capability<T>| self.pending().contains(c) && c.at() == t;
                            if c != kept {
                                assert(old(self).pending().contains(c));
                            }
                        }
                        if old(self).awaits(t) {
                            let c = choose|c: Capability<T>|
                                old(self).pending().contains(c) && c.at() == t;
                            assert(self.pending().contains(c));
                        }
                        if t == time {
                            if spare is None {
                                assert(self.pending().contains(kept));
                            } else {
                                assert(old(self).notificator.awaits(time));
                                let c = choose|c: Capability<T>|
                                    old(self).notificator@.contains(c) && c.at() == time;
                                assert(self.pending().contains(c));
                            }
                        }
                    }
                }
                match spare {
                    Some(spare) => {
                        match worker.release(spare) {
                            Ok(_) => {},
                            Err(_) => {},
                        }
                        proof {
                            let node = old(self).node() as int;
                            worker.lemma_capabilities_changed_after(&pulling, old(worker), node);
                            assert(worker.held(node) =~= old(worker).held(node));
                        }
                    },
                    None => {
                        proof {
                            assert(self.pending() == old(self).pending().insert(kept));
                        }
                    },
                }
                Ok(true)
            },
        }
    }
}

impl<T: Timestamp, D> Operator<T, D> {
    /// Hands out the records of every time that is complete: a time at or
    /// before which no input of the operator can deliver any more. With the
    /// records of each time comes the capability that kept the time open,
    /// under which the results for that time can be sent. The times come in
    /// an order in which none is after one that is strictly later. What is
    /// handed out is forgotten.
    pub fn ready(&mut self, worker: &Worker<T, D>) -> (out: Vec<(Capability<T>, Vec<D>)>)
        requires
            old(self).wf(),
            worker.wf(),
        ensures
            final(self).wf(),
            final(self).node() == old(self).node(),
            final(self).instance() == old(self).instance(),
            capabilities_of(out@).to_set() == old(self).pending().filter(
                |c: Capability<T>| worker.complete(old(self).node() as int, c.at()),
            ),
            final(self).pending() == old(self).pending().filter(
                |c: Capability<T>| !worker.complete(old(self).node() as int, c.at()),
            ),
            distinct_times(capabilities_of(out@)),
            in_time_order(capabilities_of(out@)),
            forall|i: int|
                0 <= i < out@.len() ==> (position_of(
                    old(self).buffered(),
                    (#[trigger] out@[i]).0.at(),
                ) matches Some(j) && out@[i].1@ == old(self).buffered()[j].1),
            final(self).buffered() == remaining(
                old(self).buffered(),
                |t: T| worker.complete(old(self).node() as int, t),
            ),
    {
        let ghost node = self.node as int;
        let ghost done = |t: T| worker.complete(node, t);
        let mut frontiers: Vec<Antichain<T>> = Vec::new();
        let mut p: usize = 0;
        let inputs = worker.inputs(self.node);
        while p < inputs
            invariant
                worker.wf(),
                node == self.node,
                *self == *old(self),
                frontiers@.len() == p,
                p <= inputs,
                forall|input: int| 0 <= input < inputs <==> worker.has_input(node, input),
                forall|q: int, t: T|
                    0 <= q < p ==> (#[trigger] frontiers@[q].dominates(t) <==> worker.may_arrive(
                        node,
                        q,
                        t,
                    )),
            decreases inputs - p,
        {
            match worker.frontier(self.node, p) {
                Ok(f) => {
                    frontiers.push(f);
                },
                Err(_) => {
                    frontiers.push(Antichain::new());
                },
            }
            p += 1;
        }
        proof {
            assert forall|t: T| passed(frontiers@, t) <==> worker.complete(node, t) by {
                if passed(frontiers@, t) {
                    assert forall|q: int| worker.has_input(node, q) implies !worker.may_arrive(
                        node,
                        q,
                        t,
                    ) by {
                        assert(!frontiers@[q].dominates(t));
                    }
                }
                if worker.complete(node, t) {
                    assert forall|q: int| 0 <= q < frontiers@.len() implies !(
                    #[trigger] frontiers@[q]).dominates(t) by {
                        assert(worker.has_input(node, q));
                    }
                }
            }
        }
        let fired = self.notificator.for_each(&frontiers);
        proof {
            assert(old(self).pending().filter(|c: Capability<T>| passed(frontiers@, c.at()))
                =~= old(self).pending().filter(|c: Capability<T>| worker.complete(node, c.at())));
            assert(old(self).pending().filter(|c: Capability<T>| !passed(frontiers@, c.at()))
                =~= old(self).pending().filter(
                |c: Capability<T>| !worker.complete(node, c.at()),
            ));
        }
        let ghost given = fired@;
        let ghost start = self.buffered();
        proof {
            lemma_remaining_agrees(start, among(given, 0), |t: T| false);
            lemma_remaining_of_none(start);
        }
        let mut stack = reversed(fired);
        let mut out: Vec<(Capability<T>, Vec<D>)> = Vec::new();
        while stack.len() > 0
            invariant
                self.node == old(self).node,
                self.instance == old(self).instance,
                self.notificator.wf(),
                self.notificator@ == old(self).pending().filter(
                    |c: Capability<T>| !worker.complete(node, c.at()),
                ),
                start == old(self).buffered(),
                one_batch_per_time(start),
                distinct_times(given),
                given.to_set() == old(self).pending().filter(
                    |c: Capability<T>| worker.complete(node, c.at()),
                ),
                forall|t: T|
                    #![trigger old(self).awaits(t)]
                    #![trigger position_of(start, t)]
                    old(self).awaits(t) <==> position_of(start, t) is Some,
                stack@.len() <= given.len(),
                forall|k: int|
                    0 <= k < stack@.len() ==> #[trigger] stack@[k] == given[given.len() - 1 - k],
                out@.len() == given.len() - stack@.len(),
                forall|i: int| 0 <= i < out@.len() ==> (#[trigger] out@[i]).0 == given[i],
                forall|i: int|
                    0 <= i < out@.len() ==> (position_of(start, (#[trigger] out@[i]).0.at()) matches Some(
                        j,
                    ) && out@[i].1@ == start[j].1),
                self.buffered() == remaining(start, among(given, given.len() - stack@.len())),
            decreases stack.len(),
        {
            let ghost count = given.len() - stack@.len();
            let ghost taken = among(given, count);
            let ghost taken_next = among(given, count + 1);
            let cap = stack.pop().unwrap();
            let time = cap.time();
            proof {
                assert(cap == given[count]);
                assert(given.to_set().contains(given[count]));
                assert(old(self).pending().contains(cap));
                assert(old(self).awaits(time));
                assert(!taken(time)) by {
                    if taken(time) {
                        let i = choose|i: int| 0 <= i < count && (#[trigger] given[i]).at() == time;
                        assert(given[i].at() == given[count].at());
                    }
                }
                assert forall|t: T| #[trigger] taken_next(t) == (taken(t) || t == time) by {
                    if taken_next(t) {
                        let i = choose|i: int|
                            0 <= i < count + 1 && (#[trigger] given[i]).at() == t;
                        if i < count {
                            assert(taken(t));
                        }
                    }
                    if taken(t) {
                        let i = choose|i: int| 0 <= i < count && (#[trigger] given[i]).at() == t;
                        assert(0 <= i < count + 1);
                    }
                    if t == time {
                        assert(given[count].at() == t);
                    }
                }
                lemma_remaining_keeps(start, taken, time);
                lemma_remaining_without(start, taken, taken_next, time);
            }
            let ghost before = self.buffered();
            match find(&self.stash, &time) {
                Some(i) => {
                    let (_, data) = self.stash.remove(i);
                    proof {
                        position_of_finds(before, time);
                        position_of_finds(start, time);
                        assert(self.buffered() =~= before.remove(i as int));
                    }
                    out.push((cap, data));
                },
                None => {
                    out.push((cap, Vec::new()));
                },
            }
        }
        proof {
            assert(capabilities_of(out@) =~= given);
            let all = among(given, given.len() as int);
            assert forall|k: int| 0 <= k < start.len() implies all((#[trigger] start[k]).0) == done(
                start[k].0,
            ) by {
                let t = start[k].0;
                position_of_finds(start, t);
                assert(old(self).awaits(t));
                let c = choose|c: Capability<T>| old(self).pending().contains(c) && c.at() == t;
                if done(t) {
                    assert(given.to_set().contains(c));
                    let i = choose|i: int| 0 <= i < given.len() && given[i] == c;
                    assert(given[i].at() == t);
                }
                if all(t) {
                    let i = choose|i: int| 0 <= i < given.len() && (#[trigger] given[i]).at() == t;
                    assert(given.to_set().contains(given[i]));
                }
            }
            lemma_remaining_agrees(start, all, done);
            lemma_remaining_is_rest(start, done);
            assert forall|t: T|
                #![trigger self.awaits(t)]
                #![trigger position_of(self.buffered(), t)]
                self.awaits(t) <==> position_of(self.buffered(), t) is Some by {
                position_of_finds(self.buffered(), t);
                position_of_finds(start, t);
                if self.awaits(t) {
                    let c = choose|c: Capability<T>| self.notificator@.contains(c) && c.at() == t;
                    assert(old(self).pending().contains(c));
                    assert(old(self).awaits(t));
                    let j = position_of(start, t).unwrap();
                    assert(!done(start[j].0));
                    assert(self.buffered().contains(start[j]));
                    let m = choose|m: int|
                        0 <= m < self.buffered().len() && self.buffered()[m] == start[j];
                    assert(self.buffered()[m].0 == t);
                }
                if position_of(self.buffered(), t) is Some {
                    let j = position_of(self.buffered(), t).unwrap();
                    assert(self.buffered()[j].0 == t);
                    assert(start.contains(self.buffered()[j]));
                    let m = choose|m: int| 0 <= m < start.len() && start[m] == self.buffered()[j];
                    assert(start[m].0 == t);
                    assert(old(self).awaits(t));
                    let c = choose|c: Capability<T>| old(self).pending().contains(c) && c.at() == t;
                    assert(self.notificator@.contains(c));
                }
            }
        }
        out
    }
}

/// The batches of `queue` that are not for `instance`, in order.
pub open spec fn left_for_others<T, D>(queue: Seq<Message<T, D>>, instance: usize) -> Seq<
    Message<T, D>,
>
    decreases queue.len(),
{
    if queue.len() == 0 {
        Seq::empty()
    } else if queue.last().worker == instance {
        left_for_others(queue.drop_last(), instance)
    } else {
        left_for_others(queue.drop_last(), instance).push(queue.last())
    }
}

/// What is held back once the batches of `queue` that are for `instance`
/// have been put, one after the other, with `batches`.
pub open spec fn absorbing<T, D>(
    batches: Seq<(T, Seq<D>)>,
    queue: Seq<Message<T, D>>,
    instance: usize,
) -> Seq<(T, Seq<D>)>
    decreases queue.len(),
{
    if queue.len() == 0 {
        batches
    } else if queue.last().worker == instance {
        absorbed(
            absorbing(batches, queue.drop_last(), instance),
            queue.last().time,
            queue.last().data@,
        )
    } else {
        absorbing(batches, queue.drop_last(), instance)
    }
}

/// What is held back once the batches for `instance` that wait at the
/// first `inputs` inputs of `node` have been put, input by input, with
/// `batches`.
pub open spec fn absorbing_inputs<T: Timestamp, D>(
    batches: Seq<(T, Seq<D>)>,
    worker: &Worker<T, D>,
    node: int,
    inputs: nat,
    instance: usize,
) -> Seq<(T, Seq<D>)>
    decreases inputs,
{
    if inputs == 0 {
        batches
    } else {
        absorbing(
            absorbing_inputs(batches, worker, node, (inputs - 1) as nat, instance),
            worker.queue(node, inputs - 1),
            instance,
        )
    }
}

/// Batches that are for others change nothing: where none of the batches of
/// `queue` from `from` up to `to` is for `instance`, they are all left, and
/// nothing of them is put with what is held back.
proof fn lemma_others_pass<T, D>(
    batches: Seq<(T, Seq<D>)>,
    queue: Seq<Message<T, D>>,
    instance: usize,
    from: int,
    to: int,
)
    requires
        0 <= from <= to <= queue.len(),
        forall|k: int| from <= k < to ==> (#[trigger] queue[k]).worker != instance,
    ensures
        left_for_others(queue.take(to), instance) == left_for_others(queue.take(from), instance)
            + queue.subrange(from, to),
        absorbing(batches, queue.take(to), instance) == absorbing(
            batches,
            queue.take(from),
            instance,
        ),
    decreases to - from,
{
    if from == to {
        assert(queue.subrange(from, to) =~= Seq::<Message<T, D>>::empty());
        assert(left_for_others(queue.take(from), instance) + queue.subrange(from, to)
            =~= left_for_others(queue.take(from), instance));
    } else {
        lemma_others_pass(batches, queue, instance, from, to - 1);
        assert(queue.take(to).drop_last() =~= queue.take(to - 1));
        assert(queue.take(to).last() == queue[to - 1]);
        assert(left_for_others(queue.take(from), instance) + queue.subrange(from, to)
            =~= (left_for_others(queue.take(from), instance) + queue.subrange(from, to - 1)).push(
            queue[to - 1],
        ));
    }
}

/// What is left for others holds no batch for `instance`.
proof fn lemma_left_for_others<T, D>(queue: Seq<Message<T, D>>, instance: usize)
    ensures
        forall|k: int|
            0 <= k < left_for_others(queue, instance).len() ==> (#[trigger] left_for_others(
                queue,
                instance,
            )[k]).worker != instance,
        first_for(left_for_others(queue, instance), instance) is None,
    decreases queue.len(),
{
    if queue.len() > 0 {
        lemma_left_for_others(queue.drop_last(), instance);
    }
    first_for_finds(left_for_others(queue, instance), instance);
}

impl<T: Timestamp, D> Operator<T, D> {
    /// The times for which records are held back are those for which a
    /// capability is retained.
    pub proof fn lemma_awaits_what_is_buffered(&self, time: T)
        requires
            self.wf(),
        ensures
            self.awaits(time) <==> position_of(self.buffered(), time) is Some,
            one_batch_per_time(self.buffered()),
    {
    }

    /// Takes every batch for this instance off one input of the operator.
    fn drain_input(&mut self, worker: &mut Worker<T, D>, input: usize) -> (taken: bool)
        requires
            old(self).wf(),
            old(worker).wf(),
            old(worker).driven_input(old(self).node() as int, input as int),
        ensures
            final(self).wf(),
            final(self).node() == old(self).node(),
            final(self).instance() == old(self).instance(),
            final(worker).wf(),
            final(worker).topology() == old(worker).topology(),
            final(worker).peers() == old(worker).peers(),
            final(worker).advanced_from(old(worker)),
            final(worker).same_queues_but(old(worker), old(self).node() as int, input as int),
            final(worker).same_held_but(old(worker), old(self).node() as int),
            final(worker).queue(old(self).node() as int, input as int) == left_for_others(
                old(worker).queue(old(self).node() as int, input as int),
                old(self).instance(),
            ),
            final(self).buffered() == absorbing(
                old(self).buffered(),
                old(worker).queue(old(self).node() as int, input as int),
                old(self).instance(),
            ),
            taken == (first_for(
                old(worker).queue(old(self).node() as int, input as int),
                old(self).instance(),
            ) is Some),
            old(self).kept_in(final(self), old(worker), final(worker)),
    {
        let ghost node = self.node as int;
        let ghost instance = self.instance;
        let ghost given = worker.queue(node, input as int);
        let ghost start = self.buffered();
        let ghost mut seen: int = 0;
        let mut taken = false;
        proof {
            worker.lemma_unchanged_is_advance(old(worker));
            assert(given.take(0) =~= Seq::<Message<T, D>>::empty());
            assert(given.subrange(0, given.len() as int) =~= given);
            assert(left_for_others(given.take(0), instance) + given.subrange(
                0,
                given.len() as int,
            ) =~= given);
        }
        loop
            invariant_except_break
                worker.queue(node, input as int) == left_for_others(given.take(seen), instance)
                    + given.subrange(seen, given.len() as int),
                self.buffered() == absorbing(start, given.take(seen), instance),
                taken == (first_for(given.take(seen), instance) is Some),
            invariant
                self.wf(),
                self.node == old(self).node,
                self.instance == old(self).instance,
                node == self.node,
                instance == self.instance,
                given == old(worker).queue(node, input as int),
                start == old(self).buffered(),
                worker.wf(),
                worker.topology() == old(worker).topology(),
                worker.peers() == old(worker).peers(),
                worker.advanced_from(old(worker)),
                worker.driven_input(node, input as int),
                worker.same_queues_but(old(worker), node, input as int),
                worker.same_held_but(old(worker), node),
                old(self).kept_in(self, old(worker), worker),
                0 <= seen <= given.len(),
            ensures
                worker.queue(node, input as int) == left_for_others(given, instance),
                self.buffered() == absorbing(start, given, instance),
                taken == (first_for(given, instance) is Some),
            decreases given.len() - seen,
        {
            let ghost before = *worker;
            let ghost mine = *self;
            let ghost queue = worker.queue(node, input as int);
            let ghost left = left_for_others(given.take(seen), instance);
            let went = match self.accept(worker, input) {
                Ok(went) => went,
                Err(_) => false,
            };
            proof {
                worker.lemma_advanced_from_transitive(&before, old(worker));
                lemma_left_for_others(given.take(seen), instance);
                first_for_finds(queue, instance);
                first_for_finds(given.take(seen), instance);
                first_for_finds(given, instance);
                assert forall|b: int, p: int|
                    worker.has_input(b, p) && !(b == node && p == input)
                        implies #[trigger] worker.queue(b, p) == old(worker).queue(b, p) by {
                    assert(before.queue(b, p) == old(worker).queue(b, p));
                }
                assert forall|a: int|
                    0 <= a < worker.nodes().len() && a != node implies #[trigger] worker.held(a)
                    == old(worker).held(a) by {
                    assert(before.held(a) == old(worker).held(a));
                }
                match first_for(queue, instance) {
                    None => {
                        assert forall|k: int| seen <= k < given.len() implies (
                        #[trigger] given[k]).worker != instance by {
                            assert(queue[left.len() + (k - seen)] == given[k]);
                        }
                        lemma_others_pass(start, given, instance, seen, given.len() as int);
                        assert(given.take(given.len() as int) =~= given);
                        if first_for(given, instance) is Some {
                            let at = first_for(given, instance).unwrap();
                            if at < seen {
                                assert(given.take(seen)[at] == given[at]);
                            }
                        }
                        if first_for(given.take(seen), instance) is Some {
                            let at = first_for(given.take(seen), instance).unwrap();
                            assert(given.take(seen)[at] == given[at]);
                        }
                    },
                    Some(i) => {
                        assert(i >= left.len()) by {
                            if i < left.len() {
                                assert(queue[i] == left[i]);
                            }
                        }
                        let next = seen + (i - left.len());
                        assert(queue[i] == given[next]);
                        assert forall|k: int| seen <= k < next implies (#[trigger] given[k]).worker
                            != instance by {
                            assert(queue[left.len() + (k - seen)] == given[k]);
                        }
                        lemma_others_pass(start, given, instance, seen, next);
                        assert(given.take(next + 1).drop_last() =~= given.take(next));
                        assert(given.take(next + 1).last() == given[next]);
                        assert(worker.queue(node, input as int) =~= left_for_others(
                            given.take(next + 1),
                            instance,
                        ) + given.subrange(next + 1, given.len() as int));
                        assert(first_for(given.take(next + 1), instance) is Some) by {
                            first_for_finds(given.take(next + 1), instance);
                            assert(given.take(next + 1)[next].worker == instance);
                        }
                        mine.lemma_kept_in_after_accept(
                            self,
                            &before,
                            worker,
                            given[next].time,
                        );
                        old(self).lemma_kept_in_transitive(
                            &mine,
                            self,
                            old(worker),
                            &before,
                            worker,
                        );
                        seen = next + 1;
                    },
                }
            }
            if !went {
                break;
            }
            taken = true;
        }
        taken
    }

    /// What a scheduling keeps of the capabilities: every capability that
    /// was retained before is retained after, every capability that is
    /// retained after and was not before is one of the operator for a time
    /// that was not held back before, and the operator holds one more
    /// capability for each time that it holds back anew.
    pub open spec fn kept_in(
        &self,
        later: &Operator<T, D>,
        before: &Worker<T, D>,
        after: &Worker<T, D>,
    ) -> bool {
        &&& forall|c: Capability<T>|
            self.pending().contains(c) ==> #[trigger] later.pending().contains(c)
        &&& forall|c: Capability<T>| #[trigger]
            later.pending().contains(c) && !self.pending().contains(c) ==> c.owner() == self.node()
                && !self.awaits(c.at())
        &&& forall|t: T| #[trigger]
            after.held(self.node() as int).count(t) == before.held(self.node() as int).count(t) + (
            if later.awaits(t) && !self.awaits(t) {
                1nat
            } else {
                0nat
            })
    }

    /// One accepted batch keeps the capabilities as a scheduling does.
    proof fn lemma_kept_in_after_accept(
        &self,
        later: &Operator<T, D>,
        before: &Worker<T, D>,
        after: &Worker<T, D>,
        time: T,
    )
        requires
            self.wf(),
            later.wf(),
            later.node() == self.node(),
            if self.awaits(time) {
                &&& later.pending() == self.pending()
                &&& after.held(self.node() as int) == before.held(self.node() as int)
            } else {
                &&& after.held(self.node() as int) == before.held(self.node() as int).insert(time)
                &&& exists|c: Capability<T>|
                    c.at() == time && c.owner() == self.node() && later.pending()
                        == #[trigger] self.pending().insert(c)
            },
        ensures
            self.kept_in(later, before, after),
    {
        if !self.awaits(time) {
            let c = choose|c: Capability<T>|
                c.at() == time && c.owner() == self.node() && later.pending()
                    == #[trigger] self.pending().insert(c);
            assert(later.pending().contains(c));
            assert(later.awaits(time));
            assert forall|t: T| #[trigger]
                after.held(self.node() as int).count(t) == before.held(self.node() as int).count(
                    t,
                ) + (if later.awaits(t) && !self.awaits(t) {
                    1nat
                } else {
                    0nat
                }) by {
                if later.awaits(t) && !self.awaits(t) {
                    let d = choose|d: Capability<T>| later.pending().contains(d) && d.at() == t;
                    if d != c {
                        assert(self.pending().contains(d));
                    }
                }
                if self.awaits(t) {
                    let d = choose|d: Capability<T>| self.pending().contains(d) && d.at() == t;
                    assert(later.pending().contains(d));
                }
            }
        }
    }

    /// What two schedulings in a row keep, they keep together.
    proof fn lemma_kept_in_transitive(
        &self,
        middle: &Operator<T, D>,
        later: &Operator<T, D>,
        before: &Worker<T, D>,
        between: &Worker<T, D>,
        after: &Worker<T, D>,
    )
        requires
            middle.node() == self.node(),
            self.kept_in(middle, before, between),
            middle.kept_in(later, between, after),
        ensures
            self.kept_in(later, before, after),
    {
        assert forall|c: Capability<T>| self.pending().contains(c) implies #[trigger] later.pending().contains(
            c,
        ) by {
            assert(middle.pending().contains(c));
        }
        assert forall|c: Capability<T>| #[trigger]
            later.pending().contains(c) && !self.pending().contains(c) implies c.owner()
            == self.node() && !self.awaits(c.at()) by {
            if middle.pending().contains(c) {
            } else {
                assert(!middle.awaits(c.at()));
                if self.awaits(c.at()) {
                    let d = choose|d: Capability<T>|
                        self.pending().contains(d) && d.at() == c.at();
                    assert(middle.pending().contains(d));
                }
            }
        }
        assert forall|t: T| #[trigger]
            after.held(self.node() as int).count(t) == before.held(self.node() as int).count(t) + (
            if later.awaits(t) && !self.awaits(t) {
                1nat
            } else {
                0nat
            }) by {
            let n = self.node() as int;
            assert(between.held(n).count(t) == before.held(n).count(t) + (if middle.awaits(t)
                && !self.awaits(t) {
                1nat
            } else {
                0nat
            }));
            assert(after.held(n).count(t) == between.held(n).count(t) + (if later.awaits(t)
                && !middle.awaits(t) {
                1nat
            } else {
                0nat
            }));
            if self.awaits(t) {
                let d = choose|d: Capability<T>| self.pending().contains(d) && d.at() == t;
                assert(middle.pending().contains(d));
                assert(later.pending().contains(d));
            }
            if middle.awaits(t) {
                let d = choose|d: Capability<T>| middle.pending().contains(d) && d.at() == t;
                assert(later.pending().contains(d));
            }
        }
    }

    /// Where nothing happens, everything is kept.
    proof fn lemma_kept_in_self(&self, worker: &Worker<T, D>)
        ensures
            self.kept_in(self, worker, worker),
    {
    }

    /// The first part of a scheduling: takes every batch that waits for
    /// this instance at an input of the operator, input by input, and puts
    /// its records with those held back for its time. Each time that is
    /// held back anew is kept open by one capability. Says whether there
    /// was any batch to take. Refused where the graph has no such operator,
    /// or the operator is one that the worker runs itself.
    pub fn drain(&mut self, worker: &mut Worker<T, D>) -> (r: Result<bool, ProtocolViolation>)
        requires
            old(self).wf(),
            old(worker).wf(),
        ensures
            final(self).wf(),
            final(self).node() == old(self).node(),
            final(self).instance() == old(self).instance(),
            final(worker).wf(),
            final(worker).topology() == old(worker).topology(),
            final(worker).peers() == old(worker).peers(),
            final(worker).advanced_from(old(worker)),
            r is Ok <==> old(worker).drives(old(self).node() as int),
            match r {
                Ok(taken) => {
                    let node = old(self).node() as int;
                    &&& final(worker).same_held_but(old(worker), node)
                    &&& forall|b: int, p: int|
                        old(worker).has_input(b, p) ==> #[trigger] final(worker).queue(b, p) == (
                        if b == node {
                            left_for_others(old(worker).queue(b, p), old(self).instance())
                        } else {
                            old(worker).queue(b, p)
                        })
                    &&& final(self).buffered() == absorbing_inputs(
                        old(self).buffered(),
                        old(worker),
                        node,
                        old(worker).nodes()[node].sources@.len(),
                        old(self).instance(),
                    )
                    &&& old(self).kept_in(final(self), old(worker), final(worker))
                    &&& taken == exists|p: int|
                        old(worker).has_input(node, p) && first_for(
                            #[trigger] old(worker).queue(node, p),
                            old(self).instance(),
                        ) is Some
                },
                Err(e) => {
                    &&& e == ProtocolViolation::UnknownEndpoint
                    &&& final(worker).unchanged_from(old(worker))
                    &&& final(self).pending() == old(self).pending()
                    &&& final(self).buffered() == old(self).buffered()
                },
            },
    {
        if !worker.is_driven(self.node) {
            proof {
                worker.lemma_unchanged_is_advance(old(worker));
            }
            return Err(ProtocolViolation::UnknownEndpoint);
        }
        let ghost node = self.node as int;
        let ghost instance = self.instance;
        let inputs = worker.inputs(self.node);
        let mut taken = false;
        let mut p: usize = 0;
        proof {
            worker.lemma_unchanged_is_advance(old(worker));
            self.lemma_kept_in_self(worker);
        }
        while p < inputs
            invariant
                self.wf(),
                self.node == old(self).node,
                self.instance == old(self).instance,
                node == self.node,
                instance == self.instance,
                worker.wf(),
                worker.topology() == old(worker).topology(),
                worker.peers() == old(worker).peers(),
                worker.advanced_from(old(worker)),
                worker.drives(node),
                worker.same_held_but(old(worker), node),
                old(self).kept_in(self, old(worker), worker),
                p <= inputs,
                forall|input: int| 0 <= input < inputs <==> worker.has_input(node, input),
                inputs == worker.nodes()[node].sources@.len(),
                forall|b: int, q: int|
                    old(worker).has_input(b, q) ==> #[trigger] worker.queue(b, q) == (if b == node
                        && q < p {
                        left_for_others(old(worker).queue(b, q), instance)
                    } else {
                        old(worker).queue(b, q)
                    }),
                self.buffered() == absorbing_inputs(
                    old(self).buffered(),
                    old(worker),
                    node,
                    p as nat,
                    instance,
                ),
                taken == exists|q: int|
                    0 <= q < p && first_for(#[trigger] old(worker).queue(node, q), instance) is Some,
            decreases inputs - p,
        {
            let ghost before = *worker;
            let ghost mine = *self;
            assert(worker.has_input(node, p as int));
            let some = self.drain_input(worker, p);
            proof {
                worker.lemma_advanced_from_transitive(&before, old(worker));
                old(self).lemma_kept_in_transitive(&mine, self, old(worker), &before, worker);
                assert(before.queue(node, p as int) == old(worker).queue(node, p as int));
                assert forall|a: int|
                    0 <= a < worker.nodes().len() && a != node implies #[trigger] worker.held(a)
                    == old(worker).held(a) by {
                    assert(before.held(a) == old(worker).held(a));
                }
                assert forall|b: int, q: int| old(worker).has_input(b, q) implies #[trigger] worker.queue(
                    b,
                    q,
                ) == (if b == node && q < p + 1 {
                    left_for_others(old(worker).queue(b, q), instance)
                } else {
                    old(worker).queue(b, q)
                }) by {
                    if !(b == node && q == p) {
                        assert(worker.queue(b, q) == before.queue(b, q));
                    }
                }
                if some {
                    assert(first_for(old(worker).queue(node, p as int), instance) is Some);
                }
            }
            if some {
                taken = true;
            }
            p += 1;
        }
        Ok(taken)
    }
}

/// Among batches with one batch for each time, those that remain hold one
/// batch for each time, are the batches for times that are not done, and
/// keep for each of those times the records that were there.
pub proof fn lemma_remaining_is_rest<T, D>(batches: Seq<(T, Seq<D>)>, done: spec_fn(T) -> bool)
    requires
        one_batch_per_time(batches),
    ensures
        one_batch_per_time(remaining(batches, done)),
        forall|k: int|
            0 <= k < remaining(batches, done).len() ==> !done(
                (#[trigger] remaining(batches, done)[k]).0,
            ) && batches.contains(remaining(batches, done)[k]),
        forall|k: int|
            0 <= k < batches.len() && !done((#[trigger] batches[k]).0) ==> remaining(
                batches,
                done,
            ).contains(batches[k]),
    decreases batches.len(),
{
    if batches.len() > 0 {
        let shorter = batches.drop_last();
        assert forall|i: int, j: int|
            0 <= i < shorter.len() && 0 <= j < shorter.len() && (#[trigger] shorter[i]).0 == (
            #[trigger] shorter[j]).0 implies i == j by {
            assert(shorter[i] == batches[i]);
            assert(shorter[j] == batches[j]);
        }
        lemma_remaining_is_rest(shorter, done);
        let rest = remaining(shorter, done);
        let now = remaining(batches, done);
        assert forall|k: int| 0 <= k < rest.len() implies batches.contains(#[trigger] rest[k]) by {
            assert(shorter.contains(rest[k]));
            let m = choose|m: int| 0 <= m < shorter.len() && shorter[m] == rest[k];
            assert(batches[m] == rest[k]);
        }
        assert forall|k: int| 0 <= k < now.len() implies !done((#[trigger] now[k]).0)
            && batches.contains(now[k]) by {
            if k < rest.len() {
                assert(now[k] == rest[k]);
            } else {
                assert(now[k] == batches[batches.len() - 1]);
            }
        }
        assert forall|k: int| 0 <= k < batches.len() && !done((#[trigger] batches[k]).0)
            implies now.contains(batches[k]) by {
            if k < shorter.len() {
                assert(shorter[k] == batches[k]);
                assert(rest.contains(shorter[k]));
                let m = choose|m: int| 0 <= m < rest.len() && rest[m] == shorter[k];
                assert(now[m] == batches[k]);
            } else {
                assert(now[now.len() - 1] == batches[k]);
            }
        }
        assert forall|i: int, j: int|
            0 <= i < now.len() && 0 <= j < now.len() && (#[trigger] now[i]).0 == (
            #[trigger] now[j]).0 implies i == j by {
            if i < rest.len() && j < rest.len() {
                assert(now[i] == rest[i]);
                assert(now[j] == rest[j]);
            } else if i < rest.len() {
                assert(now[i] == rest[i]);
                assert(shorter.contains(rest[i]));
                let m = choose|m: int| 0 <= m < shorter.len() && shorter[m] == rest[i];
                assert(batches[m].0 == batches[batches.len() - 1].0);
            } else if j < rest.len() {
                assert(now[j] == rest[j]);
                assert(shorter.contains(rest[j]));
                let m = choose|m: int| 0 <= m < shorter.len() && shorter[m] == rest[j];
                assert(batches[m].0 == batches[batches.len() - 1].0);
            }
        }
    }
}

/// Where no time is done, every batch remains.
proof fn lemma_remaining_of_none<T, D>(batches: Seq<(T, Seq<D>)>)
    ensures
        remaining(batches, |t: T| false) == batches,
    decreases batches.len(),
{
    if batches.len() > 0 {
        lemma_remaining_of_none(batches.drop_last());
        assert(batches.drop_last().push(batches.last()) =~= batches);
    }
}

/// Which batches remain depends only on which of their own times are done.
proof fn lemma_remaining_agrees<T, D>(
    batches: Seq<(T, Seq<D>)>,
    one: spec_fn(T) -> bool,
    other: spec_fn(T) -> bool,
)
    requires
        forall|k: int| 0 <= k < batches.len() ==> one((#[trigger] batches[k]).0) == other(
            batches[k].0,
        ),
    ensures
        remaining(batches, one) == remaining(batches, other),
    decreases batches.len(),
{
    if batches.len() > 0 {
        let shorter = batches.drop_last();
        assert forall|k: int| 0 <= k < shorter.len() implies one((#[trigger] shorter[k]).0)
            == other(shorter[k].0) by {
            assert(shorter[k] == batches[k]);
        }
        lemma_remaining_agrees(shorter, one, other);
        assert(one(batches[batches.len() - 1].0) == other(batches[batches.len() - 1].0));
    }
}

/// A time that is not done keeps its batch, at the position that
/// `position_of` names among those that remain.
proof fn lemma_remaining_keeps<T, D>(batches: Seq<(T, Seq<D>)>, done: spec_fn(T) -> bool, time: T)
    requires
        one_batch_per_time(batches),
        !done(time),
    ensures
        position_of(batches, time) is Some <==> position_of(remaining(batches, done), time) is Some,
        position_of(batches, time) is Some ==> remaining(batches, done)[position_of(
            remaining(batches, done),
            time,
        ).unwrap()] == batches[position_of(batches, time).unwrap()],
{
    lemma_remaining_is_rest(batches, done);
    position_of_finds(batches, time);
    position_of_finds(remaining(batches, done), time);
    let rest = remaining(batches, done);
    if position_of(batches, time) is Some {
        let j = position_of(batches, time).unwrap();
        assert(rest.contains(batches[j]));
        let m = choose|m: int| 0 <= m < rest.len() && rest[m] == batches[j];
        assert(rest[m].0 == time);
        let p = position_of(rest, time).unwrap();
        assert(rest[p].0 == rest[m].0);
    }
    if position_of(rest, time) is Some {
        let p = position_of(rest, time).unwrap();
        assert(batches.contains(rest[p]));
        let m = choose|m: int| 0 <= m < batches.len() && batches[m] == rest[p];
        assert(batches[m].0 == time);
    }
}

/// Taking the batch of one more time away from those that remain gives what
/// remains when that time is done as well.
proof fn lemma_remaining_without<T, D>(
    batches: Seq<(T, Seq<D>)>,
    done: spec_fn(T) -> bool,
    more: spec_fn(T) -> bool,
    time: T,
)
    requires
        one_batch_per_time(batches),
        !done(time),
        forall|t: T| #[trigger] more(t) == (done(t) || t == time),
    ensures
        remaining(batches, more) == (match position_of(remaining(batches, done), time) {
            Some(i) => remaining(batches, done).remove(i),
            None => remaining(batches, done),
        }),
    decreases batches.len(),
{
    if batches.len() > 0 {
        let shorter = batches.drop_last();
        let last = batches.last();
        assert forall|i: int, j: int|
            0 <= i < shorter.len() && 0 <= j < shorter.len() && (#[trigger] shorter[i]).0 == (
            #[trigger] shorter[j]).0 implies i == j by {
            assert(shorter[i] == batches[i]);
            assert(shorter[j] == batches[j]);
        }
        lemma_remaining_without(shorter, done, more, time);
        lemma_remaining_is_rest(shorter, done);
        let rest = remaining(shorter, done);
        let now = remaining(batches, done);
        position_of_finds(rest, time);
        position_of_finds(now, time);
        assert(more(last.0) == (done(last.0) || last.0 == time));
        if done(last.0) {
        } else if last.0 == time {
            // No earlier batch is for this time.
            if position_of(rest, time) is Some {
                let p = position_of(rest, time).unwrap();
                assert(shorter.contains(rest[p]));
                let m = choose|m: int| 0 <= m < shorter.len() && shorter[m] == rest[p];
                assert(batches[m].0 == batches[batches.len() - 1].0);
            }
            assert(now == rest.push(last));
            assert(now[rest.len() as int].0 == time);
            let i = position_of(now, time).unwrap();
            if i < rest.len() {
                assert(now[i] == rest[i]);
                assert(rest[i].0 == time);
            }
            assert(now.remove(rest.len() as int) =~= rest);
        } else {
            assert(now == rest.push(last));
            match position_of(rest, time) {
                Some(i) => {
                    assert(now[i] == rest[i]);
                    let j = position_of(now, time).unwrap();
                    if j < i {
                        assert(rest[j] == now[j]);
                    }
                    if j > i {
                        assert(now[i].0 == time);
                    }
                    assert(now.remove(i) =~= rest.remove(i).push(last));
                },
                None => {
                    if position_of(now, time) is Some {
                        let j = position_of(now, time).unwrap();
                        if j < rest.len() {
                            assert(rest[j] == now[j]);
                        }
                    }
                },
            }
        }
    }
}

} // verus!
