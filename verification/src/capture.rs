//! Capture and extract: taking a finite stream out of a dataflow as a log of
//! events, and reading the log back as the batches of each time.

use crate::capability::Capability;
use crate::frontier::Antichain;
use crate::order::{same_time, Timestamp};
use crate::vectors::reversed;
use crate::violation::ProtocolViolation;
use crate::worker::{addressed, copy_of, delivered_each, first_for, Message, Worker};
use vstd::prelude::*;

verus! {

/// One event in the life of a captured stream.
pub enum Event<T, D> {
    /// The number of records that may still come changed, time by time.
    Progress(Vec<(T, i64)>),
    /// A batch of records arrived at a time.
    Messages(T, Vec<D>),
}

/// What an event says, as plain values.
pub ghost enum Entry<T, D> {
    Progress(Seq<(T, i64)>),
    Messages(T, Seq<D>),
}

impl<T, D> View for Event<T, D> {
    type V = Entry<T, D>;

    open spec fn view(&self) -> Entry<T, D> {
        match *self {
            Event::Progress(updates) => Entry::Progress(updates@),
            Event::Messages(time, data) => Entry::Messages(time, data@),
        }
    }
}

/// The first position in `batches` that is for `time`, if there is one.
pub open spec fn position_of<T, D>(batches: Seq<(T, Seq<D>)>, time: T) -> Option<int>
    decreases batches.len(),
{
    if batches.len() == 0 {
        None
    } else {
        match position_of(batches.drop_last(), time) {
            Some(i) => Some(i),
            None => if batches.last().0 == time {
                Some(batches.len() - 1)
            } else {
                None
            },
        }
    }
}

/// `batches` with `data` added at `time`: at the end of the batch for that
/// time where there is one, and as a new last batch otherwise.
pub open spec fn absorbed<T, D>(batches: Seq<(T, Seq<D>)>, time: T, data: Seq<D>) -> Seq<
    (T, Seq<D>),
> {
    match position_of(batches, time) {
        Some(i) => batches.update(i, (time, batches[i].1 + data)),
        None => batches.push((time, data)),
    }
}

/// The batches that a log holds: for each time the records that arrived at
/// it, in the order of their arrival; the times in the order in which each
/// was first seen. Progress events carry no records.
pub open spec fn collected<T, D>(log: Seq<Entry<T, D>>) -> Seq<(T, Seq<D>)>
    decreases log.len(),
{
    if log.len() == 0 {
        Seq::empty()
    } else {
        match log.last() {
            Entry::Progress(_) => collected(log.drop_last()),
            Entry::Messages(time, data) => absorbed(collected(log.drop_last()), time, data),
        }
    }
}

/// The log of a stream that delivers `batches` one after the other.
pub open spec fn replayed<T, D>(batches: Seq<(T, Seq<D>)>) -> Seq<Entry<T, D>> {
    Seq::new(batches.len(), |i: int| Entry::Messages(batches[i].0, batches[i].1))
}

/// No two batches are for the same time.
pub open spec fn one_batch_per_time<T, D>(batches: Seq<(T, Seq<D>)>) -> bool {
    forall|i: int, j: int|
        0 <= i < batches.len() && 0 <= j < batches.len() && (#[trigger] batches[i]).0 == (
        #[trigger] batches[j]).0 ==> i == j
}

/// `position_of` finds a batch for `time` exactly where there is one.
pub proof fn position_of_finds<T, D>(batches: Seq<(T, Seq<D>)>, time: T)
    ensures
        match position_of(batches, time) {
            Some(i) => 0 <= i < batches.len() && batches[i].0 == time && forall|k: int|
                0 <= k < i ==> (#[trigger] batches[k]).0 != time,
            None => forall|k: int| 0 <= k < batches.len() ==> (#[trigger] batches[k]).0 != time,
        },
    decreases batches.len(),
{
    if batches.len() > 0 {
        position_of_finds(batches.drop_last(), time);
        assert forall|k: int| 0 <= k < batches.len() - 1 implies batches.drop_last()[k]
            == batches[k] by {}
        match position_of(batches.drop_last(), time) {
            Some(i) => {
                assert(batches.drop_last()[i] == batches[i]);
                assert forall|k: int| 0 <= k < i implies (#[trigger] batches[k]).0 != time by {
                    assert(batches.drop_last()[k] == batches[k]);
                }
            },
            None => {
                assert forall|k: int| 0 <= k < batches.len() - 1 implies (#[trigger] batches[k]).0
                    != time by {
                    assert(batches.drop_last()[k] == batches[k]);
                }
            },
        }
    }
}

/// Adding records never gives a time a second batch.
pub proof fn absorbed_keeps_one_batch_per_time<T, D>(
    batches: Seq<(T, Seq<D>)>,
    time: T,
    data: Seq<D>,
)
    requires
        one_batch_per_time(batches),
    ensures
        one_batch_per_time(absorbed(batches, time, data)),
{
    position_of_finds(batches, time);
    let after = absorbed(batches, time, data);
    assert forall|i: int, j: int|
        0 <= i < after.len() && 0 <= j < after.len() && (#[trigger] after[i]).0 == (
        #[trigger] after[j]).0 implies i == j by {
        match position_of(batches, time) {
            Some(p) => {
                assert(after[i].0 == batches[i].0);
                assert(after[j].0 == batches[j].0);
            },
            None => {
                if i < batches.len() && j < batches.len() {
                    assert(after[i] == batches[i]);
                    assert(after[j] == batches[j]);
                } else if i < batches.len() {
                    assert(after[i] == batches[i]);
                } else if j < batches.len() {
                    assert(after[j] == batches[j]);
                }
            },
        }
    }
}

/// What is read back from a log has one batch for each time.
pub proof fn collected_has_one_batch_per_time<T, D>(log: Seq<Entry<T, D>>)
    ensures
        one_batch_per_time(collected(log)),
    decreases log.len(),
{
    if log.len() > 0 {
        collected_has_one_batch_per_time(log.drop_last());
        match log.last() {
            Entry::Progress(_) => {},
            Entry::Messages(time, data) => {
                absorbed_keeps_one_batch_per_time(collected(log.drop_last()), time, data);
            },
        }
    }
}

/// Capture and extract round-trip: a stream that delivers one batch for each
/// of its times is read back from its log exactly as it was.
pub proof fn capture_round_trip<T, D>(batches: Seq<(T, Seq<D>)>)
    requires
        one_batch_per_time(batches),
    ensures
        collected(replayed(batches)) == batches,
    decreases batches.len(),
{
    let log = replayed(batches);
    if batches.len() == 0 {
        assert(collected(log) =~= batches);
    } else {
        let shorter = batches.drop_last();
        assert(log.drop_last() =~= replayed(shorter));
        assert forall|i: int, j: int|
            0 <= i < shorter.len() && 0 <= j < shorter.len() && (#[trigger] shorter[i]).0 == (
            #[trigger] shorter[j]).0 implies i == j by {
            assert(shorter[i] == batches[i]);
            assert(shorter[j] == batches[j]);
        }
        capture_round_trip(shorter);
        position_of_finds(shorter, batches.last().0);
        if position_of(shorter, batches.last().0) is Some {
            let p = position_of(shorter, batches.last().0).unwrap();
            assert(shorter[p] == batches[p]);
            assert(batches[p].0 == batches[batches.len() - 1].0);
        }
        assert(log.last() == Entry::Messages(batches.last().0, batches.last().1));
        assert(collected(log) =~= batches);
    }
}

/// Reading back is stable: replaying what was read from a log and reading
/// again gives the same batches.
pub proof fn extract_is_idempotent<T, D>(log: Seq<Entry<T, D>>)
    ensures
        collected(replayed(collected(log))) == collected(log),
{
    collected_has_one_batch_per_time(log);
    capture_round_trip(collected(log));
}

/// The batches of a vector as plain values.
pub open spec fn batches_of<T, D>(v: Seq<(T, Vec<D>)>) -> Seq<(T, Seq<D>)> {
    Seq::new(v.len(), |i: int| (v[i].0, v[i].1@))
}

/// The events of a vector as plain values.
pub open spec fn entries_of<T, D>(v: Seq<Event<T, D>>) -> Seq<Entry<T, D>> {
    Seq::new(v.len(), |i: int| v[i]@)
}

/// By how much `updates` change the number of times that `time` counts.
pub open spec fn net<T>(updates: Seq<(T, i64)>, time: T) -> int
    decreases updates.len(),
{
    if updates.len() == 0 {
        0
    } else {
        net(updates.drop_last(), time) + (if updates.last().0 == time {
            updates.last().1 as int
        } else {
            0
        })
    }
}

/// How often `time` counts at the end of a log: the sum of what the
/// progress events of the log say of it.
pub open spec fn tally<T, D>(log: Seq<Entry<T, D>>, time: T) -> int
    decreases log.len(),
{
    if log.len() == 0 {
        0
    } else {
        tally(log.drop_last(), time) + (match log.last() {
            Entry::Progress(updates) => net(updates, time),
            Entry::Messages(_, _) => 0,
        })
    }
}

/// One where `time` is in `frontier`, and zero where it is not.
pub open spec fn shows<T>(frontier: Set<T>, time: T) -> int {
    if frontier.contains(time) {
        1
    } else {
        0
    }
}

/// The log of a captured stream: the batches that arrived, and how the
/// frontier of the stream moved.
pub struct Capture<T: Timestamp, D> {
    events: Vec<Event<T, D>>,
    seen: Antichain<T>,
}

impl<T: Timestamp, D> View for Capture<T, D> {
    type V = Seq<Entry<T, D>>;

    /// The events in the order in which they were recorded.
    closed spec fn view(&self) -> Seq<Entry<T, D>> {
        entries_of(self.events@)
    }
}

impl<T: Timestamp, D> Capture<T, D> {
    /// The frontier of the stream when the log last looked at it.
    pub closed spec fn frontier(&self) -> Set<T> {
        self.seen@
    }

    /// The frontier that the log keeps is an antichain.
    pub closed spec fn wf(&self) -> bool {
        self.seen.wf()
    }

    /// The frontier can be read back from the progress events of the log:
    /// a time counts once where it is in the frontier, and not at all where
    /// it is not.
    pub open spec fn tallied(&self) -> bool {
        forall|t: T| #[trigger] tally(self@, t) == shows(self.frontier(), t)
    }

    /// An empty log, of a stream of which nothing has been seen.
    pub fn new() -> (log: Capture<T, D>)
        ensures
            log.wf(),
            log.tallied(),
            log@ == Seq::<Entry<T, D>>::empty(),
            log.frontier() == Set::<T>::empty(),
    {
        let log = Capture { events: Vec::new(), seen: Antichain::new() };
        assert(log@ =~= Seq::<Entry<T, D>>::empty());
        log
    }

    /// Looks at the frontier of the stream, and records how it has moved
    /// since the log last looked: every time that has left the frontier
    /// counts once less, and every time that has entered it once more.
    /// Nothing is recorded where the frontier is the same. Says whether the
    /// frontier has moved.
    pub fn watch(&mut self, frontier: &Antichain<T>) -> (moved: bool)
        requires
            old(self).wf(),
            frontier.wf(),
        ensures
            final(self).wf(),
            final(self).frontier() == frontier@,
            moved == (frontier@ != old(self).frontier()),
            old(self).tallied() ==> final(self).tallied(),
            if moved {
                &&& final(self)@.len() == old(self)@.len() + 1
                &&& final(self)@.drop_last() == old(self)@
                &&& final(self)@.last() matches Entry::Progress(updates)
                &&& forall|t: T| #[trigger]
                    net(updates, t) == shows(frontier@, t) - shows(old(self).frontier(), t)
            } else {
                final(self)@ == old(self)@
            },
    {
        let was = self.seen.elements();
        let now = frontier.elements();
        let mut updates: Vec<(T, i64)> = Vec::new();
        let mut i: usize = 0;
        while i < was.len()
            invariant
                i <= was@.len(),
                was@.no_duplicates(),
                was@.to_set() == self.seen@,
                (updates@.len() == 0) == (forall|k: int|
                    0 <= k < i ==> frontier@.contains(#[trigger] was@[k])),
                forall|t: T| #[trigger]
                    net(updates@, t) == (if was@.take(i as int).contains(t) && !frontier@.contains(
                        t,
                    ) {
                        -1int
                    } else {
                        0int
                    }),
            decreases was@.len() - i,
        {
            let ghost before = updates@;
            let e = was[i];
            let gone = !frontier.contains(&e);
            if gone {
                updates.push((e, -1));
            }
            proof {
                let head = was@.take(i as int);
                let next = was@.take(i + 1);
                assert(next =~= head.push(e));
                assert(!head.contains(e)) by {
                    if head.contains(e) {
                        let k = choose|k: int| 0 <= k < head.len() && head[k] == e;
                        assert(was@[k] == was@[i as int]);
                    }
                }
                assert forall|t: T| #[trigger]
                    net(updates@, t) == (if next.contains(t) && !frontier@.contains(t) {
                        -1int
                    } else {
                        0int
                    }) by {
                    let so_far = net(before, t);
                    if gone {
                        assert(updates@.drop_last() =~= before);
                        assert(updates@.last() == (e, -1i64));
                    } else {
                        assert(updates@ == before);
                    }
                    if next.contains(t) {
                        let k = choose|k: int| 0 <= k < next.len() && next[k] == t;
                        if k < i {
                            assert(head[k] == t);
                        }
                    }
                    if head.contains(t) {
                        let k = choose|k: int| 0 <= k < head.len() && head[k] == t;
                        assert(next[k] == t);
                    }
                    if t == e {
                        assert(next[i as int] == e);
                    }
                }
            }
            i += 1;
        }
        let ghost left = updates@;
        let mut j: usize = 0;
        proof {
            assert(was@.take(i as int) =~= was@);
        }
        while j < now.len()
            invariant
                j <= now@.len(),
                now@.no_duplicates(),
                now@.to_set() == frontier@,
                was@.to_set() == self.seen@,
                (left.len() == 0) == (forall|k: int|
                    0 <= k < was@.len() ==> frontier@.contains(#[trigger] was@[k])),
                (updates@.len() == 0) == (left.len() == 0 && forall|k: int|
                    0 <= k < j ==> self.seen@.contains(#[trigger] now@[k])),
                forall|t: T| #[trigger]
                    net(updates@, t) == (if was@.contains(t) && !frontier@.contains(t) {
                        -1int
                    } else {
                        0int
                    }) + (if now@.take(j as int).contains(t) && !self.seen@.contains(t) {
                        1int
                    } else {
                        0int
                    }),
            decreases now@.len() - j,
        {
            let ghost before = updates@;
            let e = now[j];
            let fresh = !self.seen.contains(&e);
            if fresh {
                updates.push((e, 1));
            }
            proof {
                let head = now@.take(j as int);
                let next = now@.take(j + 1);
                assert(next =~= head.push(e));
                assert(!head.contains(e)) by {
                    if head.contains(e) {
                        let k = choose|k: int| 0 <= k < head.len() && head[k] == e;
                        assert(now@[k] == now@[j as int]);
                    }
                }
                assert forall|t: T| #[trigger]
                    net(updates@, t) == (if was@.contains(t) && !frontier@.contains(t) {
                        -1int
                    } else {
                        0int
                    }) + (if next.contains(t) && !self.seen@.contains(t) {
                        1int
                    } else {
                        0int
                    }) by {
                    let so_far = net(before, t);
                    if fresh {
                        assert(updates@.drop_last() =~= before);
                        assert(updates@.last() == (e, 1i64));
                    } else {
                        assert(updates@ == before);
                    }
                    if next.contains(t) {
                        let k = choose|k: int| 0 <= k < next.len() && next[k] == t;
                        if k < j {
                            assert(head[k] == t);
                        }
                    }
                    if head.contains(t) {
                        let k = choose|k: int| 0 <= k < head.len() && head[k] == t;
                        assert(next[k] == t);
                    }
                    if t == e {
                        assert(next[j as int] == e);
                    }
                }
            }
            j += 1;
        }
        proof {
            assert(now@.take(j as int) =~= now@);
            assert forall|t: T| #[trigger]
                net(updates@, t) == shows(frontier@, t) - shows(self.seen@, t) by {
                assert(was@.contains(t) == self.seen@.contains(t));
                assert(now@.contains(t) == frontier@.contains(t));
            }
            if updates@.len() == 0 {
                assert(frontier@ =~= self.seen@) by {
                    assert forall|t: T| frontier@.contains(t) <==> self.seen@.contains(t) by {
                        if frontier@.contains(t) {
                            assert(now@.contains(t));
                            let k = choose|k: int| 0 <= k < now@.len() && now@[k] == t;
                            assert(self.seen@.contains(now@[k]));
                        }
                        if self.seen@.contains(t) && !frontier@.contains(t) {
                            assert(net(updates@, t) == -1);
                        }
                    }
                }
            } else {
                if left.len() > 0 {
                    let k = choose|k: int|
                        0 <= k < was@.len() && !frontier@.contains(#[trigger] was@[k]);
                    assert(self.seen@.contains(was@[k]));
                } else {
                    let k = choose|k: int|
                        0 <= k < now@.len() && !self.seen@.contains(#[trigger] now@[k]);
                    assert(frontier@.contains(now@[k]));
                }
            }
        }
        if updates.len() == 0 {
            return false;
        }
        let ghost recorded = updates@;
        self.events.push(Event::Progress(updates));
        self.seen = frontier.duplicate();
        proof {
            assert(self@ =~= old(self)@.push(Entry::Progress(recorded)));
            assert(self@.drop_last() =~= old(self)@);
            if old(self).tallied() {
                assert forall|t: T| #[trigger] tally(self@, t) == shows(self.frontier(), t) by {
                    assert(tally(old(self)@, t) == shows(old(self).frontier(), t));
                    assert(net(recorded, t) == shows(frontier@, t) - shows(old(self).seen@, t));
                }
            }
        }
        true
    }

    /// The number of recorded events.
    pub fn len(&self) -> (n: usize)
        ensures
            n == self@.len(),
    {
        self.events.len()
    }

    /// The frontier of the stream when the log last looked at it.
    pub fn last_frontier(&self) -> (f: Antichain<T>)
        ensures
            f@ == self.frontier(),
            self.wf() ==> f.wf(),
    {
        self.seen.duplicate()
    }

    /// The events of the log, in the order in which they were recorded.
    pub fn into_events(self) -> (events: Vec<Event<T, D>>)
        ensures
            entries_of(events@) == self@,
    {
        self.events
    }

    /// Records that `data` arrived at `time`.
    pub fn record_messages(&mut self, time: T, data: Vec<D>)
        ensures
            final(self)@ == old(self)@.push(Entry::Messages(time, data@)),
            final(self).frontier() == old(self).frontier(),
            final(self).wf() == old(self).wf(),
            old(self).tallied() ==> final(self).tallied(),
    {
        self.events.push(Event::Messages(time, data));
        proof {
            assert(self@ =~= old(self)@.push(Entry::Messages(time, data@)));
            assert(self@.drop_last() =~= old(self)@);
            if old(self).tallied() {
                assert forall|t: T| #[trigger] tally(self@, t) == shows(self.frontier(), t) by {
                    assert(tally(old(self)@, t) == shows(old(self).frontier(), t));
                }
            }
        }
    }

    /// Reads the log back: for each time the records that arrived at it, in
    /// the order of their arrival.
    pub fn extract(self) -> (batches: Vec<(T, Vec<D>)>)
        ensures
            batches_of(batches@) == collected(self@),
    {
        let ghost log = self@;
        let mut stack = reversed(self.events);
        let mut batches: Vec<(T, Vec<D>)> = Vec::new();
        while stack.len() > 0
            invariant
                stack@.len() <= log.len(),
                forall|k: int|
                    0 <= k < stack@.len() ==> (#[trigger] stack@[k])@ == log[log.len() - 1 - k],
                batches_of(batches@) == collected(log.take(log.len() - stack@.len())),
            decreases stack.len(),
        {
            let ghost done = log.len() - stack@.len();
            let event = stack.pop().unwrap();
            proof {
                assert(event@ == log[done]);
                assert(log.take(done + 1).drop_last() =~= log.take(done));
                assert(log.take(done + 1).last() == log[done]);
            }
            match event {
                Event::Progress(_) => {},
                Event::Messages(time, data) => {
                    absorb(&mut batches, time, data);
                },
            }
        }
        proof {
            assert(log.take(log.len() as int) =~= log);
        }
        batches
    }
}

impl<T: Timestamp, D> Capture<T, D> {
    /// Captures the oldest batch that waits for the instance `instance` at
    /// an input of an operator that the driving code runs: the batch is
    /// taken off the input and recorded at the end of the log, with its
    /// time. Says whether there was a batch to capture.
    pub fn take_from(
        &mut self,
        worker: &mut Worker<T, D>,
        node: usize,
        input: usize,
        instance: usize,
    ) -> (r: Result<bool, ProtocolViolation>)
        requires
            old(worker).wf(),
        ensures
            final(worker).wf(),
            final(worker).topology() == old(worker).topology(),
            final(worker).peers() == old(worker).peers(),
            final(worker).advanced_from(old(worker)),
            final(worker).same_held_but(old(worker), -1),
            final(worker).same_queues_but(old(worker), node as int, input as int),
            final(self).frontier() == old(self).frontier(),
            final(self).wf() == old(self).wf(),
            old(self).tallied() ==> final(self).tallied(),
            r is Ok <==> old(worker).driven_input(node as int, input as int),
            match r {
                Err(e) => {
                    &&& e == ProtocolViolation::UnknownEndpoint
                    &&& final(worker).unchanged_from(old(worker))
                    &&& final(self)@ == old(self)@
                },
                Ok(taken) => {
                    let queue = old(worker).queue(node as int, input as int);
                    match first_for(queue, instance) {
                        None => {
                            &&& !taken
                            &&& final(worker).unchanged_from(old(worker))
                            &&& final(self)@ == old(self)@
                        },
                        Some(i) => {
                            &&& taken
                            &&& final(worker).queue(node as int, input as int) == queue.remove(i)
                            &&& final(self)@ == old(self)@.push(
                                Entry::Messages(queue[i].time, queue[i].data@),
                            )
                        },
                    }
                },
            },
    {
        let pulled = match worker.next(node, input, instance) {
            Ok(pulled) => pulled,
            Err(e) => {
                return Err(e);
            },
        };
        let ghost pulling = *worker;
        match pulled {
            None => {
                proof {
                    assert forall|a: int| 0 <= a < worker.nodes().len() implies #[trigger] worker.held(
                        a,
                    ) == old(worker).held(a) by {}
                }
                Ok(false)
            },
            Some((cap, data)) => {
                self.record_messages(cap.time(), data);
                match worker.release(cap) {
                    Ok(_) => {},
                    Err(_) => {},
                }
                proof {
                    worker.lemma_capabilities_changed_after(&pulling, old(worker), node as int);
                    assert(worker.held(node as int) =~= old(worker).held(node as int));
                }
                Ok(true)
            },
        }
    }
}

/// `after` is `before` with one more batch for each of `batches` at its
/// end, in order: each is for the instance `instance` and the time of its
/// batch, and holds a clone of each of its records.
pub open spec fn replayed_into<T, D: Clone>(
    before: Seq<Message<T, D>>,
    after: Seq<Message<T, D>>,
    instance: usize,
    batches: Seq<(T, Seq<D>)>,
) -> bool {
    &&& after.len() == before.len() + batches.len()
    &&& after.take(before.len() as int) == before
    &&& forall|i: int|
        0 <= i < batches.len() ==> {
            &&& (#[trigger] after[before.len() + i]).time == batches[i].0
            &&& after[before.len() + i].worker == instance
            &&& copy_of(batches[i].1, after[before.len() + i].data@)
        }
}

/// Replays batches into a dataflow: each batch is sent at its time to the
/// instance `instance` of every consumer of the owner of `cap`, one after
/// the other. The capability must be live and for a time at or before
/// that of every batch, and the instance must exist; else nothing is sent.
pub fn replay<T: Timestamp, D: Clone>(
    batches: Vec<(T, Vec<D>)>,
    worker: &mut Worker<T, D>,
    cap: &Capability<T>,
    instance: usize,
) -> (r: Result<(), ProtocolViolation>)
    requires
        old(worker).wf(),
    ensures
        final(worker).wf(),
        final(worker).topology() == old(worker).topology(),
        final(worker).peers() == old(worker).peers(),
        final(worker).advanced_from(old(worker)),
        r is Ok <==> old(worker).holds(cap) && instance < old(worker).peers() && forall|i: int|
            0 <= i < batches@.len() ==> cap.at().leq((#[trigger] batches@[i]).0),
        match r {
            Ok(_) => {
                &&& final(worker).same_held_but(old(worker), -1)
                &&& forall|b: int, p: int|
                    old(worker).has_input(b, p) ==> if old(worker).nodes()[b].sources@[p] == Some(
                        cap.owner(),
                    ) {
                        replayed_into(
                            old(worker).queue(b, p),
                            #[trigger] final(worker).queue(b, p),
                            instance,
                            batches_of(batches@),
                        )
                    } else {
                        final(worker).queue(b, p) == old(worker).queue(b, p)
                    }
            },
            Err(e) => {
                &&& final(worker).unchanged_from(old(worker))
                &&& e == if !old(worker).holds(cap) {
                    ProtocolViolation::UnknownCapability
                } else if instance >= old(worker).peers() {
                    ProtocolViolation::UnknownEndpoint
                } else {
                    ProtocolViolation::TimeNotCovered
                }
            },
        },
{
    if !worker.is_live(cap) {
        proof {
            worker.lemma_unchanged_is_advance(old(worker));
        }
        return Err(ProtocolViolation::UnknownCapability);
    }
    if instance >= worker.instances() {
        proof {
            worker.lemma_unchanged_is_advance(old(worker));
        }
        return Err(ProtocolViolation::UnknownEndpoint);
    }
    let ghost given = batches_of(batches@);
    let mut stack = reversed(batches);
    let mut each: Vec<(T, usize, Vec<D>)> = Vec::new();
    while stack.len() > 0
        invariant
            stack@.len() <= given.len(),
            forall|k: int|
                0 <= k < stack@.len() ==> (#[trigger] stack@[k]).0 == given[given.len() - 1 - k].0
                    && stack@[k].1@ == given[given.len() - 1 - k].1,
            each@.len() == given.len() - stack@.len(),
            forall|i: int|
                0 <= i < each@.len() ==> (#[trigger] each@[i]).0 == given[i].0 && each@[i].1
                    == instance && each@[i].2@ == given[i].1,
        decreases stack.len(),
    {
        let (time, data) = stack.pop().unwrap();
        each.push((time, instance, data));
    }
    let ghost sent = addressed(each@);
    let r = worker.give_each(cap, each);
    proof {
        assert forall|i: int| 0 <= i < given.len() implies sent[i] == (
            given[i].0,
            instance,
            given[i].1,
        ) by {}
        if r is Ok {
            assert forall|i: int| 0 <= i < batches@.len() implies cap.at().leq(
                (#[trigger] batches@[i]).0,
            ) by {
                assert(each@[i].0 == given[i].0);
            }
            assert forall|b: int, p: int| old(worker).has_input(b, p) implies if old(
                worker,
            ).nodes()[b].sources@[p] == Some(cap.owner()) {
                replayed_into(
                    old(worker).queue(b, p),
                    #[trigger] worker.queue(b, p),
                    instance,
                    given,
                )
            } else {
                worker.queue(b, p) == old(worker).queue(b, p)
            } by {
                if old(worker).nodes()[b].sources@[p] == Some(cap.owner()) {
                    let start = old(worker).queue(b, p);
                    let end = worker.queue(b, p);
                    assert(delivered_each(start, end, sent));
                    assert forall|i: int| 0 <= i < given.len() implies {
                        &&& (#[trigger] end[start.len() + i]).time == given[i].0
                        &&& end[start.len() + i].worker == instance
                        &&& copy_of(given[i].1, end[start.len() + i].data@)
                    } by {
                        assert(sent[i] == (given[i].0, instance, given[i].1));
                    }
                }
            }
        } else {
            if forall|i: int| 0 <= i < batches@.len() ==> cap.at().leq((#[trigger] batches@[i]).0) {
                assert forall|i: int| 0 <= i < each@.len() implies cap.at().leq(
                    (#[trigger] each@[i]).0,
                ) && each@[i].1 < old(worker).peers() by {
                    assert(cap.at().leq(batches@[i].0));
                }
            }
        }
    }
    r
}

/// Puts `data` with the batches: at the end of the batch for `time` where
/// there is one, and as a new last batch otherwise.
pub fn absorb<T: Timestamp, D>(batches: &mut Vec<(T, Vec<D>)>, time: T, data: Vec<D>)
    ensures
        batches_of(final(batches)@) == absorbed(batches_of(old(batches)@), time, data@),
{
    let ghost prior = batches_of(batches@);
    let ghost added = data@;
    match find(batches, &time) {
        Some(i) => {
            let mut data = data;
            let ghost before = batches@;
            let mut batch: Vec<D> = Vec::new();
            std::mem::swap(&mut batch, &mut batches[i].1);
            batch.append(&mut data);
            batches[i].1 = batch;
            proof {
                position_of_finds(prior, time);
                assert(prior[i as int] == (before[i as int].0, before[i as int].1@));
                assert(batches@[i as int].0 == before[i as int].0);
                assert(batches@[i as int].1@ == before[i as int].1@ + added);
                assert forall|k: int| 0 <= k < batches@.len() && k != i implies batches@[k]
                    == before[k] by {}
                assert(batches_of(batches@) =~= absorbed(prior, time, added));
            }
        },
        None => {
            batches.push((time, data));
            proof {
                assert(batches_of(batches@) =~= absorbed(prior, time, added));
            }
        },
    }
}

/// The position of the batch for `time`, if there is one.
pub fn find<T: Timestamp, D>(batches: &Vec<(T, Vec<D>)>, time: &T) -> (at: Option<usize>)
    ensures
        match at {
            Some(i) => position_of(batches_of(batches@), *time) == Some(i as int) && i
                < batches.len(),
            None => position_of(batches_of(batches@), *time) is None,
        },
{
    let mut i: usize = 0;
    while i < batches.len()
        invariant
            i <= batches.len(),
            forall|k: int| 0 <= k < i ==> (#[trigger] batches_of(batches@)[k]).0 != *time,
        decreases batches.len() - i,
    {
        if same_time(&batches[i].0, time) {
            proof {
                assert(batches_of(batches@)[i as int].0 == *time);
                position_of_finds(batches_of(batches@), *time);
            }
            return Some(i);
        }
        i += 1;
    }
    proof {
        position_of_finds(batches_of(batches@), *time);
        if position_of(batches_of(batches@), *time) is Some {
            let p = position_of(batches_of(batches@), *time).unwrap();
            assert(batches_of(batches@)[p].0 == *time);
        }
    }
    None
}

} // verus!
