//! Capabilities: the tokens that permit an operator to send at a time.

use crate::frontier::{minimal, reaches, Antichain};
use crate::order::{same_time, Timestamp};
use crate::violation::ProtocolViolation;
use vstd::multiset::Multiset;
use vstd::prelude::*;

verus! {

/// The permission to send records at one time, or any later time, on one
/// output, and to be notified at that time.
///
/// A capability cannot be copied or made from nothing: the ledger of the
/// output issues it, clones it, downgrades it and takes it back. One that is
/// thrown away without being handed back stays live, and holds its time
/// open for ever.
pub struct Capability<T: Timestamp> {
    time: T,
    output: usize,
}

impl<T: Timestamp> Capability<T> {
    /// The time that this capability is for.
    pub closed spec fn at(&self) -> T {
        self.time
    }

    /// The output that issued this capability.
    pub closed spec fn owner(&self) -> usize {
        self.output
    }

    /// The time that this capability is for.
    pub fn time(&self) -> (t: T)
        ensures
            t == self.at(),
    {
        self.time
    }

    /// The output that issued this capability.
    pub fn output(&self) -> (o: usize)
        ensures
            o == self.owner(),
    {
        self.output
    }
}

/// One step in the life of the capabilities of an output.
pub enum CapabilityEvent<T> {
    /// A new capability is issued for a time.
    Issue(T),
    /// A live capability for a time is cloned.
    Clone(T),
    /// A live capability for the first time is replaced by one for the second.
    Downgrade(T, T),
    /// A live capability for a time is dropped.
    Drop(T),
}

/// Whether an event may happen when `held` are the live capabilities: only a
/// live capability can be cloned, downgraded or dropped, and a downgrade
/// never goes back in time.
pub open spec fn permitted<T: Timestamp>(held: Multiset<T>, event: CapabilityEvent<T>) -> bool {
    match event {
        CapabilityEvent::Issue(_) => true,
        CapabilityEvent::Clone(t) => held.count(t) > 0,
        CapabilityEvent::Downgrade(from, to) => held.count(from) > 0 && from.leq(to),
        CapabilityEvent::Drop(t) => held.count(t) > 0,
    }
}

/// The live capabilities after an event.
pub open spec fn applied<T: Timestamp>(held: Multiset<T>, event: CapabilityEvent<T>) -> Multiset<
    T,
> {
    match event {
        CapabilityEvent::Issue(t) => held.insert(t),
        CapabilityEvent::Clone(t) => held.insert(t),
        CapabilityEvent::Downgrade(from, to) => held.remove(from).insert(to),
        CapabilityEvent::Drop(t) => held.remove(t),
    }
}

/// The live capabilities after a history of events, starting with none.
pub open spec fn replay<T: Timestamp>(events: Seq<CapabilityEvent<T>>) -> Multiset<T>
    decreases events.len(),
{
    if events.len() == 0 {
        Multiset::empty()
    } else {
        applied(replay(events.drop_last()), events.last())
    }
}

/// Every event of the history was permitted when it happened.
pub open spec fn orderly<T: Timestamp>(events: Seq<CapabilityEvent<T>>) -> bool
    decreases events.len(),
{
    events.len() > 0 ==> orderly(events.drop_last()) && permitted(
        replay(events.drop_last()),
        events.last(),
    )
}

/// How many copies for `time` an event brings into being.
pub open spec fn gain<T: Timestamp>(event: CapabilityEvent<T>, time: T) -> nat {
    match event {
        CapabilityEvent::Issue(t) => if t == time { 1 } else { 0 },
        CapabilityEvent::Clone(t) => if t == time { 1 } else { 0 },
        CapabilityEvent::Downgrade(_, to) => if to == time { 1 } else { 0 },
        CapabilityEvent::Drop(_) => 0,
    }
}

/// How many copies for `time` a history has issued, by issue, clone or as
/// the target of a downgrade.
pub open spec fn issued<T: Timestamp>(events: Seq<CapabilityEvent<T>>, time: T) -> nat
    decreases events.len(),
{
    if events.len() == 0 {
        0
    } else {
        issued(events.drop_last(), time) + gain(events.last(), time)
    }
}

/// How many copies for `time` a history has dropped.
pub open spec fn dropped<T: Timestamp>(events: Seq<CapabilityEvent<T>>, time: T) -> nat
    decreases events.len(),
{
    if events.len() == 0 {
        0
    } else {
        dropped(events.drop_last(), time) + (match events.last() {
            CapabilityEvent::Drop(t) => if t == time { 1nat } else { 0nat },
            _ => 0nat,
        })
    }
}

/// How many copies for `time` a history has downgraded to another time.
pub open spec fn downgraded<T: Timestamp>(events: Seq<CapabilityEvent<T>>, time: T) -> nat
    decreases events.len(),
{
    if events.len() == 0 {
        0
    } else {
        downgraded(events.drop_last(), time) + (match events.last() {
            CapabilityEvent::Downgrade(from, _) => if from == time { 1nat } else { 0nat },
            _ => 0nat,
        })
    }
}

/// Capabilities are conserved: after any history in which every event was
/// permitted, the live copies for a time are those issued, less those
/// dropped, less those downgraded away. In particular no more are ever
/// dropped or downgraded than were issued.
pub proof fn conservation<T: Timestamp>(events: Seq<CapabilityEvent<T>>, time: T)
    requires
        orderly(events),
    ensures
        replay(events).count(time) == issued(events, time) - dropped(events, time) - downgraded(
            events,
            time,
        ),
        dropped(events, time) + downgraded(events, time) <= issued(events, time),
    decreases events.len(),
{
    if events.len() > 0 {
        conservation(events.drop_last(), time);
    }
}

/// The capabilities that are live for one output.
pub struct Ledger<T: Timestamp> {
    output: usize,
    held: Vec<T>,
}

impl<T: Timestamp> View for Ledger<T> {
    type V = Multiset<T>;

    /// The times of the live capabilities, each as often as it has copies.
    closed spec fn view(&self) -> Multiset<T> {
        self.held@.to_multiset()
    }
}

impl<T: Timestamp> Ledger<T> {
    /// The output whose capabilities this ledger keeps.
    pub closed spec fn id(&self) -> usize {
        self.output
    }

    /// Whether `cap` is one of the live capabilities of this ledger.
    pub open spec fn holds(&self, cap: &Capability<T>) -> bool {
        cap.owner() == self.id() && self@.count(cap.at()) > 0
    }

    /// A ledger for `output` with no capability live.
    pub fn new(output: usize) -> (ledger: Ledger<T>)
        ensures
            ledger.id() == output,
            ledger@ == Multiset::<T>::empty(),
    {
        let ledger = Ledger { output, held: Vec::new() };
        assert(ledger.held@.to_multiset() =~= Multiset::<T>::empty()) by {
            broadcast use vstd::seq_lib::group_to_multiset_ensures;
            assert(ledger.held@.to_multiset().len() == 0);
        }
        ledger
    }

    fn position(&self, time: &T) -> (at: Option<usize>)
        ensures
            match at {
                Some(i) => i < self.held.len() && self.held[i as int] == *time,
                None => self@.count(*time) == 0,
            },
            at is Some <==> self@.count(*time) > 0,
    {
        broadcast use vstd::seq_lib::group_to_multiset_ensures;

        let mut i: usize = 0;
        while i < self.held.len()
            invariant
                i <= self.held.len(),
                forall|k: int| 0 <= k < i ==> self.held[k] != *time,
            decreases self.held.len() - i,
        {
            if same_time(&self.held[i], time) {
                proof {
                    assert(self.held@[i as int] == *time);
                    assert(self.held@.contains(*time));
                    self.held@.to_multiset_ensures();
                }
                return Some(i);
            }
            i += 1;
        }
        proof {
            assert(!self.held@.contains(*time));
            self.held@.to_multiset_ensures();
        }
        None
    }

    /// How many capabilities are live for `time`.
    pub fn count(&self, time: &T) -> (n: usize)
        ensures
            n == self@.count(*time),
    {
        let mut n: usize = 0;
        let mut i: usize = 0;
        proof {
            broadcast use vstd::multiset::group_multiset_axioms;

            self.held@.take(0).to_multiset_ensures();
        }
        while i < self.held.len()
            invariant
                i <= self.held.len(),
                n <= i,
                n == self.held@.take(i as int).to_multiset().count(*time),
            decreases self.held.len() - i,
        {
            proof {
                self.held@.take(i as int).to_multiset_ensures();
                assert(self.held@.take(i + 1) =~= self.held@.take(i as int).push(
                    self.held@[i as int],
                ));
            }
            if same_time(&self.held[i], time) {
                n += 1;
            }
            i += 1;
        }
        assert(self.held@.take(i as int) =~= self.held@);
        n
    }

    /// The times of the live capabilities, each as often as it has copies.
    pub fn times(&self) -> (v: Vec<T>)
        ensures
            v@.to_multiset() == self@,
    {
        let mut v: Vec<T> = Vec::new();
        let mut i: usize = 0;
        while i < self.held.len()
            invariant
                i <= self.held.len(),
                v@ == self.held@.take(i as int),
            decreases self.held.len() - i,
        {
            v.push(self.held[i]);
            i += 1;
            assert(self.held@.take(i as int) =~= self.held@.take(i - 1).push(self.held@[i - 1]));
        }
        assert(self.held@.take(i as int) =~= self.held@);
        v
    }

    /// Whether any capability is live.
    pub fn is_empty(&self) -> (r: bool)
        ensures
            r == (self@.len() == 0),
    {
        broadcast use vstd::seq_lib::group_to_multiset_ensures;

        self.held.len() == 0
    }

    /// Issues a new capability for `time`.
    pub fn issue(&mut self, time: T) -> (cap: Capability<T>)
        ensures
            final(self).id() == old(self).id(),
            final(self)@ == applied(old(self)@, CapabilityEvent::Issue(time)),
            cap.at() == time,
            cap.owner() == old(self).id(),
    {
        broadcast use vstd::seq_lib::group_to_multiset_ensures;

        self.held.push(time);
        Capability { time, output: self.output }
    }

    /// Clones a live capability: one more copy for the same time. A
    /// capability that this ledger does not hold is refused.
    pub fn clone_capability(&mut self, cap: &Capability<T>) -> (r: Result<
        Capability<T>,
        ProtocolViolation,
    >)
        ensures
            final(self).id() == old(self).id(),
            r is Ok <==> old(self).holds(cap),
            match r {
                Ok(copy) => {
                    &&& final(self)@ == applied(old(self)@, CapabilityEvent::Clone(cap.at()))
                    &&& copy.at() == cap.at()
                    &&& copy.owner() == cap.owner()
                },
                Err(e) => e == ProtocolViolation::UnknownCapability && final(self)@ == old(self)@,
            },
    {
        broadcast use vstd::seq_lib::group_to_multiset_ensures;

        if cap.output != self.output || self.position(&cap.time).is_none() {
            return Err(ProtocolViolation::UnknownCapability);
        }
        self.held.push(cap.time);
        Ok(Capability { time: cap.time, output: self.output })
    }

    /// Downgrades a live capability to `time`, which must be at or after its
    /// own time: the old time is retired and the new one registered in one
    /// step.
    pub fn downgrade(&mut self, cap: &mut Capability<T>, time: T) -> (r: Result<
        (),
        ProtocolViolation,
    >)
        ensures
            final(self).id() == old(self).id(),
            final(cap).owner() == old(cap).owner(),
            r is Ok <==> old(self).holds(old(cap)) && old(cap).at().leq(time),
            match r {
                Ok(_) => {
                    &&& final(self)@ == applied(
                        old(self)@,
                        CapabilityEvent::Downgrade(old(cap).at(), time),
                    )
                    &&& final(cap).at() == time
                },
                Err(e) => {
                    &&& final(self)@ == old(self)@
                    &&& final(cap).at() == old(cap).at()
                    &&& e == if old(self).holds(old(cap)) {
                        ProtocolViolation::DowngradeBackward
                    } else {
                        ProtocolViolation::UnknownCapability
                    }
                },
            },
    {
        broadcast use vstd::seq_lib::group_to_multiset_ensures;

        if cap.output != self.output {
            return Err(ProtocolViolation::UnknownCapability);
        }
        match self.position(&cap.time) {
            None => Err(ProtocolViolation::UnknownCapability),
            Some(i) => {
                if !cap.time.less_equal(&time) {
                    return Err(ProtocolViolation::DowngradeBackward);
                }
                self.held.remove(i);
                self.held.push(time);
                cap.time = time;
                Ok(())
            },
        }
    }

    /// Takes back a live capability: its time is retired once.
    pub fn release(&mut self, cap: Capability<T>) -> (r: Result<(), ProtocolViolation>)
        ensures
            final(self).id() == old(self).id(),
            r is Ok <==> old(self).holds(&cap),
            match r {
                Ok(_) => final(self)@ == applied(old(self)@, CapabilityEvent::Drop(cap.at())),
                Err(e) => e == ProtocolViolation::UnknownCapability && final(self)@ == old(self)@,
            },
    {
        broadcast use vstd::seq_lib::group_to_multiset_ensures;

        if cap.output != self.output {
            return Err(ProtocolViolation::UnknownCapability);
        }
        match self.position(&cap.time) {
            None => Err(ProtocolViolation::UnknownCapability),
            Some(i) => {
                self.held.remove(i);
                Ok(())
            },
        }
    }

    /// The frontier of this output as far as its capabilities decide it: the
    /// minimal times for which a capability is live. A time leaves the
    /// frontier only when every capability at or before it is gone.
    pub fn frontier(&self) -> (f: Antichain<T>)
        ensures
            f.wf(),
            f@ == minimal(self@.dom()),
            forall|t: T| #[trigger] f.dominates(t) <==> reaches(self@.dom(), t),
    {
        let f = Antichain::from_times(&self.held);
        proof {
            broadcast use vstd::seq_lib::group_to_multiset_ensures;

            assert(self.held@.to_set() =~= self@.dom());
        }
        f
    }
}

} // verus!
