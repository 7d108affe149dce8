//! Input: how records enter a dataflow from outside.

use crate::capability::{applied, Capability, CapabilityEvent};
use crate::order::Timestamp;
use crate::violation::ProtocolViolation;
use crate::worker::{delivered_to, Worker};
use vstd::prelude::*;

verus! {

/// The handle through which the driving code feeds one instance of a source
/// operator.
///
/// The handle stands at a time. Records that are sent are timestamped with
/// it. Advancing the handle is the only way in which a time leaves the
/// frontier of the input.
pub struct InputHandle<T: Timestamp, D> {
    capability: Capability<T>,
    instance: usize,
    buffer: Vec<D>,
}

impl<T: Timestamp, D: Clone> InputHandle<T, D> {
    /// The capability that keeps the input open.
    pub closed spec fn capability(&self) -> Capability<T> {
        self.capability
    }

    /// The time at which the handle stands.
    pub open spec fn now(&self) -> T {
        self.capability().at()
    }

    /// The instance of the consumers that the records are for.
    pub closed spec fn instance(&self) -> usize {
        self.instance
    }

    /// The records that were sent since the handle last flushed.
    pub closed spec fn buffered(&self) -> Seq<D> {
        self.buffer@
    }

    /// A handle for the instance `instance` of the source that issued
    /// `capability`, standing at the time of the capability.
    pub fn new(capability: Capability<T>, instance: usize) -> (handle: InputHandle<T, D>)
        ensures
            handle.capability() == capability,
            handle.instance() == instance,
            handle.buffered() == Seq::<D>::empty(),
    {
        InputHandle { capability, instance, buffer: Vec::new() }
    }

    /// The time at which the handle stands.
    pub fn time(&self) -> (t: T)
        ensures
            t == self.now(),
    {
        self.capability.time()
    }

    /// Sends a record at the time at which the handle stands. The record
    /// waits in the handle until the handle flushes or advances.
    pub fn send(&mut self, record: D)
        ensures
            final(self).capability() == old(self).capability(),
            final(self).instance() == old(self).instance(),
            final(self).buffered() == old(self).buffered().push(record),
    {
        self.buffer.push(record);
    }

    /// Whether the handle can hand its records to `worker`: its capability
    /// is live there, and its instance exists.
    pub open spec fn fits(&self, worker: &Worker<T, D>) -> bool {
        worker.holds(&self.capability()) && self.instance() < worker.peers()
    }

    /// What flushing does to the inputs of `worker`: every consumer of the
    /// source receives the buffered records as one batch at the time of
    /// the handle, unless there are none.
    pub open spec fn flushed_into(&self, before: &Worker<T, D>, after: &Worker<T, D>) -> bool {
        forall|b: int, p: int|
            before.has_input(b, p) ==> if self.buffered().len() > 0
                && before.nodes()[b].sources@[p] == Some(self.capability().owner()) {
                delivered_to(
                    before.queue(b, p),
                    #[trigger] after.queue(b, p),
                    self.now(),
                    self.instance(),
                    self.buffered(),
                )
            } else {
                after.queue(b, p) == before.queue(b, p)
            }
    }

    /// Hands the buffered records to the consumers of the source, as one
    /// batch at the time of the handle. Refused, with nothing changed, where
    /// the capability of the handle is not live in `worker` or the instance
    /// of the handle does not exist there.
    pub fn flush(&mut self, worker: &mut Worker<T, D>) -> (r: Result<(), ProtocolViolation>)
        requires
            old(worker).wf(),
        ensures
            final(worker).wf(),
            final(worker).topology() == old(worker).topology(),
            final(worker).peers() == old(worker).peers(),
            final(worker).advanced_from(old(worker)),
            final(worker).same_held_but(old(worker), -1),
            final(self).capability() == old(self).capability(),
            final(self).instance() == old(self).instance(),
            r is Ok <==> old(self).fits(old(worker)),
            match r {
                Ok(_) => {
                    &&& final(self).buffered() == Seq::<D>::empty()
                    &&& old(self).flushed_into(old(worker), final(worker))
                },
                Err(e) => {
                    &&& final(self).buffered() == old(self).buffered()
                    &&& final(worker).unchanged_from(old(worker))
                    &&& e == if !old(worker).holds(&old(self).capability()) {
                        ProtocolViolation::UnknownCapability
                    } else {
                        ProtocolViolation::UnknownEndpoint
                    }
                },
            },
    {
        if !worker.is_live(&self.capability) {
            proof {
                worker.lemma_unchanged_is_advance(old(worker));
            }
            return Err(ProtocolViolation::UnknownCapability);
        }
        if self.instance >= worker.instances() {
            proof {
                worker.lemma_unchanged_is_advance(old(worker));
            }
            return Err(ProtocolViolation::UnknownEndpoint);
        }
        if self.buffer.len() == 0 {
            proof {
                worker.lemma_unchanged_is_advance(old(worker));
            }
            return Ok(());
        }
        let mut records: Vec<D> = Vec::new();
        std::mem::swap(&mut records, &mut self.buffer);
        let time = self.capability.time();
        proof {
            T::leq_reflexive(time);
        }
        match worker.give(&self.capability, time, self.instance, records) {
            Ok(_) => {},
            Err(_) => {},
        }
        Ok(())
    }

    /// Advances the handle to `time`, which must be at or after the time at
    /// which it stands: the buffered records are flushed at the old time,
    /// and the capability of the handle is downgraded to the new one, so
    /// that the old time can leave the frontier of the input.
    pub fn advance_to(&mut self, worker: &mut Worker<T, D>, time: T) -> (r: Result<
        (),
        ProtocolViolation,
    >)
        requires
            old(worker).wf(),
        ensures
            final(worker).wf(),
            final(worker).topology() == old(worker).topology(),
            final(worker).peers() == old(worker).peers(),
            final(worker).advanced_from(old(worker)),
            final(self).capability().owner() == old(self).capability().owner(),
            final(self).instance() == old(self).instance(),
            r is Ok <==> old(self).now().leq(time) && old(self).fits(old(worker)),
            match r {
                Ok(_) => {
                    &&& final(self).now() == time
                    &&& final(self).buffered() == Seq::<D>::empty()
                    &&& old(self).flushed_into(old(worker), final(worker))
                    &&& final(worker).same_held_but(
                        old(worker),
                        old(self).capability().owner() as int,
                    )
                    &&& final(worker).held(old(self).capability().owner() as int) == applied(
                        old(worker).held(old(self).capability().owner() as int),
                        CapabilityEvent::Downgrade(old(self).now(), time),
                    )
                },
                Err(e) => {
                    &&& final(self).now() == old(self).now()
                    &&& final(self).buffered() == old(self).buffered()
                    &&& final(worker).unchanged_from(old(worker))
                    &&& e == if !old(self).now().leq(time) {
                        ProtocolViolation::AdvanceBackward
                    } else if !old(worker).holds(&old(self).capability()) {
                        ProtocolViolation::UnknownCapability
                    } else {
                        ProtocolViolation::UnknownEndpoint
                    }
                },
            },
    {
        let now = self.capability.time();
        if !now.less_equal(&time) {
            proof {
                worker.lemma_unchanged_is_advance(old(worker));
            }
            return Err(ProtocolViolation::AdvanceBackward);
        }
        match self.flush(worker) {
            Ok(_) => {},
            Err(e) => {
                return Err(e);
            },
        }
        let ghost flushed = *worker;
        match worker.downgrade(&mut self.capability, time) {
            Ok(_) => {},
            Err(_) => {},
        }
        proof {
            worker.lemma_capabilities_changed_after(
                &flushed,
                old(worker),
                old(self).capability().owner() as int,
            );
        }
        Ok(())
    }

    /// Closes the input: the buffered records are flushed, and the
    /// capability of the handle is released, so that nothing holds the
    /// input open any longer.
    pub fn close(self, worker: &mut Worker<T, D>) -> (r: Result<(), ProtocolViolation>)
        requires
            old(worker).wf(),
        ensures
            final(worker).wf(),
            final(worker).topology() == old(worker).topology(),
            final(worker).peers() == old(worker).peers(),
            final(worker).advanced_from(old(worker)),
            r is Ok <==> self.fits(old(worker)),
            match r {
                Ok(_) => {
                    &&& self.flushed_into(old(worker), final(worker))
                    &&& final(worker).same_held_but(old(worker), self.capability().owner() as int)
                    &&& final(worker).held(self.capability().owner() as int) == applied(
                        old(worker).held(self.capability().owner() as int),
                        CapabilityEvent::Drop(self.now()),
                    )
                },
                Err(e) => {
                    &&& final(worker).unchanged_from(old(worker))
                    &&& e == if !old(worker).holds(&self.capability()) {
                        ProtocolViolation::UnknownCapability
                    } else {
                        ProtocolViolation::UnknownEndpoint
                    }
                },
            },
    {
        let mut handle = self;
        match handle.flush(worker) {
            Ok(_) => {},
            Err(e) => {
                return Err(e);
            },
        }
        let ghost flushed = *worker;
        match worker.release(handle.capability) {
            Ok(_) => {},
            Err(_) => {},
        }
        proof {
            worker.lemma_capabilities_changed_after(
                &flushed,
                old(worker),
                self.capability().owner() as int,
            );
        }
        Ok(())
    }
}

} // verus!
