//! The producer side: a skeleton event that is offered, publishes samples
//! through the slot engine, and is withdrawn again. Whether it is offered is
//! part of its type.
use vstd::prelude::*;

use core::marker::PhantomData;

use crate::error::Error;
use crate::reloc::Reloc;
use crate::slot::{Allocatee, EventBuffer, SampleMut, SlotState};

verus! {

/// Marker of a skeleton event that is not offered.
pub struct UnOffered;

/// Marker of a skeleton event that is offered.
pub struct Offered;

/// The offer states a skeleton event can be in.
pub trait OfferState {}

impl OfferState for UnOffered {}

impl OfferState for Offered {}

/// One event of a skeleton: its name, the configuration of its buffer, and
/// the buffer that carries its samples, laid out anew at each offer.
pub struct SkeletonEvent<T: Reloc, S: OfferState> {
    identifier: String,
    capacity: usize,
    max_subscribers: usize,
    lossy: bool,
    buffer: EventBuffer<T>,
    state: PhantomData<S>,
}

impl<T: Reloc, S: OfferState> SkeletonEvent<T, S> {
    pub closed spec fn buffer(&self) -> EventBuffer<T> {
        self.buffer
    }

    pub closed spec fn config(&self) -> (int, int, bool) {
        (self.capacity as int, self.max_subscribers as int, self.lossy)
    }

    pub closed spec fn identifier(&self) -> Seq<char> {
        self.identifier@
    }

    /// The configuration the event was created with matches its buffer.
    pub open spec fn wf(&self) -> bool {
        &&& self.buffer().wf()
        &&& self.config().0 > 0
        &&& self.config().1 < u32::MAX
        &&& self.buffer()@.capacity() == self.config().0
        &&& self.buffer()@.readers.len() == self.config().1
        &&& self.buffer()@.lossy == self.config().2
    }

    /// The event buffer, for consumers in the same address space.
    pub fn buffer_ref(&self) -> (r: &EventBuffer<T>)
        ensures
            *r == self.buffer(),
    {
        &self.buffer
    }

    /// The event name.
    pub fn event_id(&self) -> (r: &str)
        ensures
            r@ == self.identifier(),
    {
        self.identifier.as_str()
    }
}

impl<T: Reloc> SkeletonEvent<T, UnOffered> {
    /// A skeleton event named `identifier` whose buffer will have
    /// `capacity` slots and `max_subscribers` transaction logs.
    pub fn new(identifier: &str, capacity: usize, max_subscribers: usize, lossy: bool) -> (r: Self)
        requires
            capacity > 0,
            max_subscribers < u32::MAX,
        ensures
            r.wf(),
            r.identifier() == identifier@,
            r.config() == (capacity as int, max_subscribers as int, lossy),
            !r.buffer()@.offered,
    {
        SkeletonEvent {
            identifier: identifier.to_string(),
            capacity,
            max_subscribers,
            lossy,
            buffer: EventBuffer::new(capacity, max_subscribers, lossy),
            state: PhantomData,
        }
    }

    /// Offers the event: a fresh buffer is laid out, so sequence numbers
    /// start again from one, and it is marked offered.
    pub fn offer(self) -> (r: SkeletonEvent<T, Offered>)
        requires
            self.wf(),
        ensures
            r.wf(),
            r.identifier() == self.identifier(),
            r.config() == self.config(),
            r.buffer()@.offered,
            r.buffer()@.last_sequence == 0,
            r.buffer()@.cursor == 0,
            forall|s: int|
                0 <= s < r.buffer()@.capacity() ==> (#[trigger] r.buffer()@.slots[s]).state
                    == SlotState::Free && r.buffer()@.slots[s].ref_count == 0,
            forall|i: int|
                0 <= i < r.buffer()@.readers.len() ==> !(#[trigger] r.buffer()@.readers[i]).active,
    {
        let mut buffer = EventBuffer::new(self.capacity, self.max_subscribers, self.lossy);
        buffer.set_offered(true);
        SkeletonEvent {
            identifier: self.identifier,
            capacity: self.capacity,
            max_subscribers: self.max_subscribers,
            lossy: self.lossy,
            buffer,
            state: PhantomData,
        }
    }
}

impl<T: Reloc> SkeletonEvent<T, Offered> {
    /// The event buffer, mutably, for consumers in the same address space.
    pub fn buffer_mut(&mut self) -> (r: &mut EventBuffer<T>)
        requires
            old(self).wf(),
        ensures
            *r == old(self).buffer(),
            final(r).wf() && final(r)@.lossy == old(self).buffer()@.lossy && final(r)@.capacity()
                == old(self).buffer()@.capacity() && final(r)@.readers.len() == old(self).buffer()@.readers.len()
                ==> final(self).wf(),
            final(self).buffer() == *final(r),
            final(self).identifier() == old(self).identifier(),
            final(self).config() == old(self).config(),
    {
        &mut self.buffer
    }

    /// Allocates a slot for the next sample.
    pub fn allocate(&mut self) -> (r: Result<Allocatee, Error>)
        requires
            old(self).wf(),
        ensures
            final(self).wf(),
            final(self).identifier() == old(self).identifier(),
            final(self).config() == old(self).config(),
            r is Ok <==> old(self).buffer()@.can_allocate(),
            r matches Ok(a) ==> old(self).buffer()@.allocation_choice(a.index())
                && final(self).buffer()@ == old(self).buffer()@.claim(a.index()),
            r matches Err(e) ==> e == Error::AllocateFailed && final(self).buffer()@ == old(self).buffer()@,
    {
        self.buffer.allocate()
    }

    /// Sends a written sample: it is published under the next sequence number.
    pub fn send_sample(&mut self, sample: SampleMut<T>) -> (r: Result<(), Error>)
        requires
            old(self).wf(),
        ensures
            final(self).wf(),
            final(self).identifier() == old(self).identifier(),
            final(self).config() == old(self).config(),
            r is Ok <==> old(self).buffer()@.valid_slot(sample.slot())
                && old(self).buffer()@.slots[sample.slot()].state == SlotState::Writing
                && old(self).buffer()@.last_sequence < u64::MAX,
            r is Ok ==> final(self).buffer()@ == old(self).buffer()@.publish_post(
                sample.slot(),
                sample.value(),
            ),
            r is Ok ==> forall|t: int|
                old(self).buffer()@.valid_slot(t) && #[trigger] old(self).buffer()@.slots[t].state
                    == SlotState::Ready ==> old(self).buffer()@.slots[t].sequence < final(self).buffer()@.slots[sample.slot()].sequence,
            r matches Err(e) ==> e == Error::Fail && final(self).buffer()@ == old(self).buffer()@,
    {
        match self.buffer.publish_sample(sample) {
            Ok(_) => Ok(()),
            Err(e) => Err(e),
        }
    }

    /// Allocates, writes and sends `value` in one step. When no slot can be
    /// had the error is `AllocateFailed` and nothing changes.
    pub fn send(&mut self, value: T) -> (r: Result<(), Error>)
        requires
            old(self).wf(),
        ensures
            final(self).wf(),
            final(self).identifier() == old(self).identifier(),
            final(self).config() == old(self).config(),
            r is Ok <==> old(self).buffer()@.can_allocate() && old(self).buffer()@.last_sequence
                < u64::MAX,
            r is Ok ==> exists|s: int|
                old(self).buffer()@.allocation_choice(s) && final(self).buffer()@
                    == old(self).buffer()@.claim(s).publish_post(s, value),
            r matches Err(e) ==> final(self).buffer()@ == old(self).buffer()@ && if old(self).buffer()@.last_sequence
                == u64::MAX {
                e == Error::Fail
            } else {
                e == Error::AllocateFailed
            },
    {
        if self.buffer.last_sequence() == u64::MAX {
            return Err(Error::Fail);
        }
        let a = match self.buffer.allocate() {
            Ok(a) => a,
            Err(e) => {
                return Err(e);
            },
        };
        let ghost s = a.index();
        let r = self.send_sample(a.write(value));
        assert(r is Ok);
        r
    }

    /// Withdraws the offer; the buffer stays until the event is offered again.
    pub fn stop_offer(self) -> (r: SkeletonEvent<T, UnOffered>)
        requires
            self.wf(),
        ensures
            r.wf(),
            r.identifier() == self.identifier(),
            r.config() == self.config(),
            r.buffer()@ == (crate::slot::BufferModel { offered: false, ..self.buffer()@ }),
    {
        let mut buffer = self.buffer;
        buffer.set_offered(false);
        SkeletonEvent {
            identifier: self.identifier,
            capacity: self.capacity,
            max_subscribers: self.max_subscribers,
            lossy: self.lossy,
            buffer,
            state: PhantomData,
        }
    }
}

} // verus!
