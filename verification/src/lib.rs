//! Event channel, pull based, that use a ring buffer for internal storage,
//! to make it possible to read events with a very small overhead.
//!
//! One writer appends events; any number of independently registered readers
//! each observe, in order, exactly the events written after their
//! registration. The buffer grows on demand so that no registered reader
//! ever loses an event, and reuses its capacity once every reader has caught
//! up.

use vstd::prelude::*;

pub use crate::storage::{ReaderId, RingBuffer, StorageIterator as EventIterator};

mod storage;
mod util;

verus! {

use vstd::arithmetic::power2::pow2;

/// Marker trait for data to use with the `EventChannel`.
///
/// Has an implementation for all types where its bounds are satisfied.
pub trait Event: Send + Sync + 'static {

}

impl<T> Event for T where T: Send + Sync + 'static {

}

/// The starting capacity a channel gets when none is given.
pub const DEFAULT_CAPACITY: usize = 64;

/// The `EventChannel`, a single producer, multiple consumer ("SPMC") event
/// queue.
///
/// This channel has a ring buffer, which it allocates with an initial
/// capacity. Once allocated, it writes new events into the buffer, wrapping
/// around when it reaches the "end" of the buffer.
///
/// However, before an event gets written into the buffer, the channel checks
/// if all readers have read the event which is about to be overwritten. In
/// case the answer is "No", it will grow the buffer so no events get
/// overwritten.
///
/// Readers are stored in the `EventChannel` itself, because their positions
/// are needed during a write for the check described above. Thus, you only
/// get a `ReaderId` as a handle.
#[derive(Debug)]
pub struct EventChannel<E> {
    storage: RingBuffer<E>,
}

impl<E: Event> EventChannel<E> {
    /// The internal invariant of the channel.
    pub closed spec fn wf(self) -> bool {
        self.storage.wf()
    }

    /// The number of slots in the ring.
    pub closed spec fn capacity(self) -> int {
        self.storage.capacity()
    }

    /// The number of reader registry slots, dropped ones included.
    pub closed spec fn num_slots(self) -> int {
        self.storage.num_slots()
    }

    /// Whether registry slot `id` belongs to a live subscription.
    pub closed spec fn is_active(self, id: int) -> bool {
        self.storage.is_active(id)
    }

    /// How many events were written after slot `id` last read.
    pub closed spec fn unread(self, id: int) -> int {
        self.storage.unread(id)
    }

    /// The events slot `id` has not observed yet, oldest first.
    pub closed spec fn pending(self, id: int) -> Seq<E> {
        self.storage.pending(id)
    }

    /// The identity carried by every handle this channel hands out.
    pub closed spec fn instance(self) -> int {
        self.storage.instance()
    }

    /// The slot of the most recently written event.
    pub closed spec fn head(self) -> int {
        self.storage.head()
    }

    /// The wrapping count of non-empty write batches so far.
    pub closed spec fn gen(self) -> int {
        self.storage.gen()
    }

    /// The cached lower bound on how many events can be written without
    /// growing the ring.
    pub closed spec fn spec_available(self) -> int {
        self.storage.spec_available()
    }

    /// How many ring slots currently hold an event.
    pub closed spec fn initialized(self) -> int {
        self.storage.initialized()
    }

    /// Whether any subscription is live.
    pub open spec fn has_active(self) -> bool {
        exists|id: int| self.is_active(id)
    }

    /// Whether `n` more events fit without overwriting any unread one.
    pub open spec fn fits(self, n: int) -> bool {
        forall|id: int| #[trigger] self.is_active(id) ==> self.unread(id) + n <= self.capacity()
    }

    /// Create a new `EventChannel` with a default size of 64.
    pub fn new() -> (r: Self)
        ensures
            r.wf(),
            r.capacity() == DEFAULT_CAPACITY,
            r.num_slots() == 0,
            forall|id: int| !r.is_active(id),
            r.spec_available() == DEFAULT_CAPACITY,
            r.head() == DEFAULT_CAPACITY - 1,
            r.gen() == 0,
            r.initialized() == 0,
    {
        EventChannel::with_capacity(DEFAULT_CAPACITY)
    }

    /// Create a new `EventChannel` with the given starting capacity.
    pub fn with_capacity(size: usize) -> (r: Self)
        requires
            size > 1,
        ensures
            r.wf(),
            r.capacity() == size,
            r.num_slots() == 0,
            forall|id: int| !r.is_active(id),
            r.spec_available() == size,
            r.head() == size - 1,
            r.gen() == 0,
            r.initialized() == 0,
    {
        Self { storage: RingBuffer::new(size) }
    }

    /// Returns `true` if any reader would observe an additional event.
    ///
    /// This can be used to skip calls to `iter_write` in case the event
    /// construction is expensive.
    pub fn would_write(&mut self) -> (r: bool)
        requires
            old(self).wf(),
        ensures
            final(self).wf(),
            r == final(self).has_active(),
            final(self).capacity() == old(self).capacity(),
            final(self).num_slots() == old(self).num_slots(),
            final(self).instance() == old(self).instance(),
            final(self).gen() == old(self).gen(),
            final(self).head() == old(self).head(),
            final(self).spec_available() == old(self).spec_available(),
            final(self).initialized() == old(self).initialized(),
            forall|id: int| #[trigger] final(self).is_active(id) ==> old(self).is_active(id),
            forall|id: int|
                #[trigger] final(self).is_active(id) ==> final(self).pending(id) == old(self).pending(id) && final(self).unread(id) == old(self).unread(id),
    {
        let r = self.storage.would_write();
        proof {
            lemma_has_active_agrees(*self);
        }
        r
    }

    /// Register a new reader.
    ///
    /// To be able to read events, a reader id is required. This is because
    /// otherwise the channel wouldn't know where in the ring buffer the
    /// reader has read to earlier. This information is stored in the channel,
    /// associated with the returned `ReaderId`.
    ///
    /// A newly created `ReaderId` will only receive the events written after
    /// its creation.
    ///
    /// Once you no longer perform `read`s with your `ReaderId`, you should
    /// drop it so the channel can safely overwrite events not read by it.
    pub fn register_reader(&mut self) -> (r: ReaderId<E>)
        requires
            old(self).wf(),
        ensures
            final(self).wf(),
            final(self).instance() == old(self).instance(),
            r.instance() == final(self).instance(),
            r.spec_id() < final(self).num_slots(),
            final(self).is_active(r.spec_id()),
            final(self).unread(r.spec_id()) == 0,
            final(self).pending(r.spec_id()) == Seq::<E>::empty(),
            final(self).capacity() == old(self).capacity(),
            final(self).gen() == old(self).gen(),
            final(self).head() == old(self).head(),
            final(self).spec_available() == old(self).spec_available(),
            final(self).initialized() == old(self).initialized(),
            old(self).num_slots() <= final(self).num_slots() <= old(self).num_slots() + 1,
            (exists|id: int| 0 <= id < old(self).num_slots() && !old(self).is_active(id))
                ==> final(self).num_slots() == old(self).num_slots(),
            forall|id: int|
                id != r.spec_id() && #[trigger] final(self).is_active(id) ==> old(self).is_active(
                    id,
                ) && final(self).pending(id) == old(self).pending(id) && final(self).unread(id)
                    == old(self).unread(id),
    {
        proof {
            if exists|id: int| 0 <= id < old(self).num_slots() && !old(self).is_active(id) {
                let w = choose|id: int|
                    0 <= id < old(self).num_slots() && !old(self).is_active(id);
                assert(0 <= w < old(self).storage.num_slots() && !old(self).storage.is_active(
                    w,
                ));
            }
        }
        self.storage.new_reader_id()
    }

    /// Write a slice of events into storage; the clone of each element is
    /// appended in order. Kept for compatibility: prefer `iter_write`.
    pub fn slice_write(&mut self, events: &[E]) where E: Clone
        requires
            old(self).wf(),
            old(self).capacity() + events@.len() <= usize::MAX as int / 2,
        ensures
            final(self).wf(),
            final(self).num_slots() == old(self).num_slots(),
            final(self).instance() == old(self).instance(),
            forall|id: int| #[trigger] final(self).is_active(id) ==> old(self).is_active(id),
            forall|id: int|
                #[trigger] final(self).is_active(id) ==> final(self).unread(id) == old(self).unread(id) + events@.len(),
            forall|id: int, i: int|
                #[trigger] final(self).is_active(id) && 0 <= i < events@.len()
                    ==> vstd::pervasive::cloned::<E>(
                    events@[i],
                    #[trigger] final(self).pending(id)[old(self).pending(id).len() + i],
                ),
            old(self).fits(events@.len() as int) ==> final(self).capacity() == old(self).capacity(),
            final(self).capacity() >= old(self).capacity(),
            exists|k: nat| final(self).capacity() == old(self).capacity() * pow2(k),
            events@.len() > 0 ==> final(self).gen() == (if old(self).gen() == usize::MAX as int {
                0int
            } else {
                old(self).gen() + 1
            }),
            events@.len() > 0 ==> final(self).head() == (old(self).head() + events@.len()) % final(self).capacity(),
            final(self).initialized() == (if old(self).initialized() + events@.len() <= final(self).capacity() {
                old(self).initialized() + events@.len()
            } else {
                final(self).capacity()
            }),
            events@.len() <= old(self).spec_available() ==> (forall|id: int|
                (#[trigger] final(self).is_active(id)) <==> old(self).is_active(id)),
            events@.len() <= old(self).spec_available() ==> final(self).spec_available() == old(self).spec_available() - events@.len(),
            final(self).capacity() == old(self).capacity() || final(self).capacity() < 2 * (
            old(self).capacity() + events@.len()),
            final(self).capacity() > old(self).capacity() ==> exists|id: int|
                #[trigger] final(self).is_active(id) && final(self).capacity() < 2 * final(self).unread(id),
            forall|id: int|
                #[trigger] final(self).is_active(id) ==> final(self).spec_available() + final(self).unread(id) <= final(self).capacity(),
            events@.len() > old(self).spec_available() && final(self).has_active() ==> exists|id: int|
                #[trigger] final(self).is_active(id) && final(self).spec_available() == final(self).capacity() - final(self).unread(id),
            events@.len() > old(self).spec_available() && !final(self).has_active() ==> final(self).spec_available() == (if events@.len() <= final(self).capacity() {
                final(self).capacity() - events@.len()
            } else {
                0int
            }),
    {
        proof {
            lemma_fits_agrees(*old(self), events@.len() as int);
        }
        let mut copied: Vec<E> = Vec::new();
        let mut i: usize = 0;
        while i < events.len()
            invariant
                i <= events@.len(),
                copied@.len() == i,
                forall|j: int|
                    0 <= j < i ==> vstd::pervasive::cloned::<E>(
                        events@[j],
                        #[trigger] copied@[j],
                    ),
            decreases events@.len() - i,
        {
            let e = vstd::slice::slice_index_get(events, i).clone();
            copied.push(e);
            i = i + 1;
        }
        self.storage.iter_write(copied);
        proof {
            lemma_write_effects_lift(*old(self), *self);
        }
    }

    /// Write an iterator of events into storage.
    pub fn iter_write(&mut self, iter: Vec<E>)
        requires
            old(self).wf(),
            old(self).capacity() + iter@.len() <= usize::MAX as int / 2,
        ensures
            final(self).wf(),
            final(self).num_slots() == old(self).num_slots(),
            final(self).instance() == old(self).instance(),
            forall|id: int| #[trigger] final(self).is_active(id) ==> old(self).is_active(id),
            forall|id: int|
                #[trigger] final(self).is_active(id) ==> final(self).pending(id) == old(self).pending(id) + iter@ && final(self).unread(id) == old(self).unread(id)
                    + iter@.len(),
            iter@.len() == 0 ==> *final(self) == *old(self),
            old(self).fits(iter@.len() as int) ==> final(self).capacity() == old(self).capacity(),
            final(self).capacity() >= old(self).capacity(),
            exists|k: nat| final(self).capacity() == old(self).capacity() * pow2(k),
            iter@.len() > 0 ==> final(self).gen() == (if old(self).gen() == usize::MAX as int {
                0int
            } else {
                old(self).gen() + 1
            }),
            iter@.len() > 0 ==> final(self).head() == (old(self).head() + iter@.len()) % final(self).capacity(),
            final(self).initialized() == (if old(self).initialized() + iter@.len() <= final(self).capacity() {
                old(self).initialized() + iter@.len()
            } else {
                final(self).capacity()
            }),
            iter@.len() <= old(self).spec_available() ==> (forall|id: int|
                (#[trigger] final(self).is_active(id)) <==> old(self).is_active(id)),
            iter@.len() <= old(self).spec_available() ==> final(self).spec_available() == old(self).spec_available() - iter@.len(),
            final(self).capacity() == old(self).capacity() || final(self).capacity() < 2 * (
            old(self).capacity() + iter@.len()),
            final(self).capacity() > old(self).capacity() ==> exists|id: int|
                #[trigger] final(self).is_active(id) && final(self).capacity() < 2 * final(self).unread(id),
            forall|id: int|
                #[trigger] final(self).is_active(id) ==> final(self).spec_available() + final(self).unread(id) <= final(self).capacity(),
            iter@.len() > old(self).spec_available() && final(self).has_active() ==> exists|id: int|
                #[trigger] final(self).is_active(id) && final(self).spec_available() == final(self).capacity() - final(self).unread(id),
            iter@.len() > old(self).spec_available() && !final(self).has_active() ==> final(self).spec_available() == (if iter@.len() <= final(self).capacity() {
                final(self).capacity() - iter@.len()
            } else {
                0int
            }),
    {
        proof {
            lemma_fits_agrees(*old(self), iter@.len() as int);
        }
        self.storage.iter_write(iter);
        proof {
            lemma_write_effects_lift(*old(self), *self);
        }
    }

    /// Drain a vector of events into storage.
    pub fn drain_vec_write(&mut self, events: &mut Vec<E>)
        requires
            old(self).wf(),
            old(self).capacity() + old(events)@.len() <= usize::MAX as int / 2,
        ensures
            final(self).wf(),
            final(events)@ == Seq::<E>::empty(),
            final(self).num_slots() == old(self).num_slots(),
            final(self).instance() == old(self).instance(),
            forall|id: int| #[trigger] final(self).is_active(id) ==> old(self).is_active(id),
            forall|id: int|
                #[trigger] final(self).is_active(id) ==> final(self).pending(id) == old(self).pending(id) + old(events)@ && final(self).unread(id) == old(self).unread(id)
                    + old(events)@.len(),
            old(self).fits(old(events)@.len() as int) ==> final(self).capacity() == old(self).capacity(),
            final(self).capacity() >= old(self).capacity(),
            exists|k: nat| final(self).capacity() == old(self).capacity() * pow2(k),
            old(events)@.len() > 0 ==> final(self).gen() == (if old(self).gen()
                == usize::MAX as int {
                0int
            } else {
                old(self).gen() + 1
            }),
            old(events)@.len() > 0 ==> final(self).head() == (old(self).head()
                + old(events)@.len()) % final(self).capacity(),
            final(self).initialized() == (if old(self).initialized() + old(events)@.len() <= final(self).capacity() {
                old(self).initialized() + old(events)@.len()
            } else {
                final(self).capacity()
            }),
            old(events)@.len() == 0 ==> *final(self) == *old(self),
            old(events)@.len() <= old(self).spec_available() ==> (forall|id: int|
                (#[trigger] final(self).is_active(id)) <==> old(self).is_active(id)),
            old(events)@.len() <= old(self).spec_available() ==> final(self).spec_available() == old(self).spec_available() - old(events)@.len(),
            final(self).capacity() == old(self).capacity() || final(self).capacity() < 2 * (
            old(self).capacity() + old(events)@.len()),
            final(self).capacity() > old(self).capacity() ==> exists|id: int|
                #[trigger] final(self).is_active(id) && final(self).capacity() < 2 * final(self).unread(id),
            forall|id: int|
                #[trigger] final(self).is_active(id) ==> final(self).spec_available() + final(self).unread(id) <= final(self).capacity(),
            old(events)@.len() > old(self).spec_available() && final(self).has_active() ==> exists|id: int|
                #[trigger] final(self).is_active(id) && final(self).spec_available() == final(self).capacity() - final(self).unread(id),
            old(events)@.len() > old(self).spec_available() && !final(self).has_active() ==> final(self).spec_available() == (if old(events)@.len() <= final(self).capacity() {
                final(self).capacity() - old(events)@.len()
            } else {
                0int
            }),
    {
        proof {
            lemma_fits_agrees(*old(self), old(events)@.len() as int);
        }
        self.storage.drain_vec_write(events);
        proof {
            lemma_write_effects_lift(*old(self), *self);
        }
    }

    /// Write a single event into storage.
    pub fn single_write(&mut self, event: E)
        requires
            old(self).wf(),
            old(self).capacity() + 1 <= usize::MAX as int / 2,
        ensures
            final(self).wf(),
            final(self).num_slots() == old(self).num_slots(),
            final(self).instance() == old(self).instance(),
            forall|id: int| #[trigger] final(self).is_active(id) ==> old(self).is_active(id),
            forall|id: int|
                #[trigger] final(self).is_active(id) ==> final(self).pending(id) == old(self).pending(id).push(event) && final(self).unread(id) == old(self).unread(id) + 1,
            old(self).fits(1) ==> final(self).capacity() == old(self).capacity(),
            final(self).capacity() >= old(self).capacity(),
            exists|k: nat| final(self).capacity() == old(self).capacity() * pow2(k),
            final(self).gen() == (if old(self).gen() == usize::MAX as int {
                0int
            } else {
                old(self).gen() + 1
            }),
            final(self).head() == (old(self).head() + 1) % final(self).capacity(),
            final(self).initialized() == (if old(self).initialized() + 1 <= final(self).capacity() {
                old(self).initialized() + 1
            } else {
                final(self).capacity()
            }),
            1 <= old(self).spec_available() ==> (forall|id: int|
                (#[trigger] final(self).is_active(id)) <==> old(self).is_active(id)),
            1 <= old(self).spec_available() ==> final(self).spec_available() == old(self).spec_available() - 1,
            final(self).capacity() == old(self).capacity() || final(self).capacity() < 2 * (
            old(self).capacity() + 1),
            final(self).capacity() > old(self).capacity() ==> exists|id: int|
                #[trigger] final(self).is_active(id) && final(self).capacity() < 2 * final(self).unread(id),
            forall|id: int|
                #[trigger] final(self).is_active(id) ==> final(self).spec_available() + final(self).unread(id) <= final(self).capacity(),
            1 > old(self).spec_available() && final(self).has_active() ==> exists|id: int|
                #[trigger] final(self).is_active(id) && final(self).spec_available() == final(self).capacity() - final(self).unread(id),
            1 > old(self).spec_available() && !final(self).has_active() ==> final(self).spec_available() == (if 1 <= final(self).capacity() {
                final(self).capacity() - 1
            } else {
                0int
            }),
    {
        proof {
            lemma_fits_agrees(*old(self), 1);
        }
        self.storage.single_write(event);
        proof {
            lemma_write_effects_lift(*old(self), *self);
        }
    }

    /// Read any events that have been written to storage since the last read
    /// with `reader_id` (or the creation of the `ReaderId`, if it hasn't read
    /// yet).
    ///
    /// Note that this will advance the position of the reader regardless of
    /// what you do with the iterator. In other words, calling `read` without
    /// iterating the result won't preserve the events returned. You need to
    /// iterate all the events as soon as you got them from this method. This
    /// behavior is equivalent to e.g. `Vec::drain`.
    pub fn read<'a>(&'a mut self, reader_id: &mut ReaderId<E>) -> (it: EventIterator<'a, E>)
        requires
            old(self).wf(),
            old(reader_id).instance() == old(self).instance(),
            old(reader_id).spec_id() < old(self).num_slots(),
        ensures
            *final(reader_id) == *old(reader_id),
            final(self).wf(),
            final(self).capacity() == old(self).capacity(),
            final(self).num_slots() == old(self).num_slots(),
            final(self).instance() == old(self).instance(),
            final(self).gen() == old(self).gen(),
            final(self).head() == old(self).head(),
            final(self).spec_available() == old(self).spec_available(),
            final(self).initialized() == old(self).initialized(),
            it.wf(),
            old(self).is_active(old(reader_id).spec_id()) ==> it.remaining() == old(self).pending(old(reader_id).spec_id()),
            old(self).is_active(old(reader_id).spec_id()) ==> final(self).is_active(
                old(reader_id).spec_id(),
            ) && final(self).unread(old(reader_id).spec_id()) == 0 && final(self).pending(
                old(reader_id).spec_id(),
            ) == Seq::<E>::empty(),
            !old(self).is_active(old(reader_id).spec_id()) ==> *final(self) == *old(self)
                && it.remaining() == Seq::<E>::empty(),
            forall|id: int|
                id != old(reader_id).spec_id() ==> (#[trigger] final(self).is_active(id) <==> old(self).is_active(id)),
            forall|id: int|
                id != old(reader_id).spec_id() && #[trigger] final(self).is_active(id) ==> final(self).pending(id) == old(self).pending(id) && final(self).unread(id) == old(self).unread(id),
    {
        self.storage.read(reader_id)
    }
}

impl<E: Event> Default for EventChannel<E> {
    fn default() -> (r: Self)
        ensures
            r.wf(),
            r.capacity() == DEFAULT_CAPACITY,
            r.num_slots() == 0,
            forall|id: int| !r.is_active(id),
            r.spec_available() == DEFAULT_CAPACITY,
            r.head() == DEFAULT_CAPACITY - 1,
            r.gen() == 0,
            r.initialized() == 0,
    {
        EventChannel::with_capacity(DEFAULT_CAPACITY)
    }
}

/// No event is lost: a backlog that started out empty at registration and
/// then received any sequence of written batches — each write appends its
/// batch, as the write operations ensure — is exactly the concatenation of
/// those batches, in order. A `read` at that point therefore returns every
/// event written since registration, once, in write order.
pub proof fn lemma_no_loss<E: Event>(
    states: Seq<EventChannel<E>>,
    batches: Seq<Seq<E>>,
    id: int,
)
    requires
        states.len() == batches.len() + 1,
        states[0].pending(id) == Seq::<E>::empty(),
        forall|j: int|
            0 <= j < batches.len() ==> #[trigger] states[j + 1].pending(id) == states[j].pending(
                id,
            ) + batches[j],
    ensures
        states.last().pending(id) == batches.flatten(),
    decreases batches.len(),
{
    if batches.len() == 0 {
        assert(states.last().pending(id) =~= batches.flatten());
    } else {
        let n = batches.len() as int;
        let prefix_states = states.drop_last();
        let prefix = batches.drop_last();
        assert forall|j: int|
            0 <= j < prefix.len() implies #[trigger] prefix_states[j + 1].pending(id)
            == prefix_states[j].pending(id) + prefix[j] by {
            assert(states[j + 1].pending(id) == states[j].pending(id) + batches[j]);
        }
        lemma_no_loss(prefix_states, prefix, id);
        assert(states[n].pending(id) == states[n - 1].pending(id) + batches[n - 1]);
        assert(batches =~= prefix.push(batches.last()));
        prefix.lemma_flatten_push(batches.last());
        assert(states.last().pending(id) =~= batches.flatten());
    }
}

/// Readers are independent: a reader observes exactly the events written
/// after its own registration, no matter how many other readers exist or
/// when they were registered. Here the first reader was registered before
/// batch `w1` and the second between `w1` and `w2`: the first observes both
/// batches, the second only the later one.
pub proof fn lemma_reader_independence<E: Event>(
    s0: EventChannel<E>,
    s1: EventChannel<E>,
    s2: EventChannel<E>,
    id1: int,
    id2: int,
    w1: Seq<E>,
    w2: Seq<E>,
)
    requires
        s0.pending(id1) == Seq::<E>::empty(),
        s1.pending(id1) == s0.pending(id1) + w1,
        s1.pending(id2) == Seq::<E>::empty(),
        s2.pending(id1) == s1.pending(id1) + w2,
        s2.pending(id2) == s1.pending(id2) + w2,
    ensures
        s2.pending(id1) == w1 + w2,
        s2.pending(id2) == w2,
{
    assert(s2.pending(id1) =~= w1 + w2);
    assert(s2.pending(id2) =~= w2);
}

/// Registration cut-off, and advance-on-call: a reader whose cursor has
/// nothing unread — as right after registration, whatever was written
/// before, and as right after any `read`, whether or not its iterator was
/// consumed — is handed an empty backlog by the next `read`.
pub proof fn lemma_registration_cutoff<E: Event>(s: EventChannel<E>, id: int)
    requires
        s.unread(id) == 0,
    ensures
        s.pending(id) == Seq::<E>::empty(),
{
    crate::storage::lemma_empty_backlog(s.storage, id);
}

/// Readers that keep up never force growth: when every live reader has read
/// everything, any batch that fits the current capacity is accepted without
/// growing, so the capacity stays at its initial value forever.
pub proof fn lemma_no_growth_when_caught_up<E: Event>(s: EventChannel<E>, n: int)
    requires
        forall|id: int| #[trigger] s.is_active(id) ==> s.unread(id) == 0,
        0 <= n <= s.capacity(),
    ensures
        s.fits(n),
{
}

/// Lifts the ring-level write effects that quantify over reader slots to the
/// channel level: the per-slot activity agreement and, after growth, the
/// witness reader whose backlog fills at least half the new ring.
proof fn lemma_write_effects_lift<E: Event>(pre: EventChannel<E>, post: EventChannel<E>)
    ensures
        (forall|id: int| (#[trigger] post.storage.is_active(id)) <==> pre.storage.is_active(id))
            ==> (forall|id: int| (#[trigger] post.is_active(id)) <==> pre.is_active(id)),
        (exists|id: int|
            #[trigger] post.storage.is_active(id) && post.storage.capacity() < 2
                * post.storage.unread(id)) ==> (exists|id: int|
            #[trigger] post.is_active(id) && post.capacity() < 2 * post.unread(id)),
        post.has_active() <==> post.storage.has_active(),
        (post.storage.has_active() ==> exists|id: int|
            #[trigger] post.storage.is_active(id) && post.storage.spec_available()
                == post.storage.capacity() - post.storage.unread(id)) ==> (post.has_active()
            ==> exists|id: int|
            #[trigger] post.is_active(id) && post.spec_available() == post.capacity()
                - post.unread(id)),
        (forall|id: int|
            #[trigger] post.storage.is_active(id) ==> post.storage.spec_available()
                + post.storage.unread(id) <= post.storage.capacity()) ==> (forall|id: int|
            #[trigger] post.is_active(id) ==> post.spec_available() + post.unread(id)
                <= post.capacity()),
{
    lemma_has_active_agrees(post);
    if forall|id: int| (#[trigger] post.storage.is_active(id)) <==> pre.storage.is_active(id) {
        assert forall|id: int| (#[trigger] post.is_active(id)) <==> pre.is_active(id) by {
            assert(post.storage.is_active(id) <==> pre.storage.is_active(id));
        }
    }
    if exists|id: int|
        #[trigger] post.storage.is_active(id) && post.storage.capacity() < 2
            * post.storage.unread(id) {
        let w = choose|id: int|
            #[trigger] post.storage.is_active(id) && post.storage.capacity() < 2
                * post.storage.unread(id);
        assert(post.is_active(w) && post.capacity() < 2 * post.unread(w));
    }
    if (post.storage.has_active() ==> exists|id: int|
        #[trigger] post.storage.is_active(id) && post.storage.spec_available()
            == post.storage.capacity() - post.storage.unread(id)) && post.has_active() {
        let w = choose|id: int|
            #[trigger] post.storage.is_active(id) && post.storage.spec_available()
                == post.storage.capacity() - post.storage.unread(id);
        assert(post.is_active(w) && post.spec_available() == post.capacity() - post.unread(
            w,
        ));
    }
    if forall|id: int|
        #[trigger] post.storage.is_active(id) ==> post.storage.spec_available()
            + post.storage.unread(id) <= post.storage.capacity() {
        assert forall|id: int| #[trigger] post.is_active(id) implies post.spec_available()
            + post.unread(id) <= post.capacity() by {
            assert(post.storage.is_active(id));
        }
    }
}

/// A live subscription always names one of the registry's slots.
pub proof fn lemma_active_in_range<E: Event>(s: EventChannel<E>, id: int)
    requires
        s.is_active(id),
    ensures
        0 <= id < s.num_slots(),
{
    crate::storage::lemma_ring_active_in_range(s.storage, id);
}

/// Basic bounds every well-formed channel satisfies.
pub proof fn lemma_channel_bounds<E: Event>(s: EventChannel<E>)
    requires
        s.wf(),
    ensures
        2 <= s.capacity(),
        0 <= s.spec_available() <= s.capacity(),
        0 <= s.initialized() <= s.capacity(),
        0 <= s.head() < s.capacity(),
{
    crate::storage::lemma_ring_bounds(s.storage);
}

/// The channel's activity predicate agrees with its ring's.
proof fn lemma_has_active_agrees<E: Event>(c: EventChannel<E>)
    ensures
        c.has_active() <==> c.storage.has_active(),
{
    if c.has_active() {
        let id = choose|id: int| c.is_active(id);
        assert(c.storage.is_active(id));
    }
    if c.storage.has_active() {
        let id = choose|id: int| c.storage.is_active(id);
        assert(c.is_active(id));
    }
}

/// The channel's fit predicate agrees with its ring's.
proof fn lemma_fits_agrees<E: Event>(c: EventChannel<E>, n: int)
    ensures
        c.fits(n) <==> c.storage.fits(n),
{
    if c.fits(n) {
        assert forall|id: int| #[trigger] c.storage.is_active(id) implies c.storage.unread(id)
            + n <= c.storage.capacity() by {
            assert(c.is_active(id));
        }
    }
    if c.storage.fits(n) {
        assert forall|id: int| #[trigger] c.is_active(id) implies c.unread(id) + n
            <= c.capacity() by {
            assert(c.storage.is_active(id));
        }
    }
}

/// Growth compounds: a capacity that is a power-of-two multiple of another,
/// which is itself a power-of-two multiple of the initial capacity, is a
/// power-of-two multiple of the initial capacity. Together with the
/// capacity clause of every write, the capacity is always the initial one
/// times a power of two.
pub proof fn lemma_growth_compounds(c0: int, c1: int, c2: int)
    requires
        exists|k: nat| c1 == c0 * pow2(k),
        exists|k: nat| c2 == c1 * pow2(k),
    ensures
        exists|k: nat| c2 == c0 * pow2(k),
{
    let k1 = choose|k: nat| c1 == c0 * pow2(k);
    let k2 = choose|k: nat| c2 == c1 * pow2(k);
    vstd::arithmetic::power2::lemma_pow2_adds(k1, k2);
    assert(c2 == c0 * pow2(k1 + k2)) by (nonlinear_arith)
        requires
            c1 == c0 * pow2(k1),
            c2 == c1 * pow2(k2),
            pow2(k1 + k2) == pow2(k1) * pow2(k2),
    ;
}

} // verus!
