//! Ring buffer implementation, with generation-tracked reader cursors.

use vstd::prelude::*;

use vstd::arithmetic::div_mod::lemma_fundamental_div_mod_converse_mod;
use vstd::arithmetic::power2::pow2;
use vstd::pervasive::unreached;

use std::marker::PhantomData;
use std::sync::atomic::{AtomicBool, Ordering};
use std::sync::Arc;

use crate::util::{InstanceId, Reference};

verus! {

broadcast use vstd::arithmetic::div_mod::lemma_mod_division_less_than_divisor;

/// Reserved index denoting "none": the exhausted state of an iterator and the
/// inactive state of a reader slot.
const MAGIC: usize = usize::MAX;

/// A capacity left alone is still a power-of-two multiple of itself.
proof fn lemma_pow2_zero()
    ensures
        pow2(0) == 1,
        forall|c: int| #[trigger] (c * pow2(0)) == c,
{
    vstd::arithmetic::power2::lemma2_to64();
    assert forall|c: int| #[trigger] (c * pow2(0)) == c by {
        assert(c * 1 == c) by (nonlinear_arith);
    }
}

/// If `x == q * m + r` with `r` in range, then `r` is `x % m`.
///
/// This is the one fact about `%` the ring arithmetic below leans on: a value
/// already brought into `[0, m)` by adding or subtracting whole multiples of
/// `m` is its own remainder.
proof fn lemma_mod_witness(x: int, m: int, q: int, r: int)
    requires
        m > 0,
        0 <= r < m,
        x == q * m + r,
    ensures
        x % m == r,
{
    lemma_fundamental_div_mod_converse_mod(x, m, q, r);
}

#[derive(Clone, Copy, Debug)]
struct CircularIndex {
    index: usize,
    size: usize,
}

impl CircularIndex {
    /// A circular index is either a valid position or the reserved mark.
    spec fn wf(self) -> bool {
        self.index < self.size || self.index == MAGIC
    }

    spec fn spec_is_magic(&self) -> bool {
        self.index == MAGIC
    }

    fn new(index: usize, size: usize) -> (r: Self)
        ensures
            r.index == index,
            r.size == size,
    {
        CircularIndex { index, size }
    }

    fn at_end(size: usize) -> (r: Self)
        requires
            size >= 1,
        ensures
            r.index == size - 1,
            r.size == size,
    {
        CircularIndex { index: size - 1, size }
    }

    /// The marked state (`!0`). This value gets set when calling `step` and we
    /// reached the end.
    fn magic(size: usize) -> (r: Self)
        ensures
            r.index == MAGIC,
            r.size == size,
    {
        CircularIndex::new(MAGIC, size)
    }

    #[verifier::when_used_as_spec(spec_is_magic)]
    fn is_magic(&self) -> (r: bool)
        ensures
            r == self.spec_is_magic(),
    {
        self.index == MAGIC
    }

    /// Yields each position from the current one up to `inclusive_end` in ring
    /// order exactly once, then `None` forever.
    fn step(&mut self, inclusive_end: usize) -> (r: Option<usize>)
        requires
            old(self).wf(),
            inclusive_end < old(self).size,
        ensures
            final(self).wf(),
            final(self).size == old(self).size,
            old(self).is_magic() ==> r is None && *final(self) == *old(self),
            !old(self).is_magic() && old(self).index == inclusive_end ==> r == Some(
                old(self).index,
            ) && final(self).is_magic(),
            !old(self).is_magic() && old(self).index != inclusive_end ==> r == Some(
                old(self).index,
            ) && final(self).index == (old(self).index + 1) % (old(self).size as int),
    {
        if self.index == MAGIC {
            None
        } else if self.index == inclusive_end {
            let r = self.index;
            self.index = MAGIC;
            Some(r)
        } else {
            let r = self.index;
            self.add_assign(1);
            Some(r)
        }
    }

    /// The position `rhs` steps forward of this one, modulo the size.
    fn add(self, rhs: usize) -> (r: usize)
        requires
            self.index < self.size,
            rhs <= usize::MAX - self.index,
        ensures
            r == (self.index + rhs) % (self.size as int),
            r < self.size,
    {
        (self.index + rhs) % self.size
    }

    fn add_assign(&mut self, rhs: usize)
        requires
            old(self).index < old(self).size,
            rhs <= usize::MAX - old(self).index,
        ensures
            final(self).index == (old(self).index + rhs) % (old(self).size as int),
            final(self).size == old(self).size,
            final(self).index < final(self).size,
    {
        self.index = self.add(rhs);
    }

    /// The position `rhs` steps backward of this one, modulo the size.
    fn sub(self, rhs: usize) -> (r: usize)
        requires
            self.index < self.size,
            rhs <= self.size,
        ensures
            r == (self.index - rhs) % (self.size as int),
            r < self.size,
    {
        proof {
            if rhs <= self.index {
                lemma_mod_witness(
                    self.index - rhs,
                    self.size as int,
                    0,
                    self.index - rhs,
                );
            } else {
                lemma_mod_witness(
                    self.index - rhs,
                    self.size as int,
                    -1,
                    self.size - rhs + self.index,
                );
            }
        }
        if rhs <= self.index {
            self.index - rhs
        } else {
            self.size - (rhs - self.index)
        }
    }
}

/// Contiguous storage of `capacity` slots, a suffix of whose ring order may
/// still be unoccupied.
#[derive(Debug)]
struct Data<T> {
    data: Vec<Option<T>>,
    uninitialized: usize,
}

impl<T> Data<T> {
    spec fn wf(self) -> bool {
        self.uninitialized <= self.data@.len()
    }

    /// How many slots hold an element.
    spec fn spec_init(self) -> int {
        self.data@.len() - self.uninitialized
    }

    fn new(size: usize) -> (r: Self)
        ensures
            r.wf(),
            r.data@.len() == size,
            r.uninitialized == size,
            forall|i: int| 0 <= i < size ==> r.data@[i] is None,
    {
        let mut data = Data { data: Vec::new(), uninitialized: 0 };
        data.grow(0, size);
        proof {
            assert forall|i: int| 0 <= i < size implies data.data@[i] is None by {
                assert(data.data@[i] == Seq::new(size as nat, |j: int| Option::<T>::None)[i]);
            }
        }
        data
    }

    /// Borrow the element in an occupied slot.
    fn get(&self, index: usize) -> (r: &T)
        requires
            index < self.data@.len(),
            self.data@[index as int] is Some,
        ensures
            *r == self.data@[index as int]->Some_0,
    {
        match &self.data[index] {
            Some(e) => e,
            None => unreached(),
        }
    }

    /// Store `elem` into the slot under `cursor`, filling it if it was empty.
    fn put(&mut self, cursor: usize, elem: T)
        requires
            old(self).wf(),
            cursor < old(self).data@.len(),
            old(self).data@[cursor as int] is None ==> old(self).uninitialized >= 1,
        ensures
            final(self).wf(),
            final(self).data@ == old(self).data@.update(cursor as int, Some(elem)),
            final(self).uninitialized == if old(self).data@[cursor as int] is None {
                (old(self).uninitialized - 1) as int
            } else {
                old(self).uninitialized as int
            },
    {
        if self.data[cursor].is_none() {
            // There is no element stored under `cursor` yet.
            self.uninitialized = self.uninitialized - 1;
        }
        self.data[cursor] = Some(elem);
    }

    /// `cursor` is the first position that gets moved to the back; free slots
    /// are created between `cursor - 1` and `cursor`.
    fn grow(&mut self, cursor: usize, by: usize)
        requires
            old(self).wf(),
            cursor <= old(self).data@.len(),
            by >= old(self).data@.len(),
            old(self).data@.len() + by <= usize::MAX,
        ensures
            final(self).wf(),
            final(self).data@.len() == old(self).data@.len() + by,
            final(self).uninitialized == old(self).uninitialized + by,
            final(self).data@ == old(self).data@.subrange(0, cursor as int) + Seq::new(
                by as nat,
                |i: int| Option::<T>::None,
            ) + old(self).data@.subrange(cursor as int, old(self).data@.len() as int),
    {
        let ghost orig = self.data@;
        let old_len = self.data.len();
        let mut i: usize = 0;
        while i < by
            invariant
                i <= by,
                old_len == orig.len(),
                old_len + by <= usize::MAX,
                cursor <= old_len,
                self.data@ == orig.subrange(0, cursor as int) + Seq::new(
                    i as nat,
                    |j: int| Option::<T>::None,
                ) + orig.subrange(cursor as int, old_len as int),
                self.uninitialized == old(self).uninitialized,
            decreases by - i,
        {
            self.data.insert(cursor, None);
            proof {
                assert(self.data@ =~= orig.subrange(0, cursor as int) + Seq::new(
                    (i + 1) as nat,
                    |j: int| Option::<T>::None,
                ) + orig.subrange(cursor as int, old_len as int));
            }
            i = i + 1;
        }
        self.uninitialized = self.uninitialized + by;
    }

    /// How many slots hold an element.
    fn num_initialized(&self) -> (r: usize)
        requires
            self.wf(),
        ensures
            r == self.spec_init(),
    {
        self.data.len() - self.uninitialized
    }
}

/// One reader cursor: the slot of the last element this reader observed and
/// the write generation at that observation. A `last_index` of `MAGIC` marks
/// the slot as free for reuse. The flag is lowered by the reader's handle
/// when it is dropped.
#[derive(Debug)]
struct Reader {
    generation: usize,
    last_index: usize,
    alive: Arc<AtomicBool>,
}

/// How many of the elements ever written a reader cursor has not yet
/// observed, read off the cursor itself.
///
/// Two equal positions are ambiguous: the reader is either fully caught up or
/// a full ring behind. The generation tells the two apart, because the writer
/// bumps it on every non-empty write batch.
spec fn reader_unread(r: Reader, head: int, gen: usize, cap: int) -> int {
    if r.last_index == head {
        if r.generation == gen {
            0
        } else {
            cap
        }
    } else {
        (head - r.last_index) % cap
    }
}

/// The distance the write generation has advanced past a reader's snapshot,
/// in wrapping `usize` arithmetic.
spec fn wrap_diff(a: usize, b: usize) -> int {
    (a - b) % (usize::MAX as int + 1)
}

impl Reader {
    fn set_inactive(&mut self)
        ensures
            final(self).last_index == MAGIC,
            final(self).generation == old(self).generation,
            final(self).alive == old(self).alive,
    {
        self.last_index = MAGIC;
    }

    fn active(&self) -> (r: bool)
        ensures
            r == (self.last_index != MAGIC),
    {
        self.last_index != MAGIC
    }

    /// How many slots the writer may still fill before reaching this reader:
    /// the ring capacity minus the number of unread elements.
    fn distance_from(&self, last: CircularIndex, current_gen: usize) -> (r: usize)
        requires
            self.last_index < last.size,
            last.index < last.size,
        ensures
            r == last.size - reader_unread(*self, last.index as int, current_gen, last.size as int),
    {
        let this = CircularIndex { index: self.last_index, size: last.size };
        let d = this.sub(last.index);
        proof {
            let cap = last.size as int;
            let head = last.index as int;
            let mine = self.last_index as int;
            if mine == head {
                lemma_mod_witness(mine - head, cap, 0, 0);
            } else if mine < head {
                lemma_mod_witness(mine - head, cap, -1, cap - (head - mine));
                lemma_mod_witness(head - mine, cap, 0, head - mine);
            } else {
                lemma_mod_witness(mine - head, cap, 0, mine - head);
                lemma_mod_witness(head - mine, cap, -1, cap - (mine - head));
            }
        }
        match d {
            0 => {
                if self.generation == current_gen {
                    last.size
                } else {
                    0
                }
            },
            x => x,
        }
    }

    /// Whether a growth that inserts slots right after `last_index` moves this
    /// reader's position: it does for every cursor in the relocated suffix,
    /// and for a cursor sitting on the write head a full ring behind.
    fn needs_shift(&self, last_index: usize, current_gen: usize) -> (r: bool)
        ensures
            r == (self.last_index > last_index || (self.last_index == last_index
                && self.generation != current_gen)),
    {
        self.last_index > last_index || (self.last_index == last_index && self.generation
            != current_gen)
    }
}

/// The reader registry: one cursor per registered reader, plus a free list of
/// slots whose readers have been dropped.
#[derive(Debug)]
struct ReaderMeta {
    /// Free ids.
    free: Vec<usize>,
    readers: Vec<Reader>,
}

impl ReaderMeta {
    spec fn n(self) -> int {
        self.readers@.len() as int
    }

    spec fn slot_active(self, id: int) -> bool {
        0 <= id < self.n() && self.readers@[id].last_index != MAGIC
    }

    spec fn in_free(self, id: int) -> bool {
        exists|j: int| 0 <= j < self.free@.len() && self.free@[j] == id
    }

    /// The free list holds exactly the inactive slots, once each.
    spec fn wf(self) -> bool {
        &&& self.free@.no_duplicates()
        &&& forall|j: int| 0 <= j < self.free@.len() ==> (#[trigger] self.free@[j]) < self.n()
        &&& forall|id: int|
            0 <= id < self.n() ==> (!(#[trigger] self.slot_active(id)) <==> self.in_free(id))
    }

    fn new() -> (r: Self)
        ensures
            r.wf(),
            r.n() == 0,
            r.free@.len() == 0,
    {
        ReaderMeta { free: Vec::new(), readers: Vec::new() }
    }

    fn has_reader(&self) -> (r: bool)
        ensures
            r == exists|id: int| self.slot_active(id),
    {
        let mut i: usize = 0;
        while i < self.readers.len()
            invariant
                i <= self.readers@.len(),
                forall|id: int| 0 <= id < i ==> !self.slot_active(id),
            decreases self.readers@.len() - i,
        {
            if self.readers[i].active() {
                assert(self.slot_active(i as int));
                return true;
            }
            i = i + 1;
        }
        false
    }

    /// Hand out a reader slot holding `(last_index, generation)` and a fresh
    /// liveness flag, reusing a free slot when one exists.
    fn allocate(&mut self, last_index: usize, generation: usize) -> (id: usize)
        requires
            old(self).wf(),
            last_index != MAGIC,
        ensures
            final(self).wf(),
            id < final(self).n(),
            old(self).n() <= final(self).n() <= old(self).n() + 1,
            final(self).slot_active(id as int),
            final(self).readers@[id as int].last_index == last_index,
            final(self).readers@[id as int].generation == generation,
            id < old(self).n() ==> !old(self).slot_active(id as int),
            final(self).n() == old(self).n() + 1 ==> id == old(self).n(),
            (exists|id2: int| 0 <= id2 < old(self).n() && !old(self).slot_active(id2))
                ==> final(self).n() == old(self).n(),
            forall|id2: int|
                0 <= id2 < old(self).n() && id2 != id ==> final(self).readers@[id2] == old(self).readers@[id2],
    {
        let fresh = Reader {
            generation,
            last_index,
            alive: Arc::new(AtomicBool::new(true)),
        };
        match self.free.pop() {
            Some(id) => {
                proof {
                    let j = self.free@.len() as int;
                    assert(old(self).free@[j] == id);
                    assert(old(self).in_free(id as int));
                }
                self.readers[id] = fresh;
                proof {
                    assert forall|id2: int| 0 <= id2 < final(self).n() implies (!final(self).slot_active(id2) <==> final(self).in_free(id2)) by {
                        if id2 == id {
                            if final(self).in_free(id2) {
                                let j = choose|j: int|
                                    0 <= j < final(self).free@.len() && final(self).free@[j] == id2;
                                assert(old(self).free@[j] == id);
                                assert(old(self).free@[old(self).free@.len() - 1] == id);
                            }
                        } else {
                            assert(old(self).slot_active(id2) == final(self).slot_active(id2));
                            if old(self).in_free(id2) {
                                let j = choose|j: int|
                                    0 <= j < old(self).free@.len() && old(self).free@[j] == id2;
                                assert(j < old(self).free@.len() - 1);
                                assert(final(self).free@[j] == id2);
                            }
                            if final(self).in_free(id2) {
                                let j = choose|j: int|
                                    0 <= j < final(self).free@.len() && final(self).free@[j] == id2;
                                assert(old(self).free@[j] == id2);
                            }
                        }
                    }
                }
                id
            },
            None => {
                let id = self.readers.len();
                proof {
                    if old(self).in_free(id as int) {
                        let j = choose|j: int|
                            0 <= j < old(self).free@.len() && old(self).free@[j] == id as int;
                        assert(old(self).free@[j] < old(self).n());
                    }
                    // The free list is empty here, so by the registry
                    // invariant no slot is inactive: nothing could be reused.
                    assert forall|id2: int| 0 <= id2 < old(self).n() implies old(self).slot_active(
                        id2,
                    ) by {
                        if !old(self).slot_active(id2) {
                            let j = choose|j: int|
                                0 <= j < old(self).free@.len() && old(self).free@[j] == id2;
                        }
                    }
                }
                self.readers.push(fresh);
                proof {
                    assert forall|id2: int| 0 <= id2 < final(self).n() implies (!final(self).slot_active(id2) <==> final(self).in_free(id2)) by {
                        if id2 < old(self).n() {
                            assert(old(self).slot_active(id2) == final(self).slot_active(id2));
                        }
                    }
                }
                id
            },
        }
    }

    /// Mark the slot inactive and queue its id for reuse.
    fn remove(&mut self, id: usize)
        requires
            old(self).wf(),
            old(self).slot_active(id as int),
        ensures
            final(self).wf(),
            final(self).n() == old(self).n(),
            !final(self).slot_active(id as int),
            final(self).readers@[id as int].last_index == MAGIC,
            forall|id2: int|
                0 <= id2 < old(self).n() && id2 != id ==> final(self).readers@[id2] == old(self).readers@[id2],
    {
        self.readers[id].set_inactive();
        self.free.push(id);
        proof {
            assert(!old(self).in_free(id as int));
            assert forall|id2: int| 0 <= id2 < final(self).n() implies (!final(self).slot_active(
                id2,
            ) <==> final(self).in_free(id2)) by {
                if id2 == id {
                    assert(final(self).free@[final(self).free@.len() - 1] == id);
                } else {
                    assert(old(self).slot_active(id2) == final(self).slot_active(id2));
                    if old(self).in_free(id2) {
                        let j = choose|j: int|
                            0 <= j < old(self).free@.len() && old(self).free@[j] == id2;
                        assert(final(self).free@[j] == id2);
                    }
                    if final(self).in_free(id2) {
                        let j = choose|j: int|
                            0 <= j < final(self).free@.len() && final(self).free@[j] == id2;
                        assert(j < old(self).free@.len());
                    }
                }
            }
        }
    }
}

impl ReaderMeta {
    /// The least forward distance from the write head to any active reader:
    /// how many slots may still be filled before one of them is overrun.
    /// `None` when no reader is active.
    fn nearest_index(&self, last: CircularIndex, current_gen: usize) -> (r: Option<usize>)
        requires
            last.index < last.size,
            forall|id: int|
                #[trigger] self.slot_active(id) ==> self.readers@[id].last_index < last.size,
        ensures
            r is None <==> !(exists|id: int| self.slot_active(id)),
            r matches Some(d) ==> exists|id: int|
                #[trigger] self.slot_active(id) && d == last.size - reader_unread(
                    self.readers@[id],
                    last.index as int,
                    current_gen,
                    last.size as int,
                ),
            r matches Some(d) ==> forall|id: int|
                #[trigger] self.slot_active(id) ==> d <= last.size - reader_unread(
                    self.readers@[id],
                    last.index as int,
                    current_gen,
                    last.size as int,
                ),
    {
        let mut best: Option<usize> = None;
        let mut i: usize = 0;
        while i < self.readers.len()
            invariant
                i <= self.readers@.len(),
                last.index < last.size,
                forall|id: int|
                    #[trigger] self.slot_active(id) ==> self.readers@[id].last_index < last.size,
                best is None <==> !(exists|id: int| self.slot_active(id) && id < i),
                best matches Some(d) ==> exists|id: int|
                    #[trigger] self.slot_active(id) && id < i && d == last.size - reader_unread(
                        self.readers@[id],
                        last.index as int,
                        current_gen,
                        last.size as int,
                    ),
                best matches Some(d) ==> forall|id: int|
                    #[trigger] self.slot_active(id) && id < i ==> d <= last.size - reader_unread(
                        self.readers@[id],
                        last.index as int,
                        current_gen,
                        last.size as int,
                    ),
            decreases self.readers@.len() - i,
        {
            if self.readers[i].active() {
                assert(self.slot_active(i as int));
                let d = self.readers[i].distance_from(last, current_gen);
                best = match best {
                    None => Some(d),
                    Some(b) => if d < b {
                        Some(d)
                    } else {
                        Some(b)
                    },
                };
            }
            i = i + 1;
        }
        best
    }

    /// Repair reader cursors after a growth that inserted `grow_by` slots
    /// right after the write head: every cursor in the relocated suffix moves
    /// with its data, as does a cursor sitting on the head a full ring behind.
    fn shift(&mut self, last_index: usize, current_gen: usize, grow_by: usize)
        requires
            old(self).wf(),
            forall|id: int|
                #[trigger] old(self).slot_active(id) ==> old(self).readers@[id].last_index
                    + grow_by < MAGIC,
        ensures
            final(self).wf(),
            final(self).n() == old(self).n(),
            forall|id: int| final(self).slot_active(id) <==> old(self).slot_active(id),
            forall|id: int|
                #[trigger] final(self).slot_active(id) ==> final(self).readers@[id].generation
                    == old(self).readers@[id].generation,
            forall|id: int|
                #[trigger] final(self).slot_active(id) ==> final(self).readers@[id].last_index
                    as int == if old(self).readers@[id].last_index > last_index || (old(self).readers@[id].last_index == last_index && old(self).readers@[id].generation
                    != current_gen) {
                    old(self).readers@[id].last_index + grow_by
                } else {
                    old(self).readers@[id].last_index as int
                },
    {
        let mut i: usize = 0;
        while i < self.readers.len()
            invariant
                i <= self.readers@.len(),
                self.wf(),
                self.n() == old(self).n(),
                forall|id: int|
                    #[trigger] old(self).slot_active(id) ==> old(self).readers@[id].last_index
                        + grow_by < MAGIC,
                forall|id: int| self.slot_active(id) <==> old(self).slot_active(id),
                forall|id: int|
                    i <= id < self.n() ==> self.readers@[id] == old(self).readers@[id],
                forall|id: int|
                    #[trigger] self.slot_active(id) ==> self.readers@[id].generation == old(self).readers@[id].generation,
                forall|id: int|
                    #[trigger] self.slot_active(id) && id < i ==> self.readers@[id].last_index
                        as int == if old(self).readers@[id].last_index > last_index || (old(self).readers@[id].last_index == last_index && old(self).readers@[id].generation
                        != current_gen) {
                        old(self).readers@[id].last_index + grow_by
                    } else {
                        old(self).readers@[id].last_index as int
                    },
            decreases self.readers@.len() - i,
        {
            let is_live = self.readers[i].active();
            if is_live {
                let ghost prev = *self;
                proof {
                    assert(prev.slot_active(i as int));
                    assert(old(self).slot_active(i as int));
                    assert(prev.readers@[i as int] == old(self).readers@[i as int]);
                }
                if self.readers[i].needs_shift(last_index, current_gen) {
                    let moved = self.readers[i].last_index + grow_by;
                    self.readers[i].last_index = moved;
                    proof {
                        assert(moved != MAGIC);
                        assert forall|id: int| #[trigger] self.slot_active(id)
                            <==> prev.slot_active(id) by {
                            if 0 <= id < self.n() && id != i {
                                assert(self.readers@[id] == prev.readers@[id]);
                            }
                        }
                        assert forall|id: int| 0 <= id < self.n() implies (!(
                        #[trigger] self.slot_active(id)) <==> self.in_free(id)) by {
                            assert(self.slot_active(id) <==> prev.slot_active(id));
                            assert(self.free@ == prev.free@);
                            if prev.in_free(id) {
                                let j = choose|j: int|
                                    0 <= j < prev.free@.len() && prev.free@[j] == id;
                                assert(self.free@[j] == id);
                            }
                            if self.in_free(id) {
                                let j = choose|j: int|
                                    0 <= j < self.free@.len() && self.free@[j] == id;
                                assert(prev.free@[j] == id);
                            }
                        }
                    }
                }
            }
            i = i + 1;
        }
    }
}

/// A reader ID which represents a subscription to the events pushed to the
/// `EventChannel`.
///
/// For each reader ID, the last read event is tracked; this way, the buffer
/// gets grown whenever it would overwrite an event which was not yet observed
/// by every `ReaderId`.
///
/// Dropping a `ReaderId` effectively cancels the subscription to those events.
///
/// Note that as long as a `ReaderId` exists, it is crucial to use it to read
/// the events; otherwise the buffer of the `EventChannel` **will** keep
/// growing.
#[derive(Debug)]
pub struct ReaderId<T: 'static> {
    id: usize,
    marker: PhantomData<&'static [T]>,
    reference: Reference,
    /// Shared with this reader's registry slot; lowered on drop.
    alive: Arc<AtomicBool>,
}

impl<T: 'static> ReaderId<T> {
    /// The registry slot this subscription occupies.
    pub closed spec fn spec_id(&self) -> int {
        self.id as int
    }

    /// The identity of the buffer this subscription belongs to.
    pub closed spec fn instance(&self) -> int {
        self.reference.id()
    }

    /// The registry slot this subscription occupies.
    pub fn id(&self) -> (r: usize)
        ensures
            r == self.spec_id(),
    {
        self.id
    }
}

impl<T: 'static> Drop for ReaderId<T> {
    /// Relies on `AtomicBool::store`: lowers the shared liveness flag, which
    /// tells the buffer during its next `maintain` that this slot can be
    /// reused.
    #[verifier::external_body]
    fn drop(&mut self)
        opens_invariants none
        no_unwind
    {
        self.alive.store(false, Ordering::SeqCst);
    }
}

/// Ring buffer, holding data of type `T`.
#[derive(Debug)]
pub struct RingBuffer<T> {
    /// Cached lower bound on the slots that can be written without growing.
    available: usize,
    /// Position of the most recently written slot; its `size` is the capacity.
    last_index: CircularIndex,
    data: Data<T>,
    /// Wrapping count of the non-empty write batches so far.
    generation: usize,
    instance_id: InstanceId,
    meta: ReaderMeta,
}

impl<T: 'static> RingBuffer<T> {
    /// The number of slots in the ring.
    pub closed spec fn capacity(self) -> int {
        self.last_index.size as int
    }

    /// The slot of the most recently written element.
    pub closed spec fn head(self) -> int {
        self.last_index.index as int
    }

    /// The wrapping count of non-empty write batches so far.
    pub closed spec fn gen(self) -> int {
        self.generation as int
    }

    /// The cached lower bound on how many elements can be written without
    /// growing the ring.
    pub closed spec fn spec_available(self) -> int {
        self.available as int
    }

    /// How many slots currently hold an element.
    pub closed spec fn initialized(self) -> int {
        self.data.spec_init()
    }

    /// The number of registry slots, dropped ones included.
    pub closed spec fn num_slots(self) -> int {
        self.meta.n()
    }

    /// Whether registry slot `id` belongs to a live subscription.
    pub closed spec fn is_active(self, id: int) -> bool {
        self.meta.slot_active(id)
    }

    /// How many events were written after slot `id` last read.
    pub closed spec fn unread(self, id: int) -> int {
        reader_unread(
            self.meta.readers@[id],
            self.head(),
            self.generation,
            self.capacity(),
        )
    }

    /// The slot holding the element written `b` steps before the latest one.
    spec fn slot_back(self, b: int) -> int {
        (self.head() - b) % self.capacity()
    }

    /// The element written `b` steps before the latest one.
    spec fn elem_back(self, b: int) -> T {
        self.data.data@[self.slot_back(b)]->Some_0
    }

    /// The events slot `id` has not observed yet, oldest first.
    pub closed spec fn pending(self, id: int) -> Seq<T> {
        Seq::new(self.unread(id) as nat, |k: int| self.elem_back(self.unread(id) - 1 - k))
    }

    /// The identity carried by every handle this buffer hands out.
    pub closed spec fn instance(self) -> int {
        self.instance_id.id()
    }

    /// Whether any subscription is live.
    pub open spec fn has_active(self) -> bool {
        exists|id: int| self.is_active(id)
    }

    /// Whether `n` more events fit without overwriting any unread one.
    pub open spec fn fits(self, n: int) -> bool {
        forall|id: int| #[trigger] self.is_active(id) ==> self.unread(id) + n <= self.capacity()
    }

    /// The internal invariant: the cursors, the cached space bound and the
    /// occupied slots are all consistent with one another.
    pub closed spec fn wf(self) -> bool {
        &&& self.data.wf()
        &&& self.data.data@.len() == self.last_index.size
        &&& 2 <= self.last_index.size
        &&& self.last_index.index < self.last_index.size
        &&& self.available <= self.last_index.size
        &&& self.meta.wf()
        &&& forall|id: int|
            #[trigger] self.is_active(id) ==> self.meta.readers@[id].last_index
                < self.last_index.size
        &&& forall|id: int| #[trigger] self.is_active(id) ==> self.unread(id) <= self.data.spec_init()
        &&& forall|id: int|
            #[trigger] self.is_active(id) ==> wrap_diff(
                self.generation,
                self.meta.readers@[id].generation,
            ) <= self.unread(id)
        &&& forall|id: int|
            #[trigger] self.is_active(id) && wrap_diff(
                self.generation,
                self.meta.readers@[id].generation,
            ) == 0 ==> self.unread(id) == 0
        &&& forall|id: int|
            #[trigger] self.is_active(id) ==> self.available + self.unread(id) <= self.capacity()
        &&& forall|b: int|
            0 <= b < self.capacity() ==> (self.data.data@[#[trigger] self.slot_back(b)] is Some
                <==> b < self.data.spec_init())
    }

    /// Create a new ring buffer with the given initial size.
    pub fn new(size: usize) -> (r: Self)
        requires
            size > 1,
        ensures
            r.wf(),
            r.capacity() == size,
            r.num_slots() == 0,
            forall|id: int| !r.is_active(id),
            r.spec_available() == size,
            r.head() == size - 1,
            r.gen() == 0,
            r.initialized() == 0,
    {
        let r = RingBuffer {
            available: size,
            last_index: CircularIndex::at_end(size),
            data: Data::new(size),
            generation: 0,
            instance_id: InstanceId::new(
                "`ReaderId` was not allocated by this `EventChannel`",
            ),
            meta: ReaderMeta::new(),
        };
        proof {
            assert forall|b: int| 0 <= b < r.capacity() implies (slot_occupied(r, b) <==> b
                < r.data.spec_init()) by {
                assert(0 <= r.slot_back(b) < r.capacity());
            }
        }
        r
    }

    /// Drain the drop notifications: every slot whose reader handle has been
    /// dropped is released for reuse.
    fn maintain(&mut self)
        requires
            old(self).wf(),
        ensures
            final(self).wf(),
            final(self).num_slots() == old(self).num_slots(),
            final(self).available == old(self).available,
            final(self).last_index == old(self).last_index,
            final(self).generation == old(self).generation,
            final(self).data == old(self).data,
            final(self).instance_id == old(self).instance_id,
            forall|id: int| #[trigger] final(self).is_active(id) ==> old(self).is_active(id),
            forall|id: int|
                #[trigger] final(self).is_active(id) ==> final(self).meta.readers@[id] == old(self).meta.readers@[id],
    {
        let mut i: usize = 0;
        while i < self.meta.readers.len()
            invariant
                self.wf(),
                self.meta.n() == old(self).meta.n(),
                self.available == old(self).available,
                self.last_index == old(self).last_index,
                self.generation == old(self).generation,
                self.data == old(self).data,
                self.instance_id == old(self).instance_id,
                forall|id: int| #[trigger] self.is_active(id) ==> old(self).is_active(id),
                forall|id: int|
                    #[trigger] self.is_active(id) ==> self.meta.readers@[id] == old(self).meta.readers@[id],
            decreases self.meta.readers@.len() - i,
        {
            let slot_live = self.meta.readers[i].active();
            if slot_live {
                let handle_live = self.meta.readers[i].alive.load(Ordering::SeqCst);
                if !handle_live {
                    let ghost prev = *self;
                    self.meta.remove(i);
                    proof {
                        lemma_deactivate_preserves_wf(prev, *self, i as int);
                    }
                }
            }
            i = i + 1;
        }
    }
}

impl<T: 'static> RingBuffer<T> {
    /// Checks if any reader would observe an additional event.
    pub fn would_write(&mut self) -> (r: bool)
        requires
            old(self).wf(),
        ensures
            final(self).wf(),
            r == final(self).has_active(),
            final(self).capacity() == old(self).capacity(),
            final(self).num_slots() == old(self).num_slots(),
            final(self).instance() == old(self).instance(),
            final(self).gen() == old(self).gen(),
            final(self).head() == old(self).head(),
            final(self).spec_available() == old(self).spec_available(),
            final(self).initialized() == old(self).initialized(),
            forall|id: int| #[trigger] final(self).is_active(id) ==> old(self).is_active(id),
            forall|id: int|
                #[trigger] final(self).is_active(id) ==> final(self).pending(id) == old(self).pending(id) && final(self).unread(id) == old(self).unread(id),
    {
        self.maintain();
        proof {
            assert forall|id: int| #[trigger] self.is_active(id) implies self.pending(id) == old(self).pending(id) && self.unread(id) == old(self).unread(id) by {
                lemma_pending_same(*old(self), *self, id);
            }
        }
        let r = self.meta.has_reader();
        proof {
            if r {
                let id = choose|id: int| self.meta.slot_active(id);
                assert(self.is_active(id));
            }
            if self.has_active() {
                let id = choose|id: int| self.is_active(id);
                assert(self.meta.slot_active(id));
            }
        }
        r
    }

    /// Create a new reader id for this ring buffer.
    ///
    /// The new subscription starts out with nothing pending: only events
    /// written after this call will be observed through it.
    pub fn new_reader_id(&mut self) -> (r: ReaderId<T>)
        requires
            old(self).wf(),
        ensures
            final(self).wf(),
            final(self).instance() == old(self).instance(),
            r.instance() == final(self).instance(),
            r.spec_id() < final(self).num_slots(),
            final(self).is_active(r.spec_id()),
            final(self).unread(r.spec_id()) == 0,
            final(self).pending(r.spec_id()) == Seq::<T>::empty(),
            final(self).capacity() == old(self).capacity(),
            final(self).gen() == old(self).gen(),
            final(self).head() == old(self).head(),
            final(self).spec_available() == old(self).spec_available(),
            final(self).initialized() == old(self).initialized(),
            old(self).num_slots() <= final(self).num_slots() <= old(self).num_slots() + 1,
            (exists|id: int| 0 <= id < old(self).num_slots() && !old(self).is_active(id))
                ==> final(self).num_slots() == old(self).num_slots(),
            forall|id: int|
                id != r.spec_id() && #[trigger] final(self).is_active(id) ==> old(self).is_active(
                    id,
                ) && final(self).pending(id) == old(self).pending(id) && final(self).unread(id)
                    == old(self).unread(id),
    {
        self.maintain();
        let ghost mid = *self;
        let last_index = self.last_index.index;
        let generation = self.generation;
        let id = self.meta.allocate(last_index, generation);
        proof {
            if exists|id2: int| 0 <= id2 < old(self).num_slots() && !old(self).is_active(id2) {
                let w = choose|id2: int|
                    0 <= id2 < old(self).num_slots() && !old(self).is_active(id2);
                assert(!mid.is_active(w));
                assert(0 <= w < mid.meta.n() && !mid.meta.slot_active(w));
            }
            lemma_mod_witness(0, usize::MAX as int + 1, 0, 0);
            assert forall|id2: int| id2 != id && #[trigger] self.is_active(id2) implies old(self).is_active(id2) && self.pending(id2) == old(self).pending(id2) && self.unread(id2)
                == old(self).unread(id2) by {
                assert(0 <= id2 < mid.meta.n());
                assert(self.meta.readers@[id2] == mid.meta.readers@[id2]);
                assert(mid.is_active(id2));
                assert(mid.meta.readers@[id2] == old(self).meta.readers@[id2]);
                lemma_pending_same(mid, *self, id2);
                lemma_pending_same(*old(self), mid, id2);
            }
            assert(self.unread(id as int) == 0);
            assert forall|id2: int| #[trigger] self.is_active(id2) implies
                self.meta.readers@[id2].last_index < self.last_index.size && self.unread(id2)
                <= self.data.spec_init() && wrap_diff(self.generation,
                self.meta.readers@[id2].generation) <= self.unread(id2) && (wrap_diff(
                self.generation, self.meta.readers@[id2].generation) == 0 ==> self.unread(id2)
                == 0) && self.available
                + self.unread(id2) <= self.capacity() by {
                if id2 != id {
                    assert(mid.is_active(id2));
                    assert(self.unread(id2) == mid.unread(id2));
                }
            }
            assert forall|b: int| 0 <= b < self.capacity() implies (self.data.data@[
                #[trigger] self.slot_back(b)] is Some <==> b < self.data.spec_init()) by {
                assert(self.slot_back(b) == mid.slot_back(b));
                assert(mid.data.data@[mid.slot_back(b)] is Some <==> b < mid.data.spec_init());
            }
            assert(self.pending(id as int) =~= Seq::<T>::empty());
        }
        let flag = crate::util::clone_arc(&self.meta.readers[id].alive);
        ReaderId {
            id,
            marker: PhantomData,
            reference: self.instance_id.reference(),
            alive: flag,
        }
    }
}

impl<T: 'static> RingBuffer<T> {
    /// Ensures that `num` elements can be inserted.
    ///
    /// Does nothing if there's enough space; otherwise recomputes the free
    /// space from the reader cursors and, if that is still short, grows the
    /// ring to the smallest power-of-two multiple of its capacity that fits,
    /// without disturbing what any active reader has yet to observe.
    #[inline(always)]
    pub fn ensure_additional(&mut self, num: usize)
        requires
            old(self).wf(),
            old(self).capacity() + num <= usize::MAX as int / 2,
        ensures
            final(self).wf(),
            final(self).num_slots() == old(self).num_slots(),
            final(self).instance() == old(self).instance(),
            final(self).gen() == old(self).gen(),
            final(self).head() == old(self).head(),
            final(self).initialized() == old(self).initialized(),
            forall|id: int|
                #[trigger] final(self).is_active(id) ==> old(self).is_active(id) && final(self).pending(id) == old(self).pending(id) && final(self).unread(id) == old(self).unread(id),
            final(self).has_active() ==> final(self).spec_available() >= num,
            final(self).spec_available() >= num || final(self).spec_available() == final(self).capacity(),
            final(self).capacity() >= old(self).capacity(),
            old(self).fits(num as int) ==> final(self).capacity() == old(self).capacity(),
            exists|k: nat| final(self).capacity() == old(self).capacity() * pow2(k),
            final(self).capacity() == old(self).capacity() || final(self).capacity() < 2 * (
            old(self).capacity() + num),
            final(self).capacity() > old(self).capacity() ==> exists|id: int|
                #[trigger] final(self).is_active(id) && final(self).capacity() < 2 * (num + final(self).unread(id)),
            old(self).spec_available() < num && !final(self).has_active() ==> final(self).spec_available() == final(self).capacity(),
            old(self).spec_available() < num && final(self).has_active() ==> exists|id: int|
                #[trigger] final(self).is_active(id) && final(self).spec_available() == final(self).capacity() - final(self).unread(id),
            old(self).spec_available() < num ==> forall|id: int|
                #[trigger] final(self).is_active(id) ==> final(self).spec_available() + final(self).unread(id) <= final(self).capacity(),
            old(self).spec_available() >= num ==> *final(self) == *old(self),
    {
        if self.available >= num {
            proof {
                lemma_pow2_zero();
            }
            return;
        }
        self.ensure_additional_slow(num);
    }

    #[inline(never)]
    fn ensure_additional_slow(&mut self, num: usize)
        requires
            old(self).wf(),
            old(self).capacity() + num <= usize::MAX as int / 2,
        ensures
            final(self).wf(),
            final(self).num_slots() == old(self).num_slots(),
            final(self).instance() == old(self).instance(),
            final(self).gen() == old(self).gen(),
            final(self).head() == old(self).head(),
            final(self).initialized() == old(self).initialized(),
            forall|id: int|
                #[trigger] final(self).is_active(id) ==> old(self).is_active(id) && final(self).pending(id) == old(self).pending(id) && final(self).unread(id) == old(self).unread(id),
            final(self).has_active() ==> final(self).spec_available() >= num,
            final(self).spec_available() >= num || final(self).spec_available() == final(self).capacity(),
            final(self).capacity() >= old(self).capacity(),
            old(self).fits(num as int) ==> final(self).capacity() == old(self).capacity(),
            exists|k: nat| final(self).capacity() == old(self).capacity() * pow2(k),
            final(self).capacity() == old(self).capacity() || final(self).capacity() < 2 * (
            old(self).capacity() + num),
            final(self).capacity() > old(self).capacity() ==> exists|id: int|
                #[trigger] final(self).is_active(id) && final(self).capacity() < 2 * (num + final(self).unread(id)),
            !final(self).has_active() ==> final(self).spec_available() == final(self).capacity(),
            final(self).has_active() ==> exists|id: int|
                #[trigger] final(self).is_active(id) && final(self).spec_available() == final(self).capacity() - final(self).unread(id),
            forall|id: int|
                #[trigger] final(self).is_active(id) ==> final(self).spec_available() + final(self).unread(id) <= final(self).capacity(),
    {
        self.maintain();
        let ghost s0 = *self;
        proof {
            assert forall|id: int| #[trigger] self.is_active(id) implies old(self).is_active(id)
                && self.pending(id) == old(self).pending(id) && self.unread(id) == old(self).unread(id) by {
                lemma_pending_same(*old(self), *self, id);
            }
            assert forall|id: int| #[trigger] self.meta.slot_active(id)
                implies self.meta.readers@[id].last_index < self.last_index.size by {
                assert(self.is_active(id));
            }
        }
        let ghost mut witness_id: int = 0;
        let left: usize = match self.meta.nearest_index(self.last_index, self.generation) {
            None => {
                self.available = self.last_index.size;
                proof {
                    assert(!exists|id: int| s0.meta.slot_active(id));
                    assert forall|id: int| !(#[trigger] self.is_active(id)) by {
                        assert(!s0.meta.slot_active(id));
                    }
                    lemma_set_available(s0, *self);
                    lemma_pow2_zero();
                }
                return;
            },
            Some(d) => {
                self.available = d;
                proof {
                    witness_id = choose|id: int|
                        #[trigger] s0.meta.slot_active(id) && d == s0.capacity()
                            - s0.unread(id);
                    assert(s0.is_active(witness_id));
                    assert(s0.unread(witness_id) >= 0);
                    assert(d <= s0.capacity());
                    assert forall|id: int| #[trigger] self.is_active(id) implies self.available
                        + self.unread(id) <= self.capacity() by {
                        assert(s0.meta.slot_active(id));
                        assert(d <= s0.capacity() - s0.unread(id));
                    }
                }
                if d >= num {
                    proof {
                        lemma_set_available(s0, *self);
                        lemma_pow2_zero();
                        assert(self.is_active(witness_id));
                        assert(self.unread(witness_id) == s0.unread(witness_id));
                        assert(self.spec_available() == self.capacity() - self.unread(
                            witness_id,
                        ));
                        assert(self.has_active());
                    }
                    return;
                }
                proof {
                    lemma_set_available(s0, *self);
                    // If every reader still had room for `num` more events,
                    // the nearest one would too, and we would have returned.
                    if old(self).fits(num as int) {
                        let witness = choose|id: int|
                            #[trigger] s0.meta.slot_active(id) && d == s0.capacity()
                                - s0.unread(id);
                        assert(old(self).is_active(witness));
                        assert(old(self).unread(witness) + num <= old(self).capacity());
                        assert(false);
                    }
                }
                d
            },
        };
        let grow_by = num - left;
        let min_target = self.last_index.size + grow_by;
        let ghost cap = self.capacity();
        let mut size = 2 * self.last_index.size;
        let ghost mut k: nat = 1nat;
        proof {
            assert(pow2(1) == 2) by {
                vstd::arithmetic::power2::lemma2_to64();
            }
            assert(size == cap * pow2(1)) by (nonlinear_arith)
                requires
                    size == 2 * cap,
                    pow2(1) == 2,
            ;
        }
        while size < min_target
            invariant
                size == cap * pow2(k),
                min_target <= cap + num,
                cap + num <= usize::MAX as int / 2,
                2 <= cap,
                size >= 2 * cap,
                size < 2 * min_target,
            decreases 2 * min_target - size,
        {
            proof {
                vstd::arithmetic::power2::lemma_pow2_unfold(k + 1);
                assert(2 * (cap * pow2(k)) == cap * (2 * pow2(k))) by (nonlinear_arith);
            }
            size = size * 2;
            proof {
                k = k + 1nat;
            }
        }
        let grow_by = size - self.last_index.size;
        let ghost s1 = *self;
        let cursor = self.last_index.index + 1;
        self.data.grow(cursor, grow_by);
        self.last_index.size = size;
        self.meta.shift(self.last_index.index, self.generation, grow_by);
        self.available = left + grow_by;
        proof {
            lemma_grow_preserves(s1, *self, grow_by as int);
            assert forall|id: int| #[trigger] self.is_active(id) implies old(self).is_active(id)
                && self.pending(id) == old(self).pending(id) && self.unread(id) == old(self).unread(id) by {
                assert(s1.is_active(id));
                assert(s0.is_active(id));
            }
            assert forall|id: int| #[trigger] self.is_active(id) implies self.available
                + self.unread(id) <= self.capacity() by {
                assert(s1.is_active(id));
                assert(s1.available + s1.unread(id) <= cap);
            }
            assert forall|id: int| #[trigger] self.is_active(id) implies wrap_diff(
                self.generation,
                self.meta.readers@[id].generation,
            ) <= self.unread(id) && (wrap_diff(
                self.generation,
                self.meta.readers@[id].generation,
            ) == 0 ==> self.unread(id) == 0) by {
                assert(s1.is_active(id));
                assert(self.unread(id) == s1.unread(id));
            }
            assert(self.capacity() == old(self).capacity() * pow2(k));
            // The recomputed cache is exactly the gap to the farthest-behind
            // reader, and the chosen size is the least that would have fit.
            assert(s1.is_active(witness_id));
            assert(s1.unread(witness_id) == s0.unread(witness_id));
            assert(self.is_active(witness_id));
            assert(self.unread(witness_id) == s0.unread(witness_id));
            assert(left == s0.capacity() - s0.unread(witness_id));
            assert(self.spec_available() == self.capacity() - self.unread(witness_id));
            assert(self.has_active());
            assert(size < 2 * min_target);
            assert(min_target == num + s0.unread(witness_id));
            assert(self.capacity() < 2 * (num + self.unread(witness_id)));
            assert(self.capacity() < 2 * (old(self).capacity() + num));
        }
    }

    /// Write a single data point into the ring buffer.
    pub fn single_write(&mut self, element: T)
        requires
            old(self).wf(),
            old(self).capacity() + 1 <= usize::MAX as int / 2,
        ensures
            final(self).wf(),
            final(self).num_slots() == old(self).num_slots(),
            final(self).instance() == old(self).instance(),
            forall|id: int| #[trigger] final(self).is_active(id) ==> old(self).is_active(id),
            forall|id: int|
                #[trigger] final(self).is_active(id) ==> final(self).pending(id) == old(self).pending(id).push(element) && final(self).unread(id) == old(self).unread(id)
                    + 1,
            old(self).fits(1) ==> final(self).capacity() == old(self).capacity(),
            final(self).capacity() >= old(self).capacity(),
            exists|k: nat| final(self).capacity() == old(self).capacity() * pow2(k),
            final(self).gen() == (if old(self).gen() == usize::MAX as int {
                0int
            } else {
                old(self).gen() + 1
            }),
            final(self).head() == (old(self).head() + 1) % final(self).capacity(),
            final(self).initialized() == (if old(self).initialized() + 1 <= final(self).capacity() {
                old(self).initialized() + 1
            } else {
                final(self).capacity()
            }),
            1 <= old(self).spec_available() ==> (forall|id: int|
                (#[trigger] final(self).is_active(id)) <==> old(self).is_active(id)),
            1 <= old(self).spec_available() ==> final(self).spec_available() == old(self).spec_available() - 1,
            final(self).capacity() == old(self).capacity() || final(self).capacity() < 2 * (
            old(self).capacity() + 1),
            final(self).capacity() > old(self).capacity() ==> exists|id: int|
                #[trigger] final(self).is_active(id) && final(self).capacity() < 2 * final(self).unread(id),
            forall|id: int|
                #[trigger] final(self).is_active(id) ==> final(self).spec_available() + final(self).unread(id) <= final(self).capacity(),
            1 > old(self).spec_available() && final(self).has_active() ==> exists|id: int|
                #[trigger] final(self).is_active(id) && final(self).spec_available() == final(self).capacity() - final(self).unread(id),
            1 > old(self).spec_available() && !final(self).has_active() ==> final(self).spec_available() == (if 1 <= final(self).capacity() {
                final(self).capacity() - 1
            } else {
                0int
            }),
    {
        let mut batch: Vec<T> = Vec::new();
        batch.push(element);
        let ghost single = batch@;
        self.iter_write(batch);
        proof {
            assert forall|id: int| #[trigger] self.is_active(id) implies self.pending(id) == old(self).pending(id).push(element) by {
                assert(self.pending(id) =~= old(self).pending(id) + single);
                assert(old(self).pending(id) + single =~= old(self).pending(id).push(element));
            }
        }
    }

    /// Removes all elements from a `Vec` and pushes them to the ring buffer.
    pub fn drain_vec_write(&mut self, data: &mut Vec<T>)
        requires
            old(self).wf(),
            old(self).capacity() + old(data)@.len() <= usize::MAX as int / 2,
        ensures
            final(self).wf(),
            final(data)@ == Seq::<T>::empty(),
            final(self).num_slots() == old(self).num_slots(),
            final(self).instance() == old(self).instance(),
            forall|id: int| #[trigger] final(self).is_active(id) ==> old(self).is_active(id),
            forall|id: int|
                #[trigger] final(self).is_active(id) ==> final(self).pending(id) == old(self).pending(id) + old(data)@ && final(self).unread(id) == old(self).unread(id)
                    + old(data)@.len(),
            old(self).fits(old(data)@.len() as int) ==> final(self).capacity() == old(self).capacity(),
            final(self).capacity() >= old(self).capacity(),
            exists|k: nat| final(self).capacity() == old(self).capacity() * pow2(k),
            old(data)@.len() > 0 ==> final(self).gen() == (if old(self).gen()
                == usize::MAX as int {
                0int
            } else {
                old(self).gen() + 1
            }),
            old(data)@.len() > 0 ==> final(self).head() == (old(self).head()
                + old(data)@.len()) % final(self).capacity(),
            final(self).initialized() == (if old(self).initialized() + old(data)@.len() <= final(self).capacity() {
                old(self).initialized() + old(data)@.len()
            } else {
                final(self).capacity()
            }),
            old(data)@.len() == 0 ==> *final(self) == *old(self),
            old(data)@.len() <= old(self).spec_available() ==> (forall|id: int|
                (#[trigger] final(self).is_active(id)) <==> old(self).is_active(id)),
            old(data)@.len() <= old(self).spec_available() ==> final(self).spec_available() == old(self).spec_available() - old(data)@.len(),
            final(self).capacity() == old(self).capacity() || final(self).capacity() < 2 * (
            old(self).capacity() + old(data)@.len()),
            final(self).capacity() > old(self).capacity() ==> exists|id: int|
                #[trigger] final(self).is_active(id) && final(self).capacity() < 2 * final(self).unread(id),
            forall|id: int|
                #[trigger] final(self).is_active(id) ==> final(self).spec_available() + final(self).unread(id) <= final(self).capacity(),
            old(data)@.len() > old(self).spec_available() && final(self).has_active() ==> exists|id: int|
                #[trigger] final(self).is_active(id) && final(self).spec_available() == final(self).capacity() - final(self).unread(id),
            old(data)@.len() > old(self).spec_available() && !final(self).has_active() ==> final(self).spec_available() == (if old(data)@.len() <= final(self).capacity() {
                final(self).capacity() - old(data)@.len()
            } else {
                0int
            }),
    {
        let mut drained: Vec<T> = Vec::new();
        core::mem::swap(data, &mut drained);
        self.iter_write(drained);
    }

    /// How many slots of the ring currently hold an element.
    pub fn num_initialized(&self) -> (r: usize)
        requires
            self.wf(),
        ensures
            r == self.initialized(),
    {
        self.data.num_initialized()
    }

    /// How many registry slots exist, free ones included.
    pub fn num_reader_slots(&self) -> (r: usize)
        ensures
            r == self.num_slots(),
    {
        self.meta.readers.len()
    }

    /// Read data from the ring buffer, starting where the last read ended,
    /// and up to where the last element was written.
    ///
    /// The reader's cursor advances to the write head at this call, whether
    /// or not the returned iterator is consumed.
    pub fn read<'a>(&'a mut self, reader_id: &mut ReaderId<T>) -> (it: StorageIterator<'a, T>)
        requires
            old(self).wf(),
            old(reader_id).instance() == old(self).instance(),
            old(reader_id).spec_id() < old(self).num_slots(),
        ensures
            *final(reader_id) == *old(reader_id),
            final(self).wf(),
            final(self).capacity() == old(self).capacity(),
            final(self).num_slots() == old(self).num_slots(),
            final(self).instance() == old(self).instance(),
            final(self).gen() == old(self).gen(),
            final(self).head() == old(self).head(),
            final(self).spec_available() == old(self).spec_available(),
            final(self).initialized() == old(self).initialized(),
            it.wf(),
            old(self).is_active(old(reader_id).spec_id()) ==> it.remaining() == old(self).pending(old(reader_id).spec_id()),
            old(self).is_active(old(reader_id).spec_id()) ==> final(self).is_active(
                old(reader_id).spec_id(),
            ) && final(self).unread(old(reader_id).spec_id()) == 0 && final(self).pending(
                old(reader_id).spec_id(),
            ) == Seq::<T>::empty(),
            !old(self).is_active(old(reader_id).spec_id()) ==> *final(self) == *old(self)
                && it.remaining() == Seq::<T>::empty(),
            forall|id: int|
                id != old(reader_id).spec_id() ==> (#[trigger] final(self).is_active(id) <==> old(self).is_active(id)),
            forall|id: int|
                id != old(reader_id).spec_id() && #[trigger] final(self).is_active(id) ==> final(self).pending(id) == old(self).pending(id) && final(self).unread(id) == old(self).unread(id),
    {
        // Check that `reader_id` was actually created for this buffer. This
        // is a caller-side proof obligation, so verified callers can never
        // reach the mismatch.
        self.instance_id.assert_eq(&reader_id.reference);
        let rid = reader_id.id;
        let live = self.meta.readers[rid].active();
        if live {
            let ghost pre = *self;
            proof {
                assert(pre.is_active(rid as int));
            }
            let old_last = self.meta.readers[rid].last_index;
            let old_gen = self.meta.readers[rid].generation;
            self.meta.readers[rid].last_index = self.last_index.index;
            self.meta.readers[rid].generation = self.generation;
            let mut index = CircularIndex::new(old_last, self.last_index.size);
            index.add_assign(1);
            if old_gen == self.generation {
                // Nothing was written since this reader's snapshot.
                index = CircularIndex::magic(index.size);
            }
            proof {
                let sz = pre.capacity();
                let h = pre.head();
                let lt = old_last as int;
                let u = pre.unread(rid as int);
                lemma_replace_active_entry(pre.meta, self.meta, rid as int);
                assert(self.unread(rid as int) == 0);
                assert(self.pending(rid as int) =~= Seq::<T>::empty());
                assert forall|id: int| id != rid && #[trigger] self.is_active(id) implies
                    self.pending(id) == pre.pending(id) && self.unread(id) == pre.unread(
                    id,
                ) by {
                    assert(self.meta.readers@[id] == pre.meta.readers@[id]);
                    lemma_pending_same(pre, *self, id);
                }
                lemma_mod_witness(0, usize::MAX as int + 1, 0, 0);
                assert forall|id: int| #[trigger] self.is_active(id) implies
                    self.meta.readers@[id].last_index < self.last_index.size && self.unread(id)
                    <= self.data.spec_init() && wrap_diff(self.generation,
                    self.meta.readers@[id].generation) <= self.unread(id) && (wrap_diff(
                    self.generation, self.meta.readers@[id].generation) == 0 ==> self.unread(id)
                    == 0) && self.available + self.unread(id) <= self.capacity() by {
                    if id != rid {
                        assert(pre.is_active(id));
                        assert(self.unread(id) == pre.unread(id));
                    }
                }
                assert forall|b: int| 0 <= b < self.capacity() implies (self.data.data@[
                #[trigger] self.slot_back(b)] is Some <==> b < self.data.spec_init()) by {
                    assert(self.slot_back(b) == pre.slot_back(b));
                    assert(pre.data.data@[pre.slot_back(b)] is Some <==> b < pre.data.spec_init());
                }
                // The iterator covers exactly the old backlog.
                if old_gen == pre.generation {
                    assert(wrap_diff(pre.generation, old_gen) == 0);
                    assert(u == 0);
                } else {
                    assert(u >= 1) by {
                        if lt == h {
                            assert(u == sz);
                        } else if lt < h {
                            lemma_mod_witness(h - lt, sz, 0, h - lt);
                        } else {
                            lemma_mod_witness(h - lt, sz, -1, h - lt + sz);
                        }
                    }
                    assert(index.index == (lt + 1) % sz);
                    assert(index.size == sz);
                    let dd = (self.last_index.index - ((lt + 1) % sz)) % sz;
                    assert(dd == u - 1) by {
                        vstd::arithmetic::div_mod::lemma_fundamental_div_mod(lt + 1, sz);
                        let qa = (lt + 1) / sz;
                        assert(h - ((lt + 1) % sz) == sz * qa + (h - lt - 1));
                        vstd::arithmetic::div_mod::lemma_mod_multiples_vanish(
                            qa,
                            h - lt - 1,
                            sz,
                        );
                        if lt == h {
                            lemma_mod_witness(h - lt - 1, sz, -1, sz - 1);
                        } else {
                            vstd::arithmetic::div_mod::lemma_fundamental_div_mod(h - lt, sz);
                            let q = (h - lt) / sz;
                            assert(u == (h - lt) % sz);
                            assert(h - lt - 1 == q * sz + (u - 1)) by (nonlinear_arith)
                                requires
                                    h - lt == sz * q + u,
                            ;
                            lemma_mod_witness(h - lt - 1, sz, q, u - 1);
                        }
                    }
                }
            }
            let it = StorageIterator { data: &self.data, end: self.last_index.index, index };
            proof {
                let rid_i = rid as int;
                let u = pre.unread(rid_i);
                let sz = pre.capacity();
                let h = pre.head();
                let lt = old_last as int;
                if old_gen == pre.generation {
                    assert(it.remaining() =~= pre.pending(rid_i));
                } else {
                    assert(it.spec_len() == u);
                    assert forall|k: int| 0 <= k < u implies it.remaining()[k] == pre.pending(
                        rid_i,
                    )[k] && (#[trigger] it.data.data@[(it.index.index + k) % (
                    it.index.size as int)]) is Some by {
                        lemma_mod_add_any(lt + 1, k, sz);
                        assert((it.index.index + k) % sz == (lt + 1 + k) % sz);
                        let b = u - 1 - k;
                        assert(pre.slot_back(b) == (h - b) % sz);
                        assert((lt + 1 + k) % sz == (h - b) % sz) by {
                            if lt == h {
                                assert(u == sz);
                                assert(lt + 1 + k == (h - b) + sz);
                                vstd::arithmetic::div_mod::lemma_mod_add_multiples_vanish(
                                    h - b,
                                    sz,
                                );
                            } else {
                                vstd::arithmetic::div_mod::lemma_fundamental_div_mod(
                                    h - lt,
                                    sz,
                                );
                                let q = (h - lt) / sz;
                                assert(u == (h - lt) % sz);
                                assert(lt + 1 + k == sz * (-q) + (h - b)) by (nonlinear_arith)
                                    requires
                                        h - lt == sz * q + u,
                                        b == u - 1 - k,
                                ;
                                vstd::arithmetic::div_mod::lemma_mod_multiples_vanish(
                                    -q,
                                    h - b,
                                    sz,
                                );
                                assert((sz * (-q) + (h - b)) % sz == (h - b) % sz);
                            }
                        }
                        assert(0 <= b < u);
                        assert(u <= pre.data.spec_init());
                        assert(pre.data.data@[pre.slot_back(b)] is Some);
                    }
                    assert(it.remaining() =~= pre.pending(rid_i));
                }
            }
            it
        } else {
            let it = StorageIterator {
                data: &self.data,
                end: self.last_index.index,
                index: CircularIndex::magic(self.last_index.size),
            };
            proof {
                assert(it.remaining() =~= Seq::<T>::empty());
            }
            it
        }
    }

    /// Pushes every element of `events` to the buffer, in order, as one
    /// batch: the buffer grows first if any active reader would otherwise
    /// lose an unread event.
    pub fn iter_write(&mut self, events: Vec<T>)
        requires
            old(self).wf(),
            old(self).capacity() + events@.len() <= usize::MAX as int / 2,
        ensures
            final(self).wf(),
            final(self).num_slots() == old(self).num_slots(),
            final(self).instance() == old(self).instance(),
            forall|id: int| #[trigger] final(self).is_active(id) ==> old(self).is_active(id),
            forall|id: int|
                #[trigger] final(self).is_active(id) ==> final(self).pending(id) == old(self).pending(id) + events@,
            forall|id: int|
                #[trigger] final(self).is_active(id) ==> final(self).unread(id) == old(self).unread(id) + events@.len(),
            events@.len() == 0 ==> *final(self) == *old(self),
            old(self).fits(events@.len() as int) ==> final(self).capacity() == old(self).capacity(),
            final(self).capacity() >= old(self).capacity(),
            exists|k: nat| final(self).capacity() == old(self).capacity() * pow2(k),
            events@.len() > 0 ==> final(self).gen() == (if old(self).gen() == usize::MAX as int {
                0int
            } else {
                old(self).gen() + 1
            }),
            events@.len() > 0 ==> final(self).head() == (old(self).head() + events@.len()) % final(self).capacity(),
            final(self).initialized() == (if old(self).initialized() + events@.len() <= final(self).capacity() {
                old(self).initialized() + events@.len()
            } else {
                final(self).capacity()
            }),
            events@.len() <= old(self).spec_available() ==> (forall|id: int|
                (#[trigger] final(self).is_active(id)) <==> old(self).is_active(id)),
            events@.len() <= old(self).spec_available() ==> final(self).spec_available() == old(self).spec_available() - events@.len(),
            final(self).capacity() == old(self).capacity() || final(self).capacity() < 2 * (
            old(self).capacity() + events@.len()),
            final(self).capacity() > old(self).capacity() ==> exists|id: int|
                #[trigger] final(self).is_active(id) && final(self).capacity() < 2 * final(self).unread(id),
            forall|id: int|
                #[trigger] final(self).is_active(id) ==> final(self).spec_available() + final(self).unread(id) <= final(self).capacity(),
            events@.len() > old(self).spec_available() && final(self).has_active() ==> exists|id: int|
                #[trigger] final(self).is_active(id) && final(self).spec_available() == final(self).capacity() - final(self).unread(id),
            events@.len() > old(self).spec_available() && !final(self).has_active() ==> final(self).spec_available() == (if events@.len() <= final(self).capacity() {
                final(self).capacity() - events@.len()
            } else {
                0int
            }),
    {
        let mut events = events;
        let ghost es = events@;
        let len = events.len();
        if len > 0 {
            // Reverse into a stack once, so each element is handed over in
            // order by a constant-time pop.
            let mut queue: Vec<T> = Vec::new();
            while events.len() > 0
                invariant
                    queue@.len() + events@.len() == es.len(),
                    events@ == es.subrange(0, events@.len() as int),
                    forall|j: int|
                        0 <= j < queue@.len() ==> queue@[j] == es[es.len() - 1 - j],
                decreases events@.len(),
            {
                let e = events.pop().unwrap();
                proof {
                    assert(e == es[events@.len() as int]);
                    assert(events@ =~= es.subrange(0, events@.len() as int));
                }
                queue.push(e);
            }
            self.ensure_additional(len);
            let ghost s0 = *self;
            let ghost c = self.capacity();
            let ghost h0 = s0.head();
            let ghost init0 = s0.data.spec_init();
            proof {
                lemma_mod_witness(h0, c, 0, h0);
                assert forall|b: int| 0 <= b < c implies (self.data.data@[#[trigger] ((h0 + 0
                    - b) % c)] is Some <==> b < self.data.spec_init()) by {
                    assert((h0 + 0 - b) % c == s0.slot_back(b));
                    assert(s0.data.data@[s0.slot_back(b)] is Some <==> b < s0.data.spec_init());
                }
            }
            let mut i: usize = 0;
            while i < len
                invariant
                    i <= len,
                    1 <= len,
                    es.len() == len,
                    queue@.len() == len - i,
                    forall|j: int| 0 <= j < queue@.len() ==> queue@[j] == es[len - 1 - j],
                    s0.wf(),
                    c == s0.capacity(),
                    h0 == s0.head(),
                    init0 == s0.data.spec_init(),
                    self.last_index.size == s0.last_index.size,
                    self.last_index.index == (h0 + i) % c,
                    self.generation == s0.generation,
                    self.meta == s0.meta,
                    self.instance_id == s0.instance_id,
                    self.available == s0.available,
                    self.data.wf(),
                    self.data.data@.len() == c,
                    self.data.spec_init() == if init0 + i <= c {
                        init0 + i
                    } else {
                        c
                    },
                    forall|j: int|
                        i - c <= j < i && 0 <= j ==> self.data.data@[#[trigger] ((h0 + 1 + j)
                            % c)] == Some(es[j]),
                    forall|b0: int|
                        i <= b0 < c ==> self.data.data@[#[trigger] ((h0 + i - b0) % c)]
                            == s0.data.data@[(h0 + (i - b0)) % c],
                    forall|b: int|
                        0 <= b < c ==> (self.data.data@[#[trigger] ((h0 + i - b) % c)] is Some
                            <==> b < self.data.spec_init()),
                decreases len - i,
            {
                let ghost prev = *self;
                let ghost prev_init = self.data.spec_init();
                let target = self.last_index.add(1);
                proof {
                    lemma_mod_add_any(h0 + i, 1, c);
                    assert(target == (h0 + i + 1) % c);
                    vstd::arithmetic::div_mod::lemma_mod_add_multiples_vanish(
                        h0 + i - (c - 1),
                        c,
                    );
                    assert((h0 + i - (c - 1)) % c == (h0 + i + 1) % c);
                    assert(self.data.data@[target as int] is Some <==> (c - 1) < prev_init);
                }
                let element = queue.pop().unwrap();
                proof {
                    assert(element == es[i as int]);
                }
                self.data.put(target, element);
                self.last_index.add_assign(1);
                proof {
                    lemma_mod_add_any(h0 + i, 1, c);
                    assert(self.last_index.index == (h0 + (i + 1)) % c);
                    let iw = i as int;
                    // The new element sits right behind the new head; every
                    // other slot keeps what it had, one step further back.
                    assert forall|j: int| (iw + 1) - c <= j < iw + 1 && 0 <= j implies self.data.data@[
                    #[trigger] ((h0 + 1 + j) % c)] == Some(es[j]) by {
                        if j < iw {
                            lemma_mod_distinct(h0 + 1 + j, h0 + 1 + iw, c);
                            assert(self.data.data@[(h0 + 1 + j) % c] == prev.data.data@[(h0 + 1
                                + j) % c]);
                        }
                    }
                    assert forall|b0: int| iw + 1 <= b0 < c implies self.data.data@[#[trigger] ((
                    h0 + (iw + 1) - b0) % c)] == s0.data.data@[(h0 + ((iw + 1) - b0)) % c] by {
                        lemma_mod_distinct(h0 + (iw + 1) - b0, h0 + iw + 1, c);
                        assert(self.data.data@[(h0 + (iw + 1) - b0) % c] == prev.data.data@[(h0
                            + (iw + 1) - b0) % c]);
                        assert((h0 + (iw + 1) - b0) % c == (h0 + iw - (b0 - 1)) % c);
                        assert(prev.data.data@[(h0 + iw - (b0 - 1)) % c] == s0.data.data@[(h0 + (
                        iw - (b0 - 1))) % c]);
                    }
                    assert forall|b: int| 0 <= b < c implies (self.data.data@[#[trigger] ((h0 + (
                    iw + 1) - b) % c)] is Some <==> b < self.data.spec_init()) by {
                        if b == 0 {
                            assert((h0 + (iw + 1) - 0) % c == target as int);
                        } else {
                            lemma_mod_distinct(h0 + (iw + 1) - b, h0 + iw + 1, c);
                            assert(self.data.data@[(h0 + (iw + 1) - b) % c] == prev.data.data@[(
                            h0 + (iw + 1) - b) % c]);
                            assert((h0 + (iw + 1) - b) % c == (h0 + iw - (b - 1)) % c);
                            assert(prev.data.data@[(h0 + iw - (b - 1)) % c] is Some <==> (b - 1)
                                < prev_init);
                        }
                    }
                }
                i = i + 1;
            }
            let ghost s1 = *self;
            if self.available >= len {
                self.available = self.available - len;
            } else {
                self.available = 0;
            }
            let next_generation = self.generation.wrapping_add(1);
            self.generation = next_generation;
            proof {
                lemma_batch_commit(s0, s1, *self, es);
                assert forall|id: int| #[trigger] self.is_active(id) implies old(self).is_active(
                    id,
                ) && self.pending(id) == old(self).pending(id) + es && self.unread(id) == old(self).unread(id) + es.len() by {
                    assert(s0.is_active(id));
                }
                let kk = choose|k: nat| s0.capacity() == old(self).capacity() * pow2(k);
                assert(self.capacity() == old(self).capacity() * pow2(kk));
                // The batch's effect on the ring itself: one generation bump,
                // the head moved over the batch, the occupied count raised.
                assert(self.gen() == (if old(self).gen() == usize::MAX as int {
                    0int
                } else {
                    old(self).gen() + 1
                }));
                assert(self.head() == (old(self).head() + es.len()) % self.capacity());
                assert(self.initialized() == (if old(self).initialized() + es.len()
                    <= self.capacity() {
                    old(self).initialized() + es.len()
                } else {
                    self.capacity()
                }));
                if es.len() <= old(self).spec_available() {
                    assert(s0 == *old(self));
                    assert forall|id: int| (#[trigger] self.is_active(id)) <==> old(self).is_active(id) by {
                        assert(self.meta == old(self).meta);
                    }
                    assert(self.spec_available() == old(self).spec_available() - es.len());
                }
                if self.capacity() > old(self).capacity() {
                    let w = choose|id: int|
                        #[trigger] s0.is_active(id) && s0.spec_available() == s0.capacity()
                            - s0.unread(id);
                    assert(s0.capacity() < 2 * (es.len() + s0.unread(w)));
                    assert(self.is_active(w));
                    assert(self.unread(w) == s0.unread(w) + es.len());
                    assert(self.capacity() < 2 * self.unread(w));
                }
                if es.len() > old(self).spec_available() {
                    if self.has_active() {
                        let a = choose|id: int| self.is_active(id);
                        assert(s0.is_active(a));
                        assert(s0.has_active());
                        let w = choose|id: int|
                            #[trigger] s0.is_active(id) && s0.spec_available() == s0.capacity()
                                - s0.unread(id);
                        assert(self.is_active(w));
                        assert(self.unread(w) == s0.unread(w) + es.len());
                        assert(s1.available >= len);
                        assert(self.spec_available() == self.capacity() - self.unread(w));
                    } else {
                        assert forall|id: int| !(#[trigger] s0.is_active(id)) by {
                            if s0.is_active(id) {
                                assert(self.is_active(id));
                            }
                        }
                        assert(!s0.has_active());
                        assert(s0.spec_available() == s0.capacity());
                        assert(self.spec_available() == (if es.len() <= self.capacity() {
                            self.capacity() - es.len()
                        } else {
                            0int
                        }));
                    }
                }
            }
        } else {
            proof {
                lemma_pow2_zero();
            }
        }
    }
}

/// Replacing one active registry entry by another active entry, with the free
/// list untouched, keeps the registry invariant and the set of active slots.
proof fn lemma_replace_active_entry(pre: ReaderMeta, post: ReaderMeta, id: int)
    requires
        pre.wf(),
        pre.slot_active(id),
        post.free@ == pre.free@,
        post.readers@.len() == pre.readers@.len(),
        post.readers@[id].last_index != MAGIC,
        forall|id2: int|
            0 <= id2 < pre.n() && id2 != id ==> post.readers@[id2] == pre.readers@[id2],
    ensures
        post.wf(),
        forall|id2: int| post.slot_active(id2) <==> pre.slot_active(id2),
{
    assert forall|id2: int| #[trigger] post.slot_active(id2) <==> pre.slot_active(id2) by {
        if 0 <= id2 < pre.n() && id2 != id {
            assert(post.readers@[id2] == pre.readers@[id2]);
        }
    }
    assert forall|id2: int| 0 <= id2 < post.n() implies (!(#[trigger] post.slot_active(id2))
        <==> post.in_free(id2)) by {
        assert(post.slot_active(id2) <==> pre.slot_active(id2));
        if pre.in_free(id2) {
            let j = choose|j: int| 0 <= j < pre.free@.len() && pre.free@[j] == id2;
            assert(post.free@[j] == id2);
        }
        if post.in_free(id2) {
            let j = choose|j: int| 0 <= j < post.free@.len() && post.free@[j] == id2;
            assert(pre.free@[j] == id2);
        }
    }
}

/// A live subscription always names one of the registry's slots.
pub proof fn lemma_ring_active_in_range<T: 'static>(s: RingBuffer<T>, id: int)
    requires
        s.is_active(id),
    ensures
        0 <= id < s.num_slots(),
{
}

/// Basic bounds every well-formed ring satisfies.
pub proof fn lemma_ring_bounds<T: 'static>(s: RingBuffer<T>)
    requires
        s.wf(),
    ensures
        2 <= s.capacity(),
        0 <= s.spec_available() <= s.capacity(),
        0 <= s.initialized() <= s.capacity(),
        0 <= s.head() < s.capacity(),
{
}

/// A reader with nothing unread has an empty backlog.
pub proof fn lemma_empty_backlog<T: 'static>(s: RingBuffer<T>, id: int)
    requires
        s.unread(id) == 0,
    ensures
        s.pending(id) == Seq::<T>::empty(),
{
    assert(s.pending(id) =~= Seq::<T>::empty());
}

/// Iterator over a slice of data in the ring buffer.
///
/// The elements are yielded in the order they were written; the iterator is
/// finite and single-pass.
#[derive(Debug)]
pub struct StorageIterator<'a, T: 'a> {
    data: &'a Data<T>,
    /// Inclusive end.
    end: usize,
    index: CircularIndex,
}

impl<'a, T> StorageIterator<'a, T> {
    /// How many elements are still to be yielded.
    pub closed spec fn spec_len(&self) -> int {
        if self.index.spec_is_magic() {
            0
        } else {
            (self.end - self.index.index) % (self.index.size as int) + 1
        }
    }

    /// The elements not yet yielded, in write order.
    pub closed spec fn remaining(&self) -> Seq<T> {
        Seq::new(
            self.spec_len() as nat,
            |k: int|
                self.data.data@[(self.index.index + k) % (self.index.size as int)]->Some_0,
        )
    }

    /// The cursor stays inside the storage it walks, and every slot it has
    /// yet to visit is occupied.
    pub closed spec fn wf(&self) -> bool {
        &&& self.index.size == self.data.data@.len()
        &&& 2 <= self.index.size
        &&& self.end < self.index.size
        &&& self.index.wf()
        &&& forall|k: int|
            0 <= k < self.spec_len() ==> (#[trigger] self.data.data@[(self.index.index + k) % (
            self.index.size as int)]) is Some
    }

    /// The next unread element, or `None` once the iterator is exhausted.
    #[verifier::rlimit(60)]
    pub fn next(&mut self) -> (r: Option<&'a T>)
        requires
            old(self).wf(),
        ensures
            final(self).wf(),
            old(self).remaining().len() == 0 ==> r is None && final(self).remaining() == old(self).remaining(),
            old(self).remaining().len() > 0 ==> (r matches Some(e) && *e == old(self).remaining()[0]) && final(self).remaining() == old(self).remaining().drop_first(),
    {
        let ghost pre = *self;
        let size = self.index.size;
        let stepped = self.index.step(self.end);
        proof {
            let sz = size as int;
            if pre.index.spec_is_magic() {
                assert(self.index == pre.index);
                assert(*self == pre);
            }
            if !pre.index.spec_is_magic() {
                let ix = pre.index.index as int;
                let d = (pre.end - ix) % sz;
                lemma_mod_witness(ix, sz, 0, ix);
                if pre.index.index == pre.end {
                    lemma_mod_witness(pre.end - ix, sz, 0, 0);
                    assert(pre.spec_len() == 1);
                    assert(self.remaining() =~= pre.remaining().drop_first());
                } else {
                    vstd::arithmetic::div_mod::lemma_fundamental_div_mod(pre.end - ix, sz);
                    let q = (pre.end - ix) / sz;
                    assert(d >= 1) by {
                        if d == 0 {
                            if ix < pre.end {
                                lemma_mod_witness(pre.end - ix, sz, 0, pre.end - ix);
                            } else {
                                lemma_mod_witness(pre.end - ix, sz, -1, pre.end - ix + sz);
                            }
                        }
                    }
                    assert(self.index.index == (ix + 1) % sz);
                    assert((pre.end - ((ix + 1) % sz)) % sz == d - 1) by {
                        vstd::arithmetic::div_mod::lemma_fundamental_div_mod(ix + 1, sz);
                        let qa = (ix + 1) / sz;
                        assert(pre.end - ((ix + 1) % sz) == sz * qa + (pre.end - ix - 1));
                        vstd::arithmetic::div_mod::lemma_mod_multiples_vanish(
                            qa,
                            pre.end - ix - 1,
                            sz,
                        );
                        lemma_mod_witness(pre.end - ix - 1, sz, q, d - 1);
                    }
                    assert(self.spec_len() == d);
                    assert forall|k: int| 0 <= k < d implies self.remaining()[k]
                        == pre.remaining()[k + 1] && self.data.data@[(self.index.index + k) % sz]
                         is Some by {
                        lemma_mod_add_any(ix + 1, k, sz);
                        assert(((ix + 1) % sz + k) % sz == (ix + (k + 1)) % sz);
                    }
                    assert(self.remaining() =~= pre.remaining().drop_first());
                }
            }
        }
        let r = match stepped {
            None => None,
            Some(i) => {
                proof {
                    let ix = pre.index.index as int;
                    let sz = size as int;
                    lemma_mod_witness(ix, sz, 0, ix);
                    assert(pre.data.data@[(pre.index.index + 0) % sz] is Some);
                    assert(pre.remaining()[0] == pre.data.data@[(pre.index.index + 0)
                        % sz]->Some_0);
                }
                Some(self.data.get(i))
            },
        };
        proof {
            assert forall|k: int| 0 <= k < self.spec_len() implies (#[trigger] self.data.data@[(
            self.index.index + k) % (self.index.size as int)]) is Some by {
                if self.index.spec_is_magic() {
                    assert(self.spec_len() == 0);
                    assert(false);
                } else {
                    assert(!pre.index.spec_is_magic());
                    assert(pre.index.index != pre.end);
                    let sz = self.index.size as int;
                    let ix = pre.index.index as int;
                    assert(self.index.index == (ix + 1) % sz);
                    lemma_mod_add_any(ix + 1, k, sz);
                    assert((self.index.index + k) % sz == (ix + (k + 1)) % sz);
                    assert(k + 1 < pre.spec_len());
                    assert(pre.data.data@[(pre.index.index + (k + 1)) % (
                    pre.index.size as int)] is Some);
                    assert((pre.index.index + (k + 1)) % (pre.index.size as int) == (ix + (k
                        + 1)) % sz);
                }
            }
        }
        r
    }

    /// Exactly how many elements remain.
    pub fn len(&self) -> (r: usize)
        requires
            self.wf(),
        ensures
            r == self.remaining().len(),
    {
        match self.index.is_magic() {
            true => 0,
            false => CircularIndex::new(self.end, self.index.size).sub(self.index.index) + 1,
        }
    }
}

/// Growing the ring by inserting `by` empty slots right after the write head,
/// then shifting every reader cursor that sat in the relocated suffix, leaves
/// each active reader's unread backlog exactly as it was.
proof fn lemma_grow_preserves<T: 'static>(s1: RingBuffer<T>, s2: RingBuffer<T>, by: int)
    requires
        s1.wf(),
        by >= 1,
        s1.capacity() + by <= usize::MAX,
        s2.last_index.size == s1.last_index.size + by,
        s2.last_index.index == s1.last_index.index,
        s2.generation == s1.generation,
        s2.data.data@ == s1.data.data@.subrange(0, s1.head() + 1) + Seq::new(
            by as nat,
            |i: int| Option::<T>::None,
        ) + s1.data.data@.subrange(s1.head() + 1, s1.capacity()),
        s2.data.uninitialized == s1.data.uninitialized + by,
        s2.meta.wf(),
        s2.meta.n() == s1.meta.n(),
        forall|id: int| s2.is_active(id) <==> s1.is_active(id),
        forall|id: int|
            #[trigger] s2.is_active(id) ==> s2.meta.readers@[id].generation
                == s1.meta.readers@[id].generation,
        forall|id: int|
            #[trigger] s2.is_active(id) ==> s2.meta.readers@[id].last_index as int == if s1.meta.readers@[id].last_index
                > s1.last_index.index || (s1.meta.readers@[id].last_index == s1.last_index.index
                && s1.meta.readers@[id].generation != s1.generation) {
                s1.meta.readers@[id].last_index + by
            } else {
                s1.meta.readers@[id].last_index as int
            },
    ensures
        s2.data.wf(),
        s2.data.data@.len() == s2.last_index.size,
        s2.data.spec_init() == s1.data.spec_init(),
        forall|id: int| #[trigger] s2.is_active(id) ==> s2.unread(id) == s1.unread(id),
        forall|id: int| #[trigger] s2.is_active(id) ==> s2.pending(id) == s1.pending(id),
        forall|id: int|
            #[trigger] s2.is_active(id) ==> s2.meta.readers@[id].last_index
                < s2.last_index.size,
        forall|id: int| #[trigger] s2.is_active(id) ==> s2.unread(id) <= s2.data.spec_init(),
        forall|b: int|
            0 <= b < s2.capacity() ==> (s2.data.data@[#[trigger] s2.slot_back(b)] is Some <==> b
                < s2.data.spec_init()),
    {
    let head = s1.head();
    let cap = s1.capacity();
    let cap2 = s2.capacity();
    let init = s1.data.spec_init();
    assert(s2.data.data@.len() == cap + by);

    // Slot-level correspondence: positions up to the head are unchanged, the
    // relocated suffix keeps its distance behind the head, and the inserted
    // slots sit at the distances beyond the old capacity.
    assert forall|b: int| 0 <= b < cap2 implies (s2.data.data@[#[trigger] s2.slot_back(b)] is Some
        <==> b < init) && (0 <= b < cap ==> s2.data.data@[s2.slot_back(b)]
        == s1.data.data@[s1.slot_back(b)]) by {
        if b <= head {
            lemma_mod_witness(head - b, cap2, 0, head - b);
            lemma_mod_witness(head - b, cap, 0, head - b);
            assert(s2.slot_back(b) == head - b);
            assert(s1.slot_back(b) == head - b);
            assert(s2.data.data@[head - b] == s1.data.data@.subrange(0, head + 1)[head - b]);
            assert(s2.data.data@[head - b] == s1.data.data@[head - b]);
        } else if b < cap {
            lemma_mod_witness(head - b, cap2, -1, head - b + cap2);
            lemma_mod_witness(head - b, cap, -1, head - b + cap);
            assert(s2.slot_back(b) == head + cap2 - b);
            assert(s1.slot_back(b) == head + cap - b);
            let p2 = head + cap2 - b;
            assert(head + 1 + by <= p2 < cap2);
            assert(s2.data.data@[p2] == s1.data.data@.subrange(s1.head() + 1, s1.capacity())[
                p2 - (head + 1) - by]);
            assert(s2.data.data@[p2] == s1.data.data@[p2 - by]);
            assert(p2 - by == head + cap - b);
        } else {
            lemma_mod_witness(head - b, cap2, -1, head - b + cap2);
            assert(s2.slot_back(b) == head + cap2 - b);
            assert(head + 1 <= head + cap2 - b <= head + by);
            assert(s2.data.data@[head + cap2 - b] == Seq::new(
                by as nat,
                |i: int| Option::<T>::None,
            )[head + cap2 - b - (head + 1)]);
            assert(s2.data.data@[s2.slot_back(b)] is None);
            assert(b >= cap >= init);
        }
    }

    // Every active cursor keeps its backlog count.
    assert forall|id: int| #[trigger] s2.is_active(id) implies s2.unread(id) == s1.unread(id)
        && s2.meta.readers@[id].last_index < s2.last_index.size by {
        assert(s1.is_active(id));
        let r1 = s1.meta.readers@[id];
        let r2 = s2.meta.readers@[id];
        let lt = r1.last_index as int;
        assert(r1.last_index < s1.last_index.size);
        if lt == head {
            if r1.generation == s1.generation {
                assert(r2.last_index as int == lt);
                assert(s1.unread(id) == 0);
                assert(s2.unread(id) == 0);
            } else {
                assert(r2.last_index as int == head + by);
                assert(s1.unread(id) == cap);
                lemma_mod_witness(head - (head + by), cap2, -1, cap2 - by);
                assert(r2.last_index as int != head);
                assert(s2.unread(id) == cap2 - by);
            }
        } else if lt < head {
            assert(r2.last_index as int == lt);
            lemma_mod_witness(head - lt, cap, 0, head - lt);
            lemma_mod_witness(head - lt, cap2, 0, head - lt);
            assert(s1.unread(id) == head - lt);
            assert(s2.unread(id) == head - lt);
        } else {
            assert(r2.last_index as int == lt + by);
            lemma_mod_witness(head - lt, cap, -1, head - lt + cap);
            lemma_mod_witness(head - (lt + by), cap2, -1, head - lt + cap);
            assert(s1.unread(id) == head - lt + cap);
            assert(r2.last_index as int != head);
            assert(s2.unread(id) == head - lt + cap);
        }
    }

    // And it keeps the backlog itself: each pending element is found at the
    // same distance behind the head as before.
    assert forall|id: int| #[trigger] s2.is_active(id) implies s2.pending(id) == s1.pending(
        id,
    ) by {
        assert(s1.is_active(id));
        let u = s1.unread(id);
        assert(u <= init);
        assert(s2.unread(id) == u);
        assert forall|k: int| 0 <= k < u implies s2.pending(id)[k] == s1.pending(id)[k] by {
            let b = u - 1 - k;
            assert(0 <= b < cap);
            assert(s2.data.data@[s2.slot_back(b)] == s1.data.data@[s1.slot_back(b)]);
        }
        assert(s2.pending(id) =~= s1.pending(id));
    }
}

/// Two positions less than a full ring apart occupy different slots.
proof fn lemma_mod_distinct(x: int, y: int, m: int)
    requires
        m > 0,
        0 < y - x < m,
    ensures
        x % m != y % m,
{
    vstd::arithmetic::div_mod::lemma_fundamental_div_mod(x, m);
    vstd::arithmetic::div_mod::lemma_fundamental_div_mod(y, m);
    if x % m == y % m {
        let qx = x / m;
        let qy = y / m;
        assert(y - x == (qy - qx) * m) by (nonlinear_arith)
            requires
                x == m * qx + x % m,
                y == m * qy + y % m,
                x % m == y % m,
        ;
        assert(false) by (nonlinear_arith)
            requires
                y - x == (qy - qx) * m,
                0 < y - x < m,
                m > 0,
        ;
    }
}

/// Committing a finished batch: after the write head has moved over the `n`
/// freshly written slots, the cache has been debited and the generation
/// bumped, every active reader's backlog is its old backlog followed by the
/// batch.
proof fn lemma_batch_commit<T: 'static>(
    s0: RingBuffer<T>,
    s1: RingBuffer<T>,
    s2: RingBuffer<T>,
    es: Seq<T>,
)
    requires
        s0.wf(),
        1 <= es.len(),
        s0.has_active() ==> s0.spec_available() >= es.len(),
        s1.last_index.size == s0.last_index.size,
        s1.last_index.index == (s0.head() + es.len()) % s0.capacity(),
        s1.generation == s0.generation,
        s1.meta == s0.meta,
        s1.instance_id == s0.instance_id,
        s1.available == s0.available,
        s1.data.wf(),
        s1.data.data@.len() == s0.capacity(),
        s1.data.spec_init() == if s0.data.spec_init() + es.len() <= s0.capacity() {
            s0.data.spec_init() + es.len()
        } else {
            s0.capacity()
        },
        forall|j: int|
            es.len() - s0.capacity() <= j < es.len() && 0 <= j ==> s1.data.data@[#[trigger] ((
            s0.head() + 1 + j) % s0.capacity())] == Some(es[j]),
        forall|b0: int|
            es.len() <= b0 < s0.capacity() ==> s1.data.data@[#[trigger] ((s0.head() + es.len()
                - b0) % s0.capacity())] == s0.data.data@[(s0.head() + (es.len() - b0))
                % s0.capacity()],
        forall|b: int|
            0 <= b < s0.capacity() ==> (s1.data.data@[#[trigger] ((s0.head() + es.len() - b)
                % s0.capacity())] is Some <==> b < s1.data.spec_init()),
        s2.last_index == s1.last_index,
        s2.data == s1.data,
        s2.meta == s1.meta,
        s2.instance_id == s1.instance_id,
        s2.available as int == if s1.available >= es.len() {
            s1.available - es.len()
        } else {
            0
        },
        s2.generation == if s1.generation == usize::MAX {
            0usize
        } else {
            (s1.generation + 1) as usize
        },
    ensures
        s2.wf(),
        forall|id: int| s2.is_active(id) <==> s0.is_active(id),
        forall|id: int|
            #[trigger] s2.is_active(id) ==> s2.unread(id) == s0.unread(id) + es.len(),
        forall|id: int| #[trigger] s2.is_active(id) ==> s2.pending(id) == s0.pending(id) + es,
{
    let c = s0.capacity();
    let h0 = s0.head();
    let n = es.len() as int;
    let h2 = s2.head();
    let init1 = s1.data.spec_init();
    assert(h2 == (h0 + n) % c);

    // The canonical form of a slot a given distance behind the new head.
    assert forall|b: int| #[trigger] s2.slot_back(b) == (h0 + n - b) % c by {
        lemma_mod_add_any(h0 + n, -b, c);
    }

    // Occupancy carries over directly.
    assert forall|b: int| 0 <= b < c implies (s2.data.data@[#[trigger] s2.slot_back(b)] is Some
        <==> b < s2.data.spec_init()) by {
        assert(s2.slot_back(b) == (h0 + n - b) % c);
        assert(s1.data.data@[(h0 + n - b) % c] is Some <==> b < init1);
    }

    // Per-reader facts.
    assert forall|id: int| #[trigger] s2.is_active(id) implies s2.unread(id) == s0.unread(id) + n
        && s2.meta.readers@[id].last_index < s2.last_index.size && wrap_diff(
        s2.generation,
        s2.meta.readers@[id].generation,
    ) <= s2.unread(id) && (wrap_diff(s2.generation, s2.meta.readers@[id].generation) == 0
        ==> s2.unread(id) == 0) && s2.unread(id) <= s2.data.spec_init() && s2.available
        + s2.unread(id) <= s2.capacity() && s2.pending(id) == s0.pending(id) + es by {
        assert(s0.is_active(id));
        assert(s0.has_active());
        let r = s0.meta.readers@[id];
        let lt = r.last_index as int;
        let u0 = s0.unread(id);
        let d0 = wrap_diff(s0.generation, r.generation);
        assert(r.last_index < s0.last_index.size);
        assert(s0.available + u0 <= c);
        assert(s0.available >= n);
        assert(u0 + n <= c);
        assert(u0 <= s0.data.spec_init());
        assert(d0 <= u0);
        // The reader cannot look like a full ring behind: there would be no
        // space at all, yet the batch fit.
        if lt == h0 && r.generation != s0.generation {
            assert(u0 == c);
            assert(false);
        }
        // Position arithmetic: the distance from the new head is the old
        // distance plus the batch.
        vstd::arithmetic::div_mod::lemma_fundamental_div_mod(h0 - lt, c);
        let q = (h0 - lt) / c;
        assert(q * c == c * q) by (nonlinear_arith);
        assert(h0 - lt == q * c + ((h0 - lt) % c));
        if lt == h0 {
            assert(u0 == 0);
        } else {
            assert(u0 == (h0 - lt) % c);
        }
        lemma_wrap_step(s0.generation, s2.generation, r.generation);
        if u0 + n < c {
            assert((h2 - lt) % c == u0 + n) by {
                lemma_mod_add_any(h0 + n, -lt, c);
                if lt == h0 {
                    lemma_mod_witness(h0 + n - lt, c, 0, n);
                } else {
                    assert(h0 + n - lt == q * c + (u0 + n));
                    lemma_mod_witness(h0 + n - lt, c, q, u0 + n);
                }
            }
            assert(lt != h2) by {
                if lt == h2 {
                    lemma_mod_witness(h2 - lt, c, 0, 0);
                    lemma_mod_add_any(h0 + n, -lt, c);
                }
            }
            assert(s2.unread(id) == u0 + n);
        } else {
            assert(u0 + n == c);
            assert(lt == h2) by {
                assert(h0 + n - lt == (q + 1) * c) by (nonlinear_arith)
                    requires
                        h0 - lt == q * c + u0,
                        u0 + n == c,
                ;
                lemma_mod_witness(h0 + n, c, q + 1, lt);
            }
            assert(s2.generation != r.generation);
            assert(s2.unread(id) == c);
        }
        let u2 = s2.unread(id);
        assert(u2 == u0 + n);
        assert(wrap_diff(s2.generation, r.generation) == d0 + 1);
        assert(u2 <= s2.data.spec_init());
        assert(s2.available + u2 <= c);
        // The backlog is the old backlog followed by the batch.
        assert forall|k: int| 0 <= k < u2 implies s2.pending(id)[k] == (s0.pending(id) + es)[
            k] by {
            let b = u2 - 1 - k;
            assert(s2.pending(id)[k] == s2.data.data@[s2.slot_back(b)]->Some_0);
            assert(s2.slot_back(b) == (h0 + n - b) % c);
            if k < u0 {
                assert(n <= b < c);
                assert(s1.data.data@[(h0 + n - b) % c] == s0.data.data@[(h0 + (n - b)) % c]);
                assert((h0 + (n - b)) % c == s0.slot_back(b - n));
                assert(b - n == u0 - 1 - k);
                assert(s0.pending(id)[k] == s0.data.data@[s0.slot_back(u0 - 1 - k)]->Some_0);
            } else {
                let j = k - u0;
                assert(b == n - 1 - j);
                assert((h0 + n - b) % c == (h0 + 1 + j) % c);
                assert(n - c <= j < n && 0 <= j);
                assert(s1.data.data@[(h0 + 1 + j) % c] == Some(es[j]));
            }
        }
        assert(s2.pending(id) =~= s0.pending(id) + es);
    }
}

/// Adding `y` and taking `% m` commutes with an inner `% m`.
proof fn lemma_mod_add_any(x: int, y: int, m: int)
    requires
        m > 0,
    ensures
        (x % m + y) % m == (x + y) % m,
{
    vstd::arithmetic::div_mod::lemma_fundamental_div_mod(x, m);
    let q = x / m;
    assert(m * (-q) + (x + y) == x % m + y) by (nonlinear_arith)
        requires
            x == m * q + x % m,
    ;
    vstd::arithmetic::div_mod::lemma_mod_multiples_vanish(-q, x + y, m);
}

/// Bumping the wrapping generation moves every reader's generation distance
/// up by one, so a reader behind the writer can never look caught up.
proof fn lemma_wrap_step(g: usize, g2: usize, rg: usize)
    requires
        g2 == if g == usize::MAX {
            0usize
        } else {
            (g + 1) as usize
        },
        wrap_diff(g, rg) < usize::MAX as int,
    ensures
        wrap_diff(g2, rg) == wrap_diff(g, rg) + 1,
        g2 != rg,
{
    let w = usize::MAX as int + 1;
    let d = wrap_diff(g, rg);
    vstd::arithmetic::div_mod::lemma_fundamental_div_mod(g - rg, w);
    let q = (g - rg) / w;
    if g == usize::MAX {
        assert(g2 - rg == (q - 1) * w + (d + 1)) by (nonlinear_arith)
            requires
                g - rg == q * w + d,
                g2 == 0,
                g == w - 1,
        ;
        lemma_mod_witness(g2 - rg, w, q - 1, d + 1);
    } else {
        lemma_mod_witness(g2 - rg, w, q, d + 1);
    }
    if g2 == rg {
        lemma_mod_witness(0, w, 0, 0);
    }
}

/// Re-caching `available` keeps the buffer invariant, as long as the new
/// cache still leaves every active reader's backlog untouchable.
proof fn lemma_set_available<T: 'static>(pre: RingBuffer<T>, post: RingBuffer<T>)
    requires
        pre.wf(),
        post.last_index == pre.last_index,
        post.data == pre.data,
        post.generation == pre.generation,
        post.meta == pre.meta,
        post.available <= post.last_index.size,
        forall|id: int|
            #[trigger] post.is_active(id) ==> post.available + post.unread(id)
                <= post.capacity(),
    ensures
        post.wf(),
        forall|id: int| post.is_active(id) <==> pre.is_active(id),
        forall|id: int|
            #[trigger] post.is_active(id) ==> post.unread(id) == pre.unread(id) && post.pending(
                id,
            ) == pre.pending(id),
{
    assert forall|id: int| #[trigger] post.is_active(id) implies post.unread(id) == pre.unread(id)
        && post.pending(id) == pre.pending(id) by {
        lemma_pending_same(pre, post, id);
    }
    assert forall|id: int| #[trigger] post.is_active(id) implies post.meta.readers@[id].last_index
        < post.last_index.size && post.unread(id) <= post.data.spec_init() && wrap_diff(
        post.generation,
        post.meta.readers@[id].generation,
    ) <= post.unread(id) && (wrap_diff(post.generation, post.meta.readers@[id].generation) == 0
        ==> post.unread(id) == 0) by {
        assert(pre.is_active(id));
        assert(post.unread(id) == pre.unread(id));
    }
    assert forall|b: int| 0 <= b < post.capacity() implies (post.data.data@[#[trigger] post.slot_back(
        b,
    )] is Some <==> b < post.data.spec_init()) by {
        assert(post.slot_back(b) == pre.slot_back(b));
        assert(pre.data.data@[pre.slot_back(b)] is Some <==> b < pre.data.spec_init());
    }
}

/// When a reader's registry entry and the written contents are untouched,
/// that reader's view of the buffer is untouched too.
proof fn lemma_pending_same<T: 'static>(pre: RingBuffer<T>, post: RingBuffer<T>, id: int)
    requires
        post.meta.readers@[id] == pre.meta.readers@[id],
        post.last_index == pre.last_index,
        post.generation == pre.generation,
        post.data == pre.data,
    ensures
        post.unread(id) == pre.unread(id),
        post.pending(id) == pre.pending(id),
{
    assert(post.pending(id) =~= pre.pending(id));
}

/// Names the occupancy of the slot `b` steps behind the head, so quantified
/// assertions can mention it uniformly.
spec fn slot_occupied<T>(r: RingBuffer<T>, b: int) -> bool {
    r.data.data@[r.slot_back(b)] is Some
}

/// Releasing one reader slot, with everything else unchanged, preserves the
/// buffer invariant: every quantified clause only loses instances.
proof fn lemma_deactivate_preserves_wf<T: 'static>(
    pre: RingBuffer<T>,
    post: RingBuffer<T>,
    id: int,
)
    requires
        pre.wf(),
        post.meta.wf(),
        post.meta.n() == pre.meta.n(),
        !post.is_active(id),
        forall|id2: int|
            0 <= id2 < pre.meta.n() && id2 != id ==> post.meta.readers@[id2]
                == pre.meta.readers@[id2],
        post.available == pre.available,
        post.last_index == pre.last_index,
        post.generation == pre.generation,
        post.data == pre.data,
        post.instance_id == pre.instance_id,
    ensures
        post.wf(),
        forall|id2: int| #[trigger] post.is_active(id2) ==> pre.is_active(id2),
        forall|id2: int|
            #[trigger] post.is_active(id2) ==> post.meta.readers@[id2] == pre.meta.readers@[id2],
{
    assert forall|id2: int| #[trigger] post.is_active(id2) implies pre.is_active(id2)
        && post.meta.readers@[id2] == pre.meta.readers@[id2] by {
        assert(id2 != id);
    }
    assert forall|id2: int| #[trigger] post.is_active(id2) implies post.meta.readers@[id2].last_index
        < post.last_index.size && post.unread(id2) <= post.data.spec_init() && wrap_diff(
        post.generation,
        post.meta.readers@[id2].generation,
    ) <= post.unread(id2) && post.available + post.unread(id2) <= post.capacity() by {
        assert(pre.is_active(id2));
        assert(post.unread(id2) == pre.unread(id2));
    }
    assert forall|b: int| 0 <= b < post.capacity() implies (post.data.data@[#[trigger] post.slot_back(
        b,
    )] is Some <==> b < post.data.spec_init()) by {
        assert(post.slot_back(b) == pre.slot_back(b));
        assert(pre.data.data@[pre.slot_back(b)] is Some <==> b < pre.data.spec_init());
    }
}

} // verus!
