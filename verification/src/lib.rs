//! A fixed-capacity circular buffer with FIFO `write`/`pop`, an `overwrite`
//! mode that evicts the oldest element when the buffer is full, and a
//! read-only iterator that can be driven from both ends without mutating
//! the buffer.

use vstd::prelude::*;

verus! {

/// Result of a write operation.
#[must_use]
#[derive(Clone, Debug, PartialEq, Eq)]
pub enum WriteResult {
    /// Item was written to a buffer.
    Done,
    /// Buffer can't take any more items.
    TooMany,
}

/// Error from asking for a buffer of capacity zero, which would make the
/// wraparound cursor arithmetic meaningless.
#[derive(Clone, Debug, PartialEq, Eq)]
pub struct ConstructionError;

/// A ring buffer: fixed-size storage of nullable cells, walked by a read
/// cursor and a write cursor that only ever move forward, wrapping at the
/// end. A cell holds `Some` value exactly while that value is stored.
///
/// The two cursors being equal is ambiguous on its own (the buffer could be
/// empty or full); the occupancy of the cell each cursor points at is the
/// sole disambiguator: the buffer is empty iff the cell at the read cursor
/// is vacant, and full iff the cell at the write cursor is occupied.
pub struct Hoop<T> {
    inner: Vec<Option<T>>,
    // Next read
    read_position: usize,
    // Next write
    write_position: usize,
}

impl<T> Hoop<T> {
    /// The fixed number of cells.
    pub closed spec fn cap(self) -> int {
        self.inner@.len() as int
    }

    /// The cell the next `pop` reads.
    pub closed spec fn rpos(self) -> int {
        self.read_position as int
    }

    /// The cell the next `write` fills.
    pub closed spec fn wpos(self) -> int {
        self.write_position as int
    }

    /// The backing cells, in storage order.
    pub closed spec fn slots(self) -> Seq<Option<T>> {
        self.inner@
    }

    /// Index of the cell `k` steps past the read cursor, wrapping around;
    /// meaningful for `-1 <= k <= cap` (one step back reaches the cell the
    /// newest element of a full buffer sits in).
    pub closed spec fn cell_at(self, k: int) -> int {
        if self.rpos() + k < 0 {
            self.rpos() + k + self.cap()
        } else if self.rpos() + k >= self.cap() {
            self.rpos() + k - self.cap()
        } else {
            self.rpos() + k
        }
    }

    /// Number of stored elements, recovered from the cursors and the
    /// occupancy of the cell at the read cursor (which settles the
    /// empty/full ambiguity when the cursors coincide).
    pub closed spec fn count(self) -> int {
        if self.rpos() == self.wpos() {
            if self.slots()[self.rpos()] is Some {
                self.cap()
            } else {
                0
            }
        } else if self.wpos() > self.rpos() {
            self.wpos() - self.rpos()
        } else {
            self.wpos() - self.rpos() + self.cap()
        }
    }

    /// Well-formedness: at least one cell, cursors in range, and the
    /// occupied cells are exactly the `count()` cells from the read cursor
    /// forward (wrapping), which form the FIFO content in insertion order.
    pub closed spec fn wf(self) -> bool {
        &&& 1 <= self.cap()
        &&& 0 <= self.rpos() < self.cap()
        &&& 0 <= self.wpos() < self.cap()
        &&& forall|k: int| 0 <= k < self.count() ==> self.slots()[#[trigger] self.cell_at(k)] is Some
        &&& forall|k: int|
            self.count() <= k < self.cap() ==> self.slots()[#[trigger] self.cell_at(k)] is None
    }
}

impl<T> View for Hoop<T> {
    type V = Seq<T>;

    /// The stored elements, oldest first.
    closed spec fn view(&self) -> Seq<T> {
        Seq::new(self.count() as nat, |i: int| self.slots()[self.cell_at(i)]->0)
    }
}

impl<T> Hoop<T> {
    /// Create a new ring buffer with the desired capacity: every cell
    /// vacant, both cursors at the first cell. A capacity of zero is
    /// rejected, since the wraparound arithmetic needs at least one cell.
    pub fn with_capacity(capacity: usize) -> (r: Result<Hoop<T>, ConstructionError>)
        ensures
            r is Ok <==> capacity >= 1,
            r matches Ok(b) ==> b.wf() && b.cap() == capacity && b@ == Seq::<T>::empty()
                && b.rpos() == 0 && b.wpos() == 0,
    {
        if capacity == 0 {
            return Err(ConstructionError);
        }
        let mut inner: Vec<Option<T>> = Vec::new();
        let mut i: usize = 0;
        while i < capacity
            invariant
                i <= capacity,
                inner@.len() == i,
                forall|k: int| 0 <= k < i ==> inner@[k] is None,
            decreases capacity - i,
        {
            inner.push(None);
            i += 1;
        }
        let b = Hoop { inner, read_position: 0, write_position: 0 };
        proof {
            assert(b@ =~= Seq::<T>::empty());
        }
        Ok(b)
    }

    /// Capacity of the buffer.
    #[inline]
    pub fn capacity(&self) -> (c: usize)
        ensures
            c == self.cap(),
    {
        self.inner.len()
    }

    /// Successor of a cell index, wrapping past the last cell.
    pub(crate) fn advance(&self, current: usize) -> (r: usize)
        requires
            1 <= self.cap(),
            current < self.cap(),
        ensures
            r == if current + 1 == self.cap() { 0int } else { current + 1 },
    {
        let n = self.inner.len();
        if current + 1 == n {
            0
        } else {
            current + 1
        }
    }

    /// Predecessor of a cell index, wrapping past the first cell.
    pub(crate) fn retreat(&self, current: usize) -> (r: usize)
        requires
            1 <= self.cap(),
            current < self.cap(),
        ensures
            r == if current == 0 { self.cap() - 1 } else { current - 1 },
    {
        if current == 0 {
            self.inner.len() - 1
        } else {
            current - 1
        }
    }

    /// Pop the oldest item from the buffer: vacate the cell at the read
    /// cursor and advance the cursor past it. On an empty buffer nothing
    /// changes and nothing is returned.
    pub fn pop(&mut self) -> (r: Option<T>)
        requires
            old(self).wf(),
        ensures
            final(self).wf(),
            final(self).cap() == old(self).cap(),
            old(self)@.len() == 0 ==> r is None && *final(self) == *old(self),
            old(self)@.len() > 0 ==> (r matches Some(v) && v == old(self)@[0])
                && final(self)@ == old(self)@.drop_first(),
    {
        let rp = self.read_position;
        if self.inner[rp].is_none() {
            proof {
                old(self).lemma_boundary_occupancy();
            }
            return None;
        }
        let taken: Option<T> = self.inner.remove(rp);
        self.inner.insert(rp, None);
        self.read_position = self.advance(rp);
        proof {
            old(self).lemma_boundary_occupancy();
            assert(self.slots() =~= old(self).slots().update(rp as int, None));
            old(self).lemma_remove_front(*self);
        }
        taken
    }

    /// Try writing to the buffer: fill the cell at the write cursor and
    /// advance the cursor past it. On a full buffer nothing changes and the
    /// item is rejected.
    pub fn write(&mut self, item: T) -> (r: WriteResult)
        requires
            old(self).wf(),
        ensures
            final(self).wf(),
            final(self).cap() == old(self).cap(),
            old(self)@.len() == old(self).cap() ==> r == WriteResult::TooMany && *final(self)
                == *old(self),
            old(self)@.len() < old(self).cap() ==> r == WriteResult::Done && final(self)@ == old(
                self,
            )@.push(item),
    {
        let idx = self.write_position;
        if self.inner[idx].is_some() {
            proof {
                old(self).lemma_boundary_occupancy();
            }
            return WriteResult::TooMany;
        }
        self.inner[idx] = Some(item);
        self.write_position = self.advance(idx);
        proof {
            old(self).lemma_boundary_occupancy();
            assert(self.slots() =~= old(self).slots().update(idx as int, Some(item)));
            old(self).lemma_insert_back(*self, item);
        }
        WriteResult::Done
    }

    /// Write even at capacity: on a full buffer the read cursor is first
    /// advanced, which discards the oldest element; then the item is stored
    /// at the write cursor as the newest. On a buffer with room this is a
    /// plain `write`.
    pub fn overwrite(&mut self, item: T)
        requires
            old(self).wf(),
        ensures
            final(self).wf(),
            final(self).cap() == old(self).cap(),
            old(self)@.len() < old(self).cap() ==> final(self)@ == old(self)@.push(item),
            old(self)@.len() == old(self).cap() ==> final(self)@ == old(
                self,
            )@.drop_first().push(item),
    {
        let idx = self.write_position;
        let full = self.inner[idx].is_some();
        proof {
            old(self).lemma_boundary_occupancy();
        }
        if full {
            self.read_position = self.advance(self.read_position);
        }
        self.inner[idx] = Some(item);
        self.write_position = self.advance(idx);
        proof {
            assert(self.slots() =~= old(self).slots().update(idx as int, Some(item)));
            if full {
                old(self).lemma_overwrite_full(*self, item);
            } else {
                old(self).lemma_insert_back(*self, item);
            }
        }
    }

    /// Clear the buffer: vacate every cell and reset both cursors, leaving
    /// the buffer in the state a fresh one of the same capacity starts in.
    /// This is an `O(capacity)` operation.
    pub fn clear(&mut self)
        requires
            old(self).wf(),
        ensures
            final(self).wf(),
            final(self).cap() == old(self).cap(),
            final(self)@ == Seq::<T>::empty(),
            final(self).rpos() == 0,
            final(self).wpos() == 0,
            forall|j: int| 0 <= j < final(self).cap() ==> final(self).slots()[j] is None,
    {
        self.read_position = 0;
        self.write_position = 0;
        let n = self.inner.len();
        let mut i: usize = 0;
        while i < n
            invariant
                n == self.inner@.len(),
                i <= n,
                self.read_position == 0,
                self.write_position == 0,
                forall|j: int| 0 <= j < i ==> self.inner@[j] is None,
            decreases n - i,
        {
            self.inner[i] = None;
            i += 1;
        }
        proof {
            assert(self@ =~= Seq::<T>::empty());
        }
    }

    /// Create a read-only iterator over the stored elements. The buffer is
    /// borrowed, not consumed: traversal never changes it, and any number
    /// of iterators may walk the same unmutated buffer in turn.
    pub fn iter<'a>(&'a self) -> (it: Iter<'a, T>)
        requires
            self.wf(),
        ensures
            it.wf(),
            it.buffer() == *self,
            it.yielded_front() == 0,
            it.yielded_back() == 0,
    {
        Iter::new(self)
    }

    /// An empty well-formed buffer has every cell vacant, so nothing
    /// distinguishes a cleared buffer from a freshly constructed one of the
    /// same capacity: with equal capacities and cursor positions, the whole
    /// abstract state — backing cells included — agrees.
    pub proof fn lemma_empty_buffers_agree(self, other: Self)
        requires
            self.wf(),
            other.wf(),
            self.cap() == other.cap(),
            self@.len() == 0,
            other@.len() == 0,
            self.rpos() == other.rpos(),
            self.wpos() == other.wpos(),
        ensures
            self.slots() == other.slots(),
            self@ == other@,
    {
        assert forall|j: int| 0 <= j < self.cap() implies self.slots()[j] is None
            && other.slots()[j] is None by {
            let k = if j >= self.rpos() {
                j - self.rpos()
            } else {
                j - self.rpos() + self.cap()
            };
            assert(self.cell_at(k) == j);
            assert(other.cell_at(k) == j);
            assert(self.slots()[self.cell_at(k)] is None);
            assert(other.slots()[other.cell_at(k)] is None);
        }
        assert(self.slots() =~= other.slots());
        assert(self@ =~= other@);
    }

    /// The data-model invariants that settle the cursor-equality ambiguity:
    /// the buffer is empty iff the cell at the read cursor is vacant, and
    /// full iff the cell at the write cursor is occupied.
    pub proof fn lemma_boundary_occupancy(self)
        requires
            self.wf(),
        ensures
            self.slots()[self.rpos()] is None <==> self@.len() == 0,
            self.slots()[self.wpos()] is Some <==> self@.len() == self.cap(),
    {
        assert(self.cell_at(0) == self.rpos());
        assert(self.cell_at(self.count()) == self.wpos());
        assert(self@.len() == self.count());
        if self.count() < self.cap() {
            assert(self.slots()[self.cell_at(self.count())] is None);
        }
        if self.count() > 0 {
            assert(self.slots()[self.cell_at(0)] is Some);
        }
    }

    /// After vacating the cell at the read cursor and advancing it, the
    /// buffer holds the same elements minus the oldest.
    proof fn lemma_remove_front(self, new: Self)
        requires
            self.wf(),
            self.count() > 0,
            new.cap() == self.cap(),
            new.wpos() == self.wpos(),
            new.rpos() == if self.rpos() + 1 == self.cap() { 0int } else { self.rpos() + 1 },
            new.slots() == self.slots().update(self.rpos(), None),
        ensures
            new.wf(),
            new@ == self@.drop_first(),
    {
        assert(self.cell_at(0) == self.rpos());
        assert forall|k: int| -1 <= k < self.cap() implies new.cell_at(k) == self.cell_at(
            k + 1,
        ) by {}
        assert(new.count() == self.count() - 1) by {
            assert(self.cell_at(self.count()) == self.wpos());
            assert(new.cell_at(0) == self.cell_at(1));
            if self.count() < self.cap() {
                assert(self.slots()[self.cell_at(self.count())] is None);
            }
            if self.count() == self.cap() {
                assert(self.rpos() == self.wpos());
                if self.cap() > 1 {
                    assert(self.slots()[self.cell_at(1)] is Some);
                }
            }
        }
        assert forall|k: int| 0 <= k < new.count() implies new.slots()[#[trigger] new.cell_at(
            k,
        )] is Some by {
            assert(self.cell_at(k + 1) != self.cell_at(0));
            assert(self.slots()[self.cell_at(k + 1)] is Some);
        }
        assert forall|k: int| new.count() <= k < new.cap() implies new.slots()[#[trigger] new.cell_at(
            k,
        )] is None by {
            if self.cell_at(k + 1) == self.cell_at(0) {
                assert(k + 1 == self.cap());
            } else {
                assert(self.slots()[self.cell_at(k + 1)] is None);
            }
        }
        assert(new@ =~= self@.drop_first()) by {
            assert forall|i: int| 0 <= i < new.count() implies new@[i] == self@[i + 1] by {
                assert(self.cell_at(i + 1) != self.cell_at(0));
            }
        }
    }

    /// After filling the cell at the write cursor of a buffer with room and
    /// advancing the cursor, the buffer holds the same elements plus the
    /// written one as the newest.
    proof fn lemma_insert_back(self, new: Self, item: T)
        requires
            self.wf(),
            self.count() < self.cap(),
            new.cap() == self.cap(),
            new.rpos() == self.rpos(),
            new.wpos() == if self.wpos() + 1 == self.cap() { 0int } else { self.wpos() + 1 },
            new.slots() == self.slots().update(self.wpos(), Some(item)),
        ensures
            new.wf(),
            new@ == self@.push(item),
    {
        assert(self.cell_at(self.count()) == self.wpos());
        assert forall|k: int| -1 <= k <= self.cap() implies new.cell_at(k) == self.cell_at(k) by {}
        assert(new.count() == self.count() + 1) by {
            assert(new.wpos() == self.cell_at(self.count() + 1));
            if self.count() + 1 == self.cap() {
                if self.count() > 0 {
                    assert(self.slots()[self.cell_at(0)] is Some);
                }
            }
        }
        assert forall|k: int| 0 <= k < new.count() implies new.slots()[#[trigger] new.cell_at(
            k,
        )] is Some by {
            if k < self.count() {
                assert(self.cell_at(k) != self.cell_at(self.count()));
                assert(self.slots()[self.cell_at(k)] is Some);
            }
        }
        assert forall|k: int| new.count() <= k < new.cap() implies new.slots()[#[trigger] new.cell_at(
            k,
        )] is None by {
            assert(self.cell_at(k) != self.cell_at(self.count()));
            assert(self.slots()[self.cell_at(k)] is None);
        }
        assert(new@ =~= self@.push(item)) by {
            assert forall|i: int| 0 <= i < self.count() implies new@[i] == self@[i] by {
                assert(self.cell_at(i) != self.cell_at(self.count()));
            }
            assert(new@[self.count()] == item);
        }
    }

    /// After storing over the cell at the write cursor of a full buffer and
    /// advancing both cursors, the buffer holds the same elements minus the
    /// oldest, plus the stored one as the newest.
    proof fn lemma_overwrite_full(self, new: Self, item: T)
        requires
            self.wf(),
            self.count() == self.cap(),
            new.cap() == self.cap(),
            new.rpos() == if self.rpos() + 1 == self.cap() { 0int } else { self.rpos() + 1 },
            new.wpos() == if self.wpos() + 1 == self.cap() { 0int } else { self.wpos() + 1 },
            new.slots() == self.slots().update(self.wpos(), Some(item)),
        ensures
            new.wf(),
            new@ == self@.drop_first().push(item),
    {
        assert(self.rpos() == self.wpos()) by {
            self.lemma_boundary_occupancy();
            assert(self.cell_at(self.count()) == self.wpos());
        }
        assert forall|j: int| 0 <= j < self.cap() implies self.slots()[j] is Some by {
            let k = if j >= self.rpos() {
                j - self.rpos()
            } else {
                j - self.rpos() + self.cap()
            };
            assert(self.cell_at(k) == j);
            assert(self.slots()[self.cell_at(k)] is Some);
        }
        assert(new.count() == new.cap()) by {
            assert(new.rpos() == new.wpos());
            assert(new.slots()[new.rpos()] is Some);
        }
        assert forall|k: int| 0 <= k < new.count() implies new.slots()[#[trigger] new.cell_at(
            k,
        )] is Some by {}
        assert forall|k: int| -1 <= k < self.cap() implies new.cell_at(k) == self.cell_at(
            k + 1,
        ) by {}
        assert(new@ =~= self@.drop_first().push(item)) by {
            assert forall|i: int| 0 <= i < self.cap() - 1 implies new@[i] == self@[i + 1] by {
                assert(new.cell_at(i) == self.cell_at(i + 1));
                assert(self.cell_at(i + 1) != self.cell_at(0));
            }
            assert(new.cell_at(self.cap() - 1) == self.cell_at(self.cap()));
            assert(self.cell_at(self.cap()) == self.rpos());
            assert(new@[self.cap() - 1] == item);
        }
    }
}

/// A read-only, double-ended traversal over a borrowed ring buffer. A
/// forward cursor starts at the oldest element and a backward cursor at the
/// newest; they walk toward each other, and together yield every stored
/// element exactly once: oldest first from the front, newest first from the
/// back. The `seeking` flags record whether an end has yielded yet, which
/// disambiguates "not started" from "wrapped fully around" when a cursor
/// coincides with its starting cell.
pub struct Iter<'data, T> {
    hoop: &'data Hoop<T>,
    forward_position: usize,
    seeking_forward: bool,
    backward_position: usize,
    seeking_backward: bool,
    front_count: Ghost<int>,
    back_count: Ghost<int>,
}

impl<'data, T> Iter<'data, T> {
    /// The buffer under traversal.
    pub closed spec fn buffer(self) -> Hoop<T> {
        *self.hoop
    }

    /// How many elements the front has yielded so far: the front has
    /// covered elements `0 .. yielded_front()` of the buffer's contents.
    pub closed spec fn yielded_front(self) -> int {
        self.front_count@
    }

    /// How many elements the back has yielded so far: the back has covered
    /// elements `len - yielded_back() .. len` of the buffer's contents.
    pub closed spec fn yielded_back(self) -> int {
        self.back_count@
    }

    /// How many stored elements neither end has yielded yet.
    pub open spec fn remaining(self) -> int {
        self.buffer()@.len() - self.yielded_front() - self.yielded_back()
    }

    /// Well-formedness: the buffer is well-formed, the two ends together
    /// have yielded no more than is stored, each `seeking` flag holds iff
    /// its end has yielded, and each cursor sits on the cell of the next
    /// element its end would yield.
    pub closed spec fn wf(self) -> bool {
        &&& self.buffer().wf()
        &&& 0 <= self.front_count@
        &&& 0 <= self.back_count@
        &&& self.front_count@ + self.back_count@ <= self.buffer()@.len()
        &&& self.seeking_forward <==> self.front_count@ > 0
        &&& self.seeking_backward <==> self.back_count@ > 0
        &&& self.forward_position == self.buffer().cell_at(self.front_count@)
        &&& self.backward_position == self.buffer().cell_at(
            self.buffer()@.len() - 1 - self.back_count@,
        )
    }

    /// Both cursors at their seeds: the forward one on the buffer's read
    /// cursor, the backward one on the cell just before the write cursor,
    /// which holds the newest element when anything is stored.
    fn new(hoop: &'data Hoop<T>) -> (it: Self)
        requires
            hoop.wf(),
        ensures
            it.wf(),
            it.buffer() == *hoop,
            it.yielded_front() == 0,
            it.yielded_back() == 0,
    {
        let it = Iter {
            hoop,
            forward_position: hoop.read_position,
            backward_position: hoop.retreat(hoop.write_position),
            seeking_forward: false,
            seeking_backward: false,
            front_count: Ghost(0),
            back_count: Ghost(0),
        };
        proof {
            assert(hoop.cell_at(0) == hoop.rpos());
            assert(hoop.cell_at(hoop.count()) == hoop.wpos());
            assert(it.backward_position == hoop.cell_at(hoop.count() - 1));
        }
        it
    }

    /// Whether the two ends have met: every stored element has been
    /// yielded. The cell just behind the forward cursor is the last one the
    /// front yielded (or, before the front has started, the cell the back
    /// would yield last), so the backward cursor resting on it means
    /// nothing is left between the ends — unless neither end has started,
    /// which on a full buffer puts the cursors in the same arrangement.
    fn met(&self) -> (r: bool)
        requires
            self.wf(),
        ensures
            r <==> self.remaining() <= 0 && self.buffer()@.len() > 0,
    {
        proof {
            self.lemma_met_exact();
        }
        (self.seeking_forward || self.seeking_backward) && self.backward_position
            == self.hoop.retreat(self.forward_position)
    }

    /// The meeting test is exact: with at least one element yielded, the
    /// backward cursor sits one cell behind the forward cursor iff the
    /// yields cover the whole content.
    proof fn lemma_met_exact(self)
        requires
            self.wf(),
        ensures
            (self.front_count@ + self.back_count@ > 0 && self.backward_position == (
            if self.forward_position == 0 {
                self.buffer().cap() - 1
            } else {
                self.forward_position - 1
            })) <==> self.remaining() <= 0 && self.buffer()@.len() > 0,
    {
        let h = self.buffer();
        let n = h.count();
        let f = self.front_count@;
        let b = self.back_count@;
        assert(h@.len() == n);
        assert(h.cell_at(f) == self.forward_position);
        if self.forward_position == 0 {
            assert(h.cell_at(f - 1) == h.cap() - 1);
        } else {
            assert(h.cell_at(f - 1) == self.forward_position - 1);
        }
        if f + b > 0 {
            if h.cell_at(n - 1 - b) == h.cell_at(f - 1) {
                assert(f + b == n) by {
                    if n - 1 - b != f - 1 {
                        assert((n - 1 - b) - (f - 1) == h.cap() || (f - 1) - (n - 1 - b)
                            == h.cap());
                    }
                }
            }
            if f + b == n {
                assert(h.cell_at(n - 1 - b) == h.cell_at(f - 1));
            }
        }
    }

    /// The two ends never yield the same element, and none twice: the front
    /// has yielded exactly the elements before `yielded_front()`, the back
    /// exactly those from `len - yielded_back()` on, and the front's range
    /// ends no later than the back's begins — so the ranges are disjoint,
    /// and once nothing remains they abut and cover every stored element.
    pub proof fn lemma_yields_exactly_once(self)
        requires
            self.wf(),
        ensures
            self.yielded_front() <= self.buffer()@.len() - self.yielded_back(),
            self.remaining() == 0 ==> self.buffer()@.len() - self.yielded_back()
                == self.yielded_front(),
    {
    }

    /// Yield the oldest element neither end has seen yet, or nothing once
    /// the two ends have met. Elements come out of the front oldest first,
    /// and the buffer itself never changes.
    pub fn next(&mut self) -> (r: Option<&'data T>)
        requires
            old(self).wf(),
        ensures
            final(self).wf(),
            final(self).buffer() == old(self).buffer(),
            final(self).yielded_back() == old(self).yielded_back(),
            old(self).remaining() > 0 ==> final(self).yielded_front() == old(
                self,
            ).yielded_front() + 1 && (r matches Some(v) && *v == old(self).buffer()@[old(
                self,
            ).yielded_front()]),
            old(self).remaining() <= 0 ==> r is None && *final(self) == *old(self),
    {
        if self.met() {
            return None;
        }
        let ghost h = self.buffer();
        let ghost f = self.front_count@;
        proof {
            assert(h.cell_at(f) == self.forward_position);
            if self.remaining() > 0 {
                assert(h.slots()[h.cell_at(f)] is Some);
            } else {
                assert(f == h.count());
                assert(h.slots()[h.cell_at(f)] is None) by {
                    if f == h.cap() {
                        assert(h.cell_at(h.cap()) == h.cell_at(0));
                    }
                }
            }
        }
        match self.hoop.inner[self.forward_position].as_ref() {
            Some(item) => {
                self.forward_position = self.hoop.advance(self.forward_position);
                self.seeking_forward = true;
                self.front_count = Ghost(self.front_count@ + 1);
                proof {
                    assert(self.forward_position == h.cell_at(f + 1));
                    assert(*item == h@[f]);
                }
                Some(item)
            },
            None => None,
        }
    }

    /// Yield the newest element neither end has seen yet, or nothing once
    /// the two ends have met. Elements come out of the back newest first,
    /// and the buffer itself never changes.
    pub fn next_back(&mut self) -> (r: Option<&'data T>)
        requires
            old(self).wf(),
        ensures
            final(self).wf(),
            final(self).buffer() == old(self).buffer(),
            final(self).yielded_front() == old(self).yielded_front(),
            old(self).remaining() > 0 ==> final(self).yielded_back() == old(self).yielded_back()
                + 1 && (r matches Some(v) && *v == old(self).buffer()@[old(self).buffer()@.len()
                - 1 - old(self).yielded_back()]),
            old(self).remaining() <= 0 ==> r is None && *final(self) == *old(self),
    {
        if self.met() {
            return None;
        }
        let ghost h = self.buffer();
        let ghost n = h.count();
        let ghost b = self.back_count@;
        proof {
            assert(h.cell_at(n - 1 - b) == self.backward_position);
            if self.remaining() > 0 {
                assert(0 <= n - 1 - b < n);
                assert(h.slots()[h.cell_at(n - 1 - b)] is Some);
            } else {
                assert(b == n && self.front_count@ == 0);
                assert(n - 1 - b == -1);
                assert(h.cell_at(-1) == h.cell_at(h.cap() - 1));
                assert(h.slots()[h.cell_at(h.cap() - 1)] is None) by {
                    assert(n < h.cap());
                }
            }
        }
        match self.hoop.inner[self.backward_position].as_ref() {
            Some(item) => {
                self.backward_position = self.hoop.retreat(self.backward_position);
                self.seeking_backward = true;
                self.back_count = Ghost(self.back_count@ + 1);
                proof {
                    assert(self.backward_position == h.cell_at(n - 1 - (b + 1)));
                    assert(*item == h@[n - 1 - b]);
                }
                Some(item)
            },
            None => None,
        }
    }
}

} // verus!
