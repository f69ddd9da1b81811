//! A growable circular byte buffer: the cache substrate of the buffered
//! reader.
//!
//! Logical element `i` lives at physical slot `(head + i) % capacity` of one
//! contiguous allocation, so pushing and popping at either end is O(1) and
//! never shifts the other elements. Because the occupied range may wrap past
//! the end of the allocation, the contents are exposed as up to two contiguous
//! slices.

use vstd::prelude::*;

verus! {

/// The smallest nonzero capacity the buffer grows to.
pub const MINIMUM_CAPACITY: usize = 8;

/// The capacity the buffer grows to when it must hold `needed` slots and has
/// `old_cap`: the old capacity doubled (saturating at `usize::MAX`), but
/// never below `needed` nor below [`MINIMUM_CAPACITY`].
pub open spec fn grown_capacity(old_cap: int, needed: int) -> int {
    let doubled = if 2 * old_cap <= usize::MAX {
        2 * old_cap
    } else {
        usize::MAX as int
    };
    let target = if doubled > needed {
        doubled
    } else {
        needed
    };
    if target < MINIMUM_CAPACITY {
        MINIMUM_CAPACITY as int
    } else {
        target
    }
}

/// A double-ended byte queue backed by one circular buffer.
///
/// `buf[head]` holds logical element 0; the `len` live elements occupy the
/// circular range `[head, head + len) mod buf.len()`. The view of the queue is
/// the sequence of live bytes in logical order.
pub struct VecDeque {
    /// The physical slot of logical element 0.
    head: usize,
    /// How many elements are live, starting at `head` and possibly wrapping.
    len: usize,
    /// The backing allocation; its length is the capacity. Slots outside the
    /// live range hold stale bytes that are never read.
    buf: Vec<u8>,
}

impl VecDeque {
    /// The number of slots of the backing allocation.
    pub closed spec fn cap(self) -> nat {
        self.buf@.len()
    }

    /// The physical slot of logical index `i`.
    pub closed spec fn phys(self, i: int) -> int {
        if self.head + i < self.cap() {
            self.head + i
        } else {
            self.head + i - self.cap()
        }
    }

    /// Well-formedness: the live count fits the capacity and `head` names a
    /// slot (or 0 while nothing is allocated).
    pub closed spec fn wf(self) -> bool {
        &&& self.len <= self.cap()
        &&& if self.cap() == 0 {
            self.head == 0
        } else {
            self.head < self.cap()
        }
    }
}

impl View for VecDeque {
    type V = Seq<u8>;

    /// The live bytes in logical order.
    closed spec fn view(&self) -> Seq<u8> {
        Seq::new(self.len as nat, |i: int| self.buf@[self.phys(i)])
    }
}

impl VecDeque {
    /// The buffer never holds more elements than it has slots.
    pub proof fn lemma_len_fits_capacity(self)
        requires
            self.wf(),
        ensures
            self@.len() <= self.cap(),
    {
    }

    /// Creates an empty buffer without allocating.
    pub fn new() -> (r: VecDeque)
        ensures
            r.wf(),
            r@ == Seq::<u8>::empty(),
            r.cap() == 0,
    {
        let r = VecDeque { head: 0, len: 0, buf: Vec::new() };
        proof {
            assert(r@ =~= Seq::<u8>::empty());
        }
        r
    }

    /// Creates an empty buffer with `capacity` slots already allocated.
    pub fn with_capacity(capacity: usize) -> (r: VecDeque)
        ensures
            r.wf(),
            r@ == Seq::<u8>::empty(),
            r.cap() == capacity,
    {
        Self::with_capacity_in(capacity)
    }

    /// Creates an empty buffer without allocating.
    pub fn new_in() -> (r: VecDeque)
        ensures
            r.wf(),
            r@ == Seq::<u8>::empty(),
            r.cap() == 0,
    {
        VecDeque::new()
    }

    /// Creates an empty buffer with `capacity` slots already allocated.
    pub fn with_capacity_in(capacity: usize) -> (r: VecDeque)
        ensures
            r.wf(),
            r@ == Seq::<u8>::empty(),
            r.cap() == capacity,
    {
        let mut buf: Vec<u8> = Vec::new();
        buf.resize(capacity, 0u8);
        let r = VecDeque { head: 0, len: 0, buf };
        proof {
            assert(r@ =~= Seq::<u8>::empty());
        }
        r
    }

    /// How many bytes the buffer holds.
    pub fn len(&self) -> (r: usize)
        ensures
            r == self@.len(),
    {
        self.len
    }

    /// Whether the buffer holds no bytes.
    pub fn is_empty(&self) -> (r: bool)
        ensures
            r == (self@.len() == 0),
    {
        self.len == 0
    }

    /// How many bytes the buffer can hold before it must grow.
    pub fn capacity(&self) -> (r: usize)
        ensures
            r == self.cap(),
    {
        self.buf.len()
    }

    /// Whether every slot is in use.
    fn is_full(&self) -> (r: bool)
        ensures
            r == (self@.len() == self.cap()),
    {
        self.len == self.buf.len()
    }

    /// Drops every element, keeping the allocation.
    pub fn clear(&mut self)
        ensures
            final(self).wf(),
            final(self)@ == Seq::<u8>::empty(),
            final(self).cap() == old(self).cap(),
    {
        self.head = 0;
        self.len = 0;
        proof {
            assert(self@ =~= Seq::<u8>::empty());
        }
    }

    /// The physical slot holding logical index `idx` (or the slot one past the
    /// last element, when `idx == len`).
    #[inline]
    fn to_physical_idx(&self, idx: usize) -> (r: usize)
        requires
            self.wf(),
            self.cap() > 0,
            idx <= self.cap(),
        ensures
            r == self.phys(idx as int),
            r < self.cap(),
    {
        let room = self.buf.len() - self.head;
        if idx < room {
            self.head + idx
        } else {
            idx - room
        }
    }

    /// Reads the byte at logical index `index`, or `None` past the end.
    pub fn get(&self, index: usize) -> (r: Option<u8>)
        requires
            self.wf(),
        ensures
            match r {
                Some(v) => index < self@.len() && v == self@[index as int],
                None => index >= self@.len(),
            },
    {
        if index < self.len {
            let idx = self.to_physical_idx(index);
            Some(self.buf[idx])
        } else {
            None
        }
    }

    /// The first byte, or `None` when empty.
    pub fn front(&self) -> (r: Option<u8>)
        requires
            self.wf(),
        ensures
            match r {
                Some(v) => self@.len() > 0 && v == self@[0],
                None => self@.len() == 0,
            },
    {
        self.get(0)
    }

    /// The last byte, or `None` when empty.
    pub fn back(&self) -> (r: Option<u8>)
        requires
            self.wf(),
        ensures
            match r {
                Some(v) => self@.len() > 0 && v == self@[self@.len() - 1],
                None => self@.len() == 0,
            },
    {
        if self.len == 0 {
            None
        } else {
            self.get(self.len - 1)
        }
    }

    /// Grows the allocation until at least `needed` slots exist: a no-op
    /// within capacity, else exactly [`grown_capacity`] slots (doubling with
    /// a floor of `MINIMUM_CAPACITY`), relocating the shorter wrapped
    /// segment so that the logical order is preserved.
    #[verifier::rlimit(50)]
    fn grow_to(&mut self, needed: usize)
        requires
            old(self).wf(),
        ensures
            final(self).wf(),
            final(self)@ == old(self)@,
            final(self).cap() >= needed,
            final(self).cap() >= old(self).cap(),
            needed <= old(self).cap() ==> *final(self) == *old(self),
            needed > old(self).cap() ==> final(self).cap() == grown_capacity(
                old(self).cap() as int,
                needed as int,
            ),
    {
        let old_cap = self.buf.len();
        if needed <= old_cap {
            return ;
        }
        let doubled = if old_cap <= usize::MAX / 2 {
            old_cap * 2
        } else {
            usize::MAX
        };
        let mut new_cap = if doubled > needed {
            doubled
        } else {
            needed
        };
        if new_cap < MINIMUM_CAPACITY {
            new_cap = MINIMUM_CAPACITY;
        }
        let ghost pre = *old(self);
        self.buf.resize(new_cap, 0u8);
        // Move the shortest contiguous section of the ring:
        // - the live range does not wrap: nothing to move;
        // - it wraps and the wrapped tail is shorter and fits in the fresh
        //   slots: move only the tail up behind the old allocation's end;
        // - otherwise: move only the head segment to the new allocation's end.
        if self.head <= old_cap - self.len {
            proof {
                assert(self@ =~= pre@);
            }
        } else {
            let head_len = old_cap - self.head;
            let tail_len = self.len - head_len;
            if head_len > tail_len && new_cap - old_cap >= tail_len {
                copy_forward(&mut self.buf, 0, old_cap, tail_len);
                proof {
                    assert forall|i: int| 0 <= i < self.len implies self.buf@[self.phys(i)]
                        == pre.buf@[pre.phys(i)] by {
                        if i < head_len {
                            assert(self.phys(i) == pre.phys(i));
                        } else {
                            assert(self.phys(i) == old_cap + (i - head_len));
                            assert(pre.phys(i) == i - head_len);
                        }
                    }
                    assert(self@ =~= pre@);
                }
            } else {
                let new_head = new_cap - head_len;
                copy_backward(&mut self.buf, self.head, new_head, head_len);
                self.head = new_head;
                proof {
                    assert forall|i: int| 0 <= i < self.len implies self.buf@[self.phys(i)]
                        == pre.buf@[pre.phys(i)] by {
                        if i < head_len {
                            assert(self.phys(i) == new_head + i);
                            assert(pre.phys(i) == pre.head + i);
                        } else {
                            assert(self.phys(i) == i - head_len);
                            assert(pre.phys(i) == i - head_len);
                        }
                    }
                    assert(self@ =~= pre@);
                }
            }
        }
    }

    /// Ensures room for `additional` more bytes: a no-op while the capacity
    /// already suffices, else growth to exactly [`grown_capacity`].
    pub fn reserve(&mut self, additional: usize)
        requires
            old(self).wf(),
            old(self)@.len() + additional <= usize::MAX,
        ensures
            final(self).wf(),
            final(self)@ == old(self)@,
            final(self).cap() >= old(self)@.len() + additional,
            final(self).cap() >= old(self).cap(),
            old(self)@.len() + additional <= old(self).cap() ==> *final(self) == *old(self),
            old(self)@.len() + additional > old(self).cap() ==> final(self).cap()
                == grown_capacity(
                old(self).cap() as int,
                old(self)@.len() as int + additional,
            ),
    {
        self.grow_to(self.len + additional);
    }

    /// Ensures room for `additional` more bytes, with the same growth policy
    /// as [`VecDeque::reserve`].
    pub fn reserve_exact(&mut self, additional: usize)
        requires
            old(self).wf(),
            old(self)@.len() + additional <= usize::MAX,
        ensures
            final(self).wf(),
            final(self)@ == old(self)@,
            final(self).cap() >= old(self)@.len() + additional,
            final(self).cap() >= old(self).cap(),
            old(self)@.len() + additional <= old(self).cap() ==> *final(self) == *old(self),
            old(self)@.len() + additional > old(self).cap() ==> final(self).cap()
                == grown_capacity(
                old(self).cap() as int,
                old(self)@.len() as int + additional,
            ),
    {
        self.grow_to(self.len + additional);
    }

    /// Appends a byte at the back, reallocating (by doubling) only when
    /// every slot is in use.
    pub fn push_back(&mut self, value: u8)
        requires
            old(self).wf(),
            old(self)@.len() < usize::MAX,
        ensures
            final(self).wf(),
            final(self)@ == old(self)@.push(value),
            final(self).cap() >= old(self).cap(),
            old(self)@.len() < old(self).cap() ==> final(self).cap() == old(self).cap(),
            old(self)@.len() == old(self).cap() ==> final(self).cap() == grown_capacity(
                old(self).cap() as int,
                old(self)@.len() as int + 1,
            ),
    {
        if self.is_full() {
            self.grow_to(self.len + 1);
        }
        let ghost pre = *self;
        let idx = self.to_physical_idx(self.len);
        self.buf.set(idx, value);
        self.len = self.len + 1;
        proof {
            assert forall|i: int| 0 <= i < pre.len implies self.buf@[self.phys(i)] == pre.buf@[pre.phys(
                i,
            )] by {
                assert(self.phys(i) != pre.phys(pre.len as int));
            }
            assert(self@ =~= old(self)@.push(value));
        }
    }

    /// Prepends a byte at the front, reallocating (by doubling) only when
    /// every slot is in use.
    pub fn push_front(&mut self, value: u8)
        requires
            old(self).wf(),
            old(self)@.len() < usize::MAX,
        ensures
            final(self).wf(),
            final(self)@ == seq![value] + old(self)@,
            final(self).cap() >= old(self).cap(),
            old(self)@.len() < old(self).cap() ==> final(self).cap() == old(self).cap(),
            old(self)@.len() == old(self).cap() ==> final(self).cap() == grown_capacity(
                old(self).cap() as int,
                old(self)@.len() as int + 1,
            ),
    {
        if self.is_full() {
            self.grow_to(self.len + 1);
        }
        let ghost pre = *self;
        let new_head = if self.head == 0 {
            self.buf.len() - 1
        } else {
            self.head - 1
        };
        self.head = new_head;
        self.buf.set(new_head, value);
        self.len = self.len + 1;
        proof {
            assert forall|i: int| 1 <= i < self.len implies self.buf@[self.phys(i)] == pre.buf@[pre.phys(
                i - 1,
            )] by {
                assert(self.phys(i) == pre.phys(i - 1));
                assert(self.phys(i) != new_head);
            }
            assert(self.buf@[self.phys(0)] == value);
            assert(self@ =~= seq![value] + pre@);
        }
    }

    /// Removes and returns the first byte, or `None` when empty.
    pub fn pop_front(&mut self) -> (r: Option<u8>)
        requires
            old(self).wf(),
        ensures
            final(self).wf(),
            final(self).cap() == old(self).cap(),
            match r {
                None => old(self)@.len() == 0 && *final(self) == *old(self),
                Some(v) => old(self)@.len() > 0 && v == old(self)@[0] && final(self)@ == old(self)@.skip(1),
            },
    {
        if self.len == 0 {
            None
        } else {
            let ghost pre = *self;
            let v = self.buf[self.head];
            self.head = self.to_physical_idx(1);
            self.len = self.len - 1;
            proof {
                assert forall|i: int| 0 <= i < self.len implies self.buf@[self.phys(i)]
                    == pre.buf@[pre.phys(i + 1)] by {
                    assert(self.phys(i) == pre.phys(i + 1));
                }
                assert(self@ =~= pre@.skip(1));
            }
            Some(v)
        }
    }

    /// Removes and returns the last byte, or `None` when empty.
    pub fn pop_back(&mut self) -> (r: Option<u8>)
        requires
            old(self).wf(),
        ensures
            final(self).wf(),
            final(self).cap() == old(self).cap(),
            match r {
                None => old(self)@.len() == 0 && *final(self) == *old(self),
                Some(v) => old(self)@.len() > 0 && v == old(self)@[old(self)@.len() - 1] && final(self)@ == old(self)@.take(old(self)@.len() - 1),
            },
    {
        if self.len == 0 {
            None
        } else {
            let ghost pre = *self;
            let idx = self.to_physical_idx(self.len - 1);
            let v = self.buf[idx];
            self.len = self.len - 1;
            proof {
                assert(self@ =~= pre@.take(pre.len as int - 1));
            }
            Some(v)
        }
    }

    /// Drops `count` bytes from the front; a no-op unless more than `count`
    /// bytes are held.
    pub fn clear_front(&mut self, count: usize)
        requires
            old(self).wf(),
        ensures
            final(self).wf(),
            final(self).cap() == old(self).cap(),
            old(self)@.len() > count ==> final(self)@ == old(self)@.skip(count as int),
            old(self)@.len() <= count ==> *final(self) == *old(self),
    {
        if self.len > count {
            let ghost pre = *self;
            self.head = self.to_physical_idx(count);
            self.len = self.len - count;
            proof {
                assert forall|i: int| 0 <= i < self.len implies self.buf@[self.phys(i)]
                    == pre.buf@[pre.phys(i + count)] by {
                    assert(self.phys(i) == pre.phys(i + count));
                }
                assert(self@ =~= pre@.skip(count as int));
            }
        }
    }

    /// Drops `count` bytes from the back; a no-op unless more than `count`
    /// bytes are held.
    pub fn clear_back(&mut self, count: usize)
        requires
            old(self).wf(),
        ensures
            final(self).wf(),
            final(self).cap() == old(self).cap(),
            old(self)@.len() > count ==> final(self)@ == old(self)@.take(old(self)@.len() - count),
            old(self)@.len() <= count ==> *final(self) == *old(self),
    {
        if self.len > count {
            let ghost pre = *self;
            self.len = self.len - count;
            proof {
                assert(self@ =~= pre@.take(pre.len - count));
            }
        }
    }

    /// Shortens the buffer to at most `len` bytes, dropping the back.
    pub fn truncate(&mut self, len: usize)
        requires
            old(self).wf(),
        ensures
            final(self).wf(),
            final(self).cap() == old(self).cap(),
            len <= old(self)@.len() ==> final(self)@ == old(self)@.take(len as int),
            len > old(self)@.len() ==> *final(self) == *old(self),
    {
        if len < self.len {
            let ghost pre = *self;
            self.len = len;
            proof {
                assert(self@ =~= pre@.take(len as int));
            }
        } else {
            proof {
                if len <= self@.len() {
                    assert(self@ =~= self@.take(len as int));
                }
            }
        }
    }

    /// Appends every byte of `extend_from`, in order, at the back,
    /// reallocating only if the free slots do not suffice.
    pub fn extend_back(&mut self, extend_from: &[u8])
        requires
            old(self).wf(),
            old(self)@.len() + extend_from@.len() <= usize::MAX,
        ensures
            final(self).wf(),
            final(self)@ == old(self)@ + extend_from@,
            final(self).cap() >= old(self).cap(),
            old(self)@.len() + extend_from@.len() <= old(self).cap() ==> final(self).cap() == old(
                self,
            ).cap(),
    {
        let n: usize = extend_from.len();
        let mut i: usize = 0;
        while i < n
            invariant
                self.wf(),
                n == extend_from@.len(),
                old(self)@.len() + n <= usize::MAX,
                i <= n,
                self@ == old(self)@ + extend_from@.take(i as int),
                self@.len() == old(self)@.len() + i,
                self.cap() >= old(self).cap(),
                old(self)@.len() + n <= old(self).cap() ==> self.cap() == old(self).cap(),
            decreases n - i,
        {
            let v = *vstd::slice::slice_index_get(extend_from, i);
            self.push_back(v);
            proof {
                assert(self@ =~= old(self)@ + extend_from@.take(i + 1));
            }
            i = i + 1;
        }
        proof {
            assert(extend_from@.take(n as int) =~= extend_from@);
        }
    }

    /// Prepends every byte of `extend_from` at the front, preserving the
    /// order of both the new and the already-held bytes and reallocating
    /// only if the free slots do not suffice.
    pub fn extend_front(&mut self, extend_from: &[u8])
        requires
            old(self).wf(),
            old(self)@.len() + extend_from@.len() <= usize::MAX,
        ensures
            final(self).wf(),
            final(self)@ == extend_from@ + old(self)@,
            final(self).cap() >= old(self).cap(),
            old(self)@.len() + extend_from@.len() <= old(self).cap() ==> final(self).cap() == old(
                self,
            ).cap(),
    {
        let n: usize = extend_from.len();
        let mut i: usize = n;
        while i > 0
            invariant
                self.wf(),
                n == extend_from@.len(),
                old(self)@.len() + n <= usize::MAX,
                i <= n,
                self@ == extend_from@.skip(i as int) + old(self)@,
                self@.len() == old(self)@.len() + (n - i),
                self.cap() >= old(self).cap(),
                old(self)@.len() + n <= old(self).cap() ==> self.cap() == old(self).cap(),
            decreases i,
        {
            i = i - 1;
            let v = *vstd::slice::slice_index_get(extend_from, i);
            self.push_front(v);
            proof {
                assert(self@ =~= extend_from@.skip(i as int) + old(self)@);
            }
        }
        proof {
            assert(extend_from@.skip(0) =~= extend_from@);
        }
    }

    /// The contents as two contiguous slices: the first covers the logical
    /// prefix up to the physical end of the allocation, the second the
    /// wrapped remainder (empty when the contents are contiguous).
    pub fn as_slices(&self) -> (r: (&[u8], &[u8]))
        requires
            self.wf(),
        ensures
            r.0@ == self@.take(r.0@.len() as int),
            r.1@ == self@.skip(r.0@.len() as int),
            r.0@ + r.1@ == self@,
            r.0@.len() <= self@.len(),
            self.contiguous() ==> r.1@.len() == 0 && r.0@ == self@,
    {
        if self.len == 0 {
            let a = vstd::slice::slice_subrange(self.buf.as_slice(), 0, 0);
            proof {
                assert(a@ =~= self@.take(0));
                assert(a@ =~= self@.skip(0));
                assert(a@ + a@ =~= self@);
            }
            (a, a)
        } else if self.head <= self.buf.len() - self.len {
            let a = vstd::slice::slice_subrange(self.buf.as_slice(), self.head, self.head + self.len);
            let b = vstd::slice::slice_subrange(self.buf.as_slice(), 0, 0);
            proof {
                assert(a@ =~= self@.take(a@.len() as int));
                assert(b@ =~= self@.skip(a@.len() as int));
                assert(a@ + b@ =~= self@);
            }
            (a, b)
        } else {
            let cap = self.buf.len();
            let head_len = cap - self.head;
            let tail_len = self.len - head_len;
            let a = vstd::slice::slice_subrange(self.buf.as_slice(), self.head, cap);
            let b = vstd::slice::slice_subrange(self.buf.as_slice(), 0, tail_len);
            proof {
                assert forall|i: int| 0 <= i < head_len implies a@[i] == self@[i] by {
                    assert(self.phys(i) == self.head + i);
                }
                assert forall|i: int| 0 <= i < tail_len implies b@[i] == self@[head_len + i] by {
                    assert(self.phys(head_len + i) == i);
                }
                assert(a@ =~= self@.take(a@.len() as int));
                assert(b@ =~= self@.skip(a@.len() as int));
                assert(a@ + b@ =~= self@);
            }
            (a, b)
        }
    }

    /// Whether some held byte equals `*x`.
    pub fn contains(&self, x: &u8) -> (r: bool)
        requires
            self.wf(),
        ensures
            r == self@.contains(*x),
    {
        let mut i: usize = 0;
        while i < self.len
            invariant
                self.wf(),
                i <= self@.len(),
                forall|j: int| 0 <= j < i ==> self@[j] != *x,
            decreases self@.len() - i,
        {
            let v = self.get(i);
            match v {
                Some(b) => {
                    if b == *x {
                        proof {
                            assert(self@.contains(*x)) by {
                                assert(self@[i as int] == *x);
                            }
                        }
                        return true;
                    }
                },
                None => {
                },
            }
            i = i + 1;
        }
        proof {
            assert(!self@.contains(*x)) by {
                assert(forall|j: int| 0 <= j < self@.len() ==> self@[j] != *x);
            }
        }
        false
    }

    /// Exchanges the bytes at logical indices `i` and `j`.
    pub fn swap(&mut self, i: usize, j: usize)
        requires
            old(self).wf(),
            i < old(self)@.len(),
            j < old(self)@.len(),
        ensures
            final(self).wf(),
            final(self).cap() == old(self).cap(),
            final(self)@ == old(self)@.update(i as int, old(self)@[j as int]).update(
                j as int,
                old(self)@[i as int],
            ),
    {
        let ghost pre = *self;
        let pi = self.to_physical_idx(i);
        let pj = self.to_physical_idx(j);
        let vi = self.buf[pi];
        let vj = self.buf[pj];
        self.buf.set(pi, vj);
        self.buf.set(pj, vi);
        proof {
            assert forall|k: int| 0 <= k < self.len && k != i && k != j implies self.buf@[self.phys(
                k,
            )] == pre.buf@[pre.phys(k)] by {
                assert(self.phys(k) != pre.phys(i as int));
                assert(self.phys(k) != pre.phys(j as int));
            }
            assert(self@ =~= pre@.update(i as int, pre@[j as int]).update(j as int, pre@[i as int]));
        }
    }

    /// Removes the byte at `index`, filling its place with the front byte and
    /// popping the front; `None` past the end.
    pub fn swap_remove_front(&mut self, index: usize) -> (r: Option<u8>)
        requires
            old(self).wf(),
        ensures
            final(self).wf(),
            final(self).cap() == old(self).cap(),
            match r {
                None => index >= old(self)@.len() && *final(self) == *old(self),
                Some(v) => index < old(self)@.len() && v == old(self)@[index as int] && final(self)@
                    == old(self)@.update(index as int, old(self)@[0]).skip(1),
            },
    {
        let length = self.len;
        if index < length && index != 0 {
            self.swap(index, 0);
        } else if index >= length {
            return None;
        }
        proof {
            if index == 0 {
                assert(old(self)@.update(0, old(self)@[0]) =~= old(self)@);
            }
        }
        self.pop_front()
    }

    /// Removes the byte at `index`, filling its place with the back byte and
    /// popping the back; `None` past the end.
    pub fn swap_remove_back(&mut self, index: usize) -> (r: Option<u8>)
        requires
            old(self).wf(),
        ensures
            final(self).wf(),
            final(self).cap() == old(self).cap(),
            match r {
                None => index >= old(self)@.len() && *final(self) == *old(self),
                Some(v) => index < old(self)@.len() && v == old(self)@[index as int] && final(self)@
                    == old(self)@.update(index as int, old(self)@[old(self)@.len() - 1]).take(
                    old(self)@.len() - 1,
                ),
            },
    {
        let length = self.len;
        if length > 0 && index < length - 1 {
            self.swap(index, length - 1);
        } else if index >= length {
            return None;
        }
        proof {
            if index == self.len - 1 {
                assert(old(self)@.update(index as int, old(self)@[index as int]) =~= old(self)@);
            }
        }
        self.pop_back()
    }

    /// Searches a buffer sorted in ascending order for `x`. `Ok(i)` names a
    /// held byte equal to `x` (whatever the order of the contents); on a
    /// sorted buffer, `Err(i)` is the insertion point that keeps the order,
    /// and says that `x` is not held at all.
    pub fn binary_search(&self, x: &u8) -> (r: Result<usize, usize>)
        requires
            self.wf(),
        ensures
            match r {
                Ok(i) => i < self@.len() && self@[i as int] == *x,
                Err(i) => {
                    &&& i <= self@.len()
                    &&& self.is_sorted() ==> forall|j: int| 0 <= j < i ==> self@[j] < *x
                    &&& self.is_sorted() ==> forall|j: int|
                        i <= j < self@.len() ==> self@[j] > *x
                    &&& self.is_sorted() ==> !self@.contains(*x)
                },
            },
    {
        let mut lo: usize = 0;
        let mut hi: usize = self.len;
        while lo < hi
            invariant
                self.wf(),
                lo <= hi <= self@.len(),
                self.is_sorted() ==> forall|j: int| 0 <= j < lo ==> self@[j] < *x,
                self.is_sorted() ==> forall|j: int| hi <= j < self@.len() ==> self@[j] > *x,
            decreases hi - lo,
        {
            let mid = lo + (hi - lo) / 2;
            let v = match self.get(mid) {
                Some(v) => v,
                None => {
                    proof {
                        assert(false);
                    }
                    return Err(0);
                },
            };
            if v < *x {
                lo = mid + 1;
            } else if v > *x {
                hi = mid;
            } else {
                return Ok(mid);
            }
        }
        proof {
            if self.is_sorted() {
                assert forall|j: int| 0 <= j < self@.len() implies self@[j] != *x by {
                    assert(j < lo || hi <= j);
                }
            }
        }
        Err(lo)
    }

    /// Whether the held bytes are in ascending order.
    pub open spec fn is_sorted(self) -> bool {
        forall|i: int, j: int| 0 <= i < j < self@.len() ==> self@[i] <= self@[j]
    }

    /// Binary search with a caller-supplied comparator: `f(b)` says how the
    /// held byte `b` compares to the sought target. `Ok(i)` names a byte the
    /// comparator called equal. `Err(i)` is bracketed by its neighbours: the
    /// byte before `i` (if any) compared less, the byte at `i` (if any)
    /// compared greater — the insertion point, whenever the comparator
    /// orders the contents consistently.
    pub fn binary_search_by<F: Fn(u8) -> core::cmp::Ordering>(&self, f: F) -> (r: Result<
        usize,
        usize,
    >)
        requires
            self.wf(),
            forall|i: int| 0 <= i < self@.len() ==> call_requires(f, (self@[i],)),
        ensures
            match r {
                Ok(i) => i < self@.len() && call_ensures(
                    f,
                    (self@[i as int],),
                    core::cmp::Ordering::Equal,
                ),
                Err(i) => {
                    &&& i <= self@.len()
                    &&& i > 0 ==> call_ensures(f, (self@[i - 1],), core::cmp::Ordering::Less)
                    &&& i < self@.len() ==> call_ensures(
                        f,
                        (self@[i as int],),
                        core::cmp::Ordering::Greater,
                    )
                },
            },
    {
        let mut lo: usize = 0;
        let mut hi: usize = self.len;
        while lo < hi
            invariant
                self.wf(),
                lo <= hi <= self@.len(),
                forall|j: int| 0 <= j < self@.len() ==> call_requires(f, (self@[j],)),
                lo > 0 ==> call_ensures(f, (self@[lo - 1],), core::cmp::Ordering::Less),
                hi < self@.len() ==> call_ensures(f, (self@[hi as int],), core::cmp::Ordering::Greater),
            decreases hi - lo,
        {
            let mid = lo + (hi - lo) / 2;
            let v = match self.get(mid) {
                Some(v) => v,
                None => {
                    proof {
                        assert(false);
                    }
                    return Err(0);
                },
            };
            match f(v) {
                core::cmp::Ordering::Less => {
                    lo = mid + 1;
                },
                core::cmp::Ordering::Greater => {
                    hi = mid;
                },
                core::cmp::Ordering::Equal => {
                    return Ok(mid);
                },
            }
        }
        Err(lo)
    }

    /// Binary search by a key drawn from each byte: `Ok(i)` names a byte
    /// whose key a call of `f` mapped to `*b`. `Err(i)` is bracketed by its
    /// neighbours' keys — the byte before `i` (if any) mapped below `*b`,
    /// the byte at `i` (if any) above it — the insertion point, whenever
    /// the keys are in ascending order.
    pub fn binary_search_by_key<F: Fn(u8) -> u8>(&self, b: &u8, f: F) -> (r: Result<usize, usize>)
        requires
            self.wf(),
            forall|i: int| 0 <= i < self@.len() ==> call_requires(f, (self@[i],)),
        ensures
            match r {
                Ok(i) => i < self@.len() && call_ensures(f, (self@[i as int],), *b),
                Err(i) => {
                    &&& i <= self@.len()
                    &&& i > 0 ==> exists|k: u8| #[trigger] call_ensures(f, (self@[i - 1],), k) && k < *b
                    &&& i < self@.len() ==> exists|k: u8|
                        #[trigger] call_ensures(f, (self@[i as int],), k) && k > *b
                },
            },
    {
        let mut lo: usize = 0;
        let mut hi: usize = self.len;
        while lo < hi
            invariant
                self.wf(),
                lo <= hi <= self@.len(),
                forall|j: int| 0 <= j < self@.len() ==> call_requires(f, (self@[j],)),
                lo > 0 ==> exists|k: u8| #[trigger] call_ensures(f, (self@[lo - 1],), k) && k < *b,
                hi < self@.len() ==> exists|k: u8| #[trigger] call_ensures(f, (self@[hi as int],), k) && k
                    > *b,
            decreases hi - lo,
        {
            let mid = lo + (hi - lo) / 2;
            let v = match self.get(mid) {
                Some(v) => v,
                None => {
                    proof {
                        assert(false);
                    }
                    return Err(0);
                },
            };
            let key = f(v);
            if key < *b {
                lo = mid + 1;
                proof {
                    assert(call_ensures(f, (self@[lo - 1],), key));
                }
            } else if key > *b {
                hi = mid;
                proof {
                    assert(call_ensures(f, (self@[hi as int],), key));
                }
            } else {
                return Ok(mid);
            }
        }
        Err(lo)
    }

    /// The number of leading bytes satisfying `pred`: on a buffer
    /// partitioned by `pred` (every byte it accepts before every byte it
    /// rejects), the boundary between the two halves. Every byte before the
    /// returned index was accepted by a call of `pred`, and the byte at it
    /// (if any) was rejected.
    pub fn partition_point<F: Fn(u8) -> bool>(&self, pred: F) -> (r: usize)
        requires
            self.wf(),
            forall|i: int| 0 <= i < self@.len() ==> call_requires(pred, (self@[i],)),
        ensures
            r <= self@.len(),
            forall|j: int| 0 <= j < r ==> call_ensures(pred, (self@[j],), true),
            r < self@.len() ==> call_ensures(pred, (self@[r as int],), false),
    {
        let mut i: usize = 0;
        while i < self.len
            invariant
                self.wf(),
                i <= self@.len(),
                forall|j: int| 0 <= j < self@.len() ==> call_requires(pred, (self@[j],)),
                forall|j: int| 0 <= j < i ==> call_ensures(pred, (self@[j],), true),
            decreases self@.len() - i,
        {
            let v = match self.get(i) {
                Some(v) => v,
                None => {
                    proof {
                        assert(false);
                    }
                    return i;
                },
            };
            if !pred(v) {
                return i;
            }
            i = i + 1;
        }
        i
    }

    /// Keeps only the bytes that `f` accepts, in order, dropping the rest;
    /// the allocation is kept. The booleans `kept` witness one run of the
    /// decisions: position `i` of the old contents stays exactly when
    /// `kept[i]`.
    pub fn retain<F: Fn(u8) -> bool>(&mut self, f: F)
        requires
            old(self).wf(),
            forall|i: int| 0 <= i < old(self)@.len() ==> call_requires(f, (old(self)@[i],)),
        ensures
            final(self).wf(),
            final(self).cap() == old(self).cap(),
            exists|kept: Seq<bool>|
                {
                    &&& kept.len() == old(self)@.len()
                    &&& final(self)@ == keep_marked(old(self)@, kept)
                    &&& forall|i: int|
                        0 <= i < kept.len() ==> call_ensures(f, (old(self)@[i],), kept[i])
                },
    {
        let ghost pre = *old(self);
        let mut out: Vec<u8> = Vec::new();
        let ghost kept: Seq<bool> = Seq::empty();
        let mut i: usize = 0;
        while i < self.len
            invariant
                self.wf(),
                *self == pre,
                forall|j: int| 0 <= j < pre@.len() ==> call_requires(f, (pre@[j],)),
                i <= pre@.len(),
                kept.len() == i,
                out@ == keep_marked(pre@.take(i as int), kept),
                forall|j: int| 0 <= j < i ==> call_ensures(f, (pre@[j],), kept[j]),
            decreases pre@.len() - i,
        {
            let v = match self.get(i) {
                Some(v) => v,
                None => {
                    proof {
                        assert(false);
                    }
                    return ;
                },
            };
            let keep = f(v);
            if keep {
                out.push(v);
            }
            proof {
                let kept_pre = kept;
                kept = kept.push(keep);
                assert(pre@.take(i + 1).drop_last() =~= pre@.take(i as int));
                assert(kept.drop_last() =~= kept_pre);
                if keep {
                    assert(out@ =~= keep_marked(pre@.take(i as int), kept_pre) + seq![pre@[i as int]]);
                } else {
                    assert(out@ =~= keep_marked(pre@.take(i as int), kept_pre) + Seq::<u8>::empty());
                }
                assert(out@ == keep_marked(pre@.take(i + 1), kept));
            }
            i = i + 1;
        }
        proof {
            assert(pre@.take(pre@.len() as int) =~= pre@);
        }
        let k: usize = out.len();
        proof {
            lemma_keep_marked_len(pre@, kept);
        }
        self.head = 0;
        self.len = 0;
        let mut w: usize = 0;
        while w < k
            invariant
                self.wf(),
                self.cap() == pre.cap(),
                w <= k,
                self.len == w,
                k == out@.len(),
                k <= self.cap(),
                self@ == out@.take(w as int),
            decreases k - w,
        {
            let v = out[w];
            let ghost before = *self;
            let idx = self.to_physical_idx(self.len);
            self.buf.set(idx, v);
            self.len = self.len + 1;
            proof {
                assert forall|q: int| 0 <= q < before.len implies self.buf@[self.phys(q)]
                    == before.buf@[before.phys(q)] by {
                    assert(self.phys(q) == before.phys(q));
                    assert(before.phys(q) != before.phys(before.len as int));
                }
                assert(self@ =~= out@.take(w + 1));
            }
            w = w + 1;
        }
        proof {
            assert(self@ =~= out@);
        }
    }

    /// Copies the run of `len` bytes that starts at physical slot `src` to
    /// the run starting at physical slot `dst`, both taken on the ring (either
    /// run may wrap past the end of the allocation, and they may overlap).
    /// The cases — which of the runs wraps, and whether the destination
    /// starts inside the source run — decide the order of the underlying
    /// copies, so that no byte is overwritten before it has been read.
    #[verifier::rlimit(100)]
    fn wrap_copy(&mut self, src: usize, dst: usize, len: usize)
        requires
            old(self).wf(),
            src < old(self).cap(),
            dst < old(self).cap(),
            len <= old(self).cap(),
            vstd::math::min(
                ring_offset(old(self).cap() as int, src as int, dst as int),
                old(self).cap() - ring_offset(old(self).cap() as int, src as int, dst as int),
            ) + len <= old(self).cap(),
        ensures
            final(self).wf(),
            final(self).cap() == old(self).cap(),
            final(self).head == old(self).head,
            final(self).len == old(self).len,
            forall|p: int|
                0 <= p < old(self).cap() ==> final(self).buf@[p] == (if ring_offset(
                    old(self).cap() as int,
                    dst as int,
                    p,
                ) < len {
                    old(self).buf@[wrap_at(
                        old(self).cap() as int,
                        src as int,
                        ring_offset(old(self).cap() as int, dst as int, p),
                    )]
                } else {
                    old(self).buf@[p]
                }),
    {
        if src == dst || len == 0 {
            return ;
        }
        let cap = self.buf.len();
        let ghost cap_i = cap as int;
        let ghost buf0 = self.buf@;
        let dst_off = if dst >= src {
            dst - src
        } else {
            cap - (src - dst)
        };
        let dst_after_src = dst_off < len;
        let src_pre_wrap_len = cap - src;
        let dst_pre_wrap_len = cap - dst;
        let src_wraps = src_pre_wrap_len < len;
        let dst_wraps = dst_pre_wrap_len < len;
        match (dst_after_src, src_wraps, dst_wraps) {
            (_, false, false) => {
                // Neither run wraps: one straight copy.
                buf_memmove(&mut self.buf, src, dst, len);
            },
            (false, false, true) => {
                // The destination starts after the whole source run and
                // wraps: fill its tail part first, then its wrapped front.
                proof {
                    assert(dst >= src + len);
                }
                buf_memmove(&mut self.buf, src, dst, dst_pre_wrap_len);
                buf_memmove(&mut self.buf, src + dst_pre_wrap_len, 0, len - dst_pre_wrap_len);
            },
            (true, false, true) => {
                // The destination starts inside the source run and wraps:
                // fill its wrapped front first, then its tail part.
                buf_memmove(&mut self.buf, src + dst_pre_wrap_len, 0, len - dst_pre_wrap_len);
                buf_memmove(&mut self.buf, src, dst, dst_pre_wrap_len);
            },
            (false, true, false) => {
                // The source run wraps, the destination does not, and lies
                // before it: copy the source's tail part, then its front.
                buf_memmove(&mut self.buf, src, dst, src_pre_wrap_len);
                buf_memmove(&mut self.buf, 0, dst + src_pre_wrap_len, len - src_pre_wrap_len);
            },
            (true, true, false) => {
                // As above, but the destination starts inside the source
                // run: copy the source's wrapped front first.
                buf_memmove(&mut self.buf, 0, dst + src_pre_wrap_len, len - src_pre_wrap_len);
                buf_memmove(&mut self.buf, src, dst, src_pre_wrap_len);
            },
            (false, true, true) => {
                // Both runs wrap, destination before source: three pieces,
                // from the source's tail forward.
                proof {
                    assert(dst_pre_wrap_len > src_pre_wrap_len);
                }
                let delta = dst_pre_wrap_len - src_pre_wrap_len;
                buf_memmove(&mut self.buf, src, dst, src_pre_wrap_len);
                buf_memmove(&mut self.buf, 0, dst + src_pre_wrap_len, delta);
                buf_memmove(&mut self.buf, delta, 0, len - dst_pre_wrap_len);
            },
            (true, true, true) => {
                // Both runs wrap, destination inside the source run: three
                // pieces, from the source's wrapped front backward.
                proof {
                    assert(src_pre_wrap_len > dst_pre_wrap_len);
                }
                let delta = src_pre_wrap_len - dst_pre_wrap_len;
                buf_memmove(&mut self.buf, 0, delta, len - src_pre_wrap_len);
                buf_memmove(&mut self.buf, cap - delta, 0, delta);
                buf_memmove(&mut self.buf, src, dst, dst_pre_wrap_len);
            },
        }
    }

    /// Inserts `value` at logical index `index`, shifting whichever side of
    /// the buffer is shorter by one slot around the ring; reallocates (by
    /// doubling) only when every slot is in use.
    #[verifier::rlimit(100)]
    pub fn insert(&mut self, index: usize, value: u8)
        requires
            old(self).wf(),
            index <= old(self)@.len(),
            old(self)@.len() < usize::MAX,
        ensures
            final(self).wf(),
            final(self)@ == old(self)@.insert(index as int, value),
            final(self).cap() >= old(self).cap(),
            old(self)@.len() < old(self).cap() ==> final(self).cap() == old(self).cap(),
            old(self)@.len() == old(self).cap() ==> final(self).cap() == grown_capacity(
                old(self).cap() as int,
                old(self)@.len() as int + 1,
            ),
    {
        if self.is_full() {
            self.grow_to(self.len + 1);
        }
        let ghost pre = *self;
        let ghost capi = self.cap() as int;
        let k = self.len - index;
        if k < index {
            // Fewer elements after the insertion point: shift them back.
            let ps = self.to_physical_idx(index);
            let pd = self.to_physical_idx(index + 1);
            self.wrap_copy(ps, pd, k);
            self.buf.set(ps, value);
            self.len = self.len + 1;
            proof {
                assert forall|i: int| 0 <= i < self.len implies self.buf@[self.phys(i)]
                    == pre@.insert(index as int, value)[i] by {
                    if i < index {
                        assert(ring_offset(capi, pd as int, self.phys(i)) == capi - (index + 1
                            - i));
                        assert(self.phys(i) != ps);
                    } else if i == index {
                        assert(ring_offset(capi, pd as int, ps as int) == capi - 1);
                    } else {
                        assert(self.phys(i) == wrap_at(capi, pd as int, i - index - 1));
                        assert(ring_offset(capi, pd as int, self.phys(i)) == i - index - 1);
                        assert(self.phys(i) != ps);
                        assert(wrap_at(capi, ps as int, i - index - 1) == pre.phys(i - 1));
                    }
                }
                assert(self@ =~= pre@.insert(index as int, value));
            }
        } else {
            // Fewer elements before it: shift the front forward.
            let old_head = self.head;
            let new_head = if self.head == 0 {
                self.buf.len() - 1
            } else {
                self.head - 1
            };
            self.head = new_head;
            self.wrap_copy(old_head, new_head, index);
            let pi = self.to_physical_idx(index);
            self.buf.set(pi, value);
            self.len = self.len + 1;
            proof {
                assert forall|i: int| 0 <= i < self.len implies self.buf@[self.phys(i)]
                    == pre@.insert(index as int, value)[i] by {
                    if i < index {
                        assert(self.phys(i) == wrap_at(capi, new_head as int, i));
                        assert(ring_offset(capi, new_head as int, self.phys(i)) == i);
                        assert(wrap_at(capi, old_head as int, i) == pre.phys(i));
                        assert(self.phys(i) != pi);
                    } else if i == index {
                        assert(ring_offset(capi, new_head as int, pi as int) == index);
                    } else {
                        assert(self.phys(i) == pre.phys(i - 1));
                        assert(ring_offset(capi, new_head as int, self.phys(i)) == i);
                        assert(self.phys(i) != pi);
                    }
                }
                assert(self@ =~= pre@.insert(index as int, value));
            }
        }
    }

    /// Removes and returns the byte at logical index `index`, shifting
    /// whichever side of the buffer is shorter by one slot; `None` past the
    /// end.
    #[verifier::rlimit(100)]
    pub fn remove(&mut self, index: usize) -> (r: Option<u8>)
        requires
            old(self).wf(),
        ensures
            final(self).wf(),
            final(self).cap() == old(self).cap(),
            match r {
                None => index >= old(self)@.len() && *final(self) == *old(self),
                Some(v) => index < old(self)@.len() && v == old(self)@[index as int] && final(self)@ == old(self)@.remove(index as int),
            },
    {
        if self.len <= index {
            return None;
        }
        let ghost pre = *self;
        let ghost capi = self.cap() as int;
        let wrapped = self.to_physical_idx(index);
        let elem = self.buf[wrapped];
        let k = self.len - index - 1;
        if k < index {
            // Fewer elements after the removed byte: shift them forward.
            let ps = self.to_physical_idx(index + 1);
            self.wrap_copy(ps, wrapped, k);
            self.len = self.len - 1;
            proof {
                assert forall|i: int| 0 <= i < self.len implies self.buf@[self.phys(i)]
                    == pre@.remove(index as int)[i] by {
                    if i < index {
                        assert(ring_offset(capi, wrapped as int, self.phys(i)) == capi - (index
                            - i));
                    } else {
                        assert(self.phys(i) == wrap_at(capi, wrapped as int, i - index));
                        assert(ring_offset(capi, wrapped as int, self.phys(i)) == i - index);
                        assert(wrap_at(capi, ps as int, i - index) == pre.phys(i + 1));
                    }
                }
                assert(self@ =~= pre@.remove(index as int));
            }
        } else {
            // Fewer elements before it: shift the front back.
            let old_head = self.head;
            let new_head = self.to_physical_idx(1);
            self.head = new_head;
            self.wrap_copy(old_head, new_head, index);
            self.len = self.len - 1;
            proof {
                assert forall|i: int| 0 <= i < self.len implies self.buf@[self.phys(i)]
                    == pre@.remove(index as int)[i] by {
                    if i < index {
                        assert(self.phys(i) == wrap_at(capi, new_head as int, i));
                        assert(ring_offset(capi, new_head as int, self.phys(i)) == i);
                        assert(wrap_at(capi, old_head as int, i) == pre.phys(i));
                    } else {
                        assert(self.phys(i) == pre.phys(i + 1));
                        assert(ring_offset(capi, new_head as int, self.phys(i)) == i);
                    }
                }
                assert(self@ =~= pre@.remove(index as int));
            }
        }
        Some(elem)
    }

    /// Moves every byte of `other` to the back of `self`, in order, leaving
    /// `other` empty (its allocation kept).
    pub fn append(&mut self, other: &mut VecDeque)
        requires
            old(self).wf(),
            old(other).wf(),
            old(self)@.len() + old(other)@.len() <= usize::MAX,
        ensures
            final(self).wf(),
            final(other).wf(),
            final(self)@ == old(self)@ + old(other)@,
            final(other)@ == Seq::<u8>::empty(),
            final(other).cap() == old(other).cap(),
    {
        loop
            invariant_except_break
                self.wf(),
                other.wf(),
                other.cap() == old(other).cap(),
                self@ + other@ == old(self)@ + old(other)@,
                self@.len() + other@.len() <= usize::MAX,
            ensures
                self.wf(),
                other.wf(),
                other.cap() == old(other).cap(),
                self@ + other@ == old(self)@ + old(other)@,
                other@.len() == 0,
            decreases other@.len(),
        {
            let ghost self_pre = self@;
            let ghost other_pre = other@;
            match other.pop_front() {
                None => {
                    break ;
                },
                Some(v) => {
                    self.push_back(v);
                    proof {
                        assert(self@ + other@ =~= self_pre + other_pre);
                    }
                },
            }
        }
        proof {
            assert(other@ =~= Seq::<u8>::empty());
            assert(self@ + other@ =~= self@);
        }
    }

    /// Rotates the buffer `n` places to the left: the first `n` bytes move,
    /// in order, behind the rest. Whichever part is shorter travels around
    /// the ring.
    pub fn rotate_left(&mut self, n: usize)
        requires
            old(self).wf(),
            n <= old(self)@.len(),
        ensures
            final(self).wf(),
            final(self).cap() == old(self).cap(),
            final(self)@ == old(self)@.skip(n as int) + old(self)@.take(n as int),
    {
        let k = self.len - n;
        if n <= k {
            self.rotate_left_inner(n);
        } else {
            self.rotate_right_inner(k);
        }
        proof {
            assert(final(self)@ =~= old(self)@.skip(n as int) + old(self)@.take(n as int));
        }
    }

    /// Rotates the buffer `n` places to the right: the last `n` bytes move,
    /// in order, in front of the rest. Whichever part is shorter travels
    /// around the ring.
    pub fn rotate_right(&mut self, n: usize)
        requires
            old(self).wf(),
            n <= old(self)@.len(),
        ensures
            final(self).wf(),
            final(self).cap() == old(self).cap(),
            final(self)@ == old(self)@.skip(old(self)@.len() - n) + old(self)@.take(
                old(self)@.len() - n,
            ),
    {
        let k = self.len - n;
        if n <= k {
            self.rotate_right_inner(n);
        } else {
            self.rotate_left_inner(k);
        }
        proof {
            assert(final(self)@ =~= old(self)@.skip(old(self)@.len() - n) + old(self)@.take(
                old(self)@.len() - n,
            ));
        }
    }

    /// Rotates left by `mid`, which must be at most half the length: moves
    /// the first `mid` bytes past the back and advances `head`.
    #[verifier::rlimit(100)]
    fn rotate_left_inner(&mut self, mid: usize)
        requires
            old(self).wf(),
            mid * 2 <= old(self)@.len(),
        ensures
            final(self).wf(),
            final(self).cap() == old(self).cap(),
            final(self)@ == old(self)@.skip(mid as int) + old(self)@.take(mid as int),
    {
        if mid == 0 {
            proof {
                assert(self@ =~= self@.skip(0) + self@.take(0));
            }
            return ;
        }
        let ghost pre = *self;
        let ghost capi = self.cap() as int;
        let pd = self.to_physical_idx(self.len);
        self.wrap_copy(self.head, pd, mid);
        let new_head = self.to_physical_idx(mid);
        self.head = new_head;
        proof {
            assert forall|i: int| 0 <= i < self.len implies self.buf@[self.phys(i)] == (pre@.skip(
                mid as int,
            ) + pre@.take(mid as int))[i] by {
                if i < self.len - mid {
                    assert(self.phys(i) == pre.phys(mid + i));
                    assert(ring_offset(capi, pd as int, self.phys(i)) == capi - (pre.len - mid
                        - i));
                } else {
                    assert(self.phys(i) == wrap_at(capi, pd as int, mid + i - pre.len));
                    assert(ring_offset(capi, pd as int, self.phys(i)) == mid + i - pre.len);
                    assert(wrap_at(capi, pre.head as int, mid + i - pre.len) == pre.phys(
                        mid + i - pre.len,
                    ));
                }
            }
            assert(self@ =~= pre@.skip(mid as int) + pre@.take(mid as int));
        }
    }

    /// Rotates right by `k`, which must be at most half the length: moves
    /// the last `k` bytes before the front and retreats `head`.
    #[verifier::rlimit(100)]
    fn rotate_right_inner(&mut self, k: usize)
        requires
            old(self).wf(),
            k * 2 <= old(self)@.len(),
        ensures
            final(self).wf(),
            final(self).cap() == old(self).cap(),
            final(self)@ == old(self)@.skip(old(self)@.len() - k) + old(self)@.take(
                old(self)@.len() - k,
            ),
    {
        if k == 0 {
            proof {
                assert(self@ =~= self@.skip(self@.len() as int) + self@.take(self@.len() as int));
            }
            return ;
        }
        let ghost pre = *self;
        let ghost capi = self.cap() as int;
        let new_head = if self.head >= k {
            self.head - k
        } else {
            self.buf.len() - (k - self.head)
        };
        self.head = new_head;
        let ps = self.to_physical_idx(self.len);
        self.wrap_copy(ps, new_head, k);
        proof {
            assert(ps == pre.phys(pre.len - k));
            assert forall|i: int| 0 <= i < self.len implies self.buf@[self.phys(i)] == (pre@.skip(
                pre.len - k,
            ) + pre@.take(pre.len - k))[i] by {
                if i < k {
                    assert(ring_offset(capi, new_head as int, self.phys(i)) == i);
                    assert(wrap_at(capi, ps as int, i) == pre.phys(pre.len - k + i));
                } else {
                    assert(self.phys(i) == pre.phys(i - k));
                    assert(ring_offset(capi, new_head as int, self.phys(i)) == i);
                }
            }
            assert(self@ =~= pre@.skip(pre.len - k) + pre@.take(pre.len - k));
        }
    }

    /// Whether the held bytes occupy one unbroken run of slots, so that the
    /// first slice of [`VecDeque::as_slices`] holds all of them.
    pub closed spec fn contiguous(self) -> bool {
        self.head + self.len <= self.cap()
    }

    /// Rearranges the ring so that the held bytes occupy one unbroken run of
    /// slots starting at the first one, keeping their order and the
    /// allocation.
    pub fn make_contiguous(&mut self)
        requires
            old(self).wf(),
        ensures
            final(self).wf(),
            final(self)@ == old(self)@,
            final(self).cap() == old(self).cap(),
            final(self).contiguous(),
    {
        if self.head <= self.buf.len() - self.len {
            return ;
        }
        let ghost pre = *self;
        let mut out: Vec<u8> = Vec::new();
        let mut i: usize = 0;
        while i < self.len
            invariant
                self.wf(),
                *self == pre,
                i <= self@.len(),
                out@ == self@.take(i as int),
            decreases self@.len() - i,
        {
            let idx = self.to_physical_idx(i);
            out.push(self.buf[idx]);
            proof {
                assert(out@ =~= self@.take(i + 1));
            }
            i = i + 1;
        }
        proof {
            assert(out@ =~= pre@);
        }
        let k: usize = out.len();
        self.head = 0;
        self.len = 0;
        let mut w: usize = 0;
        while w < k
            invariant
                self.wf(),
                self.head == 0,
                self.cap() == pre.cap(),
                w <= k,
                self.len == w,
                k == out@.len(),
                k <= self.cap(),
                self@ == out@.take(w as int),
            decreases k - w,
        {
            let v = out[w];
            let ghost before = *self;
            let idx = self.to_physical_idx(self.len);
            self.buf.set(idx, v);
            self.len = self.len + 1;
            proof {
                assert forall|q: int| 0 <= q < before.len implies self.buf@[self.phys(q)]
                    == before.buf@[before.phys(q)] by {
                    assert(self.phys(q) == before.phys(q));
                    assert(before.phys(q) != before.phys(before.len as int));
                }
                assert(self@ =~= out@.take(w + 1));
            }
            w = w + 1;
        }
        proof {
            assert(self@ =~= out@);
        }
    }

    /// Splits the buffer at `at`: the bytes from `at` onward move, in
    /// order, into a new buffer allocated to exactly their count; `self`
    /// keeps the bytes before `at` and its allocation.
    pub fn split_off(&mut self, at: usize) -> (r: VecDeque)
        requires
            old(self).wf(),
            at <= old(self)@.len(),
        ensures
            final(self).wf(),
            r.wf(),
            final(self)@ == old(self)@.take(at as int),
            r@ == old(self)@.skip(at as int),
            final(self).cap() == old(self).cap(),
            r.cap() == old(self)@.len() - at,
    {
        let other_len = self.len - at;
        let mut other = VecDeque::with_capacity(other_len);
        proof {
            assert(other@ =~= self@.subrange(at as int, at as int));
        }
        let mut i: usize = at;
        while i < self.len
            invariant
                self.wf(),
                *self == *old(self),
                at <= i <= self@.len(),
                other_len == self@.len() - at,
                other.wf(),
                other.cap() == other_len,
                other@ == self@.subrange(at as int, i as int),
            decreases self@.len() - i,
        {
            let v = match self.get(i) {
                Some(v) => v,
                None => {
                    proof {
                        assert(false);
                    }
                    return other;
                },
            };
            other.push_back(v);
            proof {
                assert(other@ =~= self@.subrange(at as int, i + 1));
            }
            i = i + 1;
        }
        proof {
            assert(other@ =~= self@.skip(at as int));
        }
        self.truncate(at);
        other
    }

    /// Shrinks the allocation to at most `min_capacity` slots, but never
    /// below the held bytes: a no-op when the capacity is already within
    /// that target, else the allocation becomes exactly the target and the
    /// bytes end up contiguous from slot 0.
    pub fn shrink_to(&mut self, min_capacity: usize)
        requires
            old(self).wf(),
        ensures
            final(self).wf(),
            final(self)@ == old(self)@,
            old(self).cap() <= vstd::math::max(min_capacity as int, old(self)@.len() as int)
                ==> *final(self) == *old(self),
            old(self).cap() > vstd::math::max(min_capacity as int, old(self)@.len() as int)
                ==> final(self).cap() == vstd::math::max(
                min_capacity as int,
                old(self)@.len() as int,
            ),
    {
        let target = if min_capacity > self.len {
            min_capacity
        } else {
            self.len
        };
        if self.buf.len() <= target {
            return ;
        }
        let ghost pre = *self;
        let mut out: Vec<u8> = Vec::new();
        let mut i: usize = 0;
        while i < self.len
            invariant
                self.wf(),
                *self == pre,
                i <= self@.len(),
                out@ == self@.take(i as int),
            decreases self@.len() - i,
        {
            let idx = self.to_physical_idx(i);
            out.push(self.buf[idx]);
            proof {
                assert(out@ =~= self@.take(i + 1));
            }
            i = i + 1;
        }
        proof {
            assert(out@ =~= pre@);
        }
        let kept = out.len();
        out.resize(target, 0u8);
        self.buf = out;
        self.head = 0;
        proof {
            assert(self.len == kept);
            assert forall|q: int| 0 <= q < self.len implies self.buf@[self.phys(q)] == pre@[q] by {
                assert(self.phys(q) == q);
                assert(self.buf@[q] == pre@[q]);
            }
            assert(self@ =~= pre@);
        }
    }

    /// Shrinks the allocation to exactly the held bytes, making them
    /// contiguous from slot 0.
    pub fn shrink_to_fit(&mut self)
        requires
            old(self).wf(),
        ensures
            final(self).wf(),
            final(self)@ == old(self)@,
            final(self).cap() == old(self)@.len(),
    {
        self.shrink_to(0);
    }
}

/// The physical slot `i` places past `base` on a ring of `cap` slots.
pub open spec fn wrap_at(cap: int, base: int, i: int) -> int {
    if base + i < cap {
        base + i
    } else {
        base + i - cap
    }
}

/// How many places past `base` the slot `p` stands on a ring of `cap` slots.
pub open spec fn ring_offset(cap: int, base: int, p: int) -> int {
    if p >= base {
        p - base
    } else {
        p + cap - base
    }
}

/// The bytes of `s` at the positions that `kept` marks, in order.
pub open spec fn keep_marked(s: Seq<u8>, kept: Seq<bool>) -> Seq<u8>
    recommends
        s.len() == kept.len(),
    decreases s.len(),
{
    if s.len() == 0 {
        Seq::<u8>::empty()
    } else {
        keep_marked(s.drop_last(), kept.drop_last()) + (if kept.len() > 0 && kept[kept.len()
            - 1] {
            seq![s[s.len() - 1]]
        } else {
            Seq::<u8>::empty()
        })
    }
}

/// Keeping marked bytes never yields more bytes than were held.
proof fn lemma_keep_marked_len(s: Seq<u8>, kept: Seq<bool>)
    ensures
        keep_marked(s, kept).len() <= s.len(),
    decreases s.len(),
{
    if s.len() > 0 {
        lemma_keep_marked_len(s.drop_last(), kept.drop_last());
    }
}

/// Copies `count` bytes from `src` to `dst` within `buf`, in whichever order
/// keeps an overlapping destination from clobbering unread source bytes.
fn buf_memmove(buf: &mut Vec<u8>, src: usize, dst: usize, count: usize)
    requires
        src + count <= old(buf).len(),
        dst + count <= old(buf).len(),
    ensures
        final(buf)@.len() == old(buf)@.len(),
        forall|j: int|
            0 <= j < old(buf)@.len() ==> final(buf)@[j] == (if dst <= j < dst + count {
                old(buf)@[j - dst + src]
            } else {
                old(buf)@[j]
            }),
{
    if dst <= src {
        copy_forward(buf, src, dst, count);
    } else {
        copy_backward(buf, src, dst, count);
    }
}

/// Copies `count` bytes from `src` to `dst` within `buf`, front to back: safe
/// when the destination starts at or before the source, or the ranges are
/// disjoint.
fn copy_forward(buf: &mut Vec<u8>, src: usize, dst: usize, count: usize)
    requires
        src + count <= old(buf).len(),
        dst + count <= old(buf).len(),
        dst <= src || src + count <= dst,
    ensures
        final(buf)@.len() == old(buf)@.len(),
        forall|j: int|
            0 <= j < old(buf)@.len() ==> final(buf)@[j] == (if dst <= j < dst + count {
                old(buf)@[j - dst + src]
            } else {
                old(buf)@[j]
            }),
{
    let buf_len: usize = buf.len();
    let mut i: usize = 0;
    while i < count
        invariant
            buf@.len() == buf_len,
            src + count <= buf@.len(),
            dst + count <= buf@.len(),
            dst <= src || src + count <= dst,
            i <= count,
            buf@.len() == old(buf)@.len(),
            forall|j: int|
                0 <= j < buf@.len() ==> buf@[j] == (if dst <= j < dst + i {
                    old(buf)@[j - dst + src]
                } else {
                    old(buf)@[j]
                }),
        decreases count - i,
    {
        let v = buf[src + i];
        buf.set(dst + i, v);
        i = i + 1;
    }
}

/// Copies `count` bytes from `src` to `dst` within `buf`, back to front: safe
/// when the destination starts at or after the source.
fn copy_backward(buf: &mut Vec<u8>, src: usize, dst: usize, count: usize)
    requires
        src + count <= old(buf).len(),
        dst + count <= old(buf).len(),
        src <= dst,
    ensures
        final(buf)@.len() == old(buf)@.len(),
        forall|j: int|
            0 <= j < old(buf)@.len() ==> final(buf)@[j] == (if dst <= j < dst + count {
                old(buf)@[j - dst + src]
            } else {
                old(buf)@[j]
            }),
{
    let buf_len: usize = buf.len();
    let mut i: usize = count;
    while i > 0
        invariant
            buf@.len() == buf_len,
            src + count <= buf@.len(),
            dst + count <= buf@.len(),
            src <= dst,
            i <= count,
            buf@.len() == old(buf)@.len(),
            forall|j: int|
                0 <= j < buf@.len() ==> buf@[j] == (if dst + i <= j < dst + count {
                    old(buf)@[j - dst + src]
                } else {
                    old(buf)@[j]
                }),
        decreases i,
    {
        i = i - 1;
        let v = buf[src + i];
        buf.set(dst + i, v);
    }
}

} // verus!
