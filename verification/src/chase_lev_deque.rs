//! A work-stealing deque over a circular array that grows, after Chase and Lev.
//!
//! The owner pushes and takes at the bottom, a thief steals at the top. `top`
//! and `bottom` are 64-bit counters that only move forward and wrap; the value
//! at counter `i` is found through slot `i` modulo the array's size, which is a
//! power of two. A slot holds a word: the number of the cell that owns the
//! boxed value, and one more. A word is copied, never moved, so that growing
//! leaves the old array as it was, and a slot keeps its word when its value
//! has been taken.

use vstd::prelude::*;
use std::sync::Arc;
use std::sync::Mutex;
use crate::atomics::compare_and_swap_u64;
use crate::model::{back, front, push_back, without_back, without_front};
use crate::ring::{
    advanced, difference, is_low_mask, lemma_slot_advances, lemma_slot_in_ring, steps_from,
};
use crate::sync::{guard_mut, mutex_lock, mutex_new, mutex_try_lock, Place, Valid};

verus! {

/// The word of a slot that never held a value.
pub const NO_BOX: usize = 0;

/// An array of two to the power `log` slots can be had: its size is no more
/// than half the word's range.
pub open spec fn fits(log: usize) -> bool {
    log < 64 && (1u64 << (log as u64)) <= usize::MAX / 2
}

/// The slot of counter `i` in an array whose size has the logarithm `log`.
pub open spec fn slot_of(i: u64, log: usize) -> int {
    (i & (((1u64 << (log as u64)) - 1) as u64)) as int
}

/// An array of size two to the power `log` has a mask of low bits, and twice
/// the size of one a step smaller.
pub proof fn lemma_size_of_log(log: u64)
    requires
        log < 64,
    ensures
        1 <= (1u64 << log) <= 0x8000_0000_0000_0000,
        is_low_mask(((1u64 << log) - 1) as u64),
        log < 63 ==> (1u64 << ((log + 1) as u64)) == 2 * (1u64 << log),
        forall|smaller: u64| smaller <= log ==> (1u64 << smaller) <= (1u64 << log),
{
    assert(log < 64 ==> 1 <= (1u64 << log) <= 0x8000_0000_0000_0000) by (bit_vector);
    let m = ((1u64 << log) - 1) as u64;
    assert(log < 64 && m == (1u64 << log) - 1 ==> m < 0x8000_0000_0000_0000 && m & ((m + 1) as u64)
        == 0) by (bit_vector);
    if log < 63 {
        let next = (log + 1) as u64;
        assert(log < 63 && next == log + 1 ==> (1u64 << next) == 2 * (1u64 << log))
            by (bit_vector);
    }
    assert forall|smaller: u64| smaller <= log implies (1u64 << smaller) <= (1u64 << log) by {
        assert(smaller <= log && log < 64 ==> (1u64 << smaller) <= (1u64 << log)) by (bit_vector);
    }
}

/// An array of no more than a quarter of the word's range can be followed by
/// one of twice its size, and no other array can.
pub proof fn lemma_next_fits(log: usize)
    requires
        fits(log),
    ensures
        fits((log + 1) as usize) <==> (1u64 << (log as u64)) <= usize::MAX / 4,
{
    let l = log as u64;
    assert(l < 64 && (1u64 << l) <= 0x3fff_ffff_ffff_ffff ==> l < 63) by (bit_vector);
    lemma_size_of_log(l);
    if l == 63 {
        assert(1u64 << 63u64 == 0x8000_0000_0000_0000) by (bit_vector);
    }
}

/// Whether an array of two to the power `log` slots can be had: see `fits`.
pub fn size_fits(log: usize) -> (b: bool)
    ensures
        b == fits(log),
{
    log < 64 && (1u64 << log) <= (usize::MAX / 2) as u64
}

/// A circular array of words.
pub struct Array {
    size: usize,
    buf: Vec<usize>,
}

impl Array {
    /// The array has two to the power `log_size` slots.
    pub closed spec fn wf(&self) -> bool {
        &&& fits(self.size)
        &&& self.buf@.len() == (1u64 << (self.size as u64))
    }

    /// The logarithm of the number of slots.
    pub closed spec fn log_size(&self) -> usize {
        self.size
    }

    /// What the slots hold.
    pub closed spec fn slots(&self) -> Seq<usize> {
        self.buf@
    }

    /// The number of slots is two to the power of its logarithm, and every
    /// counter has its slot among them.
    pub proof fn lemma_slots(&self, i: u64)
        requires
            self.wf(),
        ensures
            fits(self.log_size()),
            self.slots().len() == (1u64 << (self.log_size() as u64)),
            0 <= slot_of(i, self.log_size()) < self.slots().len(),
    {
        lemma_size_of_log(self.size as u64);
        lemma_slot_in_ring(i, ((1u64 << (self.size as u64)) - 1) as u64);
    }

    /// An array of two to the power `size` slots, none of which has held a
    /// value.
    pub fn new(size: usize) -> (a: Self)
        requires
            fits(size),
        ensures
            a.wf(),
            a.log_size() == size,
            forall|i: int| 0 <= i < a.slots().len() ==> #[trigger] a.slots()[i] == NO_BOX,
    {
        proof {
            lemma_size_of_log(size as u64);
        }
        let mut n: usize = 1;
        let mut k: usize = 0;
        assert(1u64 << 0u64 == 1) by (bit_vector);
        while k < size
            invariant
                k <= size,
                fits(size),
                n == (1u64 << (k as u64)),
            decreases size - k,
        {
            proof {
                lemma_size_of_log(size as u64);
                lemma_size_of_log(k as u64);
                assert((1u64 << ((k + 1) as u64)) <= (1u64 << (size as u64)));
            }
            n = n * 2;
            k = k + 1;
        }
        let mut buf: Vec<usize> = Vec::with_capacity(n);
        let mut i: usize = 0;
        while i < n
            invariant
                i <= n,
                buf@.len() == i,
                forall|j: int| 0 <= j < i ==> #[trigger] buf@[j] == NO_BOX,
            decreases n - i,
        {
            buf.push(NO_BOX);
            i = i + 1;
        }
        Array { size, buf }
    }

    /// The number of slots.
    pub fn size(&self) -> (n: usize)
        requires
            self.wf(),
        ensures
            n == self.slots().len(),
            n == (1u64 << (self.log_size() as u64)),
    {
        self.buf.len()
    }

    /// The index of the slot of counter `i`.
    fn index(&self, i: u64) -> (index: usize)
        requires
            self.wf(),
        ensures
            index == slot_of(i, self.log_size()),
            index < self.slots().len(),
    {
        proof {
            self.lemma_slots(i);
        }
        let mask = (self.buf.len() - 1) as u64;
        (i & mask) as usize
    }

    /// Puts the word `v` into the slot of counter `i`.
    pub fn put(&mut self, i: u64, v: usize)
        requires
            old(self).wf(),
        ensures
            final(self).wf(),
            final(self).log_size() == old(self).log_size(),
            final(self).slots() == old(self).slots().update(slot_of(i, old(self).log_size()), v),
    {
        let index = self.index(i);
        self.buf[index] = v;
    }

    /// The word in the slot of counter `i`.
    pub fn get(&self, i: u64) -> (v: usize)
        requires
            self.wf(),
        ensures
            v == self.slots()[slot_of(i, self.log_size())],
    {
        let index = self.index(i);
        self.buf[index]
    }

    /// An array of twice the size that holds, at the slots of the counters from
    /// `top` up to `bottom`, the words that this array holds at theirs, and no
    /// word in any other slot. This array stays as it is.
    pub fn grow(&self, top: u64, bottom: u64) -> (a: Self)
        requires
            self.wf(),
            fits((self.log_size() + 1) as usize),
            bottom.wrapping_sub(top) <= self.slots().len(),
        ensures
            a.wf(),
            a.log_size() == self.log_size() + 1,
            a.slots().len() == 2 * self.slots().len(),
            forall|j: int|
                0 <= j < bottom.wrapping_sub(top) ==> a.slots()[slot_of(
                    #[trigger] advanced(top, j),
                    a.log_size(),
                )] == self.slots()[slot_of(advanced(top, j), self.log_size())],
            forall|i: int|
                0 <= i < a.slots().len() && steps_from(
                    slot_of(top, a.log_size()),
                    i,
                    a.slots().len() as int,
                ) >= bottom.wrapping_sub(top) ==> #[trigger] a.slots()[i] == NO_BOX,
    {
        let mut a = Array::new(self.size + 1);
        assert(a.slots() == a.buf@);
        let count = bottom.wrapping_sub(top);
        let ghost old_log = self.size;
        let ghost new_log = a.size;
        let ghost old_mask = ((1u64 << (old_log as u64)) - 1) as u64;
        let ghost new_mask = ((1u64 << (new_log as u64)) - 1) as u64;
        proof {
            lemma_size_of_log(old_log as u64);
            lemma_size_of_log(new_log as u64);
            lemma_slot_in_ring(top, new_mask);
        }
        let mut j: u64 = 0;
        while j < count
            invariant
                j <= count,
                count == bottom.wrapping_sub(top),
                count <= old_mask + 1,
                self.wf(),
                a.wf(),
                self.size == old_log,
                a.size == new_log,
                new_log == old_log + 1,
                old_mask == (1u64 << (old_log as u64)) - 1,
                new_mask == (1u64 << (new_log as u64)) - 1,
                new_mask == 2 * old_mask + 1,
                is_low_mask(old_mask),
                is_low_mask(new_mask),
                a.buf@.len() == new_mask + 1,
                slot_of(top, new_log) <= new_mask,
                forall|k: int|
                    0 <= k < j ==> a.buf@[slot_of(#[trigger] advanced(top, k), new_log)]
                        == self.buf@[slot_of(advanced(top, k), old_log)],
                forall|i: int|
                    0 <= i < a.buf@.len() && steps_from(
                        slot_of(top, new_log),
                        i,
                        a.buf@.len() as int,
                    ) >= j ==> #[trigger] a.buf@[i] == NO_BOX,
            decreases count - j,
        {
            let i = top.wrapping_add(j);
            let ghost a_before = a;
            let v = self.get(i);
            a.put(i, v);
            proof {
                lemma_slot_advances(top, j, new_mask);
                assert(a.buf@ == a_before.buf@.update(slot_of(i, new_log), v));
                assert(steps_from(slot_of(top, new_log), slot_of(i, new_log), a.buf@.len() as int)
                    == j);
                assert forall|k: int| 0 <= k < j + 1 implies a.buf@[slot_of(
                    #[trigger] advanced(top, k),
                    new_log,
                )] == self.buf@[slot_of(advanced(top, k), old_log)] by {
                    lemma_slot_advances(top, k as u64, new_mask);
                }
            }
            j = j + 1;
        }
        a
    }
}

/// The cell that the word `w` stands for.
pub open spec fn cell_of(w: usize) -> int {
    w - 1
}

/// The deque's state: the two counters, the array of words, and the cells that
/// own the boxes.
pub struct Deque<T> {
    top: u64,
    bottom: u64,
    array: Array,
    cells: Vec<Option<Box<T>>>,
    free: Vec<usize>,
}

impl<T> View for Deque<T> {
    type V = Seq<T>;

    /// The values in the deque, from the top (oldest) to the bottom (newest).
    closed spec fn view(&self) -> Seq<T> {
        Seq::new(
            self.bottom.wrapping_sub(self.top) as nat,
            |j: int| *self.cells@[cell_of(self.word_at(j))].unwrap(),
        )
    }
}

impl<T> Deque<T> {
    /// The word in the slot of the counter `j` steps after `top`.
    spec fn word_at(&self, j: int) -> usize {
        self.array.slots()[slot_of(advanced(self.top, j), self.array.log_size())]
    }

    /// The counters from `top` up to `bottom` are no more than the array has
    /// slots; the slot of each holds the word of a cell of its own, which holds
    /// a box; every other cell is free, and listed once among the free cells.
    pub closed spec fn wf(&self) -> bool {
        let len = self.bottom.wrapping_sub(self.top) as int;
        &&& self.array.wf()
        &&& len <= self.array.slots().len()
        &&& self.cells@.len() == len + self.free@.len()
        &&& forall|j: int|
            0 <= j < len ==> 0 <= cell_of(self.word_at(j)) < self.cells@.len() && (
            #[trigger] self.cells@[cell_of(self.word_at(j))]).is_some()
        &&& forall|j: int, k: int|
            0 <= j < k < len ==> #[trigger] self.word_at(j) != #[trigger] self.word_at(k)
        &&& forall|j: int|
            0 <= j < self.free@.len() ==> #[trigger] self.free@[j] < self.cells@.len()
                && self.cells@[self.free@[j] as int].is_none()
        &&& forall|j: int, k: int|
            0 <= j < k < self.free@.len() ==> #[trigger] self.free@[j] != #[trigger] self.free@[k]
    }

    /// The logarithm of the number of slots of the array.
    pub closed spec fn log_size(&self) -> usize {
        self.array.log_size()
    }

    /// What the slots of the array hold.
    pub closed spec fn slots(&self) -> Seq<usize> {
        self.array.slots()
    }

    /// The counter of the oldest value: where the next steal takes from.
    pub closed spec fn top(&self) -> u64 {
        self.top
    }

    /// The counter of the next push: one past that of the newest value.
    pub closed spec fn bottom(&self) -> u64 {
        self.bottom
    }

    /// The words of the values in the deque, from the top to the bottom.
    pub closed spec fn words(&self) -> Seq<usize> {
        Seq::new(self.bottom.wrapping_sub(self.top) as nat, |j: int| self.word_at(j))
    }

    /// The cells that hold no box, the one that the next push fills last.
    pub closed spec fn free_cells(&self) -> Seq<usize> {
        self.free@
    }

    /// The word that the next push puts into the array: that of the last free
    /// cell, or of a new cell where none is free.
    pub closed spec fn next_word(&self) -> usize {
        if self.free@.len() > 0 {
            (self.free@.last() + 1) as usize
        } else {
            (self.cells@.len() + 1) as usize
        }
    }

    /// The counters lie as many apart, round the 64-bit counter, as the deque
    /// holds values; the array has two to the power of its logarithm slots, and
    /// the word of each value lies in the slot of its counter.
    pub proof fn lemma_counters(&self)
        requires
            self.wf(),
        ensures
            self@.len() == self.bottom().wrapping_sub(self.top()),
            self.bottom() == advanced(self.top(), self@.len() as int),
            fits(self.log_size()),
            self.slots().len() == (1u64 << (self.log_size() as u64)),
            self@.len() <= self.slots().len(),
            self.words().len() == self@.len(),
            forall|j: int|
                0 <= j < self@.len() ==> #[trigger] self.words()[j] == self.slots()[slot_of(
                    advanced(self.top(), j),
                    self.log_size(),
                )],
            forall|j: int|
                0 <= j < self.words().len() ==> #[trigger] self.words()[j] != NO_BOX,
            forall|j: int, k: int|
                0 <= j < k < self.words().len() ==> #[trigger] self.words()[j]
                    != #[trigger] self.words()[k],
    {
        self.array.lemma_slots(0);
        assert forall|j: int| 0 <= j < self.words().len() implies #[trigger] self.words()[j]
            != NO_BOX by {
            assert(self.cells@[cell_of(self.word_at(j))].is_some());
        }
        assert forall|j: int, k: int| 0 <= j < k < self.words().len() implies #[trigger] self.words()[j]
            != #[trigger] self.words()[k] by {
            assert(self.word_at(j) != self.word_at(k));
        }
    }

    /// Whether the deque has room for one more value, in its array or in one of
    /// twice the size.
    pub closed spec fn has_room(&self) -> bool {
        self.bottom.wrapping_sub(self.top) < self.array.slots().len() || fits(
            (self.array.log_size() + 1) as usize,
        )
    }

    /// A deque that holds no more values than a quarter of the word's range has
    /// room.
    pub proof fn lemma_room(&self)
        requires
            self.wf(),
            self@.len() <= usize::MAX / 4,
        ensures
            self.has_room(),
    {
        self.array.lemma_slots(0);
        lemma_next_fits(self.array.log_size());
    }

    /// An empty deque, with both counters at zero, over an array of two to the
    /// power `size` slots.
    pub fn new(size: usize) -> (d: Self)
        requires
            fits(size),
        ensures
            d.wf(),
            d@ == Seq::<T>::empty(),
            d.log_size() == size,
            d.top() == 0,
            d.bottom() == 0,
            d.free_cells() == Seq::<usize>::empty(),
            forall|i: int| 0 <= i < d.slots().len() ==> #[trigger] d.slots()[i] == NO_BOX,
    {
        let d = Deque {
            top: 0,
            bottom: 0,
            array: Array::new(size),
            cells: Vec::new(),
            free: Vec::new(),
        };
        assert(d@ =~= Seq::<T>::empty());
        d
    }

    /// The number of slots of the array.
    pub fn capacity(&self) -> (n: usize)
        requires
            self.wf(),
        ensures
            n == (1u64 << (self.log_size() as u64)),
            n == self.slots().len(),
            self@.len() <= n,
    {
        self.array.size()
    }

    /// Whether a push would find room: see `has_room`.
    pub fn can_push(&self) -> (b: bool)
        requires
            self.wf(),
        ensures
            b == self.has_room(),
    {
        let b = self.bottom;
        let t = self.top;
        let size = self.array.size();
        proof {
            self.array.lemma_slots(0);
            lemma_next_fits(self.array.log_size());
        }
        b.wrapping_sub(t) < size as u64 || size <= usize::MAX / 4
    }

    /// What a push of `x` makes of the deque `before`.
    pub open spec fn push_makes(before: Self, after: Self, x: Box<T>) -> bool {
        let full = before@.len() == before.slots().len();
        &&& after@ == push_back(before@, None, *x)
        &&& after.top() == before.top()
        &&& after.bottom() == advanced(before.bottom(), 1)
        &&& after.log_size() == (if full {
            before.log_size() + 1
        } else {
            before.log_size() as int
        })
        &&& after.slots().len() == (if full {
            2 * before.slots().len()
        } else {
            before.slots().len()
        })
        &&& after.words() == before.words().push(before.next_word())
        &&& !full ==> after.slots() == before.slots().update(
            slot_of(before.bottom(), before.log_size()),
            before.next_word(),
        )
        &&& after.free_cells() == (if before.free_cells().len() > 0 {
            before.free_cells().drop_last()
        } else {
            before.free_cells()
        })
    }

    /// Pushes `x` at the bottom, which moves on by one: the box goes into a free
    /// cell, and the cell's word into the slot of the old bottom. Where the
    /// array is full, the words are first copied into an array of twice the
    /// size.
    pub fn push(&mut self, x: Box<T>)
        requires
            old(self).wf(),
            old(self).has_room(),
        ensures
            final(self).wf(),
            Self::push_makes(*old(self), *final(self), x),
    {
        let b = self.bottom;
        let t = self.top;
        let size = self.array.size();
        let ghost len = b.wrapping_sub(t) as int;
        proof {
            self.array.lemma_slots(0);
            lemma_size_of_log(self.array.log_size() as u64);
        }
        if b.wrapping_sub(t) > (size - 1) as u64 {
            let grown = self.array.grow(t, b);
            self.array = grown;
            proof {
                self.array.lemma_slots(0);
                lemma_size_of_log(self.array.log_size() as u64);
                assert forall|j: int| 0 <= j < len implies self.word_at(j) == old(self).word_at(
                    j,
                ) by {
                    assert(self.array.slots()[slot_of(advanced(t, j), self.array.log_size())]
                        == old(self).array.slots()[slot_of(
                        advanced(t, j),
                        old(self).array.log_size(),
                    )]);
                }
            }
        }
        let ghost mid = *self;
        let ghost log = self.array.log_size();
        let ghost mask = ((1u64 << (log as u64)) - 1) as u64;
        let cell = match self.free.pop() {
            Some(cell) => cell,
            None => {
                self.cells.push(None);
                self.cells.len() - 1
            },
        };
        let ghost roomy = self.cells@;
        let cells = self.cells.len();
        assert(cell < cells);
        self.cells[cell] = Some(x);
        self.array.put(b, cell + 1);
        self.bottom = b.wrapping_add(1);
        proof {
            let word = (cell + 1) as usize;
            assert(word == old(self).next_word());
            lemma_slot_in_ring(t, mask);
            lemma_slot_advances(t, len as u64, mask);
            assert(advanced(t, len) == b);
            assert forall|j: int| 0 <= j < len implies self.word_at(j) == old(self).word_at(
                j,
            ) by {
                lemma_slot_advances(t, j as u64, mask);
                assert(mid.word_at(j) == old(self).word_at(j));
            }
            assert(self.word_at(len) == word);
            assert forall|j: int| 0 <= j < len implies old(self).word_at(j) != word
                && self.cells@[cell_of(old(self).word_at(j))] == old(self).cells@[cell_of(
                old(self).word_at(j),
            )] by {
                assert(old(self).cells@[cell_of(old(self).word_at(j))].is_some());
                assert(roomy[cell as int].is_none());
            }
            assert forall|j: int| 0 <= j < len + 1 implies 0 <= cell_of(self.word_at(j))
                < self.cells@.len() && (#[trigger] self.cells@[cell_of(
                self.word_at(j),
            )]).is_some() by {
                if j < len {
                    assert(old(self).cells@[cell_of(old(self).word_at(j))].is_some());
                }
            }
            assert forall|j: int, k: int| 0 <= j < k < len + 1 implies #[trigger] self.word_at(j)
                != #[trigger] self.word_at(k) by {
                if k < len {
                    assert(old(self).word_at(j) != old(self).word_at(k));
                }
            }
            assert forall|j: int| 0 <= j < self.free@.len() implies #[trigger] self.free@[j]
                < self.cells@.len() && self.cells@[self.free@[j] as int].is_none() by {
                assert(self.free@[j] == old(self).free@[j]);
                assert(old(self).free@[j] != cell);
            }
            assert(self@ =~= old(self)@.push(*x)) by {
                assert forall|j: int| 0 <= j < len implies self@[j] == old(self)@[j] by {
                    assert(self.word_at(j) == old(self).word_at(j));
                }
            }
            assert(self.words() =~= old(self).words().push(word));
        }
    }

    /// What a take makes of the deque `before`, and what it returns.
    pub open spec fn take_makes(before: Self, after: Self, r: Option<Box<T>>) -> bool {
        &&& after@ == without_back(before@)
        &&& after.log_size() == before.log_size()
        &&& after.slots() == before.slots()
        &&& after.words() == without_back(before.words())
        &&& match back(before@) {
            Some(v) => r.is_some() && *r.unwrap() == v,
            None => r.is_none(),
        }
        &&& before@.len() == 0 ==> after == before
        &&& before@.len() == 1 ==> {
            &&& after.top() == advanced(before.top(), 1)
            &&& after.bottom() == before.bottom()
        }
        &&& before@.len() > 1 ==> {
            &&& after.top() == before.top()
            &&& advanced(after.bottom(), 1) == before.bottom()
        }
        &&& before@.len() > 0 ==> after.free_cells() == before.free_cells().push(
            cell_of(before.words().last()) as usize,
        )
    }

    /// Takes the newest value off the bottom; `None`, and nothing changed, where
    /// the deque is empty. The last value is taken by moving `top` on, as a
    /// steal takes it; any other by moving `bottom` back. The array keeps its
    /// words, and the cell of the value becomes free.
    pub fn take(&mut self) -> (r: Option<Box<T>>)
        requires
            old(self).wf(),
        ensures
            final(self).wf(),
            Self::take_makes(*old(self), *final(self), r),
    {
        let ghost len = self.bottom.wrapping_sub(self.top) as int;
        let ghost log = self.array.log_size();
        let ghost mask = ((1u64 << (log as u64)) - 1) as u64;
        proof {
            self.array.lemma_slots(0);
            lemma_size_of_log(log as u64);
        }
        let b = self.bottom.wrapping_sub(1);
        self.bottom = b;
        let t = self.top;
        let size = difference(b, t);
        if size >= 0 {
            // the deque is not empty
            proof {
                assert(advanced(t, len - 1) == b);
                assert(old(self).cells@[cell_of(old(self).word_at(len - 1))].is_some());
            }
            let word = self.array.get(b);
            if t == b {
                // the last value: the owner and a thief race for it on `top`
                if compare_and_swap_u64(&mut self.top, t, t.wrapping_add(1)) != t {
                    // lost the race
                    self.bottom = b.wrapping_add(1);
                    return None;
                }
                self.bottom = b.wrapping_add(1);
            }
            let cell = word - 1;
            let x = self.cells[cell].take();
            self.free.push(cell);
            proof {
                assert forall|j: int| 0 <= j < len - 1 implies self.word_at(j) == old(
                    self,
                ).word_at(j) by {}
                self.lemma_after_removal(*old(self), cell, len - 1, 0);
                assert(self@ =~= old(self)@.drop_last()) by {
                    assert forall|j: int| 0 <= j < len - 1 implies self@[j] == old(self)@[j] by {
                        assert(self.word_at(j) == old(self).word_at(j));
                        assert(old(self).word_at(j) != old(self).word_at(len - 1));
                    }
                }
                assert(self.words() =~= old(self).words().drop_last());
            }
            x
        } else {
            // the deque is empty
            self.bottom = b.wrapping_add(1);
            assert(self@ =~= old(self)@);
            assert(self.words() =~= old(self).words());
            None
        }
    }

    /// After the value at position `gone` of the deque `before` has left its
    /// cell `cell`, which is now listed as free, and the counters have closed
    /// over it, the deque is well formed: its values are those of `before` from
    /// position `shift` on, but for the one that left.
    proof fn lemma_after_removal(&self, before: Self, cell: usize, gone: int, shift: int)
        requires
            before.wf(),
            self.array == before.array,
            0 <= gone < before.bottom.wrapping_sub(before.top),
            shift == 0 && gone == before.bottom.wrapping_sub(before.top) - 1 || shift == 1 && gone
                == 0,
            cell == cell_of(before.word_at(gone)),
            self.bottom.wrapping_sub(self.top) == before.bottom.wrapping_sub(before.top) - 1,
            forall|j: int|
                0 <= j < self.bottom.wrapping_sub(self.top) ==> self.word_at(j) == before.word_at(
                    j + shift,
                ),
            self.cells@ == before.cells@.update(cell as int, None),
            self.free@ == before.free@.push(cell),
        ensures
            self.wf(),
    {
        let len = self.bottom.wrapping_sub(self.top) as int;
        assert(before.cells@[cell_of(before.word_at(gone))].is_some());
        assert forall|j: int| 0 <= j < len implies 0 <= cell_of(self.word_at(j))
            < self.cells@.len() && (#[trigger] self.cells@[cell_of(self.word_at(j))]).is_some() by {
            assert(before.cells@[cell_of(before.word_at(j + shift))].is_some());
            assert(before.word_at(j + shift) != before.word_at(gone));
        }
        assert forall|j: int, k: int| 0 <= j < k < len implies #[trigger] self.word_at(j)
            != #[trigger] self.word_at(k) by {
            assert(before.word_at(j + shift) != before.word_at(k + shift));
        }
        assert forall|j: int| 0 <= j < self.free@.len() implies #[trigger] self.free@[j]
            < self.cells@.len() && self.cells@[self.free@[j] as int].is_none() by {
            if j < before.free@.len() {
                assert(self.free@[j] == before.free@[j]);
            }
        }
        assert forall|j: int, k: int| 0 <= j < k < self.free@.len() implies #[trigger] self.free@[j]
            != #[trigger] self.free@[k] by {
            assert(self.free@[j] == before.free@[j]);
            if k < before.free@.len() {
                assert(self.free@[k] == before.free@[k]);
            } else {
                assert(before.cells@[before.free@[j] as int].is_none());
            }
        }
    }

    /// What a steal makes of the deque `before`, and what it returns.
    pub open spec fn steal_makes(before: Self, after: Self, r: Result<Option<Box<T>>, bool>) -> bool {
        &&& after@ == without_front(before@)
        &&& after.log_size() == before.log_size()
        &&& after.slots() == before.slots()
        &&& after.words() == without_front(before.words())
        &&& match front(before@) {
            Some(v) => r matches Ok(Some(x)) && *x == v,
            None => r matches Ok(None),
        }
        &&& before@.len() == 0 ==> after == before
        &&& before@.len() > 0 ==> {
            &&& after.top() == advanced(before.top(), 1)
            &&& after.bottom() == before.bottom()
            &&& after.free_cells() == before.free_cells().push(
                cell_of(before.words()[0]) as usize,
            )
        }
    }

    /// Takes the oldest value off the top, which moves on by one; `Ok(None)`,
    /// and nothing changed, where the deque is empty. The array keeps its words,
    /// and the cell of the value becomes free. One who holds the deque by
    /// exclusive borrow loses no race, so `Err` does not come back.
    pub fn steal(&mut self) -> (r: Result<Option<Box<T>>, bool>)
        requires
            old(self).wf(),
        ensures
            final(self).wf(),
            Self::steal_makes(*old(self), *final(self), r),
    {
        let ghost len = self.bottom.wrapping_sub(self.top) as int;
        let ghost log = self.array.log_size();
        let ghost mask = ((1u64 << (log as u64)) - 1) as u64;
        proof {
            self.array.lemma_slots(0);
            lemma_size_of_log(log as u64);
        }
        let t = self.top;
        let b = self.bottom;
        let size = difference(b, t);
        if size <= 0 {
            // empty
            return Ok(None);
        }
        // not empty
        proof {
            assert(advanced(t, 0) == t);
            assert(old(self).cells@[cell_of(old(self).word_at(0))].is_some());
        }
        let word = self.array.get(t);
        // race for the value on `top`
        if compare_and_swap_u64(&mut self.top, t, t.wrapping_add(1)) != t {
            // lost the race
            return Err(false);
        }
        let cell = word - 1;
        let x = self.cells[cell].take();
        self.free.push(cell);
        proof {
            assert forall|j: int| 0 <= j < len - 1 implies self.word_at(j) == old(self).word_at(
                j + 1,
            ) by {
                assert(advanced(self.top, j) == advanced(t, j + 1));
            }
            self.lemma_after_removal(*old(self), cell, 0, 1);
            assert(self@ =~= old(self)@.skip(1)) by {
                assert forall|j: int| 0 <= j < len - 1 implies self@[j] == old(self)@[j + 1] by {
                    assert(self.word_at(j) == old(self).word_at(j + 1));
                    assert(old(self).word_at(0) != old(self).word_at(j + 1));
                }
            }
            assert(self.words() =~= old(self).words().skip(1));
        }
        Ok(x)
    }
}

impl<T> Valid for Deque<T> {
    open spec fn valid(&self) -> bool {
        self.wf()
    }
}

/// `Deque::push` on the deque that lies in `place`. Where none lies there, or
/// the one that does has no room, nothing changes and `x` comes back.
pub fn push_in<T>(place: &mut Place<Deque<T>>, x: Box<T>) -> (refused: Option<Box<T>>)
    ensures
        refused.is_none() || refused == Some(x),
        match old(place)@ {
            Some(d) => {
                &&& refused.is_none() == d.has_room()
                &&& final(place)@.is_some()
                &&& final(place)@.unwrap().wf()
                &&& d.has_room() ==> Deque::push_makes(d, final(place)@.unwrap(), x)
                &&& !d.has_room() ==> final(place)@ == old(place)@
            },
            None => refused == Some(x) && final(place)@.is_none(),
        },
{
    match place.take() {
        Some(mut deque) => {
            if deque.can_push() {
                deque.push(x);
                place.put(deque);
                None
            } else {
                place.put(deque);
                Some(x)
            }
        },
        None => Some(x),
    }
}

/// `Deque::take` on the deque that lies in `place`; `None` where none lies
/// there.
pub fn take_in<T>(place: &mut Place<Deque<T>>) -> (r: Option<Box<T>>)
    ensures
        match old(place)@ {
            Some(d) => {
                &&& final(place)@.is_some()
                &&& final(place)@.unwrap().wf()
                &&& Deque::take_makes(d, final(place)@.unwrap(), r)
            },
            None => r.is_none() && final(place)@.is_none(),
        },
{
    match place.take() {
        Some(mut deque) => {
            let r = deque.take();
            place.put(deque);
            r
        },
        None => None,
    }
}

/// `Deque::steal` on the deque that lies in `place`; `Ok(None)` where none
/// lies there.
pub fn steal_in<T>(place: &mut Place<Deque<T>>) -> (r: Result<Option<Box<T>>, bool>)
    ensures
        r is Ok,
        match old(place)@ {
            Some(d) => {
                &&& final(place)@.is_some()
                &&& final(place)@.unwrap().wf()
                &&& Deque::steal_makes(d, final(place)@.unwrap(), r)
            },
            None => r matches Ok(None) && final(place)@.is_none(),
        },
{
    match place.take() {
        Some(mut deque) => {
            let r = deque.steal();
            place.put(deque);
            r
        },
        None => Ok(None),
    }
}

/// What a steal through a handle gives: what `steal_in` gave where the lock
/// was had, and `Err(false)`, the sign to try again, where it was not.
pub fn steal_or_abort<T>(found: Option<Result<Option<Box<T>>, bool>>) -> (r: Result<
    Option<Box<T>>,
    bool,
>)
    ensures
        r == (match found {
            Some(stolen) => stolen,
            None => Err(false),
        }),
{
    match found {
        Some(stolen) => stolen,
        None => Err(false),
    }
}

/// A handle to a deque. Its clones share one deque, which lies behind a lock:
/// one of them is the owner's, which pushes and takes, the others are
/// thieves', which steal. The owner waits for the lock, a thief does not.
#[verifier::reject_recursive_types(T)]
pub struct Handle<T> {
    state: Arc<Mutex<Place<Deque<T>>>>,
}

impl<T> Clone for Handle<T> {
    fn clone(&self) -> Self {
        Handle { state: self.state.clone() }
    }
}

impl<T> Handle<T> {
    /// A handle to a new, empty deque over an array of two to the power `size`
    /// slots.
    pub fn new(size: usize) -> (h: Self)
        requires
            fits(size),
    {
        Handle { state: Arc::new(mutex_new(Place::new(Deque::new(size)))) }
    }

    /// Pushes `x` at the bottom of the shared deque as `push_in` does. A deque
    /// that already fills the largest array takes no more: `x` comes back.
    pub fn push(&mut self, x: Box<T>) -> (refused: Option<Box<T>>)
        ensures
            refused.is_none() || refused == Some(x),
    {
        let mut guard = mutex_lock(&*self.state);
        push_in(guard_mut(&mut guard), x)
    }

    /// Takes the newest value off the bottom of the shared deque as `take_in`
    /// does; `None` where it is empty at that moment.
    pub fn take(&mut self) -> (r: Option<Box<T>>) {
        let mut guard = mutex_lock(&*self.state);
        take_in(guard_mut(&mut guard))
    }

    /// Takes the oldest value off the top of the shared deque as `steal_in`
    /// does, without waiting: `Ok(None)` where the deque is empty at that
    /// moment, `Err(false)` where another handle is at work on it and the
    /// caller may try again.
    pub fn steal(&mut self) -> (r: Result<Option<Box<T>>, bool>)
        ensures
            r is Err ==> r == Err::<Option<Box<T>>, bool>(false),
    {
        match mutex_try_lock(&*self.state) {
            Some(mut guard) => steal_or_abort(Some(steal_in(guard_mut(&mut guard)))),
            None => steal_or_abort(None),
        }
    }
}

} // verus!
