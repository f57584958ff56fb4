//! A work-stealing deque over a circular array that is moved into a larger one
//! when it fills.
//!
//! The owner pushes and pops at the tail, a thief steals at the head. The
//! indices count up from zero and are set back to start at zero whenever the
//! values are moved. One slot of the array always stays empty, so that a deque
//! made with one slot moves its values on the first push.

use vstd::prelude::*;
use std::sync::Arc;
use std::sync::Mutex;
use crate::model::{back, front, push_back, without_back, without_front};
use crate::ring::{
    advanced, is_low_mask, is_rounded_up, lemma_slot_advances, lemma_slot_in_ring,
    round_up_to_power_of_two, wrap,
};
use crate::sync::{guard_mut, mutex_lock, mutex_new, mutex_try_lock, Place, Valid};

verus! {

/// The largest array that a deque grows to: the largest power of two that a
/// word holds.
pub const MAX_ARRAY_SIZE: usize = usize::MAX / 2 + 1;

/// The largest index: a push that finds the tail there moves the values back
/// to the start.
pub const MAX_INDEX: u64 = 0xffff_ffff_ffff_fffe;

/// The slot of the index `j` steps after `head`.
pub open spec fn slot_index(head: u64, j: int, mask: u64) -> int {
    (advanced(head, j) & mask) as int
}

/// The indices from `head` on, up to a whole ring of them, have their slots one
/// after the other round the ring.
pub proof fn lemma_window(head: u64, mask: u64, j: int)
    requires
        is_low_mask(mask),
        0 <= j <= mask,
        head + j <= u64::MAX,
    ensures
        advanced(head, j) == head + j,
        0 <= slot_index(head, 0, mask) <= mask,
        slot_index(head, j, mask) == wrap(slot_index(head, 0, mask) + j, mask + 1),
{
    lemma_slot_in_ring(head, mask);
    lemma_slot_advances(head, j as u64, mask);
    lemma_slot_advances(head, 0, mask);
}

/// The deque's state: the array, its mask, and the indices of the oldest value
/// and of the next push.
pub struct State<T> {
    array: Vec<Option<T>>,
    mask: u64,
    head_index: u64,
    tail_index: u64,
}

impl<T> View for State<T> {
    type V = Seq<T>;

    /// The values in the deque, from the head (oldest) to the tail (newest).
    closed spec fn view(&self) -> Seq<T> {
        Seq::new(
            (self.tail_index - self.head_index) as nat,
            |j: int| self.array@[slot_index(self.head_index, j, self.mask)].unwrap(),
        )
    }
}

impl<T> State<T> {
    /// The array's size is a power of two and one more than the mask; the tail
    /// is at or after the head by no more than the mask; the slot of each index
    /// between them holds a value.
    pub closed spec fn wf(&self) -> bool {
        &&& self.array@.len() == self.mask + 1
        &&& 1 <= self.array@.len() <= MAX_ARRAY_SIZE
        &&& is_low_mask(self.mask)
        &&& self.head_index <= self.tail_index <= MAX_INDEX
        &&& self.tail_index - self.head_index <= self.mask
        &&& forall|j: int|
            0 <= j < self.tail_index - self.head_index ==> self.array@[#[trigger] slot_index(self.head_index, j, self.mask)].is_some()
    }

    /// The number of slots of the array.
    pub closed spec fn array_size(&self) -> nat {
        self.array@.len()
    }

    /// The mask by which an index is reduced to its slot: one less than the
    /// number of slots.
    pub closed spec fn mask(&self) -> u64 {
        self.mask
    }

    /// The index of the oldest value: where the next steal takes from.
    pub closed spec fn head_index(&self) -> u64 {
        self.head_index
    }

    /// The index of the next push: one past that of the newest value.
    pub closed spec fn tail_index(&self) -> u64 {
        self.tail_index
    }

    /// Whether a push first moves the values into a new array, to start at
    /// index zero: it does where the array has but its one empty slot left, and
    /// where the tail has come to the largest index.
    pub open spec fn moves_on_push(&self) -> bool {
        self@.len() + 1 >= self.array_size() || self.tail_index() >= MAX_INDEX
    }

    /// The indices lie as many apart as the deque holds values, which are fewer
    /// than the array has slots.
    pub proof fn lemma_indices(&self)
        requires
            self.wf(),
        ensures
            self.head_index() <= self.tail_index() <= MAX_INDEX,
            self@.len() == self.tail_index() - self.head_index(),
            self.mask() == self.array_size() - 1,
            is_low_mask(self.mask()),
            self@.len() < self.array_size() <= MAX_ARRAY_SIZE,
    {
    }

    /// Whether the deque has room for one more value, in its array or in one of
    /// twice the size.
    pub closed spec fn has_room(&self) -> bool {
        self.tail_index - self.head_index < self.mask || self.array@.len() <= MAX_ARRAY_SIZE / 2
    }

    /// A deque that holds fewer values than the largest array keeps free has
    /// room.
    pub proof fn lemma_room(&self)
        requires
            self.wf(),
            self@.len() < MAX_ARRAY_SIZE / 2,
        ensures
            self.has_room(),
    {
    }

    /// An empty deque, with both indices at zero, over an array whose size is
    /// `size` rounded up to a power of two: one slot for a size of zero or one.
    pub fn with_capacity(size: usize) -> (s: Self)
        requires
            size <= MAX_ARRAY_SIZE,
        ensures
            s.wf(),
            s@ == Seq::<T>::empty(),
            s.head_index() == 0,
            s.tail_index() == 0,
            s.mask() == s.array_size() - 1,
            s.array_size() <= MAX_ARRAY_SIZE,
            is_rounded_up(size, s.array_size() as usize),
    {
        let size = round_up_to_power_of_two(size);
        proof {
            let c = size as u64;
            let m = (size - 1) as u64;
            assert(c >= 1 && m == c - 1 && m & ((m + 1) as u64) == 0 && c <= 0xffff_ffff ==> c
                <= 0x8000_0000) by (bit_vector);
        }
        let array = State::<T>::empty_array(size);
        let s = State { array, mask: (size - 1) as u64, head_index: 0, tail_index: 0 };
        assert(s@ =~= Seq::<T>::empty());
        s
    }

    /// An array of `size` empty slots.
    fn empty_array(size: usize) -> (array: Vec<Option<T>>)
        ensures
            array@.len() == size,
            forall|j: int| 0 <= j < size ==> (#[trigger] array@[j]).is_none(),
    {
        let mut array: Vec<Option<T>> = Vec::with_capacity(size);
        let mut i: usize = 0;
        while i < size
            invariant
                i <= size,
                array@.len() == i,
                forall|j: int| 0 <= j < i ==> (#[trigger] array@[j]).is_none(),
            decreases size - i,
        {
            array.push(None);
            i = i + 1;
        }
        array
    }

    /// The number of slots of the array, of which one always stays empty.
    pub fn capacity(&self) -> (n: usize)
        requires
            self.wf(),
        ensures
            n == self.array_size(),
            self@.len() < n,
    {
        self.array.len()
    }

    /// Whether a push would find room: see `has_room`.
    pub fn can_push(&self) -> (b: bool)
        requires
            self.wf(),
        ensures
            b == self.has_room(),
    {
        self.tail_index - self.head_index < self.mask || self.array.len() <= MAX_ARRAY_SIZE / 2
    }

    /// What a push of `value` makes of the deque `before`.
    pub open spec fn push_makes(before: Self, after: Self, value: T) -> bool {
        &&& after@ == push_back(before@, None, value)
        &&& after.array_size() == (if before@.len() + 1 == before.array_size() {
            2 * before.array_size()
        } else {
            before.array_size()
        })
        &&& after.head_index() == (if before.moves_on_push() {
            0
        } else {
            before.head_index()
        })
        &&& after.tail_index() == (if before.moves_on_push() {
            before@.len() as int + 1
        } else {
            before.tail_index() + 1
        })
    }

    /// Pushes `value` at the tail. Where the array is full but for its one
    /// empty slot, the values are first moved into an array of twice the size,
    /// to start at index zero.
    pub fn push(&mut self, value: T)
        requires
            old(self).wf(),
            old(self).has_room(),
        ensures
            final(self).wf(),
            Self::push_makes(*old(self), *final(self), value),
    {
        let mut tail = self.tail_index;
        let ghost count0 = self.tail_index - self.head_index;
        if tail - self.head_index < self.mask && tail < MAX_INDEX {
            // there is headroom
            let index = self.slot(tail);
            self.array[index] = Some(value);
            self.tail_index = tail + 1;
            proof {
                let head = self.head_index;
                let mask = self.mask;
                lemma_window(head, mask, count0);
                assert(index == slot_index(head, count0, mask));
                assert forall|j: int| 0 <= j < count0 implies self.array@[#[trigger] slot_index(
                    head,
                    j,
                    mask,
                )] == old(self).array@[slot_index(head, j, mask)] by {
                    lemma_window(head, mask, j);
                }
                assert forall|j: int| 0 <= j < count0 + 1 implies self.array@[#[trigger] slot_index(
                    head,
                    j,
                    mask,
                )].is_some() by {
                    if j < count0 {
                        assert(old(self).array@[slot_index(head, j, mask)].is_some());
                    }
                }
                assert(self@ =~= old(self)@.push(value));
            }
        } else {
            // the owner makes room while the thieves are kept out
            let head = self.head_index;
            let count = self.tail_index - self.head_index;
            let array_size = self.array.len();
            let mask = self.mask;
            let new_size = if count >= mask {
                array_size * 2
            } else {
                array_size
            };
            let ghost new_mask = (new_size - 1) as u64;
            proof {
                assert(mask < 0x4000_0000_0000_0000 && mask & ((mask + 1) as u64) == 0 && new_mask
                    == 2 * mask + 1 ==> new_mask & ((new_mask + 1) as u64) == 0) by (bit_vector);
            }
            let mut new_array = State::<T>::empty_array(new_size);
            let mut i: u64 = 0;
            while i < count
                invariant
                    i <= count,
                    count == old(self).tail_index - old(self).head_index,
                    count <= mask,
                    head == old(self).head_index,
                    mask == old(self).mask,
                    is_low_mask(mask),
                    head + count <= MAX_INDEX,
                    self.array@.len() == mask + 1,
                    new_array@.len() == new_size,
                    new_size >= mask + 1,
                    forall|j: int|
                        0 <= j < i ==> #[trigger] new_array@[j] == old(self).array@[slot_index(
                            head,
                            j,
                            mask,
                        )],
                    forall|j: int|
                        i <= j < count ==> self.array@[#[trigger] slot_index(head, j, mask)] == old(
                            self,
                        ).array@[slot_index(head, j, mask)],
                decreases count - i,
            {
                let ghost before = self.array@;
                proof {
                    lemma_window(head, mask, i as int);
                }
                let from = ((i + head) & mask) as usize;
                assert(from == slot_index(head, i as int, mask));
                let moved = self.array[from].take();
                new_array[i as usize] = moved;
                proof {
                    assert(self.array@ == before.update(from as int, None));
                    assert forall|j: int| i + 1 <= j < count implies self.array@[#[trigger] slot_index(
                        head,
                        j,
                        mask,
                    )] == old(self).array@[slot_index(head, j, mask)] by {
                        lemma_window(head, mask, j);
                        assert(before[slot_index(head, j, mask)] == old(self).array@[slot_index(
                            head,
                            j,
                            mask,
                        )]);
                    }
                }
                i = i + 1;
            }
            self.array = new_array;
            self.head_index = 0;
            self.tail_index = count;
            tail = count;
            self.mask = (new_size - 1) as u64;
            let ghost mid = self.array@;
            let index = self.slot(tail);
            self.array[index] = Some(value);
            self.tail_index = tail + 1;
            proof {
                assert(0u64 & new_mask == 0) by (bit_vector);
                assert forall|j: int| 0 <= j <= count implies #[trigger] slot_index(0, j, new_mask)
                    == j by {
                    lemma_window(0, new_mask, j);
                }
                assert(index == slot_index(0, count as int, new_mask));
                assert(self.array@ == mid.update(count as int, Some(value)));
                assert forall|j: int| 0 <= j < count implies self.array@[#[trigger] slot_index(
                    0,
                    j,
                    new_mask,
                )] == old(self).array@[slot_index(head, j, mask)] by {
                    assert(slot_index(0, j, new_mask) == j);
                    assert(mid[j] == old(self).array@[slot_index(head, j, mask)]);
                }
                assert forall|j: int| 0 <= j < count + 1 implies self.array@[#[trigger] slot_index(
                    0,
                    j,
                    new_mask,
                )].is_some() by {
                    if j < count {
                        assert(old(self).array@[slot_index(head, j, mask)].is_some());
                    }
                }
                assert(self@ =~= old(self)@.push(value)) by {
                    assert forall|j: int| 0 <= j < count implies self@[j] == old(self)@[j] by {
                        assert(self.array@[slot_index(0, j, new_mask)] == old(
                            self,
                        ).array@[slot_index(head, j, mask)]);
                    }
                }
            }
        }
    }

    /// The index of the slot of `i`.
    fn slot(&self, i: u64) -> (index: usize)
        requires
            self.array@.len() == self.mask + 1,
            self.array@.len() <= MAX_ARRAY_SIZE,
        ensures
            index == slot_index(i, 0, self.mask),
            index < self.array@.len(),
    {
        proof {
            lemma_slot_in_ring(i, self.mask);
        }
        (i & self.mask) as usize
    }

    /// Takes the value at index `tail`, the newest, out of its slot.
    fn take_at_tail(&mut self, tail: u64) -> (r: Option<T>)
        requires
            old(self).array@.len() == old(self).mask + 1,
            1 <= old(self).array@.len() <= MAX_ARRAY_SIZE,
            is_low_mask(old(self).mask),
            old(self).head_index <= tail < MAX_INDEX,
            old(self).tail_index == tail,
            tail - old(self).head_index < old(self).mask,
            forall|j: int|
                0 <= j <= tail - old(self).head_index ==> old(self).array@[#[trigger] slot_index(
                    old(self).head_index,
                    j,
                    old(self).mask,
                )].is_some(),
        ensures
            final(self).wf(),
            r.is_some(),
            r.unwrap() == old(self).array@[slot_index(
                old(self).head_index,
                tail - old(self).head_index,
                old(self).mask,
            )].unwrap(),
            final(self).head_index == old(self).head_index,
            final(self).tail_index == tail,
            final(self).mask == old(self).mask,
            final(self).array@.len() == old(self).array@.len(),
            forall|j: int|
                0 <= j < tail - old(self).head_index ==> final(self).array@[#[trigger] slot_index(
                    old(self).head_index,
                    j,
                    old(self).mask,
                )] == old(self).array@[slot_index(old(self).head_index, j, old(self).mask)],
    {
        let ghost head = self.head_index;
        let ghost mask = self.mask;
        let ghost last = tail - self.head_index;
        let index = self.slot(tail);
        proof {
            lemma_window(head, mask, last);
            assert(index == slot_index(head, last, mask));
        }
        let r = self.array[index].take();
        proof {
            assert forall|j: int| 0 <= j < last implies self.array@[#[trigger] slot_index(
                head,
                j,
                mask,
            )] == old(self).array@[slot_index(head, j, mask)] by {
                lemma_window(head, mask, j);
            }
            assert forall|j: int| 0 <= j < last implies self.array@[#[trigger] slot_index(
                head,
                j,
                mask,
            )].is_some() by {
                assert(old(self).array@[slot_index(head, j, mask)].is_some());
            }
        }
        r
    }

    /// What a pop makes of the deque `before`, and what it returns.
    pub open spec fn pop_makes(before: Self, after: Self, r: Option<T>) -> bool {
        &&& r == back(before@)
        &&& after@ == without_back(before@)
        &&& after.array_size() == before.array_size()
        &&& after.head_index() == before.head_index()
        &&& after.tail_index() == (if r.is_some() {
            before.tail_index() - 1
        } else {
            before.tail_index() as int
        })
        &&& r.is_none() ==> after == before
    }

    /// Takes the newest value off the tail, which moves back by one; `None`,
    /// and nothing changed, where the deque is empty.
    pub fn pop(&mut self) -> (r: Option<T>)
        requires
            old(self).wf(),
        ensures
            final(self).wf(),
            Self::pop_makes(*old(self), *final(self), r),
    {
        let mut tail = self.tail_index;
        if tail == 0 {
            return None;
        }
        tail = tail - 1;
        self.tail_index = tail;
        if self.head_index <= tail {
            let r = self.take_at_tail(tail);
            assert(self@ =~= old(self)@.drop_last());
            r
        } else {
            // the head has come past the tail: put the tail back
            self.tail_index = tail + 1;
            assert(self@ =~= old(self)@);
            None
        }
    }

    /// What a steal makes of the deque `before`, and what it returns.
    pub open spec fn steal_makes(before: Self, after: Self, r: Option<T>) -> bool {
        &&& r == front(before@)
        &&& after@ == without_front(before@)
        &&& after.array_size() == before.array_size()
        &&& after.tail_index() == before.tail_index()
        &&& after.head_index() == (if r.is_some() {
            before.head_index() + 1
        } else {
            before.head_index() as int
        })
        &&& r.is_none() ==> after == before
    }

    /// Takes the oldest value off the head, which moves on by one; `None`, and
    /// nothing changed, where the deque is empty.
    pub fn steal(&mut self) -> (r: Option<T>)
        requires
            old(self).wf(),
        ensures
            final(self).wf(),
            Self::steal_makes(*old(self), *final(self), r),
    {
        let head = self.head_index;
        self.head_index = head + 1;
        let ghost mask = self.mask;
        let ghost count = old(self).tail_index - old(self).head_index;
        if head < self.tail_index {
            let index = self.slot(head);
            proof {
                lemma_window(head, mask, 0);
                assert(old(self).array@[slot_index(head, 0, mask)].is_some());
            }
            let r = self.array[index].take();
            proof {
                assert forall|j: int| 0 <= j < count - 1 implies self.array@[#[trigger] slot_index(
                    (head + 1) as u64,
                    j,
                    mask,
                )] == old(self).array@[slot_index(head, j + 1, mask)] by {
                    lemma_window(head, mask, j + 1);
                    lemma_window((head + 1) as u64, mask, j);
                    assert(slot_index((head + 1) as u64, j, mask) == slot_index(head, j + 1, mask));
                }
                assert forall|j: int| 0 <= j < count - 1 implies self.array@[#[trigger] slot_index(
                    (head + 1) as u64,
                    j,
                    mask,
                )].is_some() by {
                    assert(old(self).array@[slot_index(head, j + 1, mask)].is_some());
                }
                assert(self@ =~= old(self)@.skip(1)) by {
                    assert forall|j: int| 0 <= j < count - 1 implies self@[j] == old(self)@[j + 1] by {
                        assert(self.array@[slot_index((head + 1) as u64, j, mask)] == old(
                            self,
                        ).array@[slot_index(head, j + 1, mask)]);
                    }
                }
            }
            r
        } else {
            self.head_index = head;
            assert(self@ =~= old(self)@);
            None
        }
    }

    /// Whether the deque holds no value.
    pub fn is_empty(&self) -> (b: bool)
        requires
            self.wf(),
        ensures
            b == (self@.len() == 0),
    {
        self.head_index >= self.tail_index
    }

    /// The number of values in the deque.
    pub fn len(&self) -> (n: usize)
        requires
            self.wf(),
        ensures
            n == self@.len(),
    {
        (self.tail_index - self.head_index) as usize
    }
}

impl<T> Valid for State<T> {
    open spec fn valid(&self) -> bool {
        self.wf()
    }
}

/// `State::push` on the state that lies in `place`. Where none lies there, or
/// the one that does has no room, nothing changes and `value` comes back.
pub fn push_in<T>(place: &mut Place<State<T>>, value: T) -> (refused: Option<T>)
    ensures
        refused.is_none() || refused == Some(value),
        match old(place)@ {
            Some(s) => {
                &&& refused.is_none() == s.has_room()
                &&& final(place)@.is_some()
                &&& final(place)@.unwrap().wf()
                &&& s.has_room() ==> State::push_makes(s, final(place)@.unwrap(), value)
                &&& !s.has_room() ==> final(place)@ == old(place)@
            },
            None => refused == Some(value) && final(place)@.is_none(),
        },
{
    match place.take() {
        Some(mut state) => {
            if state.can_push() {
                state.push(value);
                place.put(state);
                None
            } else {
                place.put(state);
                Some(value)
            }
        },
        None => Some(value),
    }
}

/// `State::pop` on the state that lies in `place`; `None` where none lies
/// there.
pub fn pop_in<T>(place: &mut Place<State<T>>) -> (r: Option<T>)
    ensures
        match old(place)@ {
            Some(s) => {
                &&& final(place)@.is_some()
                &&& final(place)@.unwrap().wf()
                &&& State::pop_makes(s, final(place)@.unwrap(), r)
            },
            None => r.is_none() && final(place)@.is_none(),
        },
{
    match place.take() {
        Some(mut state) => {
            let r = state.pop();
            place.put(state);
            r
        },
        None => None,
    }
}

/// `State::steal` on the state that lies in `place`; `None` where none lies
/// there.
pub fn steal_in<T>(place: &mut Place<State<T>>) -> (r: Option<T>)
    ensures
        match old(place)@ {
            Some(s) => {
                &&& final(place)@.is_some()
                &&& final(place)@.unwrap().wf()
                &&& State::steal_makes(s, final(place)@.unwrap(), r)
            },
            None => r.is_none() && final(place)@.is_none(),
        },
{
    match place.take() {
        Some(mut state) => {
            let r = state.steal();
            place.put(state);
            r
        },
        None => None,
    }
}

/// The number of values of the state that lies in `place`; zero where none
/// lies there.
pub fn len_in<T>(place: &mut Place<State<T>>) -> (n: usize)
    ensures
        final(place)@ == old(place)@,
        n == (match old(place)@ {
            Some(s) => s@.len(),
            None => 0,
        }),
        n < MAX_ARRAY_SIZE,
{
    match place.take() {
        Some(state) => {
            let n = state.len();
            place.put(state);
            n
        },
        None => 0,
    }
}

/// A handle to a deque. Its clones share one deque, which lies behind a lock:
/// one of them is the owner's, which pushes and pops, the others are thieves',
/// which steal. The owner waits for the lock, a thief does not.
#[verifier::reject_recursive_types(T)]
pub struct Deque<T> {
    state: Arc<Mutex<Place<State<T>>>>,
}

impl<T> Clone for Deque<T> {
    fn clone(&self) -> Self {
        Deque { state: self.state.clone() }
    }
}

impl<T> Deque<T> {
    /// A handle to a new, empty deque over an array whose size is `capacity`
    /// rounded up to a power of two.
    pub fn with_capacity(capacity: usize) -> (d: Self)
        requires
            capacity <= MAX_ARRAY_SIZE,
    {
        Deque { state: Arc::new(mutex_new(Place::new(State::with_capacity(capacity)))) }
    }

    /// Pushes `value` at the tail of the shared deque as `push_in` does. A
    /// deque that already fills the largest array takes no more: `value` comes
    /// back.
    pub fn push(&mut self, value: T) -> (refused: Option<T>)
        ensures
            refused.is_none() || refused == Some(value),
    {
        let mut guard = mutex_lock(&*self.state);
        push_in(guard_mut(&mut guard), value)
    }

    /// Takes the newest value off the tail of the shared deque as `pop_in`
    /// does; `None` where it is empty at that moment.
    pub fn pop(&mut self) -> (r: Option<T>) {
        let mut guard = mutex_lock(&*self.state);
        pop_in(guard_mut(&mut guard))
    }

    /// Takes the oldest value off the head of the shared deque as `steal_in`
    /// does, without waiting; `None` where the deque is empty at that moment,
    /// or another handle is at work on it.
    pub fn steal(&mut self) -> (r: Option<T>) {
        match mutex_try_lock(&*self.state) {
            Some(mut guard) => steal_in(guard_mut(&mut guard)),
            None => None,
        }
    }

    /// Whether the shared deque is empty at that moment.
    pub fn is_empty(&mut self) -> (b: bool) {
        let mut guard = mutex_lock(&*self.state);
        len_in(guard_mut(&mut guard)) == 0
    }

    /// The number of values in the shared deque at that moment, which is less
    /// than the largest array has slots.
    pub fn len(&mut self) -> (n: usize)
        ensures
            n < MAX_ARRAY_SIZE,
    {
        let mut guard = mutex_lock(&*self.state);
        len_in(guard_mut(&mut guard))
    }
}

} // verus!
