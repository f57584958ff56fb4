//! A bounded first-in first-out queue over a ring of slots, each with a sequence
//! counter, after Vyukov.
//!
//! A slot's counter tells which position of the queue it serves next: a slot is
//! free for the producer at position `pos` when its counter is `pos`, and ready
//! for the consumer at `pos` when its counter is `pos + 1`. The positions and
//! the counters are 64-bit and wrap.

use vstd::prelude::*;
use std::sync::Arc;
use std::sync::Mutex;
use crate::atomics::compare_and_swap_u64;
use crate::model::{accepts, front, push_back, without_front};
use crate::ring::{
    advanced, difference, is_low_mask, is_normalized, lemma_slot_advances, lemma_slot_after_lap,
    lemma_slot_in_ring, normalize_capacity, steps_from, wrap,
};
use crate::sync::{guard_mut, mutex_lock, mutex_new, Place, Valid};

verus! {

/// The slot that serves position `pos` in a ring of `capacity` slots:
/// `pos` modulo the capacity, which is a power of two.
pub open spec fn slot_of_position(pos: u64, capacity: nat) -> int {
    (pos & ((capacity - 1) as u64)) as int
}

/// A slot of the ring: its counter, and the value that it holds while one is
/// queued in it.
pub struct Node<T> {
    sequence: u64,
    value: Option<T>,
}

/// The queue's state: the ring, its mask, and the positions of the next push
/// and the next pop.
pub struct State<T> {
    buffer: Vec<Node<T>>,
    mask: u64,
    enqueue_pos: u64,
    dequeue_pos: u64,
}

impl<T> View for State<T> {
    type V = Seq<T>;

    /// The queued values, oldest first.
    closed spec fn view(&self) -> Seq<T> {
        Seq::new(
            self.enqueue_pos.wrapping_sub(self.dequeue_pos) as nat,
            |j: int|
                self.buffer@[wrap(
                    (self.dequeue_pos & self.mask) + j,
                    self.buffer@.len() as int,
                )].value.unwrap(),
        )
    }
}

impl<T> State<T> {
    /// What the slot that lies `k` steps after the slot of the next pop holds,
    /// in a queue of `len` values.
    spec fn slot_holds(&self, node: Node<T>, k: int, len: int) -> bool {
        if k < len {
            node.sequence == advanced(advanced(self.dequeue_pos, k), 1) && node.value.is_some()
        } else {
            node.sequence == advanced(self.dequeue_pos, k) && node.value.is_none()
        }
    }

    /// The ring's size is a power of two, at least two; the queued values lie
    /// in the slots from that of the next pop on, each with the counter of a
    /// ready slot, and every other slot is free for the position that reaches
    /// it next.
    pub closed spec fn wf(&self) -> bool {
        let cap = self.buffer@.len() as int;
        let len = self.enqueue_pos.wrapping_sub(self.dequeue_pos) as int;
        &&& 2 <= cap
        &&& self.mask == cap - 1
        &&& is_low_mask(self.mask)
        &&& len <= cap
        &&& forall|i: int|
            0 <= i < cap ==> self.slot_holds(
                #[trigger] self.buffer@[i],
                steps_from((self.dequeue_pos & self.mask) as int, i, cap),
                len,
            )
    }

    /// How many values the queue holds at most.
    pub closed spec fn capacity(&self) -> nat {
        self.buffer@.len()
    }

    /// The mask by which a position is reduced to its slot: one less than the
    /// capacity.
    pub closed spec fn mask(&self) -> u64 {
        self.mask
    }

    /// The position of the next push.
    pub closed spec fn enqueue_pos(&self) -> u64 {
        self.enqueue_pos
    }

    /// The position of the next pop.
    pub closed spec fn dequeue_pos(&self) -> u64 {
        self.dequeue_pos
    }

    /// The sequence counters of the slots, in the order of the slots.
    pub closed spec fn sequences(&self) -> Seq<u64> {
        Seq::new(self.buffer@.len(), |i: int| self.buffer@[i].sequence)
    }

    /// The positions lie as many apart, round the 64-bit counter, as the queue
    /// holds values; every slot has its counter, and every position its slot.
    pub proof fn lemma_positions(&self, pos: u64)
        requires
            self.wf(),
        ensures
            self@.len() == self.enqueue_pos().wrapping_sub(self.dequeue_pos()),
            self.sequences().len() == self.capacity(),
            self.mask() == self.capacity() - 1,
            is_low_mask(self.mask()),
            slot_of_position(pos, self.capacity()) == pos & self.mask(),
            0 <= slot_of_position(pos, self.capacity()) < self.capacity(),
    {
        lemma_slot_in_ring(pos, self.mask);
    }

    /// The queue never holds more values than its capacity.
    pub proof fn lemma_bounded(&self)
        requires
            self.wf(),
        ensures
            self@.len() <= self.capacity(),
    {
    }

    /// An empty queue whose capacity is `capacity` rounded up to a power of two,
    /// and at least two. Both positions are zero, and the counter of each slot
    /// is the slot's index.
    pub fn with_capacity(capacity: usize) -> (s: Self)
        requires
            capacity <= usize::MAX / 2 + 1,
        ensures
            s.wf(),
            s@ == Seq::<T>::empty(),
            s.capacity() <= usize::MAX,
            is_normalized(capacity, s.capacity() as usize),
            s.mask() == s.capacity() - 1,
            s.enqueue_pos() == 0,
            s.dequeue_pos() == 0,
            s.sequences().len() == s.capacity(),
            forall|i: int| 0 <= i < s.capacity() ==> #[trigger] s.sequences()[i] == i,
    {
        let capacity = normalize_capacity(capacity);
        let mut buffer: Vec<Node<T>> = Vec::with_capacity(capacity);
        let mut i: usize = 0;
        while i < capacity
            invariant
                i <= capacity,
                capacity - 1 < 0x8000_0000_0000_0000,
                buffer@.len() == i,
                forall|j: int|
                    0 <= j < i ==> (#[trigger] buffer@[j]).sequence == j && buffer@[j].value.is_none(),
            decreases capacity - i,
        {
            buffer.push(Node { sequence: i as u64, value: None });
            i = i + 1;
        }
        let s = State { buffer, mask: (capacity - 1) as u64, enqueue_pos: 0, dequeue_pos: 0 };
        proof {
            assert(0u64 & s.mask == 0) by (bit_vector);
            assert(s@ =~= Seq::<T>::empty());
        }
        s
    }

    /// What a push of `value` makes of the queue `before`, and whether it is
    /// accepted.
    pub open spec fn push_makes(before: Self, after: Self, value: T, ok: bool) -> bool {
        &&& after.capacity() == before.capacity()
        &&& ok == accepts(before@, Some(before.capacity()))
        &&& after@ == push_back(before@, Some(before.capacity()), value)
        &&& !ok ==> after == before
        &&& ok ==> {
            &&& after.enqueue_pos() == advanced(before.enqueue_pos(), 1)
            &&& after.dequeue_pos() == before.dequeue_pos()
            &&& after.sequences() == before.sequences().update(
                slot_of_position(before.enqueue_pos(), before.capacity()),
                advanced(before.enqueue_pos(), 1),
            )
        }
    }

    /// Queues `value` behind the values already queued; false, with nothing
    /// changed and `value` dropped, where the queue is full: see `offer`.
    pub fn push(&mut self, value: T) -> (ok: bool)
        requires
            old(self).wf(),
        ensures
            final(self).wf(),
            Self::push_makes(*old(self), *final(self), value, ok),
    {
        self.offer(value).is_none()
    }

    /// Queues `value` behind the values already queued: the position of the next
    /// push moves on by one, and the slot that served it gets that position as
    /// its counter. Where the queue is full nothing changes, and `value` comes
    /// back.
    pub fn offer(&mut self, value: T) -> (refused: Option<T>)
        requires
            old(self).wf(),
        ensures
            final(self).wf(),
            Self::push_makes(*old(self), *final(self), value, refused.is_none()),
            refused.is_none() || refused == Some(value),
    {
        let buffer_len = self.buffer.len();
        let mask = self.mask;
        let mut pos = self.enqueue_pos;
        let ghost cap = buffer_len as int;
        let ghost len = self.enqueue_pos.wrapping_sub(self.dequeue_pos) as int;
        let ghost head = (self.dequeue_pos & self.mask) as int;
        proof {
            lemma_slot_in_ring(pos, mask);
            lemma_slot_in_ring(self.dequeue_pos, mask);
            if len < cap {
                lemma_slot_advances(self.dequeue_pos, len as u64, mask);
            } else {
                lemma_slot_after_lap(self.dequeue_pos, mask);
            }
        }
        loop
            invariant
                *self == *old(self),
                self.wf(),
                mask == self.mask,
                pos == self.enqueue_pos,
                cap == self.buffer@.len(),
                cap == buffer_len,
                len == self.enqueue_pos.wrapping_sub(self.dequeue_pos),
                head == self.dequeue_pos & self.mask,
                pos & mask <= mask,
                len < cap ==> (pos & mask) == wrap(head + len, cap),
                len == cap ==> (pos & mask) == head,
            decreases 0int,
        {
            let index = (pos & mask) as usize;
            let seq = self.buffer[index].sequence;
            let diff = difference(seq, pos);
            proof {
                assert(self.slot_holds(
                    self.buffer@[index as int],
                    steps_from(head, index as int, cap),
                    len,
                ));
            }
            if diff == 0 {
                // the slot is free for this position: claim the position
                let enqueue_pos = compare_and_swap_u64(
                    &mut self.enqueue_pos,
                    pos,
                    pos.wrapping_add(1),
                );
                if enqueue_pos == pos {
                    self.buffer[index].value = Some(value);
                    self.buffer[index].sequence = pos.wrapping_add(1);
                    proof {
                        assert forall|i: int| 0 <= i < cap implies self.slot_holds(
                            #[trigger] self.buffer@[i],
                            steps_from(head, i, cap),
                            len + 1,
                        ) by {
                            if i != index {
                                assert(self.buffer@[i] == old(self).buffer@[i]);
                                assert(old(self).slot_holds(
                                    old(self).buffer@[i],
                                    steps_from(head, i, cap),
                                    len,
                                ));
                            }
                        }
                        assert(self.sequences() =~= old(self).sequences().update(
                            index as int,
                            pos.wrapping_add(1),
                        ));
                        assert(self@ =~= old(self)@.push(value)) by {
                            assert forall|j: int| 0 <= j < len implies self@[j] == old(self)@[j] by {
                                assert(self.buffer@[wrap(head + j, cap)] == old(self).buffer@[wrap(
                                    head + j,
                                    cap,
                                )]);
                            }
                        }
                    }
                    return None;
                } else {
                    pos = enqueue_pos;
                }
            } else if diff < 0 {
                // the slot still holds the value of a lap ago: full
                return Some(value);
            } else {
                // another producer is ahead
                pos = self.enqueue_pos;
            }
        }
    }

    /// What a pop makes of the queue `before`, and what it returns.
    pub open spec fn pop_makes(before: Self, after: Self, r: Option<T>) -> bool {
        &&& after.capacity() == before.capacity()
        &&& r == front(before@)
        &&& after@ == without_front(before@)
        &&& r.is_none() ==> after == before
        &&& r.is_some() ==> {
            &&& after.dequeue_pos() == advanced(before.dequeue_pos(), 1)
            &&& after.enqueue_pos() == before.enqueue_pos()
            &&& after.sequences() == before.sequences().update(
                slot_of_position(before.dequeue_pos(), before.capacity()),
                advanced(before.dequeue_pos(), before.capacity() as int),
            )
        }
    }

    /// Takes the oldest queued value out and returns it: the position of the
    /// next pop moves on by one, and the slot that served it gets as its counter
    /// the position that it serves a lap later. `None`, with nothing changed,
    /// where the queue is empty.
    pub fn pop(&mut self) -> (r: Option<T>)
        requires
            old(self).wf(),
        ensures
            final(self).wf(),
            Self::pop_makes(*old(self), *final(self), r),
    {
        let buffer_len = self.buffer.len();
        let mask = self.mask;
        let mut pos = self.dequeue_pos;
        let ghost cap = buffer_len as int;
        let ghost len = self.enqueue_pos.wrapping_sub(self.dequeue_pos) as int;
        let ghost head = (self.dequeue_pos & self.mask) as int;
        proof {
            lemma_slot_in_ring(pos, mask);
            lemma_slot_advances(pos, 1, mask);
        }
        loop
            invariant
                *self == *old(self),
                self.wf(),
                mask == self.mask,
                pos == self.dequeue_pos,
                cap == self.buffer@.len(),
                cap == buffer_len,
                len == self.enqueue_pos.wrapping_sub(self.dequeue_pos),
                head == self.dequeue_pos & self.mask,
                head <= mask,
                (advanced(pos, 1) & mask) == wrap(head + 1, cap),
            decreases 0int,
        {
            let index = (pos & mask) as usize;
            let seq = self.buffer[index].sequence;
            let diff = difference(seq, pos.wrapping_add(1));
            proof {
                assert(mask == cap - 1);
                assert(index as int == head);
                assert(steps_from(head, index as int, cap) == 0);
                assert(self.slot_holds(self.buffer@[index as int], 0, len));
            }
            if diff == 0 {
                // the slot is ready for this position: claim the position
                let dequeue_pos = compare_and_swap_u64(
                    &mut self.dequeue_pos,
                    pos,
                    pos.wrapping_add(1),
                );
                if dequeue_pos == pos {
                    let value = self.buffer[index].value.take();
                    self.buffer[index].sequence = pos.wrapping_add(mask).wrapping_add(1);
                    proof {
                        let next = wrap(head + 1, cap);
                        assert forall|i: int| 0 <= i < cap implies self.slot_holds(
                            #[trigger] self.buffer@[i],
                            steps_from(next, i, cap),
                            len - 1,
                        ) by {
                            if i != index {
                                assert(self.buffer@[i] == old(self).buffer@[i]);
                                assert(old(self).slot_holds(
                                    old(self).buffer@[i],
                                    steps_from(head, i, cap),
                                    len,
                                ));
                            }
                        }
                        assert(self.sequences() =~= old(self).sequences().update(
                            index as int,
                            advanced(pos, cap),
                        ));
                        assert(self@ =~= old(self)@.skip(1)) by {
                            assert forall|j: int| 0 <= j < len - 1 implies self@[j] == old(
                                self,
                            )@[j + 1] by {
                                assert(self.buffer@[wrap(next + j, cap)] == old(self).buffer@[wrap(
                                    head + j + 1,
                                    cap,
                                )]);
                            }
                        }
                    }
                    return value;
                } else {
                    pos = dequeue_pos;
                }
            } else if diff < 0 {
                // the slot is still free: empty
                return None;
            } else {
                // another consumer is ahead
                pos = self.dequeue_pos;
            }
        }
    }
}

impl<T> Valid for State<T> {
    open spec fn valid(&self) -> bool {
        self.wf()
    }
}

/// `State::offer` on the state that lies in `place`; `value` comes back also
/// where none lies there.
pub fn offer_in<T>(place: &mut Place<State<T>>, value: T) -> (refused: Option<T>)
    ensures
        refused.is_none() || refused == Some(value),
        match old(place)@ {
            Some(s) => {
                &&& final(place)@.is_some()
                &&& final(place)@.unwrap().wf()
                &&& State::push_makes(s, final(place)@.unwrap(), value, refused.is_none())
            },
            None => refused == Some(value) && final(place)@.is_none(),
        },
{
    match place.take() {
        Some(mut state) => {
            let refused = state.offer(value);
            place.put(state);
            refused
        },
        None => Some(value),
    }
}

/// `State::pop` on the state that lies in `place`; `None` where none lies
/// there.
pub fn pop_in<T>(place: &mut Place<State<T>>) -> (r: Option<T>)
    ensures
        match old(place)@ {
            Some(s) => {
                &&& final(place)@.is_some()
                &&& final(place)@.unwrap().wf()
                &&& State::pop_makes(s, final(place)@.unwrap(), r)
            },
            None => r.is_none() && final(place)@.is_none(),
        },
{
    match place.take() {
        Some(mut state) => {
            let r = state.pop();
            place.put(state);
            r
        },
        None => None,
    }
}

/// A handle to a queue. Its clones share one queue, which lies behind a lock:
/// a call waits until no other handle is at work on the queue.
#[verifier::reject_recursive_types(T)]
pub struct Queue<T> {
    state: Arc<Mutex<Place<State<T>>>>,
}

impl<T> Clone for Queue<T> {
    fn clone(&self) -> Self {
        Queue { state: self.state.clone() }
    }
}

impl<T> Queue<T> {
    /// A handle to a new, empty queue whose capacity is `capacity` rounded up to
    /// a power of two, and at least two.
    pub fn with_capacity(capacity: usize) -> (q: Self)
        requires
            capacity <= usize::MAX / 2 + 1,
    {
        Queue { state: Arc::new(mutex_new(Place::new(State::with_capacity(capacity)))) }
    }

    /// Queues `value` in the shared queue as `offer_in` does; false where the
    /// queue is full at that moment. A value that is refused is dropped when the
    /// lock has been given up.
    pub fn push(&mut self, value: T) -> (ok: bool) {
        let refused = self.offer(value);
        refused.is_none()
    }

    /// Queues `value` in the shared queue as `offer_in` does; `value` comes back
    /// where the queue is full at that moment.
    pub fn offer(&mut self, value: T) -> (refused: Option<T>)
        ensures
            refused.is_none() || refused == Some(value),
    {
        let mut guard = mutex_lock(&*self.state);
        offer_in(guard_mut(&mut guard), value)
    }

    /// Takes the oldest value out of the shared queue as `pop_in` does; `None`
    /// where the queue is empty at that moment.
    pub fn pop(&mut self) -> (r: Option<T>) {
        let mut guard = mutex_lock(&*self.state);
        pop_in(guard_mut(&mut guard))
    }
}

} // verus!
