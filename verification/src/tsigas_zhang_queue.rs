//! A bounded first-in first-out queue of words over a circular array, after
//! Tsigas and Zhang.
//!
//! A slot of the array holds one of two free marks or a queued word. `head` and
//! `tail` trail the queued words and are moved up lazily, by the operation that
//! finds them behind. A word is stored with its lowest bit set where the slot it
//! goes into was last freed with the second mark, so that the two marks
//! alternate in every slot.

use vstd::prelude::*;
use vstd::arithmetic::div_mod::{lemma_mod_self_0, lemma_small_mod};
use std::sync::Arc;
use std::sync::Mutex;
use crate::atomics::compare_and_swap;
use crate::model::{accepts, front, push_back, without_front};
use crate::ring::{steps_from, wrap};
use crate::sync::{guard_mut, mutex_lock, mutex_new, Place, Valid};

verus! {

/// A slot word that stands for "free".
pub open spec fn is_free_word(p: usize) -> bool {
    p == 0 || p == 1
}

/// A word that may be queued: even, and not a free mark.
pub open spec fn is_element(p: usize) -> bool {
    p >= 2 && p % 2 == 0
}

/// The word without its lowest bit: what was queued, whichever way it was
/// stored.
pub open spec fn untagged(p: usize) -> usize {
    (p - p % 2) as usize
}

/// The form in which `p` is stored in a slot that held the free mark `free`.
pub open spec fn stored_form(p: usize, free: usize) -> usize {
    if free == 1 {
        (p + 1) as usize
    } else {
        p
    }
}

/// Setting the lowest bit of an even word adds one to it.
pub proof fn lemma_tag_adds_one(p: usize)
    requires
        p % 2 == 0,
    ensures
        p | 1 == p + 1,
        p < usize::MAX,
{
    assert(p % 2 == 0 ==> (p | 1) == p + 1) by (bit_vector);
}

/// A word has its lowest bit clear exactly when it is even.
pub proof fn lemma_low_bit(p: usize)
    ensures
        (p & 1 == 0) <==> (p % 2 == 0),
{
    assert((p & 1 == 0) <==> (p % 2 == 0)) by (bit_vector);
}

/// Whichever way an element is stored, it is no free mark, and without its
/// lowest bit it is the element again.
pub proof fn lemma_stored_word(p: usize, free: usize)
    requires
        is_element(p),
        is_free_word(free),
    ensures
        !is_free_word(stored_form(p, free)),
        untagged(stored_form(p, free)) == p,
{
    lemma_tag_adds_one(p);
}

/// The slot after `i` in a ring of `maxnum` slots.
pub fn next_index(i: usize, maxnum: usize) -> (r: usize)
    requires
        i < maxnum,
    ensures
        r == wrap(i + 1, maxnum as int),
        r < maxnum,
{
    proof {
        if i + 1 < maxnum {
            lemma_small_mod((i + 1) as nat, maxnum as nat);
        } else {
            lemma_mod_self_0(maxnum as int);
        }
    }
    (i + 1) % maxnum
}

/// The queue's state: the slots, and the two indices that trail the queued
/// words.
pub struct State {
    nodes: Vec<usize>,
    head: usize,
    tail: usize,
    /// Free slots between `head` and the oldest queued word.
    lag: Ghost<int>,
    /// Queued words.
    count: Ghost<int>,
    /// Steps from `head` to `tail`.
    reach: Ghost<int>,
}

impl View for State {
    type V = Seq<usize>;

    /// The queued words as they are stored, oldest first.
    closed spec fn view(&self) -> Seq<usize> {
        Seq::new(
            self.count@ as nat,
            |j: int| self.nodes@[wrap(self.head + self.lag@ + 1 + j, self.nodes@.len() as int)],
        )
    }
}

impl State {
    /// The slots from `head` on are: `head` itself and `lag` more free slots,
    /// then the queued words, then free slots, at least one; `tail` stands at a
    /// queued word or at the first free slot after them.
    pub closed spec fn wf(&self) -> bool {
        let m = self.nodes@.len() as int;
        &&& m >= 2
        &&& self.head < m
        &&& self.tail < m
        &&& 0 <= self.lag@
        &&& 0 <= self.count@
        &&& self.lag@ + self.count@ + 2 <= m
        &&& self.lag@ + 1 <= self.reach@ <= self.lag@ + self.count@ + 1
        &&& self.tail == wrap(self.head + self.reach@, m)
        &&& forall|i: int|
            0 <= i < m ==> (is_free_word(#[trigger] self.nodes@[i]) <==> !(self.lag@ + 1
                <= steps_from(self.head as int, i, m) <= self.lag@ + self.count@))
    }

    /// How many words the queue holds at most.
    pub closed spec fn capacity(&self) -> nat {
        (self.nodes@.len() - 2) as nat
    }

    /// The free mark in the slot that the next word goes into.
    pub closed spec fn next_free(&self) -> usize {
        self.nodes@[wrap(
            self.head + self.lag@ + self.count@ + 1,
            self.nodes@.len() as int,
        )]
    }

    /// What the slots hold, in the order of the slots.
    pub closed spec fn slots(&self) -> Seq<usize> {
        self.nodes@
    }

    /// The index that trails the oldest queued word: a free slot before it.
    pub closed spec fn head(&self) -> int {
        self.head as int
    }

    /// The index that trails the slot of the next word: a queued word, or the
    /// first free slot after the queued words.
    pub closed spec fn tail(&self) -> int {
        self.tail as int
    }

    /// The slot of the oldest queued word, where one is queued: the first taken
    /// slot after `head`.
    pub closed spec fn first_slot(&self) -> int {
        wrap(self.head + self.lag@ + 1, self.nodes@.len() as int)
    }

    /// The slot that the next word goes into: the first free slot from `tail`
    /// on.
    pub closed spec fn next_slot(&self) -> int {
        wrap(self.head + self.lag@ + self.count@ + 1, self.nodes@.len() as int)
    }

    /// How the slots lie: the queued words one after the other from
    /// `first_slot` on; free slots, and no others, from the slot after `head` up
    /// to `first_slot`; taken slots, and no others, from `tail` up to
    /// `next_slot`, which is free and is not `head`.
    pub proof fn lemma_layout(&self)
        requires
            self.wf(),
        ensures
            self.slots().len() == self.capacity() + 2,
            0 <= self.head() < self.slots().len(),
            0 <= self.tail() < self.slots().len(),
            0 <= self.first_slot() < self.slots().len(),
            0 <= self.next_slot() < self.slots().len(),
            self.next_slot() != self.head(),
            self.next_free() == self.slots()[self.next_slot()],
            is_free_word(self.slots()[self.next_slot()]),
            is_free_word(self.slots()[self.head()]),
            self.next_slot() == wrap(self.first_slot() + self@.len(), self.slots().len() as int),
            forall|j: int|
                0 <= j < self@.len() ==> #[trigger] self@[j] == self.slots()[wrap(
                    self.first_slot() + j,
                    self.slots().len() as int,
                )],
            forall|i: int|
                0 <= i < self.slots().len() && 0 < steps_from(
                    self.head(),
                    i,
                    self.slots().len() as int,
                ) < steps_from(self.head(), self.first_slot(), self.slots().len() as int)
                    ==> is_free_word(#[trigger] self.slots()[i]),
            forall|i: int|
                0 <= i < self.slots().len() && steps_from(
                    self.tail(),
                    i,
                    self.slots().len() as int,
                ) < steps_from(self.tail(), self.next_slot(), self.slots().len() as int)
                    ==> !is_free_word(#[trigger] self.slots()[i]),
    {
        let m = self.nodes@.len() as int;
        let next = wrap(self.head + self.lag@ + self.count@ + 1, m);
        assert(steps_from(self.head as int, next, m) == self.lag@ + self.count@ + 1);
        assert(steps_from(self.head as int, self.head as int, m) == 0);
        assert forall|i: int|
            0 <= i < m && steps_from(self.tail as int, i, m) < steps_from(
                self.tail as int,
                next,
                m,
            ) implies !is_free_word(#[trigger] self.nodes@[i]) by {
            assert(steps_from(self.head as int, i, m) == self.reach@ + steps_from(
                self.tail as int,
                i,
                m,
            ));
        }
    }

    /// Every queued word is a stored element: not a free mark.
    pub proof fn lemma_queued_words(&self, j: int)
        requires
            self.wf(),
            0 <= j < self@.len(),
        ensures
            !is_free_word(self@[j]),
    {
        let m = self.nodes@.len() as int;
        let i = wrap(self.head + self.lag@ + 1 + j, m);
        assert(steps_from(self.head as int, i, m) == self.lag@ + 1 + j);
    }

    /// The slot that the next word goes into holds a free mark.
    pub proof fn lemma_next_free(&self)
        requires
            self.wf(),
        ensures
            is_free_word(self.next_free()),
    {
        let m = self.nodes@.len() as int;
        let i = wrap(self.head + self.lag@ + self.count@ + 1, m);
        assert(steps_from(self.head as int, i, m) == self.lag@ + self.count@ + 1);
    }

    /// The queue never holds more words than its capacity.
    pub proof fn lemma_bounded(&self)
        requires
            self.wf(),
        ensures
            self@.len() <= self.capacity(),
    {
    }

    /// An empty queue of `capacity` words: `head` at slot 0, which holds the
    /// second free mark, `tail` at slot 1, and the first free mark in every slot
    /// but slot 0.
    pub fn with_capacity(capacity: usize) -> (s: State)
        requires
            capacity <= usize::MAX - 2,
        ensures
            s.wf(),
            s.capacity() == capacity,
            s@ == Seq::<usize>::empty(),
            s.head() == 0,
            s.tail() == 1,
            s.first_slot() == 1,
            s.next_slot() == 1,
            s.slots().len() == capacity + 2,
            s.slots()[0] == 1,
            forall|i: int| 1 <= i < capacity + 2 ==> #[trigger] s.slots()[i] == 0,
    {
        let mut nodes: Vec<usize> = vec![State::null0(); capacity + 2];
        nodes.set(0, State::null1());
        let s = State { nodes, head: 0, tail: 1, lag: Ghost(0), count: Ghost(0), reach: Ghost(1) };
        assert(s@ =~= Seq::<usize>::empty());
        s
    }

    /// The number of slots: two more than the capacity.
    pub fn maxnum(&self) -> (n: usize)
        requires
            self.wf(),
        ensures
            n == self.capacity() + 2,
    {
        self.nodes.len()
    }

    /// The first free mark.
    pub fn null0() -> (p: usize)
        ensures
            p == 0,
    {
        0
    }

    /// The second free mark.
    pub fn null1() -> (p: usize)
        ensures
            p == 1,
    {
        1
    }

    /// Whether a slot word stands for "free".
    pub fn is_free(p: usize) -> (b: bool)
        ensures
            b == is_free_word(p),
    {
        p == State::null0() || p == State::null1()
    }

    /// Queues `newnode` behind the words already queued: it goes into
    /// `next_slot`, in the form that the free mark there asks for, and no other
    /// slot changes. Where `next_slot` is the slot before `head`, `head` first
    /// moves on by one; `tail` moves to the slot after the word where that
    /// slot's index is even. False, and nothing changed, where the queue is
    /// full.
    pub fn enqueue(&mut self, newnode: usize) -> (ok: bool)
        requires
            old(self).wf(),
            is_element(newnode),
        ensures
            final(self).wf(),
            final(self).capacity() == old(self).capacity(),
            ok == accepts(old(self)@, Some(old(self).capacity())),
            final(self)@ == push_back(
                old(self)@,
                Some(old(self).capacity()),
                stored_form(newnode, old(self).next_free()),
            ),
            !ok ==> *final(self) == *old(self),
            ok ==> {
                let m = old(self).slots().len() as int;
                let after = wrap(old(self).next_slot() + 1, m);
                &&& final(self).slots() == old(self).slots().update(
                    old(self).next_slot(),
                    stored_form(newnode, old(self).next_free()),
                )
                &&& final(self).head() == (if after == old(self).head() {
                    wrap(old(self).head() + 1, m)
                } else {
                    old(self).head()
                })
                &&& final(self).tail() == (if after % 2 == 0 {
                    after
                } else {
                    old(self).tail()
                })
                &&& final(self).first_slot() == old(self).first_slot()
                &&& final(self).next_slot() == after
            },
    {
        let maxnum = self.maxnum();
        let ghost m = maxnum as int;
        if maxnum <= 2 {
            return false;
        }
        let ghost mut helped = false;
        loop
            invariant
                self.wf(),
                is_element(newnode),
                m == maxnum,
                m == self.nodes@.len(),
                m > 2,
                self@ == old(self)@,
                self.capacity() == old(self).capacity(),
                self.next_free() == old(self).next_free(),
                self.next_slot() == old(self).next_slot(),
                self.first_slot() == old(self).first_slot(),
                self.nodes@ == old(self).nodes@,
                self.tail == old(self).tail,
                !helped ==> *self == *old(self),
                helped ==> self.head == wrap(old(self).head + 1, m) && wrap(
                    old(self).next_slot() + 1,
                    m,
                ) == old(self).head,
            decreases self.lag@,
        {
            // read the tail
            let te = self.tail;
            let mut ate = te;
            let mut tt = self.nodes[ate];
            // the next slot of the tail
            let mut temp = next_index(ate, maxnum);
            let mut consistent = true;
            let ghost mut at: int = self.reach@;
            // find the actual tail
            while !State::is_free(tt)
                invariant
                    self.wf(),
                    m == maxnum,
                    m == self.nodes@.len(),
                    te == self.tail,
                    consistent,
                    self.reach@ <= at <= self.lag@ + self.count@ + 1,
                    ate == wrap(self.head + at, m),
                    tt == self.nodes@[ate as int],
                    temp == wrap(ate + 1, m),
                ensures
                    is_free_word(tt),
                decreases self.lag@ + self.count@ + 1 - at,
            {
                proof {
                    assert(steps_from(self.head as int, ate as int, m) == at);
                }
                // check tail's consistency
                if te != self.tail {
                    consistent = false;
                    break ;
                }
                // where the tail meets the head the queue may be full
                if temp == self.head {
                    break ;
                }
                // now check the next slot
                tt = self.nodes[temp];
                ate = temp;
                temp = next_index(temp, maxnum);
                proof {
                    at = at + 1;
                }
            }
            proof {
                assert(steps_from(self.head as int, ate as int, m) == at);
                assert(ate == self.next_slot());
            }
            // check tail's consistency
            if !consistent || te != self.tail {
                continue ;
            }
            // check whether the queue is full
            if temp == self.head {
                ate = next_index(temp, maxnum);
                tt = self.nodes[ate];
                proof {
                    assert(steps_from(self.head as int, ate as int, m) == 1);
                }
                // the slot after the head is taken
                if !State::is_free(tt) {
                    return false;
                }
                // help the dequeue to update the head
                compare_and_swap(&mut self.head, temp, ate);
                proof {
                    self.lag = Ghost(self.lag@ - 1);
                    self.reach = Ghost(self.reach@ - 1);
                    helped = true;
                }
                assert(self.wf()) by {
                    assert forall|i: int| 0 <= i < m implies (is_free_word(
                        #[trigger] self.nodes@[i],
                    ) <==> !(self.lag@ + 1 <= steps_from(self.head as int, i, m) <= self.lag@
                        + self.count@)) by {
                        assert(steps_from(temp as int, i, m) == wrap(
                            steps_from(self.head as int, i, m) + 1,
                            m,
                        ));
                    }
                }
                assert(self@ =~= old(self)@);
                // try again
                continue ;
            }
            let tnew = if tt == State::null1() {
                proof {
                    lemma_tag_adds_one(newnode);
                }
                newnode | 1
            } else {
                newnode
            };
            // check the tail's consistency
            if te != self.tail {
                continue ;
            }
            let ghost before = *self;
            // take the slot at the actual tail
            if compare_and_swap(&mut self.nodes[ate], tt, tnew) == tt {
                proof {
                    self.count = Ghost(self.count@ + 1);
                }
                if temp % 2 == 0 {
                    compare_and_swap(&mut self.tail, te, temp);
                    proof {
                        self.reach = Ghost(self.lag@ + self.count@ + 1);
                    }
                }
                proof {
                    assert(self.nodes@ == before.nodes@.update(ate as int, tnew));
                    assert(self@ =~= before@.push(tnew));
                    assert(self.wf());
                }
                return true;
            }
        }
    }

    /// Takes the oldest queued word out of `first_slot` and returns it as it
    /// was stored. The slot gets the second free mark where the word was even,
    /// the first where it was odd, and no other slot changes. `tail` first moves
    /// on by one where it stood at that slot; `head` moves to the slot where its
    /// index is even. The first free mark, and nothing changed, where the queue
    /// is empty.
    #[verifier::rlimit(60)]
    pub fn dequeue(&mut self) -> (p: usize)
        requires
            old(self).wf(),
        ensures
            final(self).wf(),
            final(self).capacity() == old(self).capacity(),
            final(self)@ == without_front(old(self)@),
            match front(old(self)@) {
                Some(w) => p == w,
                None => p == 0,
            },
            old(self)@.len() == 0 ==> *final(self) == *old(self),
            old(self)@.len() > 0 ==> {
                let m = old(self).slots().len() as int;
                let first = old(self).first_slot();
                &&& p == old(self).slots()[first]
                &&& final(self).slots() == old(self).slots().update(
                    first,
                    if p % 2 == 0 {
                        1usize
                    } else {
                        0usize
                    },
                )
                &&& final(self).head() == (if first % 2 == 0 {
                    first
                } else {
                    old(self).head()
                })
                &&& final(self).tail() == (if old(self).tail() == first {
                    wrap(first + 1, m)
                } else {
                    old(self).tail()
                })
                &&& final(self).first_slot() == wrap(first + 1, m)
                &&& final(self).next_slot() == old(self).next_slot()
                &&& final(self).next_free() == old(self).next_free()
            },
    {
        let maxnum = self.maxnum();
        let ghost m = maxnum as int;
        let ghost mut helped = false;
        loop
            invariant
                self.wf(),
                m == maxnum,
                m == self.nodes@.len(),
                self@ == old(self)@,
                self.capacity() == old(self).capacity(),
                self.nodes@ == old(self).nodes@,
                self.head == old(self).head,
                self.lag@ == old(self).lag@,
                self.count@ == old(self).count@,
                !helped ==> *self == *old(self),
                helped ==> self.tail == wrap(old(self).tail + 1, m) && old(self).tail == old(
                    self,
                ).first_slot(),
            decreases self.lag@ + self.count@ + 1 - self.reach@,
        {
            let th = self.head;
            // here is the one we want to dequeue
            let mut temp = next_index(th, maxnum);
            let mut tt = self.nodes[temp];
            let mut consistent = true;
            let ghost mut at: int = 1;
            // find the actual head
            while State::is_free(tt)
                invariant
                    self.wf(),
                    m == maxnum,
                    m == self.nodes@.len(),
                    th == self.head,
                    consistent,
                    1 <= at <= self.lag@ + 1,
                    at <= self.reach@,
                    temp == wrap(self.head + at, m),
                    tt == self.nodes@[temp as int],
                    self@ == old(self)@,
                    self.capacity() == old(self).capacity(),
                    !helped ==> *self == *old(self),
                    helped ==> self@.len() > 0,
                ensures
                    !is_free_word(tt),
                decreases self.reach@ - at,
            {
                proof {
                    assert(steps_from(self.head as int, temp as int, m) == at);
                }
                // check the head's consistency
                if th != self.head {
                    consistent = false;
                    break ;
                }
                // two consecutive free marks up to the tail: empty
                if temp == self.tail {
                    proof {
                        assert(at == self.reach@);
                        assert(self@.len() == 0);
                    }
                    return State::null0();
                }
                temp = next_index(temp, maxnum);
                tt = self.nodes[temp];
                proof {
                    at = at + 1;
                    if at > self.lag@ + 1 {
                        assert(steps_from(self.head as int, temp as int, m) == at);
                    }
                }
            }
            proof {
                assert(steps_from(self.head as int, temp as int, m) == at);
                assert(temp == self.first_slot());
            }
            // check the head's consistency
            if !consistent || th != self.head {
                continue ;
            }
            // the tail is behind: help the enqueue to update it
            if temp == self.tail {
                let after = next_index(temp, maxnum);
                compare_and_swap(&mut self.tail, temp, after);
                proof {
                    self.reach = Ghost(self.reach@ + 1);
                    helped = true;
                }
                assert(self@ =~= old(self)@);
                continue ;
            }
            let tnull = if tt & 1 == 0 {
                State::null1()
            } else {
                State::null0()
            };
            proof {
                lemma_low_bit(tt);
            }
            // check the head's consistency
            if th != self.head {
                continue ;
            }
            let ghost before = *self;
            // take the word out of the actual head
            if compare_and_swap(&mut self.nodes[temp], tt, tnull) == tt {
                proof {
                    self.count = Ghost(self.count@ - 1);
                    self.lag = Ghost(self.lag@ + 1);
                }
                if temp % 2 == 0 {
                    compare_and_swap(&mut self.head, th, temp);
                    proof {
                        self.reach = Ghost(self.reach@ - self.lag@);
                        self.lag = Ghost(0);
                    }
                }
                proof {
                    assert(self.nodes@ == before.nodes@.update(temp as int, tnull));
                    assert forall|i: int| 0 <= i < m implies (is_free_word(
                        #[trigger] self.nodes@[i],
                    ) <==> !(self.lag@ + 1 <= steps_from(self.head as int, i, m) <= self.lag@
                        + self.count@)) by {
                        let s = steps_from(before.head as int, i, m);
                        assert(is_free_word(before.nodes@[i]) <==> !(before.lag@ + 1 <= s
                            <= before.lag@ + before.count@));
                    }
                    assert(self.wf());
                    assert(self@ =~= before@.skip(1));
                    let next = old(self).next_slot();
                    assert(steps_from(before.head as int, next, m) == before.lag@ + before.count@
                        + 1);
                }
                return tt;
            }
        }
    }
}

/// The cell that the stored word `w` stands for.
pub open spec fn cell_of(w: usize) -> int {
    untagged(w) / 2 - 1
}

/// The word that stands for cell `i`.
pub open spec fn word_of(i: int) -> int {
    2 * (i + 1)
}

/// Clearing the lowest bit of a word gives the word that was queued.
pub proof fn lemma_mask_untags(p: usize)
    ensures
        p & !1usize == untagged(p),
{
    assert(p & !1usize == p - p % 2) by (bit_vector);
}

/// A bounded first-in first-out queue of boxed values. Each queued box lies in
/// a cell of its own, and the word queue holds the cells' words in the order
/// in which the boxes were pushed.
pub struct Store<T> {
    state: State,
    cells: Vec<Option<Box<T>>>,
    free: Vec<usize>,
}

impl<T> View for Store<T> {
    type V = Seq<T>;

    /// The queued values, oldest first.
    closed spec fn view(&self) -> Seq<T> {
        Seq::new(self.state@.len(), |j: int| *self.cells@[cell_of(self.state@[j])].unwrap())
    }
}

impl<T> Store<T> {
    /// Every cell is either free, and then listed once among the free cells, or
    /// holds the box of one queued word.
    pub closed spec fn wf(&self) -> bool {
        &&& self.state.wf()
        &&& self.state.capacity() == self.cells@.len()
        &&& 2 * self.cells@.len() + 2 <= usize::MAX
        &&& self.free@.len() + self.state@.len() == self.cells@.len()
        &&& forall|j: int|
            0 <= j < self.free@.len() ==> 0 <= #[trigger] self.free@[j] < self.cells@.len()
                && self.cells@[self.free@[j] as int].is_none()
        &&& forall|j: int, k: int|
            0 <= j < k < self.free@.len() ==> #[trigger] self.free@[j] != #[trigger] self.free@[k]
        &&& forall|j: int|
            0 <= j < self.state@.len() ==> 0 <= cell_of(#[trigger] self.state@[j])
                < self.cells@.len() && self.cells@[cell_of(self.state@[j])].is_some()
        &&& forall|j: int, k: int|
            0 <= j < k < self.state@.len() ==> cell_of(#[trigger] self.state@[j]) != cell_of(
                #[trigger] self.state@[k],
            )
    }

    /// How many values the queue holds at most.
    pub closed spec fn capacity(&self) -> nat {
        self.cells@.len()
    }

    /// The words in the word queue, oldest first: one for each queued value, as
    /// it is stored.
    pub closed spec fn words(&self) -> Seq<usize> {
        self.state@
    }

    /// The cells that hold no box, the one that the next push fills last.
    pub closed spec fn free_cells(&self) -> Seq<usize> {
        self.free@
    }

    /// The word that the next push queues, where a cell is free: the word of
    /// the last free cell, in the form that the word queue stores it in.
    pub closed spec fn next_word(&self) -> usize {
        stored_form(word_of(self.free@.last() as int) as usize, self.state.next_free())
    }

    /// Every cell is free or is the cell of one queued word, and the value of a
    /// queued word lies in its cell.
    pub proof fn lemma_cells(&self)
        requires
            self.wf(),
        ensures
            self.words().len() == self@.len(),
            self.free_cells().len() + self.words().len() == self.capacity(),
            forall|j: int|
                0 <= j < self.words().len() ==> 0 <= cell_of(#[trigger] self.words()[j])
                    < self.capacity(),
            forall|j: int, k: int|
                0 <= j < k < self.words().len() ==> cell_of(#[trigger] self.words()[j]) != cell_of(
                    #[trigger] self.words()[k],
                ),
            forall|j: int|
                0 <= j < self.free_cells().len() ==> #[trigger] self.free_cells()[j]
                    < self.capacity(),
            forall|j: int, k: int|
                0 <= j < k < self.free_cells().len() ==> #[trigger] self.free_cells()[j]
                    != #[trigger] self.free_cells()[k],
            forall|j: int, k: int|
                0 <= j < self.free_cells().len() && 0 <= k < self.words().len()
                    ==> #[trigger] self.free_cells()[j] != cell_of(#[trigger] self.words()[k]),
            self.free_cells().len() > 0 ==> cell_of(self.next_word()) == self.free_cells().last(),
    {
        if self.free@.len() > 0 {
            let i = self.free@.last();
            assert(self.free@[self.free@.len() - 1] == i);
            self.state.lemma_next_free();
            lemma_stored_word(word_of(i as int) as usize, self.state.next_free());
        }
        assert forall|j: int, k: int|
            0 <= j < self.free@.len() && 0 <= k < self.state@.len() implies #[trigger] self.free@[j]
            != cell_of(#[trigger] self.state@[k]) by {
            assert(self.cells@[self.free@[j] as int].is_none());
            assert(self.cells@[cell_of(self.state@[k])].is_some());
        }
    }

    /// The queue never holds more values than its capacity.
    pub proof fn lemma_bounded(&self)
        requires
            self.wf(),
        ensures
            self@.len() <= self.capacity(),
    {
    }

    /// An empty queue of `capacity` values.
    pub fn with_capacity(capacity: usize) -> (s: Self)
        requires
            capacity <= usize::MAX / 2 - 1,
        ensures
            s.wf(),
            s.capacity() == capacity,
            s@ == Seq::<T>::empty(),
    {
        let state = State::with_capacity(capacity);
        let mut cells: Vec<Option<Box<T>>> = Vec::with_capacity(capacity);
        let mut free: Vec<usize> = Vec::with_capacity(capacity);
        let mut i: usize = 0;
        while i < capacity
            invariant
                i <= capacity,
                cells@.len() == i,
                free@.len() == i,
                forall|j: int| 0 <= j < i ==> (#[trigger] cells@[j]).is_none(),
                forall|j: int| 0 <= j < i ==> #[trigger] free@[j] == capacity - 1 - j,
            decreases capacity - i,
        {
            cells.push(None);
            free.push(capacity - 1 - i);
            i = i + 1;
        }
        let s = Store { state, cells, free };
        assert(s@ =~= Seq::<T>::empty());
        s
    }

    /// What a push of `value` makes of the queue `before`, and whether it is
    /// accepted.
    pub open spec fn push_makes(before: Self, after: Self, value: Box<T>, ok: bool) -> bool {
        &&& after.capacity() == before.capacity()
        &&& ok == accepts(before@, Some(before.capacity()))
        &&& after@ == push_back(before@, Some(before.capacity()), *value)
        &&& after.words() == push_back(
            before.words(),
            Some(before.capacity()),
            before.next_word(),
        )
        &&& after.free_cells() == (if ok {
            before.free_cells().drop_last()
        } else {
            before.free_cells()
        })
        &&& !ok ==> after == before
    }

    /// Queues `value` behind the values already queued; false, and `value`
    /// dropped, where the queue is full: see `offer`.
    pub fn push(&mut self, value: Box<T>) -> (ok: bool)
        requires
            old(self).wf(),
        ensures
            final(self).wf(),
            Self::push_makes(*old(self), *final(self), value, ok),
    {
        self.offer(value).is_none()
    }

    /// Queues `value` behind the values already queued: the box goes into the
    /// last free cell, and that cell's word into the word queue. Where the queue
    /// is full nothing changes, and `value` comes back.
    pub fn offer(&mut self, value: Box<T>) -> (refused: Option<Box<T>>)
        requires
            old(self).wf(),
        ensures
            final(self).wf(),
            Self::push_makes(*old(self), *final(self), value, refused.is_none()),
            refused.is_none() || refused == Some(value),
    {
        if self.free.len() == 0 {
            return Some(value);
        }
        let i = match self.free.pop() {
            Some(i) => i,
            None => {
                return Some(value);
            },
        };
        let word = 2 * (i + 1);
        let ghost before = *self;
        self.cells[i] = Some(value);
        self.state.enqueue(word);
        proof {
            let stored = stored_form(word, old(self).state.next_free());
            old(self).state.lemma_next_free();
            lemma_stored_word(word, old(self).state.next_free());
            assert(untagged(stored) == word);
            assert(cell_of(stored) == i);
            assert(self.state@ == old(self).state@.push(stored));
            assert forall|j: int| 0 <= j < self.state@.len() implies 0 <= cell_of(
                #[trigger] self.state@[j],
            ) < self.cells@.len() && self.cells@[cell_of(self.state@[j])].is_some() by {
                if j < old(self).state@.len() {
                    assert(self.state@[j] == old(self).state@[j]);
                }
            }
            assert forall|j: int, k: int| 0 <= j < k < self.state@.len() implies cell_of(
                #[trigger] self.state@[j],
            ) != cell_of(#[trigger] self.state@[k]) by {
                assert(self.state@[j] == old(self).state@[j]);
                if k < old(self).state@.len() {
                    assert(self.state@[k] == old(self).state@[k]);
                }
            }
            assert forall|j: int| 0 <= j < self.free@.len() implies 0 <= #[trigger] self.free@[j]
                < self.cells@.len() && self.cells@[self.free@[j] as int].is_none() by {
                assert(self.free@[j] == old(self).free@[j]);
                assert(old(self).free@[j] != old(self).free@[old(self).free@.len() - 1]);
            }
            assert(self@ =~= old(self)@.push(*value)) by {
                assert forall|j: int| 0 <= j < old(self)@.len() implies self@[j] == old(self)@[j] by {
                    assert(self.state@[j] == old(self).state@[j]);
                }
            }
        }
        None
    }

    /// What a pop makes of the queue `before`, and what it returns.
    pub open spec fn pop_makes(before: Self, after: Self, r: Option<Box<T>>) -> bool {
        &&& after.capacity() == before.capacity()
        &&& after@ == without_front(before@)
        &&& match front(before@) {
            Some(v) => r.is_some() && *r.unwrap() == v,
            None => r.is_none(),
        }
        &&& after.words() == without_front(before.words())
        &&& after.free_cells() == (if r.is_some() {
            before.free_cells().push(cell_of(before.words()[0]) as usize)
        } else {
            before.free_cells()
        })
        &&& r.is_none() ==> after == before
    }

    /// Takes the oldest queued value out and returns it: its word leaves the
    /// word queue, and its cell becomes the last free cell. `None` where the
    /// queue is empty.
    pub fn pop(&mut self) -> (r: Option<Box<T>>)
        requires
            old(self).wf(),
        ensures
            final(self).wf(),
            Self::pop_makes(*old(self), *final(self), r),
    {
        let p = self.state.dequeue();
        if p == State::null0() {
            proof {
                if old(self).state@.len() > 0 {
                    old(self).state.lemma_queued_words(0);
                }
            }
            return None;
        }
        proof {
            lemma_mask_untags(p);
            assert(old(self).state@.len() > 0);
            assert(p == old(self).state@[0]);
        }
        let word = p & !1usize;
        let i = word / 2 - 1;
        let r = self.cells[i].take();
        self.free.push(i);
        proof {
            assert forall|j: int| 0 <= j < self.state@.len() implies 0 <= cell_of(
                #[trigger] self.state@[j],
            ) < self.cells@.len() && self.cells@[cell_of(self.state@[j])].is_some() by {
                assert(self.state@[j] == old(self).state@[j + 1]);
            }
            assert forall|j: int, k: int| 0 <= j < k < self.state@.len() implies cell_of(
                #[trigger] self.state@[j],
            ) != cell_of(#[trigger] self.state@[k]) by {
                assert(self.state@[j] == old(self).state@[j + 1]);
                assert(self.state@[k] == old(self).state@[k + 1]);
            }
            assert forall|j: int| 0 <= j < self.free@.len() implies 0 <= #[trigger] self.free@[j]
                < self.cells@.len() && self.cells@[self.free@[j] as int].is_none() by {
                if j < old(self).free@.len() {
                    assert(self.free@[j] == old(self).free@[j]);
                }
            }
            assert forall|j: int, k: int| 0 <= j < k < self.free@.len() implies #[trigger] self.free@[j]
                != #[trigger] self.free@[k] by {
                assert(self.free@[j] == old(self).free@[j]);
                if k < old(self).free@.len() {
                    assert(self.free@[k] == old(self).free@[k]);
                }
            }
            assert(self@ =~= old(self)@.skip(1)) by {
                assert forall|j: int| 0 <= j < self@.len() implies self@[j] == old(self)@[j + 1] by {
                    assert(self.state@[j] == old(self).state@[j + 1]);
                }
            }
        }
        r
    }
}

impl<T> Valid for Store<T> {
    open spec fn valid(&self) -> bool {
        self.wf()
    }
}

/// `Store::offer` on the store that lies in `place`; `value` comes back also
/// where none lies there.
pub fn offer_in<T>(place: &mut Place<Store<T>>, value: Box<T>) -> (refused: Option<Box<T>>)
    ensures
        refused.is_none() || refused == Some(value),
        match old(place)@ {
            Some(s) => {
                &&& final(place)@.is_some()
                &&& final(place)@.unwrap().wf()
                &&& Store::push_makes(s, final(place)@.unwrap(), value, refused.is_none())
            },
            None => refused == Some(value) && final(place)@.is_none(),
        },
{
    match place.take() {
        Some(mut store) => {
            let refused = store.offer(value);
            place.put(store);
            refused
        },
        None => Some(value),
    }
}

/// `Store::pop` on the store that lies in `place`; `None` where none lies
/// there.
pub fn pop_in<T>(place: &mut Place<Store<T>>) -> (r: Option<Box<T>>)
    ensures
        match old(place)@ {
            Some(s) => {
                &&& final(place)@.is_some()
                &&& final(place)@.unwrap().wf()
                &&& Store::pop_makes(s, final(place)@.unwrap(), r)
            },
            None => r.is_none() && final(place)@.is_none(),
        },
{
    match place.take() {
        Some(mut store) => {
            let r = store.pop();
            place.put(store);
            r
        },
        None => None,
    }
}

/// A handle to a queue of boxed values. Its clones share one queue, which lies
/// behind a lock: a call waits until no other handle is at work on the queue.
#[verifier::reject_recursive_types(T)]
pub struct Queue<T> {
    state: Arc<Mutex<Place<Store<T>>>>,
}

impl<T> Clone for Queue<T> {
    fn clone(&self) -> Self {
        Queue { state: self.state.clone() }
    }
}

impl<T> Queue<T> {
    /// A handle to a new, empty queue of `capacity` values.
    pub fn with_capacity(capacity: usize) -> (q: Self)
        requires
            capacity <= usize::MAX / 2 - 1,
    {
        Queue { state: Arc::new(mutex_new(Place::new(Store::with_capacity(capacity)))) }
    }

    /// Queues `value` in the shared queue as `offer_in` does; false where the
    /// queue is full at that moment. A value that is refused is dropped when the
    /// lock has been given up.
    pub fn push(&mut self, value: Box<T>) -> (ok: bool) {
        let refused = self.offer(value);
        refused.is_none()
    }

    /// Queues `value` in the shared queue as `offer_in` does; `value` comes back
    /// where the queue is full at that moment.
    pub fn offer(&mut self, value: Box<T>) -> (refused: Option<Box<T>>)
        ensures
            refused.is_none() || refused == Some(value),
    {
        let mut guard = mutex_lock(&*self.state);
        offer_in(guard_mut(&mut guard), value)
    }

    /// Takes the oldest value out of the shared queue as `pop_in` does; `None`
    /// where the queue is empty at that moment.
    pub fn pop(&mut self) -> (r: Option<Box<T>>) {
        let mut guard = mutex_lock(&*self.state);
        pop_in(guard_mut(&mut guard))
    }
}

} // verus!
