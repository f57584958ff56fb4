//! A queue of linked nodes for one producer and one consumer, which hands back
//! the newest value first.
//!
//! The producer fills the node at `head` and links a new, empty node behind it.
//! The consumer walks from `tail` to `head`, turning each link round as it
//! goes, and then takes the nodes off the turned list one by one. The nodes
//! lie in an arena and are linked by their indices; a node that was taken off
//! is used again.

use vstd::prelude::*;
use std::sync::Arc;
use std::sync::Mutex;
use crate::model::{back, push_back, without_back};
use crate::sync::{guard_mut, mutex_lock, mutex_new, Place, Valid};

verus! {

/// The link of a node that has no node after it.
pub const NIL: usize = usize::MAX;

/// A node: the index of the node it is linked to, and the value that it holds
/// while one is queued in it.
pub struct Node<T> {
    link: usize,
    value: Option<T>,
}

impl<T> Node<T> {
    /// The node is linked to no node and holds no value.
    pub closed spec fn is_blank(&self) -> bool {
        self.link == NIL && self.value.is_none()
    }

    /// A node that is linked to no node and holds no value.
    pub fn new() -> (n: Self)
        ensures
            n.is_blank(),
    {
        Node { link: NIL, value: None }
    }
}

/// The node before position `a` of `order`, where there is one.
pub open spec fn before(order: Seq<usize>, a: int) -> usize {
    if a > 0 {
        order[a - 1]
    } else {
        NIL
    }
}

/// The queue's state: the arena, the nodes that are out of use, and the three
/// cursors.
pub struct State<T> {
    nodes: Vec<Node<T>>,
    spare: Vec<usize>,
    head: usize,
    tail: usize,
    prev: usize,
    /// The nodes in use in the order in which they were filled; the last one
    /// is the empty node at `head`.
    order: Ghost<Seq<usize>>,
    /// How many nodes, from the first on, have had their link turned round.
    turned: Ghost<int>,
}

impl<T> View for State<T> {
    type V = Seq<T>;

    /// The queued values, oldest first.
    closed spec fn view(&self) -> Seq<T> {
        Seq::new(
            (self.order@.len() - 1) as nat,
            |i: int| self.nodes@[self.order@[i] as int].value.unwrap(),
        )
    }
}

impl<T> State<T> {
    /// The nodes of `order` are nodes of the arena, each once. The first `a`
    /// of them are linked each to the one before it, the others each to the one
    /// after it, but for the last, which is linked to none and is empty. All
    /// the others hold a value.
    spec fn linked(nodes: Seq<Node<T>>, order: Seq<usize>, a: int) -> bool {
        let k = order.len() - 1;
        &&& 0 <= a <= k
        &&& forall|i: int| 0 <= i <= k ==> #[trigger] order[i] < nodes.len()
        &&& forall|i: int, j: int| 0 <= i < j <= k ==> #[trigger] order[i] != #[trigger] order[j]
        &&& forall|i: int| 0 <= i < a ==> nodes[#[trigger] order[i] as int].link == before(order, i)
        &&& forall|i: int| a <= i < k ==> nodes[#[trigger] order[i] as int].link == order[i + 1]
        &&& nodes[order[k] as int].link == NIL
        &&& nodes[order[k] as int].value.is_none()
        &&& forall|i: int| 0 <= i < k ==> nodes[#[trigger] order[i] as int].value.is_some()
    }

    /// The spare nodes are nodes of the arena, each once, and none of them is
    /// in use.
    spec fn spare_apart(nodes: Seq<Node<T>>, order: Seq<usize>, spare: Seq<usize>) -> bool {
        &&& forall|j: int| 0 <= j < spare.len() ==> #[trigger] spare[j] < nodes.len()
        &&& forall|j: int, l: int|
            0 <= j < l < spare.len() ==> #[trigger] spare[j] != #[trigger] spare[l]
        &&& forall|j: int, i: int|
            0 <= j < spare.len() && 0 <= i < order.len() ==> #[trigger] spare[j]
                != #[trigger] order[i]
    }

    /// The nodes in use are linked as `linked` says; `head` is the last of
    /// them, `tail` the first whose link is not turned, `prev` the one before
    /// it.
    pub closed spec fn wf(&self) -> bool {
        let order = self.order@;
        &&& State::<T>::linked(self.nodes@, order, self.turned@)
        &&& State::<T>::spare_apart(self.nodes@, order, self.spare@)
        &&& self.head == order[order.len() - 1]
        &&& self.tail == order[self.turned@]
        &&& self.prev == before(order, self.turned@)
    }

    /// The node that the next push fills: the producer's cursor.
    pub closed spec fn head(&self) -> usize {
        self.head
    }

    /// The oldest node whose link is not turned round: the consumer's cursor.
    pub closed spec fn tail(&self) -> usize {
        self.tail
    }

    /// The first node of the turned list, `NIL` where the list is empty.
    pub closed spec fn prev(&self) -> usize {
        self.prev
    }

    /// How many of the queued values lie on the turned list.
    pub closed spec fn turned(&self) -> int {
        self.turned@
    }

    /// The turned list holds no more than the queued values; it is empty
    /// exactly where `prev` is `NIL`, and holds them all exactly where `tail`
    /// stands at `head`.
    pub proof fn lemma_cursors(&self)
        requires
            self.wf(),
        ensures
            0 <= self.turned() <= self@.len(),
            self.turned() == 0 <==> self.prev() == NIL,
            self.turned() == self@.len() <==> self.tail() == self.head(),
    {
        broadcast use vstd::std_specs::vec::axiom_spec_len;

        let order = self.order@;
        let k = order.len() - 1;
        let a = self.turned@;
        assert(self.nodes@.len() == self.nodes.len());
        assert(self@.len() == k);
        if a > 0 {
            assert(order[a - 1] < self.nodes@.len());
            assert(self.prev != NIL);
        }
        if a < k {
            assert(order[a] != order[k]);
            assert(self.tail != self.head);
        }
    }

    /// An empty queue: one empty node, at which both `head` and `tail` stand,
    /// and an empty turned list.
    pub fn new() -> (s: Self)
        ensures
            s.wf(),
            s@ == Seq::<T>::empty(),
            s.head() == s.tail(),
            s.prev() == NIL,
            s.turned() == 0,
    {
        let mut nodes: Vec<Node<T>> = Vec::new();
        nodes.push(Node::new());
        let s = State {
            nodes,
            spare: Vec::new(),
            head: 0,
            tail: 0,
            prev: NIL,
            order: Ghost(Seq::<usize>::empty().push(0)),
            turned: Ghost(0),
        };
        assert(s@ =~= Seq::<T>::empty());
        s
    }

    /// The index of a blank node that is not in use: a spare one, or a new one.
    fn blank_node(&mut self) -> (n: usize)
        requires
            old(self).wf(),
        ensures
            n < final(self).nodes@.len(),
            final(self).nodes@[n as int].is_blank(),
            final(self).nodes@.len() >= old(self).nodes@.len(),
            forall|i: int|
                0 <= i < old(self).nodes@.len() && i != n ==> #[trigger] final(self).nodes@[i]
                    == old(self).nodes@[i],
            forall|i: int| 0 <= i < old(self).order@.len() ==> n != #[trigger] old(self).order@[i],
            State::<T>::spare_apart(
                final(self).nodes@,
                old(self).order@.push(n),
                final(self).spare@,
            ),
            final(self).head == old(self).head,
            final(self).tail == old(self).tail,
            final(self).prev == old(self).prev,
            final(self).order@ == old(self).order@,
            final(self).turned@ == old(self).turned@,
    {
        match self.spare.pop() {
            Some(n) => {
                self.nodes[n] = Node::new();
                proof {
                    let last = old(self).spare@.len() - 1;
                    assert(old(self).spare@[last] == n);
                    assert forall|j: int| 0 <= j < self.spare@.len() implies #[trigger] self.spare@[j]
                        != n by {
                        assert(self.spare@[j] == old(self).spare@[j]);
                    }
                    assert forall|j: int, i: int|
                        0 <= j < self.spare@.len() && 0 <= i < old(self).order@.push(
                            n,
                        ).len() implies #[trigger] self.spare@[j] != #[trigger] old(
                        self,
                    ).order@.push(n)[i] by {
                        assert(self.spare@[j] == old(self).spare@[j]);
                        if i < old(self).order@.len() {
                            assert(old(self).order@.push(n)[i] == old(self).order@[i]);
                        }
                    }
                }
                n
            },
            None => {
                let n = self.nodes.len();
                self.nodes.push(Node::new());
                proof {
                    assert forall|i: int| 0 <= i < old(self).order@.len() implies n != #[trigger] old(
                        self,
                    ).order@[i] by {
                        assert(old(self).order@[i] < old(self).nodes@.len());
                    }
                }
                n
            },
        }
    }

    /// What a push of `value` makes of the queue `before`.
    pub open spec fn push_makes(before: Self, after: Self, value: T) -> bool {
        &&& after@ == push_back(before@, None, value)
        &&& after.head() != before.head()
        &&& after.tail() == before.tail()
        &&& after.prev() == before.prev()
        &&& after.turned() == before.turned()
    }

    /// Queues `value` as the newest value: it fills the node at `head`, and
    /// `head` moves to a node that was not in use. The consumer's cursors and the
    /// turned list stay.
    pub fn push(&mut self, value: T)
        requires
            old(self).wf(),
        ensures
            final(self).wf(),
            Self::push_makes(*old(self), *final(self), value),
    {
        let n = self.blank_node();
        let ghost mid = self.nodes@;
        let ghost order = self.order@;
        let ghost k = order.len() - 1;
        let head = self.head;
        self.nodes[head].value = Some(value);
        self.nodes[head].link = n;
        self.head = n;
        proof {
            self.order = Ghost(order.push(n));
            let grown = order.push(n);
            assert forall|i: int| 0 <= i <= k implies grown[i] == order[i] && self.nodes@[order[i] as int].link
                == (if i == k {
                n
            } else {
                old(self).nodes@[order[i] as int].link
            }) by {
                assert(order[i] != n);
            }
            assert(State::<T>::linked(self.nodes@, grown, self.turned@)) by {
                assert forall|i: int, j: int| 0 <= i < j <= k + 1 implies #[trigger] grown[i]
                    != #[trigger] grown[j] by {
                    assert(grown[i] == order[i]);
                    if j <= k {
                        assert(grown[j] == order[j]);
                    }
                }
                assert forall|i: int| 0 <= i < self.turned@ implies self.nodes@[#[trigger] grown[i] as int].link
                    == before(grown, i) by {
                    assert(grown[i] == order[i]);
                    if i > 0 {
                        assert(grown[i - 1] == order[i - 1]);
                    }
                }
                assert forall|i: int| self.turned@ <= i < k + 1 implies self.nodes@[#[trigger] grown[i] as int].link
                    == grown[i + 1] by {
                    assert(grown[i] == order[i]);
                    if i < k {
                        assert(grown[i + 1] == order[i + 1]);
                    }
                }
                assert forall|i: int| 0 <= i < k + 1 implies self.nodes@[#[trigger] grown[i] as int].value.is_some() by {
                    assert(grown[i] == order[i]);
                }
                assert forall|i: int| 0 <= i <= k + 1 implies #[trigger] grown[i]
                    < self.nodes@.len() by {
                    if i <= k {
                        assert(grown[i] == order[i]);
                    }
                }
            }
            assert(self@ =~= old(self)@.push(value)) by {
                assert forall|i: int| 0 <= i < k implies self@[i] == old(self)@[i] by {
                    assert(grown[i] == order[i]);
                }
            }
        }
    }

    /// Turns round the links of the nodes from `tail` up to `head`, so that all
    /// the nodes that hold a value are on the turned list, the newest first.
    fn turn_links(&mut self)
        requires
            old(self).wf(),
        ensures
            final(self).wf(),
            final(self)@ == old(self)@,
            final(self).order@ == old(self).order@,
            final(self).turned@ == old(self).order@.len() - 1,
            final(self).head == old(self).head,
            old(self).turned@ == old(self).order@.len() - 1 ==> *final(self) == *old(self),
    {
        let ghost order = self.order@;
        let ghost k = order.len() - 1;
        let arena = self.nodes.len();
        let mut next = self.nodes[self.tail].link;
        proof {
            if self.turned@ < k {
                assert(self.nodes@[order[self.turned@] as int].link == order[self.turned@ + 1]);
                assert(order[self.turned@ + 1] < arena);
            }
        }
        if next != NIL {
            let mut cur = self.tail;
            let mut prev = self.prev;
            let ghost mut a = self.turned@;
            loop
                invariant_except_break
                    a < k,
                    next == order[a + 1],
                invariant
                    order == old(self).order@,
                    k == order.len() - 1,
                    self.order@ == order,
                    State::<T>::linked(self.nodes@, order, a),
                    State::<T>::spare_apart(self.nodes@, order, self.spare@),
                    self.head == order[k],
                    cur == order[a],
                    prev == before(order, a),
                    arena == self.nodes@.len(),
                    forall|i: int|
                        0 <= i < self.nodes@.len() ==> (#[trigger] self.nodes@[i]).value == old(
                            self,
                        ).nodes@[i].value,
                ensures
                    a == k,
                decreases k - a,
            {
                let ghost before_turn = self.nodes@;
                self.nodes[cur].link = prev;
                prev = cur;
                cur = next;
                next = self.nodes[cur].link;
                proof {
                    assert forall|i: int| 0 <= i <= k && i != a implies self.nodes@[#[trigger] order[i] as int]
                        == before_turn[order[i] as int] by {
                        assert(order[i] != order[a]);
                    }
                    a = a + 1;
                    assert(State::<T>::linked(self.nodes@, order, a)) by {
                        assert forall|i: int| 0 <= i < a implies self.nodes@[#[trigger] order[i] as int].link
                            == before(order, i) by {
                            if i < a - 1 {
                                assert(before_turn[order[i] as int].link == before(order, i));
                            }
                        }
                        assert forall|i: int| a <= i < k implies self.nodes@[#[trigger] order[i] as int].link
                            == order[i + 1] by {
                            assert(before_turn[order[i] as int].link == order[i + 1]);
                        }
                        assert forall|i: int| 0 <= i < k implies self.nodes@[#[trigger] order[i] as int].value.is_some() by {
                            assert(before_turn[order[i] as int].value.is_some());
                        }
                    }
                    if a < k {
                        assert(self.nodes@[order[a] as int].link == order[a + 1]);
                        assert(order[a + 1] < arena);
                    }
                }
                if next == NIL {
                    break ;
                }
            }
            self.tail = cur;
            self.prev = prev;
            proof {
                self.turned = Ghost(a);
            }
        }
        assert(self@ =~= old(self)@);
    }

    /// Takes the first node off the turned list and returns its value; `None`
    /// where the list is empty.
    fn take_turned(&mut self) -> (r: Option<T>)
        requires
            old(self).wf(),
            old(self).turned@ == old(self).order@.len() - 1,
        ensures
            final(self).wf(),
            r == back(old(self)@),
            final(self)@ == without_back(old(self)@),
            final(self).head == old(self).head,
            final(self).turned@ == final(self).order@.len() - 1,
            r.is_none() ==> *final(self) == *old(self),
    {
        let ghost order = self.order@;
        let ghost k = order.len() - 1;
        let arena = self.nodes.len();
        if self.prev == NIL {
            proof {
                if k > 0 {
                    assert(order[k - 1] < arena);
                }
            }
            return None;
        }
        let n = self.prev;
        let ghost mid = self.nodes@;
        let ghost was = self.spare@;
        self.prev = self.nodes[n].link;
        let r = self.nodes[n].value.take();
        self.spare.push(n);
        proof {
            let rest = order.remove(k - 1);
            self.order = Ghost(rest);
            self.turned = Ghost(k - 1);
            assert(self.spare@ == was.push(n));
            assert(n == order[k - 1]);
            assert forall|i: int| 0 <= i < k implies #[trigger] rest[i] == (if i < k - 1 {
                order[i]
            } else {
                order[k]
            }) by {}
            assert forall|i: int| 0 <= i <= k && i != k - 1 implies self.nodes@[#[trigger] order[i] as int]
                == mid[order[i] as int] by {
                assert(order[i] != order[k - 1]);
            }
            assert(State::<T>::linked(self.nodes@, rest, k - 1)) by {
                assert forall|i: int, j: int| 0 <= i < j <= k - 1 implies #[trigger] rest[i]
                    != #[trigger] rest[j] by {
                    let oi = if i < k - 1 { i } else { k };
                    let oj = if j < k - 1 { j } else { k };
                    assert(order[oi] != order[oj]);
                }
                assert forall|i: int| 0 <= i < k - 1 implies self.nodes@[#[trigger] rest[i] as int].link
                    == before(rest, i) by {
                    assert(mid[order[i] as int].link == before(order, i));
                    if i > 0 {
                        assert(rest[i - 1] == order[i - 1]);
                    }
                }
                assert forall|i: int| 0 <= i < k - 1 implies self.nodes@[#[trigger] rest[i] as int].value.is_some() by {
                    assert(mid[order[i] as int].value.is_some());
                }
                assert forall|i: int| 0 <= i <= k - 1 implies #[trigger] rest[i]
                    < self.nodes@.len() by {
                    let oi = if i < k - 1 { i } else { k };
                    assert(order[oi] < self.nodes@.len());
                }
                assert(self.nodes@[rest[k - 1] as int] == mid[order[k] as int]);
            }
            assert(State::<T>::spare_apart(self.nodes@, rest, self.spare@)) by {
                assert forall|j: int| 0 <= j < self.spare@.len() implies #[trigger] self.spare@[j]
                    < self.nodes@.len() by {
                    if j < was.len() {
                        assert(self.spare@[j] == was[j]);
                    }
                }
                assert forall|j: int, l: int| 0 <= j < l < self.spare@.len() implies #[trigger] self.spare@[j]
                    != #[trigger] self.spare@[l] by {
                    assert(self.spare@[j] == was[j]);
                    if l < was.len() {
                        assert(self.spare@[l] == was[l]);
                    } else {
                        assert(was[j] != order[k - 1]);
                    }
                }
                assert forall|j: int, i: int|
                    0 <= j < self.spare@.len() && 0 <= i < rest.len() implies #[trigger] self.spare@[j]
                    != #[trigger] rest[i] by {
                    let oi = if i < k - 1 { i } else { k };
                    if j < was.len() {
                        assert(self.spare@[j] == was[j]);
                        assert(was[j] != order[oi]);
                    } else {
                        assert(order[k - 1] != order[oi]);
                    }
                }
            }
            assert(self.prev == before(rest, k - 1)) by {
                assert(mid[order[k - 1] as int].link == before(order, k - 1));
                if k - 1 > 0 {
                    assert(rest[k - 2] == order[k - 2]);
                }
            }
            assert(self@ =~= old(self)@.drop_last()) by {
                assert forall|i: int| 0 <= i < k - 1 implies self@[i] == old(self)@[i] by {
                    assert(rest[i] == order[i]);
                }
            }
        }
        r
    }

    /// What a pop makes of the queue `before`, and what it returns.
    pub open spec fn pop_makes(before: Self, after: Self, r: Option<T>) -> bool {
        &&& r == back(before@)
        &&& after@ == without_back(before@)
        &&& after.head() == before.head()
        &&& after.tail() == before.head()
        &&& after.turned() == after@.len()
        &&& r.is_none() ==> after == before
    }

    /// Takes the newest queued value out and returns it; `None` where the queue
    /// is empty. The links from `tail` up to `head` are turned round first, so
    /// that `tail` comes to stand at `head`, which stays, and all the values
    /// that are left lie on the turned list.
    pub fn pop(&mut self) -> (r: Option<T>)
        requires
            old(self).wf(),
        ensures
            final(self).wf(),
            Self::pop_makes(*old(self), *final(self), r),
    {
        self.turn_links();
        self.take_turned()
    }
}

impl<T> Valid for State<T> {
    open spec fn valid(&self) -> bool {
        self.wf()
    }
}

/// `State::push` on the state that lies in `place`; `value` comes back where
/// none lies there.
pub fn push_in<T>(place: &mut Place<State<T>>, value: T) -> (lost: Option<T>)
    ensures
        match old(place)@ {
            Some(s) => {
                &&& lost.is_none()
                &&& final(place)@.is_some()
                &&& final(place)@.unwrap().wf()
                &&& State::push_makes(s, final(place)@.unwrap(), value)
            },
            None => lost == Some(value) && final(place)@.is_none(),
        },
{
    match place.take() {
        Some(mut state) => {
            state.push(value);
            place.put(state);
            None
        },
        None => Some(value),
    }
}

/// `State::pop` on the state that lies in `place`; `None` where none lies
/// there.
pub fn pop_in<T>(place: &mut Place<State<T>>) -> (r: Option<T>)
    ensures
        match old(place)@ {
            Some(s) => {
                &&& final(place)@.is_some()
                &&& final(place)@.unwrap().wf()
                &&& State::pop_makes(s, final(place)@.unwrap(), r)
            },
            None => r.is_none() && final(place)@.is_none(),
        },
{
    match place.take() {
        Some(mut state) => {
            let r = state.pop();
            place.put(state);
            r
        },
        None => None,
    }
}

/// A handle to a queue. Its clones share one queue, which lies behind a lock:
/// one of them is the producer's, one the consumer's, and a call waits until
/// the other is not at work on the queue.
#[verifier::reject_recursive_types(T)]
pub struct Queue<T> {
    state: Arc<Mutex<Place<State<T>>>>,
}

impl<T> Clone for Queue<T> {
    fn clone(&self) -> Self {
        Queue { state: self.state.clone() }
    }
}

impl<T> Queue<T> {
    /// A handle to a new, empty queue.
    pub fn new() -> (q: Self) {
        Queue { state: Arc::new(mutex_new(Place::new(State::new()))) }
    }

    /// Queues `value` in the shared queue as `push_in` does. A value that found
    /// no queue is dropped when the lock has been given up.
    pub fn push(&mut self, value: T) {
        let lost = self.offer(value);
    }

    /// Queues `value` in the shared queue as `push_in` does; `value` comes back
    /// where it found no queue.
    pub fn offer(&mut self, value: T) -> (lost: Option<T>)
        ensures
            lost.is_none() || lost == Some(value),
    {
        let mut guard = mutex_lock(&*self.state);
        push_in(guard_mut(&mut guard), value)
    }

    /// Takes the newest value out of the shared queue as `pop_in` does; `None`
    /// where the queue is empty at that moment.
    pub fn pop(&mut self) -> (r: Option<T>) {
        let mut guard = mutex_lock(&*self.state);
        pop_in(guard_mut(&mut guard))
    }
}

} // verus!
