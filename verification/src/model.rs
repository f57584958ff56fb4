//! The disciplines by which the queues hand their values back, as functions on
//! the sequence of queued values (oldest first), and what holds of them.

use vstd::prelude::*;

verus! {

/// Whether a queue holding `q` takes one more value; `bound` is its capacity,
/// if it has one.
pub open spec fn accepts<T>(q: Seq<T>, bound: Option<nat>) -> bool {
    match bound {
        Some(n) => q.len() < n,
        None => true,
    }
}

/// The queue after a push of `x`: `x` is the newest value, unless the queue was
/// full.
pub open spec fn push_back<T>(q: Seq<T>, bound: Option<nat>, x: T) -> Seq<T> {
    if accepts(q, bound) {
        q.push(x)
    } else {
        q
    }
}

/// The oldest value, which a first-in first-out pop or a steal returns.
pub open spec fn front<T>(q: Seq<T>) -> Option<T> {
    if q.len() == 0 {
        None
    } else {
        Some(q[0])
    }
}

/// The queue after its oldest value has left it.
pub open spec fn without_front<T>(q: Seq<T>) -> Seq<T> {
    if q.len() == 0 {
        q
    } else {
        q.skip(1)
    }
}

/// The newest value, which a last-in first-out pop returns.
pub open spec fn back<T>(q: Seq<T>) -> Option<T> {
    if q.len() == 0 {
        None
    } else {
        Some(q.last())
    }
}

/// The queue after its newest value has left it.
pub open spec fn without_back<T>(q: Seq<T>) -> Seq<T> {
    if q.len() == 0 {
        q
    } else {
        q.drop_last()
    }
}

/// One call on a queue.
pub enum Op<T> {
    /// A push of a value.
    Push(T),
    /// A pop that takes the oldest value, or a steal.
    PopFront,
    /// A pop that takes the newest value.
    PopBack,
}

/// What a sequence of calls has made of a queue: what it holds, the values
/// that its pushes took, and the values that its pops gave.
pub struct Run<T> {
    pub queue: Seq<T>,
    pub given: Seq<T>,
    pub taken: Seq<T>,
}

/// The run after one more call.
pub open spec fn step<T>(r: Run<T>, bound: Option<nat>, op: Op<T>) -> Run<T> {
    match op {
        Op::Push(x) => Run {
            queue: push_back(r.queue, bound, x),
            given: if accepts(r.queue, bound) {
                r.given.push(x)
            } else {
                r.given
            },
            taken: r.taken,
        },
        Op::PopFront => Run {
            queue: without_front(r.queue),
            given: r.given,
            taken: match front(r.queue) {
                Some(v) => r.taken.push(v),
                None => r.taken,
            },
        },
        Op::PopBack => Run {
            queue: without_back(r.queue),
            given: r.given,
            taken: match back(r.queue) {
                Some(v) => r.taken.push(v),
                None => r.taken,
            },
        },
    }
}

/// The run of the calls `ops`, in their order, on a queue that starts empty.
pub open spec fn run<T>(bound: Option<nat>, ops: Seq<Op<T>>) -> Run<T>
    decreases ops.len(),
{
    if ops.len() == 0 {
        Run { queue: Seq::empty(), given: Seq::empty(), taken: Seq::empty() }
    } else {
        step(run(bound, ops.drop_last()), bound, ops.last())
    }
}

/// The queue after pushes of the values `xs`, in their order.
pub open spec fn after_pushes<T>(q: Seq<T>, bound: Option<nat>, xs: Seq<T>) -> Seq<T>
    decreases xs.len(),
{
    if xs.len() == 0 {
        q
    } else {
        push_back(after_pushes(q, bound, xs.drop_last()), bound, xs.last())
    }
}

/// The queue after `n` pops of its oldest value.
pub open spec fn after_front_pops<T>(q: Seq<T>, n: nat) -> Seq<T>
    decreases n,
{
    if n == 0 {
        q
    } else {
        without_front(after_front_pops(q, (n - 1) as nat))
    }
}

/// The queue after `n` pops of its newest value.
pub open spec fn after_back_pops<T>(q: Seq<T>, n: nat) -> Seq<T>
    decreases n,
{
    if n == 0 {
        q
    } else {
        without_back(after_back_pops(q, (n - 1) as nat))
    }
}

/// Conservation: whatever the calls, the values that the pushes took are, each
/// as often as it was taken, the values that the pops gave together with the
/// values still queued.
pub proof fn law_conservation<T>(bound: Option<nat>, ops: Seq<Op<T>>)
    ensures
        run(bound, ops).given.to_multiset() == run(bound, ops).taken.to_multiset().add(
            run(bound, ops).queue.to_multiset(),
        ),
    decreases ops.len(),
{
    broadcast use vstd::seq_lib::group_to_multiset_ensures;

    let r = run(bound, ops);
    if ops.len() == 0 {
        assert(r.given.to_multiset() =~= r.taken.to_multiset().add(r.queue.to_multiset()));
    } else {
        let before = run(bound, ops.drop_last());
        law_conservation(bound, ops.drop_last());
        let q = before.queue;
        match ops.last() {
            Op::Push(x) => {
                assert(r.given.to_multiset() =~= r.taken.to_multiset().add(r.queue.to_multiset()));
            },
            Op::PopFront => {
                if q.len() > 0 {
                    assert(q.skip(1) =~= q.remove(0));
                    assert(q.to_multiset().count(q[0]) > 0);
                }
                assert(r.given.to_multiset() =~= r.taken.to_multiset().add(r.queue.to_multiset()));
            },
            Op::PopBack => {
                if q.len() > 0 {
                    assert(q.drop_last() =~= q.remove(q.len() - 1));
                    assert(q.to_multiset().count(q.last()) > 0);
                }
                assert(r.given.to_multiset() =~= r.taken.to_multiset().add(r.queue.to_multiset()));
            },
        }
    }
}

/// No value comes back more often than it was pushed.
pub proof fn law_nothing_comes_back_twice<T>(bound: Option<nat>, ops: Seq<Op<T>>, v: T)
    ensures
        run(bound, ops).taken.to_multiset().count(v) <= run(bound, ops).given.to_multiset().count(v),
{
    law_conservation(bound, ops);
}

/// Non-invention: every value that a pop gave was taken by a push.
pub proof fn law_non_invention<T>(bound: Option<nat>, ops: Seq<Op<T>>, v: T)
    requires
        run(bound, ops).taken.contains(v),
    ensures
        run(bound, ops).given.contains(v),
{
    broadcast use vstd::seq_lib::group_to_multiset_ensures;

    law_conservation(bound, ops);
    assert(run(bound, ops).taken.to_multiset().count(v) > 0);
    assert(run(bound, ops).given.to_multiset().count(v) > 0);
}

/// A pop of the newest value right after a push that was accepted gives the
/// pushed value and leaves the queue as it was before the push.
pub proof fn law_push_then_pop_back<T>(q: Seq<T>, bound: Option<nat>, x: T)
    requires
        accepts(q, bound),
    ensures
        back(push_back(q, bound, x)) == Some(x),
        without_back(push_back(q, bound, x)) == q,
{
    assert(q.push(x).drop_last() =~= q);
}

/// A pop of the oldest value right after a push onto an empty queue gives the
/// pushed value and leaves the queue empty.
pub proof fn law_push_then_pop_front<T>(bound: Option<nat>, x: T)
    requires
        accepts(Seq::<T>::empty(), bound),
    ensures
        front(push_back(Seq::<T>::empty(), bound, x)) == Some(x),
        without_front(push_back(Seq::<T>::empty(), bound, x)) == Seq::<T>::empty(),
{
    assert(Seq::<T>::empty().push(x).skip(1) =~= Seq::<T>::empty());
}

/// The last value of a deque goes to one taker only: after a pop of the newest
/// value nothing is left to steal, and after a steal nothing is left to pop.
pub proof fn law_last_value_goes_once<T>(x: T)
    ensures
        back(seq![x]) == Some(x),
        front(without_back(seq![x])).is_none(),
        front(seq![x]) == Some(x),
        back(without_front(seq![x])).is_none(),
{
}

/// Pushes onto a queue with room for them all queue the values in the order of
/// the pushes, behind what was queued.
pub proof fn law_pushes_queue_in_order<T>(q: Seq<T>, bound: Option<nat>, xs: Seq<T>)
    requires
        match bound {
            Some(n) => q.len() + xs.len() <= n,
            None => true,
        },
    ensures
        after_pushes(q, bound, xs) == q + xs,
    decreases xs.len(),
{
    if xs.len() == 0 {
        assert(q + xs =~= q);
    } else {
        law_pushes_queue_in_order(q, bound, xs.drop_last());
        assert((q + xs.drop_last()).push(xs.last()) =~= q + xs);
    }
}

/// First in, first out: the pops of the oldest value give the queued values in
/// the order in which they were pushed, and then nothing.
pub proof fn law_front_pops_in_push_order<T>(q: Seq<T>, i: nat)
    ensures
        after_front_pops(q, i) == (if i <= q.len() {
            q.skip(i as int)
        } else {
            Seq::<T>::empty()
        }),
        i < q.len() ==> front(after_front_pops(q, i)) == Some(q[i as int]),
        i >= q.len() ==> front(after_front_pops(q, i)).is_none(),
    decreases i,
{
    if i == 0 {
        assert(q.skip(0) =~= q);
    } else {
        law_front_pops_in_push_order(q, (i - 1) as nat);
        if i <= q.len() {
            assert(q.skip(i - 1).skip(1) =~= q.skip(i as int));
        } else if i - 1 == q.len() {
            assert(q.skip(i - 1) =~= Seq::<T>::empty());
        }
    }
}

/// Last in, first out: the pops of the newest value give the queued values in
/// the reverse of the order in which they were pushed, and then nothing.
pub proof fn law_back_pops_in_reverse_order<T>(q: Seq<T>, i: nat)
    ensures
        after_back_pops(q, i) == (if i <= q.len() {
            q.take(q.len() - i)
        } else {
            Seq::<T>::empty()
        }),
        i < q.len() ==> back(after_back_pops(q, i)) == Some(q[q.len() - 1 - i]),
        i >= q.len() ==> back(after_back_pops(q, i)).is_none(),
    decreases i,
{
    if i == 0 {
        assert(q.take(q.len() as int) =~= q);
    } else {
        law_back_pops_in_reverse_order(q, (i - 1) as nat);
        if i <= q.len() {
            assert(q.take(q.len() - (i - 1)).drop_last() =~= q.take(q.len() - i));
        } else if i - 1 == q.len() {
            assert(q.take(0) =~= Seq::<T>::empty());
        }
    }
}

/// A bounded queue holds its capacity and no more: pushes onto an empty queue
/// are accepted until as many values are queued as the bound says, and the next
/// one is refused.
pub proof fn law_bound_is_exact<T>(bound: nat, xs: Seq<T>, x: T)
    requires
        xs.len() == bound,
    ensures
        after_pushes(Seq::<T>::empty(), Some(bound), xs) == xs,
        !accepts(after_pushes(Seq::<T>::empty(), Some(bound), xs), Some(bound)),
        push_back(after_pushes(Seq::<T>::empty(), Some(bound), xs), Some(bound), x) == xs,
{
    law_pushes_queue_in_order(Seq::<T>::empty(), Some(bound), xs);
    assert(Seq::<T>::empty() + xs =~= xs);
}

} // verus!
