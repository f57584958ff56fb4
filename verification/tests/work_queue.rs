use queues::work_queue::{Deque, State};

#[test]
fn work_queue_test() {
    let mut q = Deque::with_capacity(10);
    q.push(1);
    assert_eq!(Some(1), q.pop());
    assert_eq!(None, q.steal());
    q.push(2);
    assert_eq!(Some(2), q.steal());
}

#[test]
fn test_grow() {
    let mut q = Deque::with_capacity(2);
    q.push(1);
    assert_eq!(Some(1), q.pop());
    assert_eq!(None, q.steal());
    q.push(2);
    assert_eq!(Some(2), q.steal());
    q.push(3);
    q.push(4);
    assert_eq!(Some(4), q.pop());
    assert_eq!(Some(3), q.pop());
    assert_eq!(None, q.steal());
}

#[test]
fn the_array_doubles_when_one_slot_is_left() {
    let mut s: State<u32> = State::with_capacity(2);
    assert_eq!(s.capacity(), 2);
    s.push(1);
    assert_eq!(s.capacity(), 2);
    assert_eq!(s.pop(), Some(1));
    assert_eq!(s.steal(), None);
    s.push(2);
    assert_eq!(s.steal(), Some(2));
    s.push(3);
    assert_eq!(s.capacity(), 2);
    s.push(4);
    assert_eq!(s.capacity(), 4);
    s.push(5);
    assert_eq!(s.capacity(), 4);
    s.push(6);
    assert_eq!(s.capacity(), 8);
    assert_eq!(s.pop(), Some(6));
    assert_eq!(s.steal(), Some(3));
    assert_eq!(s.pop(), Some(5));
    assert_eq!(s.pop(), Some(4));
    assert_eq!(s.pop(), None);
    assert_eq!(s.capacity(), 8);

    assert_eq!(State::<u8>::with_capacity(2).capacity(), 2);
    assert_eq!(State::<u8>::with_capacity(3).capacity(), 4);
    assert_eq!(State::<u8>::with_capacity(10).capacity(), 16);
}

#[test]
fn state_grows_and_keeps_order() {
    let mut s: State<u32> = State::with_capacity(2);
    assert!(s.is_empty());
    for i in 0..100u32 {
        assert!(s.can_push());
        s.push(i);
        assert_eq!(s.len(), i as usize + 1);
    }
    assert!(!s.is_empty());
    for i in 0..40u32 {
        assert_eq!(s.steal(), Some(i));
    }
    for i in (40..100u32).rev() {
        assert_eq!(s.pop(), Some(i));
    }
    assert_eq!(s.pop(), None);
    assert_eq!(s.steal(), None);
    assert!(s.is_empty());
    assert_eq!(s.len(), 0);
}

#[test]
fn state_runs_round_its_ring() {
    let mut s: State<u64> = State::with_capacity(4);
    let mut pushed = 0u64;
    let mut stolen = 0u64;
    for _ in 0..1000 {
        s.push(pushed);
        pushed += 1;
        s.push(pushed);
        pushed += 1;
        assert_eq!(s.steal(), Some(stolen));
        stolen += 1;
        assert_eq!(s.steal(), Some(stolen));
        stolen += 1;
        assert_eq!(s.steal(), None);
        assert_eq!(s.pop(), None);
    }
}

#[test]
fn pop_of_an_empty_deque_after_steals() {
    let mut s: State<u8> = State::with_capacity(8);
    s.push(1);
    s.push(2);
    assert_eq!(s.steal(), Some(1));
    assert_eq!(s.steal(), Some(2));
    assert_eq!(s.pop(), None);
    s.push(3);
    assert_eq!(s.pop(), Some(3));
}

#[test]
fn work_queue_clones_share_one_deque() {
    let mut owner: Deque<u32> = Deque::with_capacity(2);
    let mut thief = owner.clone();
    assert!(owner.is_empty());
    owner.push(7);
    owner.push(8);
    owner.push(9);
    assert_eq!(thief.len(), 3);
    assert!(!thief.is_empty());
    assert_eq!(thief.steal(), Some(7));
    assert_eq!(owner.pop(), Some(9));
    assert_eq!(thief.steal(), Some(8));
    assert_eq!(thief.steal(), None);
}

#[test]
fn the_length_stays_below_the_largest_array() {
    let mut q: Deque<u32> = Deque::with_capacity(2);
    assert_eq!(q.len(), 0);
    for i in 0..1000u32 {
        q.push(i);
        assert_eq!(q.len(), i as usize + 1);
        assert!(q.len() < 0x4000_0000);
    }
}

#[test]
fn a_deque_made_for_one_value_has_one_slot() {
    let mut s: State<u32> = State::with_capacity(1);
    assert_eq!(s.capacity(), 1);
    assert_eq!(s.len(), 0);
    assert!(s.is_empty());
    assert_eq!(s.pop(), None);
    assert_eq!(s.steal(), None);
    s.push(7);
    assert_eq!(s.capacity(), 2);
    assert_eq!(s.len(), 1);
    s.push(8);
    assert_eq!(s.capacity(), 4);
    assert_eq!(s.steal(), Some(7));
    assert_eq!(s.pop(), Some(8));
    assert_eq!(s.pop(), None);

    assert_eq!(State::<u8>::with_capacity(0).capacity(), 1);

    let mut q: Deque<u32> = Deque::with_capacity(1);
    assert_eq!(q.push(1), None);
    assert_eq!(q.push(2), None);
    assert_eq!(q.len(), 2);
    assert_eq!(q.steal(), Some(1));
    assert_eq!(q.pop(), Some(2));
}
