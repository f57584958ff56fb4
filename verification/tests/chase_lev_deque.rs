use queues::chase_lev_deque::{size_fits, Array, Deque, Handle, NO_BOX};

#[test]
fn chase_lev_deque_test() {
    let mut q = Deque::new(10);
    q.push(Box::new(1));
    assert_eq!(Some(Box::new(1)), q.take());
    assert_eq!(Ok(None), q.steal());
    q.push(Box::new(2));
    assert_eq!(Ok(Some(Box::new(2))), q.steal());
}

#[test]
fn the_last_value_goes_to_one_taker_only() {
    let mut q = Deque::new(2);
    q.push(Box::new(1));
    assert_eq!(Some(Box::new(1)), q.take());
    assert_eq!(Ok(None), q.steal());

    q.push(Box::new(2));
    assert_eq!(Ok(Some(Box::new(2))), q.steal());
    assert_eq!(None, q.take());
    assert_eq!(Ok(None), q.steal());
}

#[test]
fn growth_keeps_every_value() {
    let mut q = Deque::new(2);
    let capacity = q.capacity();
    assert_eq!(capacity, 4);
    for i in 0..capacity * 4 {
        assert!(q.can_push());
        q.push(Box::new(i));
        let grown = if i < 4 { 4 } else if i < 8 { 8 } else { 16 };
        assert_eq!(q.capacity(), grown);
    }
    assert_eq!(q.capacity(), capacity * 4);
    for i in 0..8 {
        assert_eq!(Ok(Some(Box::new(i))), q.steal());
    }
    for i in (8..16).rev() {
        assert_eq!(Some(Box::new(i)), q.take());
    }
    assert_eq!(None, q.take());
    assert_eq!(Ok(None), q.steal());
}

#[test]
fn growth_from_one_slot() {
    let mut q = Deque::new(0);
    for i in 0..100u32 {
        q.push(Box::new(i));
    }
    for i in (0..100u32).rev() {
        assert_eq!(Some(Box::new(i)), q.take());
    }
    assert_eq!(None, q.take());
}

#[test]
fn take_is_last_in_first_out_and_steal_first_in_first_out() {
    let mut q = Deque::new(3);
    for round in 0..50u32 {
        q.push(Box::new(3 * round));
        q.push(Box::new(3 * round + 1));
        q.push(Box::new(3 * round + 2));
        assert_eq!(Some(Box::new(3 * round + 2)), q.take());
        assert_eq!(Ok(Some(Box::new(3 * round))), q.steal());
        assert_eq!(Ok(Some(Box::new(3 * round + 1))), q.steal());
        assert_eq!(Ok(None), q.steal());
        assert_eq!(None, q.take());
    }
}

#[test]
fn empty_take_leaves_the_deque_usable() {
    let mut q: Deque<u8> = Deque::new(1);
    assert_eq!(None, q.take());
    assert_eq!(None, q.take());
    q.push(Box::new(5));
    assert_eq!(Some(Box::new(5)), q.take());
}

#[test]
fn array_slots() {
    let mut a = Array::new(2);
    assert_eq!(a.size(), 4);
    assert_eq!(a.get(1), NO_BOX);
    a.put(5, 50);
    a.put(6, 60);
    assert_eq!(a.get(1), 50);
    assert_eq!(a.get(5), 50);
    assert_eq!(a.get(2), 60);
    a.put(3, 30);
    a.put(4, 40);
    let b = a.grow(3, 5);
    assert_eq!(b.size(), 8);
    assert_eq!(b.get(3), 30);
    assert_eq!(b.get(4), 40);
    assert_eq!(b.get(5), NO_BOX);
    assert_eq!(b.get(6), NO_BOX);
    assert_eq!(b.get(2), NO_BOX);
    // the old array is as it was
    assert_eq!(a.size(), 4);
    assert_eq!(a.get(3), 30);
    assert_eq!(a.get(0), 40);
    assert_eq!(a.get(1), 50);
    assert_eq!(a.get(2), 60);
}

#[test]
fn arrays_that_can_be_had() {
    assert!(size_fits(0));
    assert!(size_fits(30));
    assert!(size_fits(usize::BITS as usize - 2));
    assert!(!size_fits(usize::BITS as usize - 1));
    assert!(!size_fits(64));
    assert!(!size_fits(usize::MAX));
}

#[test]
fn cells_are_used_again() {
    let mut q: Deque<u64> = Deque::new(1);
    for round in 0..10_000u64 {
        q.push(Box::new(round));
        q.push(Box::new(round + 1));
        q.push(Box::new(round + 2));
        assert_eq!(q.steal(), Ok(Some(Box::new(round))));
        assert_eq!(q.take(), Some(Box::new(round + 2)));
        assert_eq!(q.take(), Some(Box::new(round + 1)));
        assert_eq!(q.take(), None);
        assert_eq!(q.steal(), Ok(None));
    }
    assert_eq!(q.capacity(), 4);
}

#[test]
fn handles_share_one_deque() {
    let mut owner: Handle<u32> = Handle::new(10);
    let mut thief = owner.clone();
    assert_eq!(None, owner.push(Box::new(1)));
    assert_eq!(Some(Box::new(1)), owner.take());
    assert_eq!(Ok(None), thief.steal());
    assert_eq!(None, owner.push(Box::new(2)));
    assert_eq!(Ok(Some(Box::new(2))), thief.steal());
    assert_eq!(None, owner.take());
}

#[test]
fn a_million_pairs_with_seven_thieves_lose_nothing() {
    let pairs = 1_000_000usize;
    let mut owner: Handle<usize> = Handle::new(4);
    let mut thieves: Vec<Handle<usize>> = (0..7).map(|_| owner.clone()).collect();
    let mut seen = vec![0u8; pairs];
    let mut stolen = 0usize;
    for i in 0..pairs {
        owner.push(Box::new(i));
        if i % 3 == 0 {
            let thief = &mut thieves[i % 7];
            loop {
                match thief.steal() {
                    Ok(Some(v)) => {
                        seen[*v] += 1;
                        stolen += 1;
                        break;
                    }
                    Ok(None) => break,
                    Err(_) => {}
                }
            }
        }
        if i % 5 != 0 {
            if let Some(v) = owner.take() {
                seen[*v] += 1;
            }
        }
    }
    while let Some(v) = owner.take() {
        seen[*v] += 1;
    }
    assert!(stolen > 0);
    assert!(seen.iter().all(|n| *n == 1));
    assert_eq!(Ok(None), thieves[0].steal());
}

#[test]
fn a_steal_through_a_handle_is_never_refused_for_good() {
    let mut owner: Handle<u8> = Handle::new(1);
    let mut thief = owner.clone();
    for round in 0..100u8 {
        owner.push(Box::new(round));
        match thief.steal() {
            Ok(v) => assert_eq!(v, Some(Box::new(round))),
            Err(again) => assert!(!again),
        }
        let _ = owner.take();
    }
}
