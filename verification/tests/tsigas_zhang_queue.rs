use queues::tsigas_zhang_queue::{Queue, State, Store};

#[test]
fn tsigas_zhang_queue_test() {
    let nthreads = 8usize;
    let nmsgs = 1000000usize;
    let mut q = Queue::with_capacity(nthreads * nmsgs);
    assert_eq!(None, q.pop());

    for _ in 0..nthreads {
        let mut q = q.clone();
        for i in 0..nmsgs {
            assert!(q.push(Box::new(i)));
        }
    }

    let mut completed = vec![];
    for _ in 0..nthreads {
        let mut q = q.clone();
        let mut i = 0usize;
        loop {
            match q.pop() {
                None => {}
                Some(_) => {
                    i += 1;
                    if i == nmsgs {
                        break;
                    }
                }
            }
        }
        completed.push(i);
    }

    for count in completed.iter() {
        assert_eq!(nmsgs, *count);
    }
}

#[test]
fn queue_of_ten_fills_and_drains_in_order() {
    let mut q = Queue::with_capacity(10);
    assert_eq!(None, q.pop());

    for i in 0..10 {
        assert!(q.push(Box::new(i)));
    }

    assert!(!q.push(Box::new(0)));

    for i in 0..10 {
        assert_eq!(Some(Box::new(i)), q.pop());
    }

    assert_eq!(None, q.pop());
}

#[test]
fn clones_share_one_queue() {
    let mut a: Queue<u32> = Queue::with_capacity(4);
    let mut b = a.clone();
    assert!(a.push(Box::new(7)));
    assert_eq!(Some(Box::new(7)), b.pop());
    assert_eq!(None, a.pop());
}

#[test]
fn state_marks_and_helpers() {
    assert_eq!(State::null0(), 0);
    assert_eq!(State::null1(), 1);
    assert!(State::is_free(0));
    assert!(State::is_free(1));
    assert!(!State::is_free(2));
    assert!(!State::is_free(3));
    let s = State::with_capacity(10);
    assert_eq!(s.maxnum(), 12);
}

#[test]
fn state_is_first_in_first_out() {
    let mut s = State::with_capacity(3);
    assert_eq!(s.dequeue(), 0);
    assert!(s.enqueue(10));
    assert!(s.enqueue(20));
    assert!(s.enqueue(30));
    assert!(!s.enqueue(40));
    assert_eq!(s.dequeue(), 10);
    assert_eq!(s.dequeue(), 20);
    assert_eq!(s.dequeue(), 30);
    assert_eq!(s.dequeue(), 0);
}

#[test]
fn state_words_come_back_up_to_the_low_bit() {
    let mut s = State::with_capacity(3);
    let mut next: usize = 2;
    let mut expect: usize = 2;
    let mut tagged = 0;
    for round in 0..40 {
        let n = 1 + round % 3;
        for _ in 0..n {
            assert!(s.enqueue(next));
            next += 2;
        }
        for _ in 0..n {
            let p = s.dequeue();
            assert_eq!(p & !1, expect);
            if p & 1 == 1 {
                tagged += 1;
            }
            expect += 2;
        }
        assert_eq!(s.dequeue(), 0);
    }
    assert!(tagged > 0);
}

#[test]
fn state_of_no_capacity_is_always_full() {
    let mut s = State::with_capacity(0);
    assert!(!s.enqueue(2));
    assert_eq!(s.dequeue(), 0);
    assert!(!s.enqueue(4));
}

#[test]
fn store_wraps_around_many_times() {
    let mut s: Store<u64> = Store::with_capacity(5);
    let mut pushed = 0u64;
    let mut popped = 0u64;
    for round in 0..100u64 {
        let n = 1 + round % 5;
        for _ in 0..n {
            assert!(s.push(Box::new(pushed)));
            pushed += 1;
        }
        for _ in 0..n {
            assert_eq!(s.pop(), Some(Box::new(popped)));
            popped += 1;
        }
        assert_eq!(s.pop(), None);
    }
    for i in 0..5u64 {
        assert!(s.push(Box::new(i)));
    }
    assert!(!s.push(Box::new(9)));
    assert_eq!(s.pop(), Some(Box::new(0)));
    assert!(s.push(Box::new(5)));
    for i in 1..6u64 {
        assert_eq!(s.pop(), Some(Box::new(i)));
    }
    assert_eq!(s.pop(), None);
}

#[test]
fn store_of_no_capacity_refuses() {
    let mut s: Store<u8> = Store::with_capacity(0);
    assert!(!s.push(Box::new(1)));
    assert_eq!(s.pop(), None);
}

#[test]
fn a_refused_box_comes_back() {
    let mut s: Store<u8> = Store::with_capacity(1);
    assert_eq!(s.offer(Box::new(1)), None);
    assert_eq!(s.offer(Box::new(2)), Some(Box::new(2)));
    let mut q: Queue<u8> = Queue::with_capacity(1);
    assert_eq!(q.offer(Box::new(1)), None);
    assert_eq!(q.offer(Box::new(2)), Some(Box::new(2)));
    assert!(!q.push(Box::new(3)));
    assert_eq!(q.pop(), Some(Box::new(1)));
}
