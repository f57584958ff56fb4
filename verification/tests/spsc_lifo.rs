use queues::spsc_lifo::{Node, Queue, State};

#[test]
fn spsc_lifo_test() {
    let nmsgs = 10usize;
    let mut q = Queue::new();
    for i in 0..nmsgs {
        q.push(i);
    }

    let mut i = 0usize;
    loop {
        match q.pop() {
            None => {}
            Some(_) => {
                i += 1;
                if i == nmsgs {
                    break;
                }
            }
        }
    }
}

#[test]
fn test_threaded() {
    let nmsgs = 100000usize;
    let mut q = Queue::new();
    assert_eq!(None, q.pop());

    {
        let mut q = q.clone();
        for i in 0..nmsgs {
            q.push(i);
        }
    }

    let mut i = 0usize;
    loop {
        match q.pop() {
            None => {}
            Some(_) => {
                i += 1;
                if i == nmsgs {
                    break;
                }
            }
        }
    }
    assert_eq!(None, q.pop());
}

#[test]
fn a_thousand_values_come_back_newest_first() {
    let mut s: State<u32> = State::new();
    for i in 0..1000u32 {
        s.push(i);
    }
    for i in (0..1000u32).rev() {
        assert_eq!(s.pop(), Some(i));
    }
    assert_eq!(s.pop(), None);
}

#[test]
fn a_hundred_values_all_come_back() {
    let mut producer: Queue<u32> = Queue::new();
    let mut consumer = producer.clone();
    for i in 0..100u32 {
        producer.push(i);
    }
    let mut seen = vec![0u32; 100];
    let mut got = 0;
    while got < 100 {
        if let Some(v) = consumer.pop() {
            seen[v as usize] += 1;
            got += 1;
        }
    }
    assert!(seen.iter().all(|n| *n == 1));
    assert_eq!(consumer.pop(), None);
}

#[test]
fn pushes_between_pops_come_back_first() {
    let mut s: State<char> = State::new();
    s.push('a');
    s.push('b');
    assert_eq!(s.pop(), Some('b'));
    s.push('c');
    s.push('d');
    assert_eq!(s.pop(), Some('d'));
    assert_eq!(s.pop(), Some('c'));
    assert_eq!(s.pop(), Some('a'));
    assert_eq!(s.pop(), None);
    s.push('e');
    assert_eq!(s.pop(), Some('e'));
    assert_eq!(s.pop(), None);
}

#[test]
fn nodes_are_used_again() {
    let mut s: State<u64> = State::new();
    for round in 0..10_000u64 {
        s.push(round);
        s.push(round + 1);
        assert_eq!(s.pop(), Some(round + 1));
        assert_eq!(s.pop(), Some(round));
        assert_eq!(s.pop(), None);
    }
    let _blank: Node<u8> = Node::new();
}

#[test]
fn an_offered_value_is_queued() {
    let mut q: Queue<u8> = Queue::new();
    assert_eq!(q.offer(1), None);
    assert_eq!(q.pop(), Some(1));
}
