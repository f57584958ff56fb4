use queues::mpmc_bounded_queue::{Queue, State};
use queues::ring::{difference, normalize_capacity};

#[test]
fn mpmc_bounded_queue_test() {
    let nthreads = 8usize;
    let nmsgs = 1000usize;
    let mut q = Queue::with_capacity(nthreads * nmsgs);
    assert_eq!(None, q.pop());

    for _ in 0..nthreads {
        let mut q = q.clone();
        for i in 0..nmsgs {
            assert!(q.push(i));
        }
    }

    let mut completed = vec![];
    let mut seen = vec![0usize; nmsgs];
    for _ in 0..nthreads {
        let mut q = q.clone();
        let mut i = 0usize;
        loop {
            match q.pop() {
                None => {}
                Some(v) => {
                    seen[v] += 1;
                    i += 1;
                    if i == nmsgs {
                        break;
                    }
                }
            }
        }
        completed.push(i);
    }

    for count in completed.iter() {
        assert_eq!(nmsgs, *count);
    }
    for count in seen.iter() {
        assert_eq!(nthreads, *count);
    }
    assert_eq!(None, q.pop());
}

#[test]
fn capacity_two_is_the_least() {
    for asked in 0..3usize {
        let mut s: State<u32> = State::with_capacity(asked);
        assert!(s.push(1));
        assert!(s.push(2));
        assert!(!s.push(3));
        assert_eq!(s.pop(), Some(1));
        assert_eq!(s.pop(), Some(2));
        assert_eq!(s.pop(), None);
    }
}

#[test]
fn capacity_is_rounded_up_to_a_power_of_two() {
    assert_eq!(normalize_capacity(0), 2);
    assert_eq!(normalize_capacity(1), 2);
    assert_eq!(normalize_capacity(2), 2);
    assert_eq!(normalize_capacity(3), 4);
    assert_eq!(normalize_capacity(4), 4);
    assert_eq!(normalize_capacity(5), 8);
    assert_eq!(normalize_capacity(8), 8);
    assert_eq!(normalize_capacity(1000), 1024);
    assert_eq!(normalize_capacity(1025), 2048);

    let mut s: State<usize> = State::with_capacity(5);
    for i in 0..8 {
        assert!(s.push(i));
    }
    assert!(!s.push(8));
}

#[test]
fn signed_distance_of_counters() {
    assert_eq!(difference(5, 5), 0);
    assert_eq!(difference(6, 5), 1);
    assert_eq!(difference(5, 6), -1);
    assert_eq!(difference(0, u64::MAX), 1);
    assert_eq!(difference(u64::MAX, 0), -1);
    assert_eq!(difference(1, 8), -7);
    assert_eq!(difference(0x8000_0000_0000_0000, 0), i64::MIN);
    assert_eq!(difference(0x7fff_ffff_ffff_ffff, 0), i64::MAX);
}

#[test]
fn state_is_first_in_first_out_over_many_laps() {
    let mut s: State<u64> = State::with_capacity(4);
    let mut pushed = 0u64;
    let mut popped = 0u64;
    for round in 0..200u64 {
        let n = 1 + round % 4;
        for _ in 0..n {
            assert!(s.push(pushed));
            pushed += 1;
        }
        for _ in 0..n {
            assert_eq!(s.pop(), Some(popped));
            popped += 1;
        }
        assert_eq!(s.pop(), None);
    }
}

#[test]
fn push_then_pop_returns_the_value() {
    let mut s: State<&str> = State::with_capacity(2);
    assert!(s.push("x"));
    assert_eq!(s.pop(), Some("x"));
}

#[test]
fn mpmc_clones_share_one_queue() {
    let mut a: Queue<u8> = Queue::with_capacity(2);
    let mut b = a.clone();
    assert!(a.push(1));
    assert!(b.push(2));
    assert!(!a.push(3));
    assert_eq!(b.pop(), Some(1));
    assert_eq!(a.pop(), Some(2));
    assert_eq!(b.pop(), None);
}

#[test]
fn a_refused_value_comes_back() {
    let mut s: State<String> = State::with_capacity(2);
    assert_eq!(s.offer("a".to_string()), None);
    assert_eq!(s.offer("b".to_string()), None);
    assert_eq!(s.offer("c".to_string()), Some("c".to_string()));
    assert_eq!(s.pop(), Some("a".to_string()));

    let mut q: Queue<String> = Queue::with_capacity(2);
    assert_eq!(q.offer("a".to_string()), None);
    assert_eq!(q.offer("b".to_string()), None);
    assert_eq!(q.offer("c".to_string()), Some("c".to_string()));
    assert!(!q.push("d".to_string()));
    assert_eq!(q.pop(), Some("a".to_string()));
}
