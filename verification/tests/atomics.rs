use queues::atomics::{compare_and_swap, compare_and_swap_u64};

#[test]
fn compare_and_swap_returns_what_it_found() {
    let mut word: usize = 5;
    assert_eq!(compare_and_swap(&mut word, 5, 6), 5);
    assert_eq!(word, 6);
    assert_eq!(compare_and_swap(&mut word, 5, 7), 6);
    assert_eq!(word, 6);

    let mut counter: u64 = u64::MAX;
    assert_eq!(compare_and_swap_u64(&mut counter, u64::MAX, 0), u64::MAX);
    assert_eq!(counter, 0);
    assert_eq!(compare_and_swap_u64(&mut counter, u64::MAX, 1), 0);
    assert_eq!(counter, 0);
}

#[test]
fn of_two_takers_one_wins() {
    let mut top: u64 = 41;
    let owner = compare_and_swap_u64(&mut top, 41, 42) == 41;
    let thief = compare_and_swap_u64(&mut top, 41, 42) == 41;
    assert!(owner && !thief);
    assert_eq!(top, 42);
}
