use queues::bench::{draw_key, filled, find_round, lookup_is_as_expected};

#[test]
fn a_filled_map_binds_the_keys_below_its_size() {
    let m = filled(100);
    assert_eq!(m.len(), 100);
    for k in 0..100usize {
        assert_eq!(m.find(&k), Some(&k));
    }
    assert_eq!(m.find(&100), None);
    assert_eq!(m.find(&usize::MAX), None);
    assert!(filled(0).is_empty());
}

#[test]
fn drawn_keys_lie_below_twice_the_size() {
    let mut low = 0;
    let mut high = 0;
    for _ in 0..2000 {
        let k = draw_key(10);
        assert!(k < 20);
        if k < 10 {
            low += 1;
        } else {
            high += 1;
        }
    }
    assert!(low > 0 && high > 0);
    for _ in 0..100 {
        assert_eq!(draw_key(1) / 2, 0);
    }
}

#[test]
fn lookups_end_as_they_have_to() {
    for size in [10usize, 100, 1000] {
        let m = filled(size);
        for k in 0..2 * size {
            assert!(lookup_is_as_expected(&m, size, k));
        }
        for _ in 0..1000 {
            assert!(find_round(&m, size));
        }
    }
}

#[test]
fn lookups_in_a_map_filled_otherwise_are_told_apart() {
    let m = filled(10);
    assert!(lookup_is_as_expected(&m, 20, 5));
    assert!(!lookup_is_as_expected(&m, 20, 10));
    assert!(!lookup_is_as_expected(&m, 20, 19));
    assert!(lookup_is_as_expected(&m, 20, 20));
    assert!(lookup_is_as_expected(&m, 5, 3));
    assert!(!lookup_is_as_expected(&m, 5, 5));
    assert!(!lookup_is_as_expected(&m, 5, 9));
    assert!(lookup_is_as_expected(&m, 5, 10));

    let mut as_expected = 0;
    let mut otherwise = 0;
    for _ in 0..2000 {
        if find_round(&m, 20) {
            as_expected += 1;
        } else {
            otherwise += 1;
        }
    }
    assert!(as_expected > 0 && otherwise > 0);

    let empty = filled(0);
    for _ in 0..100 {
        assert!(!find_round(&empty, 1) || lookup_is_as_expected(&empty, 1, 1));
    }
}
