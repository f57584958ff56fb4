use queues::flatmap::{lower_bound_index, lt, FlatMap};
use queues::total_ord::{compare_text, Order, TotalOrd};

#[test]
fn test_container_trait() {
    let m: FlatMap<i64, i64> = FlatMap::with_capacity(10);
    assert!(10 == m.capacity());
    assert!(0 == m.len());
}

#[test]
fn test_map_trait() {
    let m: FlatMap<i64, i64> = FlatMap::new();
    assert!(m.find(&0) == None);
    assert!(m.contains_key(&0) == false);
}

#[test]
fn test_mutable_map_trait() {
    let mut m: FlatMap<i64, i64> = FlatMap::new();
    assert!(m.contains_key(&0) == false);
    m.insert(0, 1);
    assert!(m.contains_key(&0));
    m.insert(1, 2);
    assert!(m.len() == 2);
    assert!(m.contains_key(&1));
    m.pop(&0);
    assert!(m.contains_key(&0) == false);
    assert!(m.contains_key(&1));
    assert!(m.len() == 1);
    m.insert(1, 3);
    match m.find(&1) {
        Some(v) => assert_eq!(3, *v),
        None => panic!("No entry found for key: 1"),
    }

    let mut it = m.iter();
    while let Some((k, v)) = it.next() {
        assert_eq!((1, 3), (*k, *v));
    }

    let mut it = m.mut_iter();
    while let Some((_, v)) = it.next(&mut m) {
        *v = 1;
    }

    let mut it = m.iter();
    while let Some((k, v)) = it.next() {
        assert_eq!((1, 1), (*k, *v));
    }

    assert_eq!((1usize, Some(1usize)), m.iter().size_hint());
    m.insert(2, 2);
    m.insert(3, 3);
    assert_eq!((3usize, Some(3usize)), m.iter().size_hint());
}

#[test]
fn test_create_capacity_zero() {
    let mut m = FlatMap::with_capacity(0);
    assert!(m.insert(1, 1));
}

#[test]
fn test_insert() {
    let mut m = FlatMap::new();
    assert!(m.insert(1, 2));
    assert!(m.insert(2, 4));
    assert_eq!(*m.get(&1), 2);
    assert_eq!(*m.get(&2), 4);
}

#[test]
fn test_find_mut() {
    let mut m = FlatMap::new();
    assert!(m.insert(1, 12));
    assert!(m.insert(2, 8));
    assert!(m.insert(5, 14));
    let new = 100;
    match m.find_mut(&5) {
        None => panic!(),
        Some(x) => *x = new,
    }
    assert_eq!(m.find(&5), Some(&new));
}

#[test]
fn test_insert_overwrite() {
    let mut m = FlatMap::new();
    assert!(m.insert(1, 2));
    assert_eq!(*m.get(&1), 2);
    assert!(!m.insert(1, 3));
    assert_eq!(*m.get(&1), 3);
}

#[test]
fn test_insert_conflicts() {
    let mut m = FlatMap::with_capacity(4);
    assert!(m.insert(1, 2));
    assert!(m.insert(5, 3));
    assert!(m.insert(9, 4));
    assert_eq!(*m.get(&9), 4);
    assert_eq!(*m.get(&5), 3);
    assert_eq!(*m.get(&1), 2);
}

#[test]
fn test_conflict_remove() {
    let mut m = FlatMap::with_capacity(4);
    assert!(m.insert(1, 2));
    assert!(m.insert(5, 3));
    assert!(m.insert(9, 4));
    assert!(m.remove(&1));
    assert_eq!(*m.get(&9), 4);
    assert_eq!(*m.get(&5), 3);
}

#[test]
fn test_is_empty() {
    let mut m = FlatMap::with_capacity(4);
    assert!(m.insert(1, 2));
    assert!(!m.is_empty());
    assert!(m.remove(&1));
    assert!(m.is_empty());
}

#[test]
fn test_pop() {
    let mut m = FlatMap::new();
    m.insert(1, 2);
    assert_eq!(m.pop(&1), Some(2));
    assert_eq!(m.pop(&1), None);
}

#[test]
fn test_swap() {
    let mut m = FlatMap::new();
    assert_eq!(m.swap(1, 2), None);
    assert_eq!(m.swap(1, 3), Some(2));
    assert_eq!(m.swap(1, 4), Some(3));
}

#[test]
fn test_find_or_insert() {
    let mut m: FlatMap<i64, i64> = FlatMap::new();
    assert_eq!(*m.find_or_insert(1, 2), 2);
    assert_eq!(*m.find_or_insert(1, 3), 2);
}

#[test]
fn test_find_or_insert_with() {
    let mut m: FlatMap<i64, i64> = FlatMap::new();
    assert_eq!(*m.find_or_insert_with(1, |_| 2), 2);
    assert_eq!(*m.find_or_insert_with(1, |_| 3), 2);
}

#[test]
fn test_insert_or_update_with() {
    let mut m: FlatMap<i64, i64> = FlatMap::new();
    assert_eq!(*m.insert_or_update_with(1, 2, |_, x| *x += 1), 2);
    assert_eq!(*m.insert_or_update_with(1, 2, |_, x| *x += 1), 3);
}

#[test]
fn test_move_iter() {
    let hm = {
        let mut hm = FlatMap::new();

        hm.insert('a', 1);
        hm.insert('b', 2);

        hm
    };

    let mut v: Vec<(char, i64)> = vec![];
    let mut it = hm.move_iter();
    while let Some(pair) = it.next() {
        v.push(pair);
    }
    assert!(vec![('a', 1), ('b', 2)] == v || vec![('b', 2), ('a', 1)] == v);
}

#[test]
fn test_iterate() {
    let mut m = FlatMap::with_capacity(4);
    for i in 0usize..32 {
        assert!(m.insert(i, i * 2));
    }
    let mut observed: u64 = 0;
    let mut it = m.iter();
    while let Some((k, v)) = it.next() {
        assert_eq!(*v, *k * 2);
        observed |= 1 << *k;
    }
    assert_eq!(observed, 0xFFFF_FFFF);
}

#[test]
fn test_find() {
    let mut m = FlatMap::new();
    assert!(m.find(&1).is_none());
    m.insert(1, 2);
    match m.find(&1) {
        None => panic!(),
        Some(v) => assert!(*v == 2),
    }
}

#[test]
fn test_eq() {
    let mut m1 = FlatMap::new();
    m1.insert(1, 2);
    m1.insert(2, 3);
    m1.insert(3, 4);

    let mut m2 = FlatMap::new();
    m2.insert(1, 2);
    m2.insert(2, 3);

    assert!(m1 != m2);

    m2.insert(3, 4);

    assert_eq!(m1, m2);
}

#[test]
fn test_from_iter() {
    let xs = vec![(1, 1), (2, 2), (3, 3), (4, 4), (5, 5), (6, 6)];

    let map: FlatMap<i64, i64> = FlatMap::from_iterator(xs.iter().map(|&x| x).collect());

    for &(k, v) in xs.iter() {
        assert_eq!(map.find(&k), Some(&v));
    }
}

#[test]
fn test_find_equiv() {
    let mut m = FlatMap::new();

    let (foo, bar, baz) = (1, 2, 3);
    m.insert("foo".to_string(), foo);
    m.insert("bar".to_string(), bar);
    m.insert("baz".to_string(), baz);

    assert_eq!(m.find_equiv(&("foo")), Some(&foo));
    assert_eq!(m.find_equiv(&("bar")), Some(&bar));
    assert_eq!(m.find_equiv(&("baz")), Some(&baz));

    assert_eq!(m.find_equiv(&("qux")), None);
}

#[test]
fn find_equiv_looks_up_by_a_key_of_another_type() {
    let mut m: FlatMap<u64, i64> = FlatMap::new();

    let (foo, bar, baz) = (1, 2, 3);
    m.insert(0xf00, foo);
    m.insert(0xba4, bar);
    m.insert(0xba2, baz);

    assert_eq!(m.find_equiv(&0xf00u32), Some(&foo));
    assert_eq!(m.find_equiv(&0xba4u32), Some(&bar));
    assert_eq!(m.find_equiv(&0xba2u32), Some(&baz));

    assert_eq!(m.find_equiv(&0x9u32), None);
}

#[test]
fn lower_bound_is_the_first_key_not_before() {
    let a: Vec<(u32, char)> = vec![(10, 'a'), (20, 'b'), (30, 'c'), (40, 'd')];
    assert_eq!(lower_bound_index(&a, &5), 0);
    assert_eq!(lower_bound_index(&a, &10), 0);
    assert_eq!(lower_bound_index(&a, &11), 1);
    assert_eq!(lower_bound_index(&a, &20), 1);
    assert_eq!(lower_bound_index(&a, &35), 3);
    assert_eq!(lower_bound_index(&a, &40), 3);
    assert_eq!(lower_bound_index(&a, &41), 4);
    let none: Vec<(u32, char)> = vec![];
    assert_eq!(lower_bound_index(&none, &1), 0);
}

#[test]
fn pairs_are_kept_in_key_order() {
    let mut m: FlatMap<i32, &str> = FlatMap::new();
    for (k, v) in [(5, "five"), (-3, "minus three"), (9, "nine"), (0, "zero"), (5, "again")] {
        m.insert(k, v);
    }
    let mut seen = vec![];
    let mut it = m.iter();
    while let Some((k, v)) = it.next() {
        seen.push((*k, *v));
    }
    assert_eq!(seen, vec![(-3, "minus three"), (0, "zero"), (5, "again"), (9, "nine")]);
    assert_eq!(it.next(), None);
    assert_eq!(it.size_hint(), (0, Some(0)));

    let mut back = vec![];
    let mut it = m.clone().move_iter();
    assert_eq!(it.size_hint(), (4, Some(4)));
    while let Some(pair) = it.next() {
        back.push(pair.0);
    }
    assert_eq!(back, vec![9, 5, 0, -3]);
}

#[test]
fn get_mut_changes_the_value() {
    let mut m: FlatMap<u8, u8> = FlatMap::new();
    m.insert(1, 10);
    m.insert(2, 20);
    *m.get_mut(&2) += 1;
    assert_eq!(*m.get(&2), 21);
    assert_eq!(*m.get(&1), 10);
}

#[test]
fn mangle_inserts_or_updates() {
    let mut m: FlatMap<u8, u32> = FlatMap::new();
    assert_eq!(*m.mangle(7, 5u32, |_k, a| a * 2, |_k, v, a| *v += a), 10);
    assert_eq!(*m.mangle(7, 5u32, |_k, a| a * 2, |_k, v, a| *v += a), 15);
    assert_eq!(m.len(), 1);
}

#[test]
fn extend_binds_in_order_and_clear_empties() {
    let mut m: FlatMap<u16, u16> = FlatMap::default();
    m.insert(1, 1);
    m.extend(vec![(3, 30), (1, 10), (2, 20), (3, 31)]);
    assert_eq!(m.len(), 3);
    assert_eq!(m.find(&1), Some(&10));
    assert_eq!(m.find(&2), Some(&20));
    assert_eq!(m.find(&3), Some(&31));
    m.clear();
    assert!(m.is_empty());
    assert_eq!(m.find(&1), None);
}

#[test]
fn maps_compare_pair_by_pair() {
    let of = |pairs: Vec<(u32, u32)>| FlatMap::from_iterator(pairs);
    let a = of(vec![(1, 1), (2, 2)]);
    let b = of(vec![(1, 1), (2, 3)]);
    let c = of(vec![(1, 1)]);
    let d = of(vec![(0, 9), (5, 5), (6, 6)]);
    assert!(lt(&a, &b));
    assert!(!lt(&b, &a));
    assert!(lt(&c, &a));
    assert!(!lt(&a, &c));
    assert!(lt(&d, &a));
    assert!(!lt(&a, &a));
    assert!(a.lt(&b) && a.le(&b) && !a.gt(&b) && !a.ge(&b));
    assert!(!a.lt(&a) && a.le(&a) && !a.gt(&a) && a.ge(&a));
    assert!(b.gt(&a) && b.ge(&a));
    assert!(a.eq(&a) && !a.eq(&b) && !a.eq(&c));
}

#[test]
fn keys_compare_in_their_order() {
    assert_eq!(1u8.compare(&2), Order::Less);
    assert_eq!(2u16.compare(&2), Order::Equal);
    assert_eq!(3u32.compare(&2), Order::Greater);
    assert_eq!(u64::MAX.compare(&0), Order::Greater);
    assert_eq!(0usize.compare(&usize::MAX), Order::Less);
    assert_eq!((-1i8).compare(&1), Order::Less);
    assert_eq!(i16::MIN.compare(&i16::MAX), Order::Less);
    assert_eq!(5i32.compare(&-5), Order::Greater);
    assert_eq!(i64::MIN.compare(&i64::MIN), Order::Equal);
    assert_eq!(0isize.compare(&-1), Order::Greater);
    assert_eq!('a'.compare(&'b'), Order::Less);
    assert_eq!('z'.compare(&'a'), Order::Greater);
}

#[test]
fn texts_compare_as_strings_do() {
    let texts = [
        "", "a", "A", "aa", "ab", "b", "ba", "foo", "bar", "baz", "qux", "fo", "fooo", "z",
        "\u{e9}", "e\u{301}", "\u{10000}", "\u{ffff}", "\u{7f}", "\u{80}", "zz\u{0}", "zz",
    ];
    for a in texts {
        for b in texts {
            let expected = match a.cmp(b) {
                std::cmp::Ordering::Less => Order::Less,
                std::cmp::Ordering::Equal => Order::Equal,
                std::cmp::Ordering::Greater => Order::Greater,
            };
            assert_eq!(compare_text(a, b), expected, "{:?} against {:?}", a, b);
            assert_eq!(a.to_string().compare(&b.to_string()), expected);
        }
    }
}

#[test]
fn a_map_keyed_by_strings() {
    let mut m: FlatMap<String, u32> = FlatMap::new();
    for (i, word) in ["pear", "apple", "fig", "apple", "kiwi"].iter().enumerate() {
        m.insert(word.to_string(), i as u32);
    }
    assert_eq!(m.len(), 4);
    assert_eq!(m.find(&"apple".to_string()), Some(&3));
    assert_eq!(m.find(&"fig".to_string()), Some(&2));
    assert_eq!(m.find(&"plum".to_string()), None);
    assert_eq!(m.swap("fig".to_string(), 9), Some(2));
    assert_eq!(m.pop(&"pear".to_string()), Some(0));
    let mut keys = vec![];
    let mut it = m.iter();
    while let Some((k, v)) = it.next() {
        keys.push((k.clone(), *v));
    }
    assert_eq!(
        keys,
        vec![("apple".to_string(), 3), ("fig".to_string(), 9), ("kiwi".to_string(), 4)]
    );
    assert_eq!(m.find_equiv(&"kiwi"), Some(&4));
    assert_eq!(m.find_equiv(&"pear"), None);
}
