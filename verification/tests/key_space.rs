use engula::key_space::{
    grown_capacity, is_crowded, pick_around, step_is_over, take_window, KeySpace, ADVANCE_STEP,
    MAX_CAPACITY, MIN_NUM_BUCKETS,
};

#[derive(Debug)]
struct TestCase {
    objects: Vec<u64>,
    take: usize,
    expect: usize,
}

#[test]
fn random_objects_from_space() {
    let cases = vec![
        TestCase { objects: vec![], take: 0, expect: 0 },
        TestCase { objects: vec![1, 3, 5, 7, 9], take: 4, expect: 4 },
        TestCase { objects: vec![1, 3, 5, 7, 9], take: 5, expect: 5 },
        TestCase { objects: vec![1, 3, 5, 7, 9], take: 6, expect: 5 },
    ];

    for case in cases {
        println!("case {:?}", case);
        let mut table = KeySpace::new();
        for object in case.objects {
            table.insert(&object.to_be_bytes(), object);
        }

        let objects = KeySpace::random_objects_from_space(table.current_space(), case.take);
        assert_eq!(objects.len(), case.expect);
    }
}

#[test]
fn a_window_is_what_follows_the_skipped_up_to_the_limit() {
    let items = vec![10u64, 11, 12, 13, 14];
    assert_eq!(take_window(&items, 0, 5), items);
    assert_eq!(take_window(&items, 0, 9), items);
    assert_eq!(take_window(&items, 1, 2), vec![11, 12]);
    assert_eq!(take_window(&items, 3, 9), vec![13, 14]);
    assert_eq!(take_window(&items, 4, 1), vec![14]);
    assert_eq!(take_window(&items, 5, 1), Vec::<u64>::new());
    assert_eq!(take_window(&items, 9, 1), Vec::<u64>::new());
    assert_eq!(take_window(&items, 2, 0), Vec::<u64>::new());
    assert_eq!(take_window(&items, usize::MAX, usize::MAX), Vec::<u64>::new());
    assert_eq!(take_window(&items, 1, usize::MAX), vec![11, 12, 13, 14]);
    assert_eq!(take_window(&vec![], 0, 3), Vec::<u64>::new());
}

#[test]
fn picking_goes_round_to_the_start() {
    let items = vec![10u64, 11, 12, 13, 14];
    assert_eq!(pick_around(&items, 0, 3), vec![10, 11, 12]);
    assert_eq!(pick_around(&items, 3, 2), vec![13, 14]);
    assert_eq!(pick_around(&items, 3, 4), vec![13, 14, 10, 11]);
    assert_eq!(pick_around(&items, 4, 5), vec![14, 10, 11, 12, 13]);
    assert_eq!(pick_around(&items, 4, 9), vec![14, 10, 11, 12, 13]);
    // The start is counted round and round the items: 7 is 2, and the largest number is 0.
    assert_eq!(pick_around(&items, 7, 2), vec![12, 13]);
    assert_eq!(pick_around(&items, usize::MAX, 2), vec![10, 11]);
    assert_eq!(pick_around(&items, 2, 0), Vec::<u64>::new());
    assert_eq!(pick_around(&vec![], 2, 3), Vec::<u64>::new());
}

#[test]
fn the_default_key_space_is_empty() {
    let mut space = KeySpace::default();
    assert_eq!(space.get(b"k"), None);
    assert!(space.random_objects(3).is_empty());
    assert!(space.drain_current_space().is_empty());
    assert!(space.drain_next_space().is_none());
}

#[test]
fn random_objects() {
    let mut space = KeySpace::new();
    for object in [1u8, 2, 3, 4, 5, 6, 7, 8] {
        space.insert(&[object], object as u64);
    }
    let objects = space.random_objects(0);
    assert_eq!(objects.len(), 0);

    let objects = space.random_objects(1);
    assert_eq!(objects.len(), 1);

    let objects = space.random_objects(10);
    assert_eq!(objects.len(), 8);
}

#[test]
fn random_objects_are_objects_of_the_space_and_differ() {
    let mut space = KeySpace::new();
    for object in 0u64..500 {
        space.insert(&object.to_be_bytes(), object + 1000);
    }
    for limit in [0usize, 1, 7, 499, 500, 501, 10_000] {
        let mut objects = space.random_objects(limit);
        assert_eq!(objects.len(), limit.min(500));
        assert!(objects.iter().all(|o| (1000..1500).contains(o)));
        objects.sort();
        objects.dedup();
        assert_eq!(objects.len(), limit.min(500));
    }
}

#[test]
fn key_space_is_a_map_however_far_the_move_has_come() {
    let mut space = KeySpace::new();
    assert_eq!(space.get(b"none"), None);
    for round in 0u64..3 {
        for i in 0u64..2000 {
            let replaced = space.insert(&i.to_be_bytes(), round * 10_000 + i);
            if round == 0 {
                assert_eq!(replaced, None);
            } else if let Some(before) = replaced {
                assert_eq!(before, (round - 1) * 10_000 + i);
            }
        }
        for i in 0u64..2000 {
            assert_eq!(space.get(&i.to_be_bytes()), Some(round * 10_000 + i));
        }
    }
    for i in (0u64..2000).step_by(2) {
        assert_eq!(space.remove(&i.to_be_bytes()), Some(20_000 + i));
        assert_eq!(space.remove(&i.to_be_bytes()), None);
    }
    for i in 0u64..2000 {
        let expect = if i % 2 == 0 { None } else { Some(20_000 + i) };
        assert_eq!(space.get(&i.to_be_bytes()), expect);
    }
    let mut left = space.drain_current_space();
    if let Some(mut more) = space.drain_next_space() {
        left.append(&mut more);
    }
    left.sort();
    let expect: Vec<u64> = (0u64..2000).filter(|i| i % 2 == 1).map(|i| 20_000 + i).collect();
    assert_eq!(left, expect);
    assert_eq!(space.get(&1u64.to_be_bytes()), None);
}

#[test]
fn key_space_moves_a_step_at_a_time() {
    let mut space = KeySpace::new();
    // A table made for 16 has room for 28: the 25th entry crowds it.
    for i in 0u64..300 {
        space.insert(&i.to_be_bytes(), i);
        space.advance_rehash();
        assert_eq!(space.get(&i.to_be_bytes()), Some(i));
    }
    let mut all = space.drain_current_space();
    all.extend(space.drain_next_space().unwrap_or_default());
    all.sort();
    assert_eq!(all, (0u64..300).collect::<Vec<_>>());
}

#[test]
fn key_space_sizing() {
    assert_eq!((MIN_NUM_BUCKETS, ADVANCE_STEP), (16, 64));
    assert!(!is_crowded(85, 100));
    assert!(is_crowded(86, 100));
    assert!(is_crowded(0, 0));
    assert!(!is_crowded(13, 16));
    assert!(is_crowded(14, 16));
    assert!(is_crowded(usize::MAX, usize::MAX));
    assert!(!is_crowded(usize::MAX / 2, usize::MAX));
    assert_eq!(grown_capacity(16), Some(32));
    assert_eq!(grown_capacity(MAX_CAPACITY / 2), Some(MAX_CAPACITY - 1));
    assert_eq!(grown_capacity(MAX_CAPACITY / 2 + 1), None);
    assert_eq!(grown_capacity(usize::MAX), None);
    assert!(!step_is_over(64));
    assert!(step_is_over(65));
}
