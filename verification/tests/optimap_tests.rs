use optimap::{OptiMap, DEFAULT_SWITCH_SIZE};

fn sorted(pairs: Vec<(&usize, &usize)>) -> Vec<(usize, usize)> {
    let mut owned: Vec<(usize, usize)> = pairs.into_iter().map(|(k, v)| (*k, *v)).collect();
    owned.sort();
    owned
}

fn filled(count: usize) -> OptiMap {
    let mut map = OptiMap::new();
    for i in 0..count {
        assert_eq!(map.insert(i, i * 10), None);
    }
    map
}

#[test]
fn new_is_empty_and_linear() {
    let map = OptiMap::new();
    assert_eq!(map.len(), 0);
    assert!(!map.is_hashed());
    assert!(map.iter().is_empty());
    assert_eq!(DEFAULT_SWITCH_SIZE, 128);
}

#[test]
fn insert_returns_none_for_a_new_key() {
    let mut map = OptiMap::new();
    assert_eq!(map.insert(7, 70), None);
    assert_eq!(map.len(), 1);
    assert_eq!(sorted(map.iter()), vec![(7, 70)]);
}

#[test]
fn overwrite_keeps_the_count_and_returns_the_first_value() {
    let mut map = OptiMap::new();
    assert_eq!(map.insert(5, 1), None);
    assert_eq!(map.len(), 1);
    assert_eq!(map.insert(5, 2), Some(1));
    assert_eq!(map.len(), 1);
    assert_eq!(sorted(map.iter()), vec![(5, 2)]);
}

#[test]
fn overwrite_in_a_hashed_map_returns_the_first_value() {
    let mut map = OptiMap::with_capacity(1000);
    assert!(map.is_hashed());
    assert_eq!(map.insert(5, 1), None);
    assert_eq!(map.insert(5, 2), Some(1));
    assert_eq!(map.len(), 1);
    assert_eq!(sorted(map.iter()), vec![(5, 2)]);
}

#[test]
fn length_counts_distinct_keys() {
    let mut map = OptiMap::new();
    let keys = [3usize, 1, 3, 2, 1, 3, 9, 2];
    for (n, k) in keys.iter().enumerate() {
        map.insert(*k, n);
    }
    assert_eq!(map.len(), 4);
    assert_eq!(sorted(map.iter()), vec![(1, 4), (2, 7), (3, 5), (9, 6)]);
}

#[test]
fn length_counts_distinct_keys_past_the_switch() {
    let mut map = OptiMap::new();
    for round in 0..3usize {
        for k in 0..200usize {
            map.insert(k, round);
        }
    }
    assert!(map.is_hashed());
    assert_eq!(map.len(), 200);
    let expected: Vec<(usize, usize)> = (0..200).map(|k| (k, 2)).collect();
    assert_eq!(sorted(map.iter()), expected);
}

#[test]
fn linear_iteration_follows_insertion_order() {
    let mut map = OptiMap::new();
    map.insert(30, 1);
    map.insert(10, 2);
    map.insert(20, 3);
    assert_eq!(map.insert(10, 4), Some(2));
    let pairs: Vec<(usize, usize)> = map.iter().into_iter().map(|(k, v)| (*k, *v)).collect();
    assert_eq!(pairs, vec![(30, 1), (10, 4), (20, 3)]);
    assert_eq!(map.into_iter(), vec![(30, 1), (10, 4), (20, 3)]);
}

#[test]
fn stays_linear_below_the_switch_size() {
    let map = filled(127);
    assert!(!map.is_hashed());
    assert_eq!(map.len(), 127);
}

#[test]
fn stays_linear_with_repeated_keys_below_the_switch_size() {
    let mut map = OptiMap::new();
    for round in 0..5usize {
        for k in 0..127usize {
            map.insert(k, round);
        }
    }
    assert!(!map.is_hashed());
    assert_eq!(map.len(), 127);
}

#[test]
fn switches_on_the_insert_after_the_switch_size() {
    let mut map = filled(128);
    assert!(!map.is_hashed());
    assert_eq!(map.len(), 128);
    assert_eq!(map.insert(128, 1280), None);
    assert!(map.is_hashed());
    assert_eq!(map.len(), 129);
    let expected: Vec<(usize, usize)> = (0..129).map(|k| (k, k * 10)).collect();
    assert_eq!(sorted(map.iter()), expected);
}

#[test]
fn overwrite_at_the_switch_size_converts() {
    let mut map = filled(128);
    assert!(!map.is_hashed());
    assert_eq!(map.len(), 128);
    assert_eq!(map.insert(64, 1), Some(640));
    assert!(map.is_hashed());
    assert_eq!(map.len(), 128);
    let mut expected: Vec<(usize, usize)> = (0..128).map(|k| (k, k * 10)).collect();
    expected[64] = (64, 1);
    assert_eq!(sorted(map.iter()), expected);
}

#[test]
fn hashed_is_terminal() {
    let mut map = filled(129);
    assert!(map.is_hashed());
    for k in 0..129usize {
        assert_eq!(map.insert(k, 0), Some(k * 10));
        assert!(map.is_hashed());
    }
    for k in 129..400usize {
        assert_eq!(map.insert(k, 0), None);
        assert!(map.is_hashed());
    }
    assert_eq!(map.len(), 400);
}

#[test]
fn with_capacity_below_the_switch_size_is_linear() {
    for n in [0usize, 1, 64, 127] {
        let map = OptiMap::with_capacity(n);
        assert!(!map.is_hashed());
        assert_eq!(map.len(), 0);
    }
}

#[test]
fn with_capacity_from_the_switch_size_is_hashed() {
    for n in [128usize, 129, 4096] {
        let map = OptiMap::with_capacity(n);
        assert!(map.is_hashed());
        assert_eq!(map.len(), 0);
    }
}

#[test]
fn with_capacity_linear_switches_like_new() {
    let mut map = OptiMap::with_capacity(3);
    for k in 0..128usize {
        assert_eq!(map.insert(k, k + 1), None);
    }
    assert!(!map.is_hashed());
    assert_eq!(map.insert(500, 501), None);
    assert!(map.is_hashed());
    assert_eq!(map.len(), 129);
}

#[test]
fn with_capacity_hashed_passes_the_switch_size_unchanged() {
    let mut map = OptiMap::with_capacity(128);
    for k in 0..300usize {
        assert_eq!(map.insert(k, k + 1), None);
        assert!(map.is_hashed());
        assert_eq!(map.len(), k + 1);
    }
    assert_eq!(map.insert(128, 0), Some(129));
}

#[test]
fn representation_does_not_show_in_the_pairs() {
    let mut linear = OptiMap::with_capacity(0);
    let mut hashed = OptiMap::with_capacity(128);
    let ops = [(4usize, 1usize), (9, 2), (4, 3), (1, 4), (7, 5), (9, 6)];
    for (k, v) in ops {
        assert_eq!(linear.insert(k, v), hashed.insert(k, v));
    }
    assert!(!linear.is_hashed());
    assert!(hashed.is_hashed());
    assert_eq!(linear.len(), hashed.len());
    assert_eq!(sorted(linear.iter()), sorted(hashed.iter()));
    assert_eq!(sorted(linear.iter()), vec![(1, 4), (4, 3), (7, 5), (9, 6)]);
}

#[test]
fn pairs_survive_the_conversion() {
    let mut map = OptiMap::new();
    for k in 0..128usize {
        map.insert(1000 - k, k);
    }
    let before = sorted(map.iter());
    map.insert(0, 0);
    assert!(map.is_hashed());
    let mut expected = before.clone();
    expected.insert(0, (0, 0));
    assert_eq!(sorted(map.iter()), expected);
}

#[test]
fn iter_mut_writes_through_in_a_linear_map() {
    let mut map = OptiMap::new();
    map.insert(2, 20);
    map.insert(1, 10);
    for (k, v) in map.iter_mut() {
        *v += *k;
    }
    assert!(!map.is_hashed());
    assert_eq!(map.len(), 2);
    assert_eq!(map.into_iter(), vec![(2, 22), (1, 11)]);
}

#[test]
fn iter_mut_writes_through_in_a_hashed_map() {
    let mut map = filled(130);
    assert!(map.is_hashed());
    let mut seen = 0;
    for (k, v) in map.iter_mut() {
        assert_eq!(*v, *k * 10);
        *v = *k + 1;
        seen += 1;
    }
    assert_eq!(seen, 130);
    assert!(map.is_hashed());
    assert_eq!(map.len(), 130);
    let expected: Vec<(usize, usize)> = (0..130).map(|k| (k, k + 1)).collect();
    assert_eq!(sorted(map.iter()), expected);
}

#[test]
fn iter_mut_untouched_values_stay() {
    let mut map = OptiMap::new();
    map.insert(1, 10);
    map.insert(2, 20);
    map.insert(3, 30);
    {
        let mut pairs = map.iter_mut();
        let (k, v) = pairs.remove(1);
        assert_eq!(*k, 2);
        *v = 99;
    }
    assert_eq!(map.into_iter(), vec![(1, 10), (2, 99), (3, 30)]);
}

#[test]
fn into_iter_of_a_hashed_map_gives_every_pair_once() {
    let map = filled(200);
    let mut pairs = map.into_iter();
    pairs.sort();
    let expected: Vec<(usize, usize)> = (0..200).map(|k| (k, k * 10)).collect();
    assert_eq!(pairs, expected);
}

#[test]
fn clone_is_independent() {
    let mut map = OptiMap::new();
    map.insert(1, 10);
    map.insert(2, 20);
    let mut copy = map.clone();
    assert_eq!(copy.insert(1, 11), Some(10));
    assert_eq!(copy.insert(3, 30), None);
    assert_eq!(map.len(), 2);
    assert_eq!(copy.len(), 3);
    assert_eq!(map.into_iter(), vec![(1, 10), (2, 20)]);
    assert_eq!(copy.into_iter(), vec![(1, 11), (2, 20), (3, 30)]);
}

#[test]
fn clone_of_a_hashed_map_is_hashed() {
    let map = filled(129);
    let copy = map.clone();
    assert!(copy.is_hashed());
    assert_eq!(copy.len(), 129);
    assert_eq!(sorted(copy.iter()), sorted(map.iter()));
}

#[test]
fn debug_names_the_representation() {
    let map = OptiMap::new();
    let text = format!("{:?}", map);
    assert!(text.contains("Vector"));
    assert!(text.contains("128"));
}

#[test]
fn largest_key_and_value() {
    let mut map = OptiMap::new();
    assert_eq!(map.insert(usize::MAX, usize::MAX), None);
    assert_eq!(map.insert(0, 0), None);
    assert_eq!(map.insert(usize::MAX, 1), Some(usize::MAX));
    assert_eq!(map.len(), 2);
}
