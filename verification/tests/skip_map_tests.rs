use skipmap::SkipMap;

#[test]
fn skip_map_insert_test() {
    let generate_value = |key: u64| key + 10000;
    let test = |times: u64, numbers: u64| {
        for _ in 0..times {
            let mut map = SkipMap::new();
            assert!(map.is_empty());
            for i in (0..numbers).rev() {
                map.insert(i, generate_value(i));
            }
            assert_eq!(map.len(), numbers as usize);
            let mut i: u64 = 0;
            let mut it = map.iter();
            while let Some((key, value)) = it.next() {
                assert_eq!(key, i);
                assert_eq!(*value, generate_value(i));
                i += 1;
            }
            map.clear();
            assert_eq!(map.len(), 0);
        }
    };
    test(1000, 10);
    test(10, 1000);
}

#[test]
fn skip_map_remove_test() {
    for _ in 0..1000 {
        let mut map = SkipMap::new();
        assert!(map.is_empty());
        for i in (0..10u64).rev() {
            map.insert(i, i + 1000);
        }
        println!("{:?}", map.len());
        for i in (3..8u64).rev() {
            map.remove(i);
        }
        println!("{:?}", map.len());
    }
}

fn collect(map: &SkipMap<u64>) -> Vec<(u64, u64)> {
    let mut out = Vec::new();
    let mut it = map.iter();
    while let Some((k, v)) = it.next() {
        out.push((k, *v));
    }
    out
}

#[test]
fn scenario_descending_inserts() {
    let mut map = SkipMap::new();
    for k in (0..10u64).rev() {
        assert_eq!(map.insert(k, k + 1000), None);
    }
    assert_eq!(map.len(), 10);
    let expected: Vec<(u64, u64)> = (0..10u64).map(|k| (k, k + 1000)).collect();
    assert_eq!(collect(&map), expected);
}

#[test]
fn scenario_removals_keep_order() {
    let mut map = SkipMap::new();
    for k in (0..10u64).rev() {
        map.insert(k, k + 1000);
    }
    for k in [7u64, 6, 5, 4, 3] {
        assert_eq!(map.remove(k), Some(k + 1000));
    }
    assert_eq!(map.len(), 5);
    let expected = vec![(0u64, 1000u64), (1, 1001), (2, 1002), (8, 1008), (9, 1009)];
    assert_eq!(collect(&map), expected);
}

#[test]
fn scenario_thousand_reverse_inserts() {
    let mut map = SkipMap::new();
    for k in (0..1000u64).rev() {
        map.insert(k, k * 3 + 7);
    }
    assert_eq!(map.len(), 1000);
    let got = collect(&map);
    assert_eq!(got.len(), 1000);
    for (i, (k, v)) in got.iter().enumerate() {
        assert_eq!(*k, i as u64);
        assert_eq!(*v, *k * 3 + 7);
    }
}

#[test]
fn round_trip_insert_then_get() {
    let mut map = SkipMap::new();
    assert_eq!(map.insert(42, 7u64), None);
    assert_eq!(map.get(42), Some(&7));
    assert_eq!(map.insert(42, 8), Some(7));
    assert_eq!(map.get(42), Some(&8));
    assert_eq!(map.len(), 1);
}

#[test]
fn deletion_present_and_absent() {
    let mut map = SkipMap::new();
    for k in [5u64, 1, 9, 3] {
        map.insert(k, k * 2);
    }
    assert_eq!(map.remove(3), Some(6));
    assert_eq!(map.get(3), None);
    assert!(!map.contains_key(3));
    let before = collect(&map);
    let len_before = map.len();
    assert_eq!(map.remove(777), None);
    assert_eq!(map.len(), len_before);
    assert_eq!(collect(&map), before);
}

#[test]
fn clear_is_idempotent() {
    let mut map = SkipMap::new();
    for k in 0..20u64 {
        map.insert(k, k);
    }
    map.clear();
    assert_eq!(map.len(), 0);
    assert!(map.is_empty());
    assert_eq!(collect(&map), Vec::new());
    map.clear();
    assert_eq!(map.len(), 0);
    assert!(map.is_empty());
    assert_eq!(collect(&map), Vec::new());
}

#[test]
fn get_mut_writes_through() {
    let mut map = SkipMap::new();
    map.insert(4, 40u64);
    map.insert(2, 20);
    if let Some(v) = map.get_mut(4) {
        *v = 99;
    }
    assert_eq!(map.get(4), Some(&99));
    assert_eq!(map.get(2), Some(&20));
    assert_eq!(map.get_mut(5), None);
    assert_eq!(map.len(), 2);
}

#[test]
fn empty_map_queries() {
    let map: SkipMap<u64> = SkipMap::new();
    assert_eq!(map.len(), 0);
    assert!(map.is_empty());
    assert_eq!(map.get(0), None);
    assert!(!map.contains_key(0));
    let mut it = map.iter();
    assert_eq!(it.size_hint(), (0, Some(0)));
    assert!(it.next().is_none());
    assert!(it.next().is_none());
}

#[test]
fn iteration_is_sorted_after_mixed_ops() {
    // a fixed pseudo-random walk of inserts and removes
    let mut map = SkipMap::new();
    let mut present: Vec<u64> = Vec::new();
    let mut state: u64 = 1;
    for _ in 0..4000 {
        state = state.wrapping_mul(6364136223846793005).wrapping_add(1442695040888963407);
        let key = (state >> 33) % 257;
        if state % 3 == 0 {
            let got = map.remove(key);
            assert_eq!(got.is_some(), present.contains(&key));
            present.retain(|k| *k != key);
        } else {
            let prev = map.insert(key, key + 1);
            assert_eq!(prev.is_some(), present.contains(&key));
            if !present.contains(&key) {
                present.push(key);
            }
        }
        assert_eq!(map.len(), present.len());
    }
    let got = collect(&map);
    assert_eq!(got.len(), map.len());
    for w in got.windows(2) {
        assert!(w[0].0 < w[1].0);
    }
    present.sort();
    let keys: Vec<u64> = got.iter().map(|p| p.0).collect();
    assert_eq!(keys, present);
}

#[test]
fn size_hint_counts_down() {
    let mut map = SkipMap::new();
    for k in 0..5u64 {
        map.insert(k, k);
    }
    let mut it = map.iter();
    assert_eq!(it.size_hint(), (5, Some(5)));
    it.next();
    it.next();
    assert_eq!(it.size_hint(), (3, Some(3)));
}

#[test]
fn node_new_holds_entry() {
    let node = skipmap::Node::new(3, 30u64);
    assert_eq!(node.key, 3);
    assert_eq!(node.value, 30);
}
