use kelvin::two3::Two3Tree;

#[test]
fn trivial_map() {
    let mut h = Two3Tree::new();
    h.insert(28, 28);
    assert_eq!(*h.get(28).unwrap(), 28);
}

#[test]
fn bigger_map() {
    let mut h = Two3Tree::new();
    let bigger = 1024;
    for i in 0..bigger {
        h.insert(i, i);
    }
    for i in 0..bigger {
        assert_eq!(*h.get(i).unwrap(), i);
    }
}

#[test]
fn bigger_map_reverse() {
    let mut h = Two3Tree::new();
    let bigger = 1024;
    for i in 0..bigger {
        let i = bigger - i - 1;
        h.insert(i, i);
    }
    for i in 0..bigger {
        assert_eq!(*h.get(i).unwrap(), i);
    }
}

#[test]
fn insert_remove() {
    let mut h = Two3Tree::new();
    let bigger = 1024;
    for i in 0..bigger {
        let i = bigger - i - 1;
        h.insert(i, i);
    }
    for i in 0..bigger {
        assert_eq!(h.remove(i).unwrap(), i);
    }
}

#[test]
fn insert_remove_reverse() {
    let mut h = Two3Tree::new();
    let bigger = 4;
    for i in 0..bigger {
        h.insert(i, i);
    }
    for i in 0..bigger {
        let i = bigger - i - 1;
        assert_eq!(h.remove(i).unwrap(), i);
    }
}

#[test]
fn insert_get_reverse() {
    let mut h = Two3Tree::new();
    let bigger = 4;
    for i in 0..bigger {
        h.insert(i, i);
    }
    for i in 0..bigger {
        let i = bigger - i - 1;
        assert_eq!(*h.get(i).unwrap(), i);
    }
}

#[test]
fn nested_maps() {
    let mut map_a = Two3Tree::new();
    for i in 0..100 {
        let mut map_b = Two3Tree::new();

        for o in 0..100 {
            map_b.insert(o, o);
        }

        map_a.insert(i, map_b);
    }

    for i in 0..100 {
        let map_b = map_a.get(i).unwrap();

        for o in 0..100 {
            assert_eq!(*map_b.get(o).unwrap(), o);
        }
    }
}

#[test]
fn insert_returns_replaced_value() {
    let mut h = Two3Tree::new();
    assert_eq!(h.insert(5, 50), None);
    assert_eq!(h.insert(5, 51), Some(50));
    assert_eq!(*h.get(5).unwrap(), 51);
    assert_eq!(h.count(), 1);
}

#[test]
fn remove_missing_is_none() {
    let mut h = Two3Tree::new();
    assert_eq!(h.remove(3), None::<u64>);
    for i in 0..10u64 {
        h.insert(i * 2, i);
    }
    assert_eq!(h.remove(3), None);
    assert_eq!(h.count(), 10);
    assert!(h.get(3).is_none());
}

#[test]
fn remove_in_mixed_order_keeps_the_rest() {
    let mut h = Two3Tree::new();
    for i in 0..300u64 {
        h.insert((i * 7919) % 300, i);
    }
    for i in (0..300u64).step_by(3) {
        assert!(h.remove(i).is_some());
    }
    for i in 0..300u64 {
        assert_eq!(h.get(i).is_some(), i % 3 != 0);
    }
    assert_eq!(h.count(), 200);
}

#[test]
fn count_follows_inserts_and_removes() {
    let mut h = Two3Tree::new();
    for i in 0..50u64 {
        h.insert(i, ());
    }
    assert_eq!(h.count(), 50);
    for i in 0..20u64 {
        h.remove(i);
    }
    assert_eq!(h.count(), 30);
}

#[test]
fn get_mut_updates_value() {
    let mut tree = Two3Tree::new();
    for i in 0..200u64 {
        tree.insert(i, i);
    }
    *tree.get_mut(150).unwrap() = 7;
    assert_eq!(*tree.get(150).unwrap(), 7);
    assert_eq!(*tree.get(149).unwrap(), 149);
    assert!(tree.get_mut(200).is_none());
    let pairs: Vec<(u64, u64)> = tree.iter().into_iter().map(|kv| (kv.key, kv.val)).collect();
    assert_eq!(pairs.len(), 200);
    assert_eq!(pairs[150], (150, 7));
}
