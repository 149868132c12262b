use kelvin::btree::{BTree, BTreeSearch};
use kelvin::two3::Handle;

#[test]
fn lib_trivial_map() {
    let mut h = BTree::new();
    h.insert(28, 28);
    assert_eq!(*h.get(28).unwrap(), 28);
}

#[test]
fn lib_bigger_map() {
    let mut h = BTree::new();
    let bigger = 1024;
    for i in 0..bigger {
        h.insert(i, i);
    }
    for i in 0..bigger {
        assert_eq!(*h.get(i).unwrap(), i);
    }
}

#[test]
fn lib_bigger_map_reverse() {
    let mut h = BTree::new();
    let bigger = 1024;
    for i in 0..bigger {
        let i = bigger - i - 1;
        h.insert(i, i);
    }
    for i in 0..bigger {
        assert_eq!(*h.get(i).unwrap(), i);
    }
}

#[test]
fn lib_insert_remove() {
    let mut h = BTree::new();
    let bigger = 1024;
    for i in 0..bigger {
        let i = bigger - i - 1;
        h.insert(i, i);
    }
    for i in 0..bigger {
        assert_eq!(h.remove(i).unwrap(), i);
    }
}

#[test]
fn lib_insert_remove_reverse() {
    let mut h = BTree::new();
    let bigger = 1024;
    for i in 0..bigger {
        h.insert(i, i);
    }
    for i in 0..bigger {
        let i = bigger - i - 1;
        assert_eq!(h.remove(i).unwrap(), i);
    }
}

#[test]
fn lib_nested_maps() {
    let mut map_a = BTree::new();
    for i in 0..100 {
        let mut map_b = BTree::new();

        for o in 0..100 {
            map_b.insert(o, o);
        }

        map_a.insert(i, map_b);
    }

    for i in 0..100 {
        let map_b = map_a.get(i).unwrap();

        for o in 0..100 {
            assert_eq!(*map_b.get(o).unwrap(), o);
        }
    }
}

#[test]
fn btree_search_selects_first_not_smaller() {
    let handles: Vec<Handle<u64>> = vec![
        Handle::Leaf(kelvin::map::KV::new(3, 30)),
        Handle::Leaf(kelvin::map::KV::new(7, 70)),
        Handle::Leaf(kelvin::map::KV::new(9, 90)),
    ];
    assert_eq!(BTreeSearch::new(7).select(&handles), Some(1));
    assert_eq!(BTreeSearch::new(4).select(&handles), Some(1));
    assert_eq!(BTreeSearch::new(0).select(&handles), Some(0));
    assert_eq!(BTreeSearch::new(10).select(&handles), None);
}

#[test]
fn btree_get_mut_updates_value() {
    let mut tree = BTree::new();
    for i in (0..100u64).rev() {
        tree.insert(i, i + 1);
    }
    if let Some(v) = tree.get_mut(0) {
        *v *= 10;
    }
    assert_eq!(*tree.get(0).unwrap(), 10);
    assert_eq!(*tree.get(99).unwrap(), 100);
    assert!(tree.get_mut(100).is_none());
}

#[test]
fn handle_leaf_mut_writes_through() {
    let mut h: Handle<u64> = Handle::new_leaf(kelvin::map::KV::new(1, 2));
    if let Some(kv) = h.leaf_mut() {
        kv.val = 5;
    }
    assert_eq!(h.leaf().map(|kv| (kv.key, kv.val)), Some((1, 5)));
    let mut e: Handle<u64> = Handle::new_empty();
    assert!(e.leaf_mut().is_none());
    assert!(e.is_none());
}
