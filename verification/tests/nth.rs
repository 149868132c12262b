use kelvin::hamt::{NarrowHAMT, HAMT};
use kelvin::map::KV;
use kelvin::search::{Method, SearchResult};
use kelvin::two3::{Two3Tree, Two3TreeSearch};
use kelvin::walk::Nth;

#[test]
fn nth_vs_iter() {
    let mut hamt = HAMT::new();

    let n: u64 = 1024;

    for i in 0..n {
        hamt.insert(i, i);
    }

    let mut leaves_by_iter = vec![];
    let mut leaves_by_nth = vec![];

    for k in hamt.keys() {
        leaves_by_iter.push(KV { key: k, val: *hamt.get(k).unwrap() });
    }

    for i in 0..n as usize {
        let (k, v) = hamt.nth(i).unwrap();
        leaves_by_nth.push(KV { key: k, val: *v });
    }

    assert_eq!(leaves_by_iter, leaves_by_nth);
    assert_eq!(hamt.count(), 1024);
    assert!(hamt.nth(1024).is_none());
}

#[test]
fn two3_nth_vs_iter() {
    let mut tree = Two3Tree::new();

    let n: u64 = 1024;

    for i in 0..n {
        tree.insert(i, i);
    }

    let mut leaves_by_iter = vec![];
    let mut leaves_by_nth = vec![];

    for element in tree.iter() {
        leaves_by_iter.push(*element);
    }

    for i in 0..n {
        leaves_by_nth.push(*tree.nth(i).unwrap())
    }

    assert_eq!(leaves_by_iter, leaves_by_nth);
}

#[test]
fn nth_is_in_key_order() {
    let mut tree = Two3Tree::new();
    for k in [50u64, 10, 40, 20, 30] {
        tree.insert(k, k + 1);
    }
    assert_eq!(tree.nth(0).unwrap().key, 10);
    assert_eq!(tree.nth(2).unwrap().key, 30);
    assert_eq!(tree.nth(4).unwrap().val, 51);
    assert!(tree.nth(5).is_none());
}

#[test]
fn iter_is_sorted() {
    let mut tree = Two3Tree::new();
    for i in 0..200u64 {
        tree.insert((i * 37) % 200, i);
    }
    let keys: Vec<u64> = tree.iter().iter().map(|kv| kv.key).collect();
    assert_eq!(keys, (0..200u64).collect::<Vec<_>>());
}

#[test]
fn nth_and_key_search_on_a_root_of_pairs() {
    let mut tree = Two3Tree::new();
    tree.insert(10u64, 1u64);
    tree.insert(20, 2);
    tree.insert(30, 3);
    let root = tree.tree_root();
    assert_eq!(root.children().len(), 3);
    assert_eq!(Nth::new(0).select(root, 0), SearchResult::Leaf(0));
    assert_eq!(Nth::new(2).select(root, 0), SearchResult::Leaf(2));
    assert_eq!(Nth::new(3).select(root, 0), SearchResult::Nothing);
    assert_eq!(Two3TreeSearch::new(20).select(root, 0), SearchResult::Leaf(1));
    assert_eq!(Two3TreeSearch::new(15).select(root, 0), SearchResult::Path(1));
    assert_eq!(Two3TreeSearch::new(31).select(root, 0), SearchResult::Nothing);
}

#[test]
fn hamt_keys_and_count_follow_the_map() {
    let mut h = NarrowHAMT::new();
    for i in 0..300u64 {
        h.insert(i * 7, i);
    }
    for i in 0..100u64 {
        h.remove(i * 7);
    }
    assert_eq!(h.count(), 200);
    let mut ks = h.keys();
    ks.sort();
    let expected: Vec<u64> = (100..300u64).map(|i| i * 7).collect();
    assert_eq!(ks, expected);
}
