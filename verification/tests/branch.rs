use kelvin::branch::LeafIter;
use kelvin::two3::Two3Tree;

fn drain(mut it: LeafIter<'_, u64>) -> Vec<(u64, u64)> {
    let mut out = vec![];
    while let Some(kv) = it.next() {
        out.push((kv.key, kv.val));
    }
    out
}

#[test]
fn leaf_iter_empty() {
    let tree: Two3Tree<u64> = Two3Tree::new();
    let mut it = tree.leaf_iter();
    assert!(it.next().is_none());
    assert!(it.next().is_none());
}

#[test]
fn leaf_iter_matches_iter() {
    let mut tree = Two3Tree::new();
    for i in 0..500u64 {
        tree.insert((i * 7919) % 1009, i);
    }
    let by_iter: Vec<(u64, u64)> = tree.iter().into_iter().map(|kv| (kv.key, kv.val)).collect();
    let by_branch = drain(tree.leaf_iter());
    assert_eq!(by_branch.len(), 500);
    assert_eq!(by_iter, by_branch);
}

#[test]
fn leaf_iter_key_order_after_removals() {
    let mut tree = Two3Tree::new();
    for k in [50u64, 10, 40, 20, 30, 60, 70] {
        tree.insert(k, k + 1);
    }
    tree.remove(40);
    tree.remove(10);
    let got = drain(tree.leaf_iter());
    assert_eq!(got, vec![(20, 21), (30, 31), (50, 51), (60, 61), (70, 71)]);
}

#[test]
fn leaf_iter_stays_exhausted() {
    let mut tree = Two3Tree::new();
    tree.insert(1u64, 2u64);
    let mut it = tree.leaf_iter();
    assert_eq!(it.next().map(|kv| (kv.key, kv.val)), Some((1, 2)));
    assert!(it.next().is_none());
    assert!(it.next().is_none());
}

#[test]
fn values_and_keys_in_key_order() {
    let mut tree = Two3Tree::new();
    for k in [30u64, 10, 20] {
        tree.insert(k, k * 100);
    }
    let mut vals = vec![];
    let mut it = tree.values();
    while let Some(v) = it.next() {
        vals.push(*v);
    }
    assert_eq!(vals, vec![1000, 2000, 3000]);
    let mut keys = vec![];
    let mut it = tree.keys();
    while let Some(k) = it.next() {
        keys.push(*k);
    }
    assert_eq!(keys, vec![10, 20, 30]);
    assert!(it.next().is_none());
}
