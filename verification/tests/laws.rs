use kelvin::btree::BTree;
use kelvin::hamt::HAMT;
use kelvin::laws::{run_ops_btree, run_ops_hamt, run_ops_radix, run_ops_two3, BytesOp, MapOp};
use kelvin::radix::Radix;
use kelvin::two3::Two3Tree;

fn ops() -> Vec<MapOp> {
    vec![
        MapOp::Insert(6, 241),
        MapOp::Insert(9, 147),
        MapOp::Get(6),
        MapOp::Insert(6, 5),
        MapOp::Remove(9),
        MapOp::Get(9),
        MapOp::Remove(9),
        MapOp::Insert(1, 1),
        MapOp::Insert(2, 2),
        MapOp::Insert(3, 3),
        MapOp::Get(6),
    ]
}

fn expected() -> Vec<Option<u64>> {
    vec![None, None, Some(241), Some(241), Some(147), None, None, None, None, None, Some(5)]
}

#[test]
fn two3_runs_ops_as_the_model() {
    let mut t = Two3Tree::new();
    assert_eq!(run_ops_two3(&mut t, &ops()), expected());
    assert_eq!(t.count(), 4);
    assert_eq!(*t.get(6).unwrap(), 5);
}

#[test]
fn btree_runs_ops_as_the_model() {
    let mut t = BTree::new();
    assert_eq!(run_ops_btree(&mut t, &ops()), expected());
    assert!(t.get(9).is_none());
    assert_eq!(*t.get(3).unwrap(), 3);
}

#[test]
fn hamt_runs_ops_as_the_model() {
    let mut t = HAMT::new();
    assert_eq!(run_ops_hamt(&mut t, &ops()), expected());
    assert_eq!(t.count(), 4);
}

#[test]
fn radix_runs_ops_as_the_model() {
    let mut t = Radix::new();
    let ops = vec![
        BytesOp::Insert(vec![6], 241),
        BytesOp::Insert(vec![6, 9], 147),
        BytesOp::Get(vec![6]),
        BytesOp::Insert(vec![6], 5),
        BytesOp::Remove(vec![6, 9]),
        BytesOp::Get(vec![6, 9]),
        BytesOp::Remove(vec![6, 9]),
        BytesOp::Insert(vec![], 1),
        BytesOp::Get(vec![]),
    ];
    let out = run_ops_radix(&mut t, &ops);
    assert_eq!(out, vec![None, None, Some(241), Some(241), Some(147), None, None, None, Some(1)]);
    assert_eq!(*t.get(&[6]).unwrap(), 5);
}
