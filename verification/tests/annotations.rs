use kelvin::annotations::{Associative, Cardinality, Combine, Key, KeyCount, MaxKey, Void};

#[test]
fn maxes() {
    let maxes = [MaxKey(0), MaxKey(4), MaxKey(32), MaxKey(8), MaxKey(3), MaxKey(0)];
    assert!(MaxKey::combine(&maxes).unwrap() == MaxKey(32));
}

#[test]
fn max() {
    let mut a = MaxKey(10);
    let b = MaxKey(20);

    a.op(&b);
    assert!(a.0 == 20);
}

#[test]
fn combine_empty_is_none() {
    let none: [MaxKey; 0] = [];
    assert!(MaxKey::combine(&none).is_none());
    let none: [Cardinality; 0] = [];
    assert!(Cardinality::combine(&none).is_none());
}

#[test]
fn cardinality_sums() {
    let counts = [Cardinality(3), Cardinality::one(), Cardinality(6)];
    assert_eq!(Cardinality::combine(&counts).unwrap(), Cardinality(10));
}

#[test]
fn key_takes_minimum() {
    let keys = [Key(9), Key(2), Key(7)];
    assert_eq!(Key::combine(&keys).unwrap(), Key(2));
}

#[test]
fn key_count_combines_fieldwise() {
    let a = KeyCount { key: MaxKey(5), count: Cardinality(2) };
    let b = KeyCount { key: MaxKey(3), count: Cardinality(4) };
    let c = KeyCount::combine(&[a, b]).unwrap();
    assert_eq!(c, KeyCount { key: MaxKey(5), count: Cardinality(6) });
}

#[test]
fn combine_is_associative_on_examples() {
    let (a, b, c) = (MaxKey(4), MaxKey(9), MaxKey(1));
    let mut left = a;
    left.op(&b);
    left.op(&c);
    let mut bc = b;
    bc.op(&c);
    let mut right = a;
    right.op(&bc);
    assert_eq!(left, right);
}

#[test]
fn void_combines_to_void() {
    assert_eq!(Void::combine(&[Void, Void]).unwrap(), Void);
}
