use std::collections::hash_map::DefaultHasher;
use std::hash::{Hash, Hasher};

use kelvin::radix::{Bucket, Radix};

#[test]
fn radix_trivial_map() {
    let mut h = Radix::new();
    h.insert(b"hello", String::from("world"));
    assert_eq!(*h.get(b"hello").unwrap(), "world");
}

#[test]
fn radix_bigger_map() {
    let mut h = Radix::new();
    for i in 0u16..1024 {
        let b = i.to_be_bytes();
        assert_eq!(h.insert(&b, i), None);
        assert_eq!(*h.get(&b).unwrap(), i);
        assert_eq!(h.insert(&b, i), Some(i));
    }
}

#[test]
fn radix_insert_remove() {
    let mut h = Radix::new();
    let n = 1024;
    for i in 0u16..n {
        let b = i.to_be_bytes();
        h.insert(&b, i);
    }
    for i in 0u16..n {
        let b = i.to_be_bytes();
        assert_eq!(h.remove(&b), Some(i));
    }
}

#[test]
fn bigger_map_random() {
    const N: usize = 1024;
    let mut keys = [0u64; N];

    for i in 0..N as u64 {
        let mut hasher = DefaultHasher::new();
        i.hash(&mut hasher);
        let key = hasher.finish();
        keys[i as usize] = key;
    }

    let mut h = Radix::new();
    for key in keys.iter() {
        let b = key.to_be_bytes();
        h.insert(&b, *key);
        assert_eq!(*h.get(&b).unwrap(), *key);
    }
}

#[test]
fn different_length_keys() {
    let keys = [
        "cat",
        "mouse",
        "m",
        "dog",
        "elephant",
        "hippopotamus",
        "giraffe",
        "eel",
        "spider",
        "bald eagle",
        "",
    ];

    let mut h = Radix::new();

    for i in 0..keys.len() {
        h.insert(keys[i].as_bytes(), i as u16);
    }

    for i in 0..keys.len() {
        assert_eq!(*h.get(keys[i].as_bytes()).unwrap(), i as u16);
    }
}

#[test]
fn splitting() {
    let mut h = Radix::new();
    h.insert(&[0x00, 0x00], 0);
    assert_eq!(h.insert(&[0x00, 0x00], 0), Some(0));
    h.insert(&[0x00, 0x10], 8);

    assert_eq!(*h.get(&[0x00, 0x00]).unwrap(), 0);
    assert_eq!(*h.get(&[0x00, 0x10]).unwrap(), 8);
}

#[test]
fn collapse() {
    let mut h = Radix::new();
    h.insert(&[0x00, 0x00], 0);
    h.insert(&[0x00, 0x10], 0);

    assert_eq!(h.remove(&[0x00, 0x00]), Some(0));

    assert_eq!(h.remove(&[0x00, 0x10]), Some(0));

    assert!(h.get(&[0x00, 0x00]).is_none());
    assert!(h.get(&[0x00, 0x10]).is_none());
    assert_eq!(h.children().len(), 17);
    assert!(h.children().iter().all(|c| matches!(c, Bucket::Empty)));
}

#[test]
fn prefix_keys_in_any_order() {
    let mut h = Radix::new();
    h.insert(b"ab", 1);
    h.insert(b"abcd", 2);
    h.insert(b"a", 3);
    assert_eq!(*h.get(b"ab").unwrap(), 1);
    assert_eq!(*h.get(b"abcd").unwrap(), 2);
    assert_eq!(*h.get(b"a").unwrap(), 3);
    assert!(h.get(b"abc").is_none());
    assert!(h.get(b"abcde").is_none());
    assert_eq!(h.remove(b"ab"), Some(1));
    assert_eq!(h.remove(b"abc"), None);
    assert_eq!(*h.get(b"abcd").unwrap(), 2);
    assert_eq!(h.remove(b"a"), Some(3));
    assert_eq!(h.remove(b"abcd"), Some(2));
    assert!(h.get(b"a").is_none());
}

#[test]
fn lookup_of_a_proper_prefix_misses() {
    let mut h = Radix::new();
    h.insert(&[0x12, 0x34], 7);
    assert!(h.get(&[0x12]).is_none());
    assert!(h.get(&[0x12, 0x34, 0x56]).is_none());
    assert_eq!(h.remove(&[0x12]), None);
}

#[test]
fn empty_key() {
    let mut h = Radix::new();
    assert_eq!(h.insert(b"", 5), None);
    assert_eq!(*h.get(b"").unwrap(), 5);
    assert_eq!(h.remove(b""), Some(5));
    assert!(h.get(b"").is_none());
}

#[test]
fn radix_get_mut_updates_value() {
    let mut r = Radix::new();
    r.insert(b"cat", 1u64);
    r.insert(b"car", 2u64);
    r.insert(b"ca", 3u64);
    *r.get_mut(b"car").unwrap() = 20;
    assert_eq!(*r.get(b"car").unwrap(), 20);
    assert_eq!(*r.get(b"cat").unwrap(), 1);
    assert_eq!(*r.get(b"ca").unwrap(), 3);
    if let Some(v) = r.get_mut(b"ca") {
        *v += 1;
    }
    assert_eq!(*r.get(b"ca").unwrap(), 4);
    assert!(r.get_mut(b"c").is_none());
    assert!(r.get_mut(b"cattle").is_none());
}

#[test]
fn removing_a_root_value_empties_its_handle() {
    let mut h = Radix::new();
    h.insert(&[0x31], 1);
    h.insert(&[], 2);
    assert!(matches!(h.children()[0], Bucket::Leaf(2)));
    assert!(matches!(h.children()[4], Bucket::Leaf(1)));
    assert_eq!(h.remove(&[0x31]), Some(1));
    assert!(matches!(h.children()[4], Bucket::Empty));
    assert_eq!(h.remove(&[]), Some(2));
    assert!(h.children().iter().all(|c| matches!(c, Bucket::Empty)));
}

#[test]
fn only_nodes_left_with_one_value_by_a_direct_removal_collapse() {
    let mut h = Radix::new();
    h.insert(&[0x00, 0x00], 1);
    h.insert(&[0x00, 0x01], 2);
    h.insert(&[0x00], 3);
    assert_eq!(h.remove(&[0x00]), Some(3));
    assert_eq!(h.remove(&[0x00, 0x00]), Some(1));
    assert_eq!(h.remove(&[0x00, 0x01]), Some(2));
    assert!(h.get(&[0x00]).is_none());
    assert!(h.get(&[0x00, 0x00]).is_none());
    assert!(h.get(&[0x00, 0x01]).is_none());
    assert!(matches!(h.children()[1], Bucket::Node(_)));
}

#[test]
fn lib_borrowed_keys() {
    let mut map = Radix::new();
    let key = String::from("hello");
    map.insert(key.as_bytes(), 8u8);
    assert_eq!(*map.get("hello".as_bytes()).unwrap(), 8);
    assert_eq!(map.remove("hello".as_bytes()).unwrap(), 8);
}
