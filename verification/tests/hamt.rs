use kelvin::hamt::{select_slot_narrow, select_slot_wide, NarrowHAMT, Slot, HAMT};
use kelvin::handle::HandleType;

#[test]
fn hamt_trivial_map() {
    let mut h = HAMT::new();
    h.insert(28, 28);
    assert_eq!(*h.get(28).unwrap(), 28);
}

#[test]
fn hamt_bigger_map() {
    let mut h = HAMT::new();
    for i in 0..1024 {
        assert!(h.get(i).is_none());
        h.insert(i, i);
        assert_eq!(*h.get(i).unwrap(), i);
    }
}

#[test]
fn hamt_nested_maps() {
    let mut map_a = HAMT::new();
    for i in 0..128 {
        let mut map_b = HAMT::new();

        for o in 0..128 {
            map_b.insert(o, o);
        }

        map_a.insert(i, map_b);
    }

    for i in 0..128 {
        let map_b = map_a.get(i).unwrap();

        for o in 0..100 {
            assert_eq!(*map_b.get(o).unwrap(), o);
        }
    }
}

#[test]
fn hamt_insert_remove() {
    let mut h = HAMT::new();
    for i in 0..512u64 {
        assert_eq!(h.try_insert(i, i * 3), Some(None));
    }
    assert_eq!(h.try_insert(7, 0), Some(Some(21)));
    for i in 0..512u64 {
        assert_eq!(h.remove(i), Some(if i == 7 { 0 } else { i * 3 }));
        assert!(h.get(i).is_none());
    }
    assert_eq!(h.remove(3), None);
}

#[test]
fn narrow_hamt_insert_get_remove() {
    let mut h = NarrowHAMT::new();
    for i in 0..256u64 {
        h.insert(i, i + 1);
    }
    for i in 0..256u64 {
        assert_eq!(*h.get(i).unwrap(), i + 1);
    }
    for i in (0..256u64).rev() {
        assert_eq!(h.remove(i), Some(i + 1));
    }
    assert!(h.get(0).is_none());
}

#[test]
fn hamt_get_mut_updates_value() {
    let mut h = HAMT::new();
    for i in 0..100u64 {
        h.insert(i, i);
    }
    *h.get_mut(42).unwrap() += 1000;
    assert_eq!(*h.get(42).unwrap(), 1042);
    assert_eq!(*h.get(41).unwrap(), 41);
    assert!(h.get_mut(100).is_none());
}

#[test]
fn narrow_get_mut_updates_value() {
    let mut h = NarrowHAMT::new();
    for i in 0..64u64 {
        h.insert(i, i * 2);
    }
    if let Some(v) = h.get_mut(7) {
        *v = 1;
    }
    assert_eq!(*h.get(7).unwrap(), 1);
    assert_eq!(*h.get(8).unwrap(), 16);
    assert!(h.get_mut(64).is_none());
}

#[test]
fn wide_slots_read_one_nibble_per_byte_twice() {
    let hash = [0xAB, 0xCD, 0, 0, 0x5E, 0, 0, 0x1F];
    assert_eq!(select_slot_wide(&hash, 0), 0xA);
    assert_eq!(select_slot_wide(&hash, 1), 0xA);
    assert_eq!(select_slot_wide(&hash, 2), 0xD);
    assert_eq!(select_slot_wide(&hash, 3), 0xD);
    assert_eq!(select_slot_wide(&hash, 8), 0x5);
    assert_eq!(select_slot_wide(&hash, 14), 0xF);
    assert_eq!(select_slot_wide(&hash, 15), 0xF);
}

#[test]
fn narrow_slots_read_every_bit_pair() {
    let hash = [0b11_10_01_00, 0, 0, 0, 0, 0, 0, 0b01_00_11_10];
    assert_eq!(select_slot_narrow(&hash, 0), 3);
    assert_eq!(select_slot_narrow(&hash, 1), 2);
    assert_eq!(select_slot_narrow(&hash, 2), 1);
    assert_eq!(select_slot_narrow(&hash, 3), 0);
    assert_eq!(select_slot_narrow(&hash, 28), 1);
    assert_eq!(select_slot_narrow(&hash, 29), 0);
    assert_eq!(select_slot_narrow(&hash, 30), 3);
    assert_eq!(select_slot_narrow(&hash, 31), 2);
}

#[test]
fn hamt_children_empty_after_removing_all() {
    let mut h = HAMT::new();
    for i in 0..200u64 {
        h.insert(i, i);
    }
    assert!(h.children().iter().any(|c| c.handle_type() == HandleType::Node));
    for i in 0..200u64 {
        assert_eq!(h.remove(i), Some(i));
    }
    assert_eq!(h.children().len(), 16);
    assert!(h.children().iter().all(|c| c.handle_type() == HandleType::Empty));
}

#[test]
fn narrow_children_hold_pairs_of_the_map() {
    let mut h = NarrowHAMT::new();
    for i in 0..3u64 {
        h.insert(i, i + 10);
    }
    for c in h.children() {
        if let Slot::Leaf(kv) = c {
            assert_eq!(*h.get(kv.key).unwrap(), kv.val);
        }
    }
    for i in 0..3u64 {
        h.remove(i);
    }
    assert_eq!(h.children().len(), 4);
    assert!(h.children().iter().all(|c| c.handle_type() == HandleType::Empty));
}

#[test]
fn narrow_trie_tells_apart_keys_agreeing_in_low_hash_bits() {
    let (a, b) = (5u64, 743u64);
    let (ha, hb) = (kelvin::hashing::key_hash(a), kelvin::hashing::key_hash(b));
    for j in 0..8 {
        assert_eq!(ha[j] & 3, hb[j] & 3);
    }
    let mut h = NarrowHAMT::new();
    assert_eq!(h.try_insert(a, 1), Some(None));
    assert_eq!(h.try_insert(b, 2), Some(None));
    assert_eq!(*h.get(a).unwrap(), 1);
    assert_eq!(*h.get(b).unwrap(), 2);
}
