use std::borrow::{Borrow, BorrowMut};

use kelvin::map::KV;

#[test]
fn kv_conversions() {
    let mut kv = KV::new(3u64, 7u64);
    assert_eq!(kv.key, 3);
    assert_eq!(kv.val, 7);
    let v: &u64 = kv.borrow();
    assert_eq!(*v, 7);
    assert_eq!(*kv.as_ref(), 3);
    *BorrowMut::<u64>::borrow_mut(&mut kv) = 9;
    assert_eq!(kv, KV { key: 3, val: 9 });
    let pair: (u64, u64) = kv.into();
    assert_eq!(pair, (3, 9));
}
