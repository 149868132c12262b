use kelvin::content::{Sink, Source};
use kelvin::nibbles::{AsNibbles, NibbleBuf, Nibbles};

#[test]
fn nibble_common() {
    let a = NibbleBuf::new(&[0x01, 0x23, 0x45, 0x67, 0x89]);
    let b = NibbleBuf::new(&[0x01, 0x23, 0x46, 0xff]);

    let common: NibbleBuf = a.as_nibbles().common_prefix(&b).into_buf();

    assert_eq!(common.len(), 5);

    for i in 0..5 {
        assert_eq!(common.get(i), i);
    }
}

#[test]
fn set_nibbles() {
    let mut a = NibbleBuf::new(&[0x00, 0x00]);
    let b = NibbleBuf::new(&[0x12, 0x34]);

    for i in 0..4 {
        a.set(i, i + 1);
    }

    assert_eq!(a, b);
}

#[test]
fn pop_and_trim() {
    let bytes = [0xab, 0xcd, 0xef];
    let mut n = Nibbles::new(&bytes);
    assert_eq!(n.len(), 6);
    assert_eq!(n.pop_nibble(), 0xa);
    n.trim_front(2);
    assert_eq!(n.get(0), 0xd);
    n.trim_back(1);
    assert_eq!(n.len(), 2);
    assert_eq!(n.get(1), 0xe);
}

#[test]
fn push_and_append() {
    let mut a = NibbleBuf::new(&[0x12]);
    a.push(3);
    assert_eq!(a.len(), 3);
    assert_eq!(a.get(2), 3);
    let b = NibbleBuf::new(&[0x45]);
    a.append(&b);
    let bytes = [0x12, 0x34, 0x50];
    let mut expected = Nibbles::new(&bytes);
    expected.trim_back(1);
    assert_eq!(a, expected.into_buf());
}

#[test]
fn set_past_end_grows() {
    let mut a = NibbleBuf::default();
    a.push(7);
    a.push(8);
    assert_eq!(a, NibbleBuf::new(&[0x78]));
}

#[test]
fn nibble_buf_persist_restore() {
    let mut a = NibbleBuf::new(&[0x12, 0x34, 0x56]);
    a.trim_front(3);
    let mut sink = Sink::new();
    a.persist(&mut sink);
    let bytes = sink.into_bytes();
    // front offset 1 and back offset 4, counted within the bytes 0x34 0x56
    assert_eq!(bytes, vec![0, 1, 0, 4, 0x34, 0x56]);
    let mut source = Source::new(&bytes);
    let b = NibbleBuf::restore(&mut source).unwrap();
    assert_eq!(a, b);
    assert_eq!(source.remaining(), 0);
}

#[test]
fn nibble_buf_restore_rejects() {
    let short = [0u8, 1, 0];
    assert!(NibbleBuf::restore(&mut Source::new(&short)).is_err());
    let backwards = [0u8, 3, 0, 1, 0xff];
    assert!(NibbleBuf::restore(&mut Source::new(&backwards)).is_err());
}

#[test]
fn fuzz() {
    let mut seed: u64 = 0x9e37_79b9_7f4a_7c15;
    let mut next = move || {
        seed = seed.wrapping_mul(6364136223846793005).wrapping_add(1442695040888963407);
        (seed >> 33) as usize
    };
    for _ in 0..200 {
        let len = next() % 24;
        let bytes: Vec<u8> = (0..len).map(|_| next() as u8).collect();
        let mut a = NibbleBuf::new(&bytes);
        if a.len() > 0 {
            let cut = next() % (a.len() + 1);
            a.trim_front(cut);
        }
        let mut sink = Sink::new();
        a.persist(&mut sink);
        let encoded = sink.into_bytes();
        let mut source = Source::new(&encoded);
        let b = NibbleBuf::restore(&mut source).unwrap();
        assert_eq!(a, b);
        assert_eq!(source.remaining(), 0);
    }
}
