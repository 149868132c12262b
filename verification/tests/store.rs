use kelvin::content::{Content, ContentError, Sink, Source};
use kelvin::store::{Erased, PutResult, Store, StoreError};

#[test]
fn erased_u32() {
    let mut store = Store::ephemeral();

    let i = 77u32;

    let mut erased = Erased::wrap(&i, &mut store);

    assert_eq!(*erased.query::<u32>(&store).unwrap(), 77);

    let mut trans = erased.query::<u32>(&store).unwrap().into_inner();
    trans += 1;
    erased.commit(&trans, &mut store);

    assert_eq!(*erased.query::<u32>(&store).unwrap(), 78);
}

#[test]
fn double_wrapped() {
    let mut store = Store::ephemeral();

    let a = Erased::wrap(&13u32, &mut store);
    let b = Erased::wrap(&14u32, &mut store);
    let double = (a, b);

    let snapshot = store.persist(&double);

    let mut restored: (Erased, Erased) = store.restore(&snapshot).unwrap();

    assert_eq!(*restored.0.query::<u32>(&store).unwrap(), 13);
    assert_eq!(*restored.1.query::<u32>(&store).unwrap(), 14);

    let trans = 12u32;
    restored.1.commit(&trans, &mut store);

    assert_eq!(*restored.1.query::<u32>(&store).unwrap(), 12);
    assert_eq!(*restored.0.query::<u32>(&store).unwrap(), 13);
}

#[test]
fn persist_then_restore_integers() {
    let mut store = Store::ephemeral();
    let s8 = store.persist(&200u8);
    let s16 = store.persist(&0xbeefu16);
    let s64 = store.persist(&0x0123_4567_89ab_cdefu64);
    assert_eq!(store.restore::<u8>(&s8).unwrap(), 200);
    assert_eq!(store.restore::<u16>(&s16).unwrap(), 0xbeef);
    assert_eq!(store.restore::<u64>(&s64).unwrap(), 0x0123_4567_89ab_cdef);
    assert_eq!(store.size(), 1 + 2 + 8);
}

#[test]
fn same_content_same_snapshot() {
    let mut store = Store::ephemeral();
    let a = store.persist(&42u64);
    let b = store.persist(&42u64);
    assert_eq!(a.hash(), b.hash());
    let c = store.persist(&43u64);
    assert_ne!(a.hash(), c.hash());
}

#[test]
fn put_reports_existing_digest() {
    let mut store = Store::ephemeral();
    assert_eq!(store.put([1u8; 32], vec![1, 2, 3]), PutResult::Stored);
    assert_eq!(store.put([1u8; 32], vec![4]), PutResult::AlreadyThere);
    assert_eq!(store.get_hash::<u8>(&[1u8; 32]).unwrap(), 4);
    assert_eq!(store.size(), 4);
}

#[test]
fn missing_and_short_content() {
    let mut store = Store::ephemeral();
    assert_eq!(store.get_hash::<u8>(&[9u8; 32]), Err(StoreError::NotFound));
    let snap = store.persist(&7u8);
    assert_eq!(
        store.restore::<u64>(&snap),
        Err(StoreError::Content(ContentError::UnexpectedEnd))
    );
}

#[test]
fn big_endian_encodings() {
    let mut sink = Sink::new();
    0x0102u16.persist(&mut sink);
    0x03040506u32.persist(&mut sink);
    0x0708090a0b0c0d0eu64.persist(&mut sink);
    (0x0fu8, 0x10u8).persist(&mut sink);
    let bytes = sink.into_bytes();
    assert_eq!(
        bytes,
        vec![1, 2, 3, 4, 5, 6, 7, 8, 9, 10, 11, 12, 13, 14, 15, 16]
    );
    let mut source = Source::new(&bytes);
    assert_eq!(u16::restore(&mut source), Ok(0x0102));
    assert_eq!(u32::restore(&mut source), Ok(0x03040506));
    assert_eq!(u64::restore(&mut source), Ok(0x0708090a0b0c0d0e));
    assert_eq!(<(u8, u8)>::restore(&mut source), Ok((0x0f, 0x10)));
    assert_eq!(source.remaining(), 0);
    assert_eq!(u8::restore(&mut source), Err(ContentError::UnexpectedEnd));
}

#[test]
fn erased_encodes_its_digest() {
    let mut store = Store::ephemeral();
    let e = Erased::wrap(&5u8, &mut store);
    let mut sink = Sink::new();
    e.persist(&mut sink);
    let bytes = sink.into_bytes();
    assert_eq!(bytes.len(), 32);
    let back = Erased::restore(&mut Source::new(&bytes)).unwrap();
    assert_eq!(back, e);
}
