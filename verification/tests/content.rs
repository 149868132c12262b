use kelvin::annotations::{Key, Void};
use kelvin::content::{Content, ContentError, Sink, Source};

fn bytes_of<T: Content>(t: &T) -> Vec<u8> {
    let mut sink = Sink::new();
    t.persist(&mut sink);
    sink.into_bytes()
}

#[test]
fn option_encoding() {
    assert_eq!(bytes_of(&None::<u16>), vec![0]);
    assert_eq!(bytes_of(&Some(0x0102u16)), vec![1, 1, 2]);
    let bytes = vec![1, 1, 2, 0];
    let mut source = Source::new(&bytes);
    assert_eq!(Option::<u16>::restore(&mut source), Ok(Some(0x0102)));
    assert_eq!(Option::<u16>::restore(&mut source), Ok(None));
    assert_eq!(source.remaining(), 0);
}

#[test]
fn option_invalid_tag() {
    let bytes = vec![2, 0, 0];
    let mut source = Source::new(&bytes);
    assert_eq!(
        Option::<u16>::restore(&mut source),
        Err(ContentError::InvalidEncoding)
    );
    let short = vec![1, 7];
    assert_eq!(
        Option::<u16>::restore(&mut Source::new(&short)),
        Err(ContentError::UnexpectedEnd)
    );
}

#[test]
fn vec_encoding() {
    let v: Vec<u16> = vec![1, 0x0203];
    assert_eq!(bytes_of(&v), vec![0, 0, 0, 0, 0, 0, 0, 2, 0, 1, 2, 3]);
    let bytes = bytes_of(&v);
    assert_eq!(Vec::<u16>::restore(&mut Source::new(&bytes)), Ok(v));
    let empty: Vec<u8> = vec![];
    assert_eq!(bytes_of(&empty), vec![0; 8]);
}

#[test]
fn vec_too_short() {
    let bytes = vec![0, 0, 0, 0, 0, 0, 0, 3, 9, 9];
    assert_eq!(
        Vec::<u8>::restore(&mut Source::new(&bytes)),
        Err(ContentError::UnexpectedEnd)
    );
}

#[test]
fn nested_vec_of_options_roundtrip() {
    let v: Vec<Option<u64>> = vec![Some(5), None, Some(u64::MAX)];
    let bytes = bytes_of(&v);
    let mut source = Source::new(&bytes);
    assert_eq!(Vec::<Option<u64>>::restore(&mut source), Ok(v));
    assert_eq!(source.remaining(), 0);
}

#[test]
fn unit_and_box() {
    assert!(bytes_of(&()).is_empty());
    assert_eq!(bytes_of(&Box::new(7u8)), vec![7]);
    let bytes = vec![7u8];
    assert_eq!(<Box<u8>>::restore(&mut Source::new(&bytes)), Ok(Box::new(7)));
    assert_eq!(<()>::restore(&mut Source::new(&bytes)), Ok(()));
}

#[test]
fn annotation_encodings() {
    assert!(bytes_of(&Void).is_empty());
    assert_eq!(bytes_of(&Key(0x0102)), vec![0, 0, 0, 0, 0, 0, 1, 2]);
    let bytes = bytes_of(&Key(99));
    assert_eq!(Key::restore(&mut Source::new(&bytes)), Ok(Key(99)));
    assert_eq!(Void::restore(&mut Source::new(&bytes)), Ok(Void));
}
