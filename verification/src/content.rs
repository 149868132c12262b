//! Content: values written to and read back from bytes, the form in which the
//! store keeps them. Numbers are written big-endian; a pair is its two
//! halves one after the other.
use vstd::prelude::*;

use crate::hashing::{
    lemma_u16_be_injective, lemma_u32_be_injective, lemma_u64_be_injective, read_u16_be,
    read_u32_be, read_u64_be, u16_be, u32_be, u64_be, write_u16_be, write_u32_be, write_u64_be,
};

verus! {

/// Why bytes could not be read back as a value.
#[derive(Debug, Clone, Copy, PartialEq, Eq, Structural)]
pub enum ContentError {
    /// The bytes ended before the value did.
    UnexpectedEnd,
    /// The bytes do not encode a value of the type.
    InvalidEncoding,
}

/// A sink for the bytes of values being written.
pub struct Sink {
    bytes: Vec<u8>,
}

impl View for Sink {
    type V = Seq<u8>;

    closed spec fn view(&self) -> Seq<u8> {
        self.bytes@
    }
}

impl Sink {
    /// An empty sink.
    pub fn new() -> (r: Self)
        ensures
            r@ == Seq::<u8>::empty(),
    {
        Sink { bytes: Vec::new() }
    }

    /// Appends `buf`.
    pub fn write_all(&mut self, buf: &[u8])
        ensures
            final(self)@ == old(self)@ + buf@,
    {
        let mut i: usize = 0;
        while i < buf.len()
            invariant
                i <= buf@.len(),
                self@ == old(self)@ + buf@.take(i as int),
            decreases buf@.len() - i,
        {
            self.bytes.push(buf[i]);
            i = i + 1;
            assert(self@ =~= old(self)@ + buf@.take(i as int));
        }
        assert(buf@.take(buf@.len() as int) =~= buf@);
    }

    /// The bytes written.
    pub fn into_bytes(self) -> (r: Vec<u8>)
        ensures
            r@ == self@,
    {
        self.bytes
    }
}

/// A source of bytes to read values from.
pub struct Source<'a> {
    bytes: &'a [u8],
    pos: usize,
}

impl<'a> View for Source<'a> {
    type V = Seq<u8>;

    /// The bytes not read yet.
    closed spec fn view(&self) -> Seq<u8> {
        self.bytes@.skip(self.pos as int)
    }
}

impl<'a> Source<'a> {
    #[verifier::type_invariant]
    closed spec fn inv(self) -> bool {
        self.pos <= self.bytes@.len()
    }

    /// A source over `bytes`.
    pub fn new(bytes: &'a [u8]) -> (r: Self)
        ensures
            r@ == bytes@,
    {
        let r = Source { bytes, pos: 0 };
        assert(r@ =~= bytes@);
        r
    }

    /// Number of bytes not read yet.
    pub fn remaining(&self) -> (r: usize)
        ensures
            r == self@.len(),
    {
        proof {
            use_type_invariant(self);
        }
        self.bytes.len() - self.pos
    }

    /// Reads the next `n` bytes, failing when fewer are left.
    pub fn read_exact(&mut self, n: usize) -> (r: Result<Vec<u8>, ContentError>)
        ensures
            r is Ok <==> n <= old(self)@.len(),
            r matches Ok(v) ==> v@ == old(self)@.take(n as int) && final(self)@ == old(self)@.skip(
                n as int,
            ),
            r is Err ==> r == Err::<Vec<u8>, ContentError>(ContentError::UnexpectedEnd)
                && final(self)@ == old(self)@,
    {
        proof {
            use_type_invariant(&*self);
        }
        if n > self.bytes.len() - self.pos {
            return Err(ContentError::UnexpectedEnd);
        }
        let total = self.bytes.len();
        let mut v: Vec<u8> = Vec::new();
        let mut i: usize = 0;
        while i < n
            invariant
                total == self.bytes@.len(),
                i <= n,
                self.pos + n <= self.bytes@.len(),
                self.pos == old(self).pos,
                self.bytes == old(self).bytes,
                v@ == self.bytes@.subrange(self.pos as int, self.pos + i),
            decreases n - i,
        {
            v.push(self.bytes[self.pos + i]);
            i = i + 1;
            assert(v@ =~= self.bytes@.subrange(self.pos as int, self.pos + i));
        }
        let ghost p0 = self.pos;
        self.pos = self.pos + n;
        assert(v@ =~= old(self)@.take(n as int));
        assert(self@ =~= old(self)@.skip(n as int));
        Ok(v)
    }
}

/// Values that are written to bytes and read back from them.
pub trait Content: Sized {
    /// The bytes that stand for the value.
    spec fn encoding(&self) -> Seq<u8>;

    /// No encoding is a proper prefix of another: where two values' bytes,
    /// each followed by more bytes, agree, so do the encodings and the bytes
    /// after them.
    proof fn lemma_prefix_free(a: Self, b: Self, r1: Seq<u8>, r2: Seq<u8>)
        requires
            a.encoding() + r1 == b.encoding() + r2,
        ensures
            a.encoding() == b.encoding(),
            r1 == r2,
    ;

    /// `self` and `other` are the same value to every reader: equal, told
    /// apart part by part where a value has parts (a vector by its elements).
    spec fn same_value(&self, other: &Self) -> bool;

    /// The bytes determine the value: values with the same encoding are the
    /// same value.
    proof fn lemma_encoding_determines(a: Self, b: Self)
        requires
            a.encoding() == b.encoding(),
        ensures
            a.same_value(&b),
    ;

    /// Writes the value's bytes.
    fn persist(&self, sink: &mut Sink)
        ensures
            final(sink)@ == old(sink)@ + self.encoding(),
    ;

    /// Reads a value from the front of the source. It succeeds exactly when
    /// the bytes start with the encoding of some value, and then reads that
    /// value and no more.
    fn restore(source: &mut Source) -> (r: Result<Self, ContentError>)
        ensures
            r matches Ok(v) ==> old(source)@ == v.encoding() + final(source)@,
            r is Ok <==> exists|v: Self, rest: Seq<u8>| old(source)@ == #[trigger] (v.encoding() + rest),
    ;
}

/// Bytes that start with a fixed-size encoding.
proof fn lemma_fixed_prefix(e1: Seq<u8>, e2: Seq<u8>, r1: Seq<u8>, r2: Seq<u8>)
    requires
        e1.len() == e2.len(),
        e1 + r1 == e2 + r2,
    ensures
        e1 == e2,
        r1 == r2,
{
    assert(e1 =~= (e1 + r1).take(e1.len() as int));
    assert(e2 =~= (e2 + r2).take(e2.len() as int));
    assert(r1 =~= (e1 + r1).skip(e1.len() as int));
    assert(r2 =~= (e2 + r2).skip(e2.len() as int));
}

impl Content for u8 {
    open spec fn encoding(&self) -> Seq<u8> {
        seq![*self]
    }

    proof fn lemma_prefix_free(a: Self, b: Self, r1: Seq<u8>, r2: Seq<u8>) {
        lemma_fixed_prefix(a.encoding(), b.encoding(), r1, r2);
    }

    open spec fn same_value(&self, other: &Self) -> bool {
        *self == *other
    }

    proof fn lemma_encoding_determines(a: Self, b: Self) {
        assert(a.encoding()[0] == a);
        assert(b.encoding()[0] == b);
    }

    fn persist(&self, sink: &mut Sink) {
        let buf = [*self];
        sink.write_all(&buf);
        assert(buf@ =~= seq![*self]);
    }

    fn restore(source: &mut Source) -> (r: Result<Self, ContentError>) {
        let ghost s0 = source@;
        match source.read_exact(1) {
            Ok(v) => {
                let b = v[0];
                assert(s0 =~= b.encoding() + source@);
                Ok(b)
            },
            Err(e) => {
                proof {
                    if exists|v: u8, rest: Seq<u8>| s0 == #[trigger] (v.encoding() + rest) {
                        let (v, rest) = choose|v: u8, rest: Seq<u8>| s0 == #[trigger] (v.encoding() + rest);
                        assert(s0.len() >= 1);
                    }
                }
                Err(e)
            },
        }
    }
}

impl Content for u16 {
    open spec fn encoding(&self) -> Seq<u8> {
        u16_be(*self)
    }

    proof fn lemma_prefix_free(a: Self, b: Self, r1: Seq<u8>, r2: Seq<u8>) {
        lemma_fixed_prefix(a.encoding(), b.encoding(), r1, r2);
    }

    open spec fn same_value(&self, other: &Self) -> bool {
        *self == *other
    }

    proof fn lemma_encoding_determines(a: Self, b: Self) {
        lemma_u16_be_injective(a, b);
    }

    fn persist(&self, sink: &mut Sink) {
        let buf = write_u16_be(*self);
        sink.write_all(&buf);
    }

    fn restore(source: &mut Source) -> (r: Result<Self, ContentError>) {
        let ghost s0 = source@;
        match source.read_exact(2) {
            Ok(v) => {
                let n = read_u16_be(v.as_slice());
                assert(v@.take(2) =~= v@);
                assert(s0 =~= n.encoding() + source@);
                Ok(n)
            },
            Err(e) => {
                proof {
                    if exists|v: u16, rest: Seq<u8>| s0 == #[trigger] (v.encoding() + rest) {
                        let (v, rest) = choose|v: u16, rest: Seq<u8>| s0 == #[trigger] (v.encoding() + rest);
                        assert(s0.len() >= 2);
                    }
                }
                Err(e)
            },
        }
    }
}

impl Content for u32 {
    open spec fn encoding(&self) -> Seq<u8> {
        u32_be(*self)
    }

    proof fn lemma_prefix_free(a: Self, b: Self, r1: Seq<u8>, r2: Seq<u8>) {
        lemma_fixed_prefix(a.encoding(), b.encoding(), r1, r2);
    }

    open spec fn same_value(&self, other: &Self) -> bool {
        *self == *other
    }

    proof fn lemma_encoding_determines(a: Self, b: Self) {
        lemma_u32_be_injective(a, b);
    }

    fn persist(&self, sink: &mut Sink) {
        let buf = write_u32_be(*self);
        sink.write_all(&buf);
    }

    fn restore(source: &mut Source) -> (r: Result<Self, ContentError>) {
        let ghost s0 = source@;
        match source.read_exact(4) {
            Ok(v) => {
                let n = read_u32_be(v.as_slice());
                assert(v@.take(4) =~= v@);
                assert(s0 =~= n.encoding() + source@);
                Ok(n)
            },
            Err(e) => {
                proof {
                    if exists|v: u32, rest: Seq<u8>| s0 == #[trigger] (v.encoding() + rest) {
                        let (v, rest) = choose|v: u32, rest: Seq<u8>| s0 == #[trigger] (v.encoding() + rest);
                        assert(s0.len() >= 4);
                    }
                }
                Err(e)
            },
        }
    }
}

impl Content for u64 {
    open spec fn encoding(&self) -> Seq<u8> {
        u64_be(*self)
    }

    proof fn lemma_prefix_free(a: Self, b: Self, r1: Seq<u8>, r2: Seq<u8>) {
        lemma_fixed_prefix(a.encoding(), b.encoding(), r1, r2);
    }

    open spec fn same_value(&self, other: &Self) -> bool {
        *self == *other
    }

    proof fn lemma_encoding_determines(a: Self, b: Self) {
        lemma_u64_be_injective(a, b);
    }

    fn persist(&self, sink: &mut Sink) {
        let buf = write_u64_be(*self);
        sink.write_all(&buf);
        assert(self.encoding() == buf@);
    }

    fn restore(source: &mut Source) -> (r: Result<Self, ContentError>) {
        let ghost s0 = source@;
        match source.read_exact(8) {
            Ok(v) => {
                let n = read_u64_be(v.as_slice());
                assert(v@.take(8) =~= v@);
                assert(s0 =~= n.encoding() + source@);
                Ok(n)
            },
            Err(e) => {
                proof {
                    if exists|v: u64, rest: Seq<u8>| s0 == #[trigger] (v.encoding() + rest) {
                        let (v, rest) = choose|v: u64, rest: Seq<u8>| s0 == #[trigger] (v.encoding() + rest);
                        assert(s0.len() >= 8);
                    }
                }
                Err(e)
            },
        }
    }
}

impl<A: Content, B: Content> Content for (A, B) {
    open spec fn encoding(&self) -> Seq<u8> {
        self.0.encoding() + self.1.encoding()
    }

    proof fn lemma_prefix_free(a: Self, b: Self, r1: Seq<u8>, r2: Seq<u8>) {
        assert(a.0.encoding() + (a.1.encoding() + r1) =~= a.encoding() + r1);
        assert(b.0.encoding() + (b.1.encoding() + r2) =~= b.encoding() + r2);
        A::lemma_prefix_free(a.0, b.0, a.1.encoding() + r1, b.1.encoding() + r2);
        B::lemma_prefix_free(a.1, b.1, r1, r2);
    }

    open spec fn same_value(&self, other: &Self) -> bool {
        self.0.same_value(&other.0) && self.1.same_value(&other.1)
    }

    proof fn lemma_encoding_determines(a: Self, b: Self) {
        assert(a.0.encoding() + a.1.encoding() == b.0.encoding() + b.1.encoding());
        A::lemma_prefix_free(a.0, b.0, a.1.encoding(), b.1.encoding());
        A::lemma_encoding_determines(a.0, b.0);
        B::lemma_encoding_determines(a.1, b.1);
    }

    fn persist(&self, sink: &mut Sink) {
        self.0.persist(sink);
        self.1.persist(sink);
        assert(sink@ =~= old(sink)@ + self.encoding());
    }

    fn restore(source: &mut Source) -> (r: Result<Self, ContentError>) {
        let ghost s0 = source@;
        let a = match A::restore(source) {
            Ok(a) => a,
            Err(e) => {
                proof {
                    if exists|v: (A, B), rest: Seq<u8>| s0 == #[trigger] (v.encoding() + rest) {
                        let (v, rest) = choose|v: (A, B), rest: Seq<u8>| s0 == #[trigger] (v.encoding() + rest);
                        assert(s0 =~= v.0.encoding() + (v.1.encoding() + rest));
                    }
                }
                return Err(e);
            },
        };
        let ghost s1 = source@;
        let b = match B::restore(source) {
            Ok(b) => b,
            Err(e) => {
                proof {
                    if exists|v: (A, B), rest: Seq<u8>| s0 == #[trigger] (v.encoding() + rest) {
                        let (v, rest) = choose|v: (A, B), rest: Seq<u8>| s0 == #[trigger] (v.encoding() + rest);
                        assert(s0 =~= v.0.encoding() + (v.1.encoding() + rest));
                        A::lemma_prefix_free(a, v.0, s1, v.1.encoding() + rest);
                    }
                }
                return Err(e);
            },
        };
        let r = (a, b);
        assert(s0 =~= r.encoding() + source@);
        Ok(r)
    }
}

impl Content for () {
    open spec fn encoding(&self) -> Seq<u8> {
        Seq::empty()
    }

    proof fn lemma_prefix_free(a: Self, b: Self, r1: Seq<u8>, r2: Seq<u8>) {
        assert(a.encoding() + r1 =~= r1);
        assert(b.encoding() + r2 =~= r2);
    }

    open spec fn same_value(&self, other: &Self) -> bool {
        true
    }

    proof fn lemma_encoding_determines(a: Self, b: Self) {
    }

    fn persist(&self, sink: &mut Sink) {
        assert(sink@ =~= old(sink)@ + self.encoding());
    }

    fn restore(source: &mut Source) -> (r: Result<Self, ContentError>) {
        assert(source@ =~= ().encoding() + source@);
        Ok(())
    }
}

impl<T: Content> Content for Box<T> {
    open spec fn encoding(&self) -> Seq<u8> {
        (**self).encoding()
    }

    proof fn lemma_prefix_free(a: Self, b: Self, r1: Seq<u8>, r2: Seq<u8>) {
        T::lemma_prefix_free(*a, *b, r1, r2);
    }

    open spec fn same_value(&self, other: &Self) -> bool {
        (**self).same_value(&**other)
    }

    proof fn lemma_encoding_determines(a: Self, b: Self) {
        T::lemma_encoding_determines(*a, *b);
    }

    fn persist(&self, sink: &mut Sink) {
        (**self).persist(sink);
    }

    fn restore(source: &mut Source) -> (r: Result<Self, ContentError>) {
        let ghost s0 = source@;
        match T::restore(source) {
            Ok(t) => Ok(Box::new(t)),
            Err(e) => {
                proof {
                    if exists|v: Box<T>, rest: Seq<u8>| s0 == #[trigger] (v.encoding() + rest) {
                        let (v, rest) = choose|v: Box<T>, rest: Seq<u8>| s0 == #[trigger] (v.encoding() + rest);
                        assert(s0 == (*v).encoding() + rest);
                    }
                }
                Err(e)
            },
        }
    }
}

impl<T: Content> Content for Option<T> {
    /// `0` for `None`; `1` and then the value for `Some`.
    open spec fn encoding(&self) -> Seq<u8> {
        match self {
            Some(v) => seq![1u8] + v.encoding(),
            None => seq![0u8],
        }
    }

    proof fn lemma_prefix_free(a: Self, b: Self, r1: Seq<u8>, r2: Seq<u8>) {
        let (s1, s2) = (a.encoding() + r1, b.encoding() + r2);
        assert(s1[0] == a.encoding()[0]);
        assert(s2[0] == b.encoding()[0]);
        match (a, b) {
            (Some(x), Some(y)) => {
                assert(s1.skip(1) =~= x.encoding() + r1);
                assert(s2.skip(1) =~= y.encoding() + r2);
                T::lemma_prefix_free(x, y, r1, r2);
            },
            (None, None) => {
                assert(r1 =~= s1.skip(1));
                assert(r2 =~= s2.skip(1));
            },
            _ => {},
        }
    }

    open spec fn same_value(&self, other: &Self) -> bool {
        match (self, other) {
            (Some(x), Some(y)) => x.same_value(y),
            (None, None) => true,
            _ => false,
        }
    }

    proof fn lemma_encoding_determines(a: Self, b: Self) {
        match (a, b) {
            (Some(x), Some(y)) => {
                assert(x.encoding() =~= a.encoding().skip(1));
                assert(y.encoding() =~= b.encoding().skip(1));
                T::lemma_encoding_determines(x, y);
            },
            (None, None) => {},
            (Some(x), None) => {
                assert((seq![1u8] + x.encoding())[0] == 1u8);
            },
            (None, Some(y)) => {
                assert((seq![1u8] + y.encoding())[0] == 1u8);
            },
        }
    }

    fn persist(&self, sink: &mut Sink) {
        match self {
            Some(v) => {
                sink.write_all(&[1u8]);
                v.persist(sink);
            },
            None => {
                sink.write_all(&[0u8]);
            },
        }
        assert(sink@ =~= old(sink)@ + self.encoding());
    }

    /// Reads the tag byte and, after a `1`, the value; a tag other than `0`
    /// or `1` is `InvalidEncoding`.
    fn restore(source: &mut Source) -> (r: Result<Self, ContentError>) {
        let ghost s0 = source@;
        let tag = match source.read_exact(1) {
            Ok(b) => b[0],
            Err(e) => {
                proof {
                    if exists|v: Option<T>, rest: Seq<u8>| s0 == #[trigger] (v.encoding() + rest) {
                        let (v, rest) = choose|v: Option<T>, rest: Seq<u8>| s0 == #[trigger] (v.encoding() + rest);
                        assert(s0.len() >= 1);
                    }
                }
                return Err(e);
            },
        };
        let ghost s1 = source@;
        assert(s0 =~= seq![tag] + s1);
        if tag == 0 {
            let r: Option<T> = None;
            assert(s0 =~= r.encoding() + s1);
            Ok(r)
        } else if tag == 1 {
            match T::restore(source) {
                Ok(v) => {
                    let r = Some(v);
                    assert(s0 =~= r.encoding() + source@);
                    Ok(r)
                },
                Err(e) => {
                    proof {
                        if exists|v: Option<T>, rest: Seq<u8>| s0 == #[trigger] (v.encoding() + rest) {
                            let (v, rest) = choose|v: Option<T>, rest: Seq<u8>| s0 == #[trigger] (v.encoding() + rest);
                            assert(s0[0] == v.encoding()[0]);
                            let x = v->0;
                            assert(s1 =~= s0.skip(1));
                            assert(s0.skip(1) =~= x.encoding() + rest);
                        }
                    }
                    Err(e)
                },
            }
        } else {
            proof {
                if exists|v: Option<T>, rest: Seq<u8>| s0 == #[trigger] (v.encoding() + rest) {
                    let (v, rest) = choose|v: Option<T>, rest: Seq<u8>| s0 == #[trigger] (v.encoding() + rest);
                    assert(s0[0] == v.encoding()[0]);
                }
            }
            Err(ContentError::InvalidEncoding)
        }
    }
}

/// The encodings of the elements of `s`, one after the other.
pub open spec fn seq_encoding<T: Content>(s: Seq<T>) -> Seq<u8>
    decreases s.len(),
{
    if s.len() == 0 {
        Seq::empty()
    } else {
        seq_encoding(s.drop_last()) + s.last().encoding()
    }
}

/// Appending an element appends its encoding.
proof fn lemma_seq_encoding_push<T: Content>(s: Seq<T>, x: T)
    ensures
        seq_encoding(s.push(x)) == seq_encoding(s) + x.encoding(),
{
    assert(s.push(x).drop_last() =~= s);
}

/// The encoding of a non-empty sequence starts with that of its first
/// element.
proof fn lemma_seq_encoding_front<T: Content>(s: Seq<T>)
    requires
        s.len() > 0,
    ensures
        seq_encoding(s) == s[0].encoding() + seq_encoding(s.drop_first()),
    decreases s.len(),
{
    if s.len() == 1 {
        assert(s.drop_last() =~= Seq::<T>::empty());
        assert(s.drop_first() =~= Seq::<T>::empty());
        assert(seq_encoding(s) =~= s[0].encoding() + seq_encoding(s.drop_first()));
    } else {
        lemma_seq_encoding_front(s.drop_last());
        assert(s.drop_last().drop_first() =~= s.drop_first().drop_last());
        assert(s.drop_first().last() == s.last());
        assert(s.drop_last()[0] == s[0]);
    }
}

/// Sequences of one length whose encodings, each followed by more bytes,
/// agree, have the same encoding and the same bytes after it.
proof fn lemma_seq_encoding_prefix_free<T: Content>(a: Seq<T>, b: Seq<T>, r1: Seq<u8>, r2: Seq<u8>)
    requires
        a.len() == b.len(),
        seq_encoding(a) + r1 == seq_encoding(b) + r2,
    ensures
        seq_encoding(a) == seq_encoding(b),
        r1 == r2,
    decreases a.len(),
{
    if a.len() == 0 {
        assert(seq_encoding(a) + r1 =~= r1);
        assert(seq_encoding(b) + r2 =~= r2);
    } else {
        lemma_seq_encoding_front(a);
        lemma_seq_encoding_front(b);
        let (ta, tb) = (seq_encoding(a.drop_first()), seq_encoding(b.drop_first()));
        assert(a[0].encoding() + (ta + r1) =~= seq_encoding(a) + r1);
        assert(b[0].encoding() + (tb + r2) =~= seq_encoding(b) + r2);
        T::lemma_prefix_free(a[0], b[0], ta + r1, tb + r2);
        lemma_seq_encoding_prefix_free(a.drop_first(), b.drop_first(), r1, r2);
    }
}

/// Sequences of one length with the same encoding have elements with the
/// same encodings.
pub proof fn lemma_seq_encoding_elements<T: Content>(a: Seq<T>, b: Seq<T>)
    requires
        a.len() == b.len(),
        seq_encoding(a) == seq_encoding(b),
    ensures
        forall|i: int| 0 <= i < a.len() ==> (#[trigger] a[i]).encoding() == b[i].encoding(),
    decreases a.len(),
{
    if a.len() > 0 {
        lemma_seq_encoding_front(a);
        lemma_seq_encoding_front(b);
        T::lemma_prefix_free(a[0], b[0], seq_encoding(a.drop_first()), seq_encoding(b.drop_first()));
        lemma_seq_encoding_elements(a.drop_first(), b.drop_first());
        assert forall|i: int| 0 <= i < a.len() implies (#[trigger] a[i]).encoding() == b[i].encoding() by {
            if i > 0 {
                assert(a[i] == a.drop_first()[i - 1]);
                assert(b[i] == b.drop_first()[i - 1]);
            }
        }
    }
}

impl<T: Content> Content for Vec<T> {
    /// The number of elements, as a big-endian `u64`, then the elements.
    open spec fn encoding(&self) -> Seq<u8> {
        u64_be(self.len() as u64) + seq_encoding(self@)
    }

    proof fn lemma_prefix_free(a: Self, b: Self, r1: Seq<u8>, r2: Seq<u8>) {
        let (la, lb) = (a.len() as u64, b.len() as u64);
        assert(u64_be(la) + (seq_encoding(a@) + r1) =~= a.encoding() + r1);
        assert(u64_be(lb) + (seq_encoding(b@) + r2) =~= b.encoding() + r2);
        lemma_fixed_prefix(u64_be(la), u64_be(lb), seq_encoding(a@) + r1, seq_encoding(b@) + r2);
        lemma_u64_be_injective(la, lb);
        assert(a@.len() == b@.len());
        lemma_seq_encoding_prefix_free(a@, b@, r1, r2);
    }

    open spec fn same_value(&self, other: &Self) -> bool {
        &&& self@.len() == other@.len()
        &&& forall|i: int| 0 <= i < self@.len() ==> (#[trigger] self@[i]).same_value(&other@[i])
    }

    proof fn lemma_encoding_determines(a: Self, b: Self) {
        let (la, lb) = (a.len() as u64, b.len() as u64);
        assert(u64_be(la) =~= a.encoding().take(8));
        assert(u64_be(lb) =~= b.encoding().take(8));
        lemma_u64_be_injective(la, lb);
        assert(seq_encoding(a@) =~= a.encoding().skip(8));
        assert(seq_encoding(b@) =~= b.encoding().skip(8));
        lemma_seq_encoding_elements(a@, b@);
        assert forall|i: int| 0 <= i < a@.len() implies (#[trigger] a@[i]).same_value(&b@[i]) by {
            T::lemma_encoding_determines(a@[i], b@[i]);
        }
    }

    fn persist(&self, sink: &mut Sink) {
        let n = write_u64_be(self.len() as u64);
        sink.write_all(&n);
        let mut i: usize = 0;
        while i < self.len()
            invariant
                i <= self@.len(),
                sink@ == old(sink)@ + u64_be(self.len() as u64) + seq_encoding(self@.take(i as int)),
            decreases self@.len() - i,
        {
            proof {
                lemma_seq_encoding_push(self@.take(i as int), self@[i as int]);
                assert(self@.take(i as int).push(self@[i as int]) =~= self@.take(i + 1));
            }
            self[i].persist(sink);
            i = i + 1;
        }
        assert(self@.take(self@.len() as int) =~= self@);
    }

    /// Reads the number of elements, then that many elements.
    fn restore(source: &mut Source) -> (r: Result<Self, ContentError>) {
        let ghost s0 = source@;
        let len = match u64::restore(source) {
            Ok(n) => n,
            Err(e) => {
                proof {
                    if exists|v: Vec<T>, rest: Seq<u8>| s0 == #[trigger] (v.encoding() + rest) {
                        let (v, rest) = choose|v: Vec<T>, rest: Seq<u8>| s0 == #[trigger] (v.encoding() + rest);
                        assert(s0 =~= (v.len() as u64).encoding() + (seq_encoding(v@) + rest));
                    }
                }
                return Err(e);
            },
        };
        let ghost s1 = source@;
        // Where the bytes encode some vector, `w` is one and `tail` what
        // follows its encoding.
        let ghost (w, tail) = choose|v: Vec<T>, rest: Seq<u8>| s0 == #[trigger] (v.encoding() + rest);
        let ghost encodes = exists|v: Vec<T>, rest: Seq<u8>| s0 == #[trigger] (v.encoding() + rest);
        proof {
            if encodes {
                assert(s0 =~= (w.len() as u64).encoding() + (seq_encoding(w@) + tail));
                u64::lemma_prefix_free(len, w.len() as u64, s1, seq_encoding(w@) + tail);
                lemma_u64_be_injective(len, w.len() as u64);
                assert(w@.skip(0) =~= w@);
            }
        }
        let mut out: Vec<T> = Vec::new();
        let mut i: u64 = 0;
        while i < len
            invariant
                i <= len,
                out@.len() == i,
                s0 == old(source)@,
                s0 == len.encoding() + seq_encoding(out@) + source@,
                encodes == exists|v: Vec<T>, rest: Seq<u8>| s0 == #[trigger] (v.encoding() + rest),
                encodes ==> s0 == w.encoding() + tail,
                encodes ==> w@.len() == len,
                encodes ==> source@ == seq_encoding(w@.skip(i as int)) + tail,
            decreases len - i,
        {
            let ghost before = source@;
            proof {
                if encodes {
                    lemma_seq_encoding_front(w@.skip(i as int));
                    assert(w@.skip(i as int).drop_first() =~= w@.skip(i + 1));
                    assert(w@.skip(i as int)[0] == w@[i as int]);
                    assert(before =~= w@[i as int].encoding() + (seq_encoding(w@.skip(i + 1)) + tail));
                }
            }
            match T::restore(source) {
                Ok(x) => {
                    proof {
                        lemma_seq_encoding_push(out@, x);
                        if encodes {
                            T::lemma_prefix_free(x, w@[i as int], source@, seq_encoding(w@.skip(i + 1)) + tail);
                        }
                    }
                    out.push(x);
                },
                Err(e) => {
                    proof {
                        if encodes {
                            assert(before == w@[i as int].encoding() + (seq_encoding(w@.skip(i + 1)) + tail));
                            assert(false);
                        }
                    }
                    return Err(e);
                },
            }
            i = i + 1;
        }
        assert(s0 =~= out.encoding() + source@);
        Ok(out)
    }
}

} // verus!
