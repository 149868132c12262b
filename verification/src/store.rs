//! The content-addressed store: values are written as bytes under the
//! Blake2b digest of those bytes, and read back by digest.
use vstd::prelude::*;

use crate::content::{Content, ContentError, Sink, Source};
use crate::hashing::{blake2b_digest, blake2b_hash};

verus! {

/// What storing bytes under a digest found.
#[derive(Debug, Clone, Copy, PartialEq, Eq, Structural)]
pub enum PutResult {
    /// Nothing was stored under the digest before.
    Stored,
    /// Bytes were already stored under the digest; they are replaced.
    AlreadyThere,
}

/// Why the store could not give back a value.
#[derive(Debug, Clone, Copy, PartialEq, Eq, Structural)]
pub enum StoreError {
    /// Nothing is stored under the digest.
    NotFound,
    /// The stored bytes do not encode a value of the type asked for.
    Content(ContentError),
}

/// Places that keep bytes under digests.
pub trait Backend {
    /// The bytes kept under each digest.
    spec fn contents(&self) -> Map<Seq<u8>, Seq<u8>>;

    /// Total number of bytes kept so far.
    spec fn stored_size(&self) -> nat;

    /// Bytes that start with those kept under `digest` (a backend may hand
    /// out what follows them too).
    fn get(&self, digest: &[u8; 32]) -> (r: Result<Vec<u8>, StoreError>)
        ensures
            r matches Ok(b) ==> self.contents().contains_key(digest@) && starts_with(
                b@,
                self.contents()[digest@],
            ),
    ;

    /// Keeps `bytes` under `digest`. Where bytes were kept under it already,
    /// either may be kept: under content addressing they are the same.
    fn put(&mut self, digest: [u8; 32], bytes: Vec<u8>) -> (r: Result<PutResult, StoreError>)
        requires
            old(self).stored_size() + bytes@.len() <= usize::MAX,
        ensures
            r is Ok ==> final(self).contents().remove(digest@) == old(self).contents().remove(digest@),
            r is Ok ==> final(self).contents().contains_key(digest@),
            r == Ok::<PutResult, StoreError>(PutResult::Stored) ==> !old(self).contents().contains_key(
                digest@,
            ) && final(self).contents()[digest@] == bytes@,
            r == Ok::<PutResult, StoreError>(PutResult::AlreadyThere) ==> old(self).contents().contains_key(
                digest@,
            ) && (final(self).contents()[digest@] == bytes@ || final(self).contents()[digest@] == old(
                self,
            ).contents()[digest@]),
    ;

    /// Approximate number of bytes kept.
    fn size(&self) -> usize;
}

/// The map the entries stand for: a later entry for a digest wins.
pub open spec fn entries_map(s: Seq<([u8; 32], Vec<u8>)>) -> Map<Seq<u8>, Seq<u8>>
    decreases s.len(),
{
    if s.len() == 0 {
        Map::empty()
    } else {
        entries_map(s.drop_last()).insert(s.last().0@, s.last().1@)
    }
}

/// With `i` the last entry for digest `d`, the map holds its bytes under `d`.
proof fn lemma_entries_last(s: Seq<([u8; 32], Vec<u8>)>, i: int, d: Seq<u8>)
    requires
        0 <= i < s.len(),
        s[i].0@ == d,
        forall|j: int| i < j < s.len() ==> (#[trigger] s[j]).0@ != d,
    ensures
        entries_map(s).contains_key(d),
        entries_map(s)[d] == s[i].1@,
    decreases s.len(),
{
    if i < s.len() - 1 {
        assert(s.drop_last()[i] == s[i]);
        assert forall|j: int| i < j < s.drop_last().len() implies (#[trigger] s.drop_last()[j]).0@ != d by {
            assert(s.drop_last()[j] == s[j]);
        }
        lemma_entries_last(s.drop_last(), i, d);
        assert(s[s.len() - 1].0@ != d);
    }
}

/// With no entry for digest `d`, the map holds nothing under `d`.
proof fn lemma_entries_absent(s: Seq<([u8; 32], Vec<u8>)>, d: Seq<u8>)
    requires
        forall|j: int| 0 <= j < s.len() ==> (#[trigger] s[j]).0@ != d,
    ensures
        !entries_map(s).contains_key(d),
    decreases s.len(),
{
    if s.len() > 0 {
        assert forall|j: int| 0 <= j < s.drop_last().len() implies (#[trigger] s.drop_last()[j]).0@ != d by {
            assert(s.drop_last()[j] == s[j]);
        }
        lemma_entries_absent(s.drop_last(), d);
        assert(s[s.len() - 1].0@ != d);
    }
}

/// Replacing the last entry for a digest replaces what the map holds under it.
proof fn lemma_entries_update(s: Seq<([u8; 32], Vec<u8>)>, i: int, e: ([u8; 32], Vec<u8>))
    requires
        0 <= i < s.len(),
        s[i].0@ == e.0@,
        forall|j: int| i < j < s.len() ==> (#[trigger] s[j]).0@ != e.0@,
    ensures
        entries_map(s.update(i, e)) == entries_map(s).insert(e.0@, e.1@),
    decreases s.len(),
{
    let t = s.update(i, e);
    if i == s.len() - 1 {
        assert(t.drop_last() =~= s.drop_last());
        assert(entries_map(t) =~= entries_map(s).insert(e.0@, e.1@));
    } else {
        assert(t.drop_last() =~= s.drop_last().update(i, e));
        assert forall|j: int| i < j < s.drop_last().len() implies (#[trigger] s.drop_last()[j]).0@
            != e.0@ by {
            assert(s.drop_last()[j] == s[j]);
        }
        lemma_entries_update(s.drop_last(), i, e);
        assert(s[s.len() - 1].0@ != e.0@);
        assert(t.last() == s.last());
        assert(entries_map(t) =~= entries_map(s).insert(e.0@, e.1@));
    }
}

/// A copy of `v`.
fn copy_vec(v: &Vec<u8>) -> (r: Vec<u8>)
    ensures
        r@ == v@,
{
    let mut out: Vec<u8> = Vec::new();
    let mut i: usize = 0;
    while i < v.len()
        invariant
            i <= v@.len(),
            out@ == v@.take(i as int),
        decreases v@.len() - i,
    {
        out.push(v[i]);
        i = i + 1;
        assert(out@ =~= v@.take(i as int));
    }
    assert(v@.take(v@.len() as int) =~= v@);
    out
}

/// Whether two digests are equal.
pub fn digest_eq(a: &[u8; 32], b: &[u8; 32]) -> (r: bool)
    ensures
        r == (a@ == b@),
{
    let mut i: usize = 0;
    while i < 32
        invariant
            i <= 32,
            a@.len() == 32,
            b@.len() == 32,
            forall|j: int| 0 <= j < i ==> a@[j] == b@[j],
        decreases 32 - i,
    {
        if a[i] != b[i] {
            return false;
        }
        i = i + 1;
    }
    assert(a@ =~= b@);
    true
}

/// A backend that keeps its bytes in memory.
pub struct MemBackend {
    size: usize,
    data: Vec<([u8; 32], Vec<u8>)>,
}

impl MemBackend {
    /// An empty backend.
    pub fn new() -> (r: Self)
        ensures
            r.contents() == Map::<Seq<u8>, Seq<u8>>::empty(),
            r.stored_size() == 0,
    {
        let r = MemBackend { size: 0, data: Vec::new() };
        assert(r.data@ =~= Seq::<([u8; 32], Vec<u8>)>::empty());
        r
    }

    /// The bytes kept under `digest`, if any.
    pub fn get_ref(&self, digest: &[u8; 32]) -> (r: Option<&Vec<u8>>)
        ensures
            r is Some <==> self.contents().contains_key(digest@),
            r matches Some(b) ==> b@ == self.contents()[digest@],
    {
        match self.find(digest) {
            Some(i) => {
                proof {
                    lemma_entries_last(self.data@, i as int, digest@);
                }
                Some(&self.data[i].1)
            },
            None => {
                proof {
                    lemma_entries_absent(self.data@, digest@);
                }
                None
            },
        }
    }

    /// The index of the last entry for `digest`, if any.
    fn find(&self, digest: &[u8; 32]) -> (r: Option<usize>)
        ensures
            r matches Some(i) ==> i < self.data@.len() && self.data@[i as int].0@ == digest@ && forall|
                j: int,
            |
                i < j < self.data@.len() ==> (#[trigger] self.data@[j]).0@ != digest@,
            r is None ==> forall|j: int|
                0 <= j < self.data@.len() ==> (#[trigger] self.data@[j]).0@ != digest@,
    {
        let mut i = self.data.len();
        while i > 0
            invariant
                i <= self.data@.len(),
                forall|j: int| i <= j < self.data@.len() ==> (#[trigger] self.data@[j]).0@ != digest@,
            decreases i,
        {
            if digest_eq(&self.data[i - 1].0, digest) {
                return Some(i - 1);
            }
            i = i - 1;
        }
        None
    }
}

impl Backend for MemBackend {
    closed spec fn contents(&self) -> Map<Seq<u8>, Seq<u8>> {
        entries_map(self.data@)
    }

    closed spec fn stored_size(&self) -> nat {
        self.size as nat
    }

    fn get(&self, digest: &[u8; 32]) -> (r: Result<Vec<u8>, StoreError>)
        ensures
            r is Err ==> r == Err::<Vec<u8>, StoreError>(StoreError::NotFound) && !self.contents().contains_key(
                digest@,
            ),
            r is Ok <==> self.contents().contains_key(digest@),
            r matches Ok(b) ==> b@ == self.contents()[digest@],
    {
        match self.get_ref(digest) {
            Some(b) => {
                let c = copy_vec(b);
                assert(c@.take(c@.len() as int) =~= c@);
                Ok(c)
            },
            None => Err(StoreError::NotFound),
        }
    }

    fn put(&mut self, digest: [u8; 32], bytes: Vec<u8>) -> (r: Result<PutResult, StoreError>)
        ensures
            r is Ok,
            r == Ok::<PutResult, StoreError>(PutResult::AlreadyThere) <==> old(self).contents().contains_key(
                digest@,
            ),
            final(self).contents() == old(self).contents().insert(digest@, bytes@),
            final(self).stored_size() == old(self).stored_size() + bytes@.len(),
    {
        let ghost old_data = self.data@;
        let len = bytes.len();
        let found = self.find(&digest);
        self.size = self.size + len;
        match found {
            Some(i) => {
                proof {
                    lemma_entries_last(old_data, i as int, digest@);
                    lemma_entries_update(old_data, i as int, (digest, bytes));
                }
                self.data.set(i, (digest, bytes));
                Ok(PutResult::AlreadyThere)
            },
            None => {
                proof {
                    lemma_entries_absent(old_data, digest@);
                }
                self.data.push((digest, bytes));
                proof {
                    assert(self.data@.drop_last() =~= old_data);
                }
                Ok(PutResult::Stored)
            },
        }
    }

    fn size(&self) -> (r: usize)
        ensures
            r == self.stored_size(),
    {
        self.size
    }
}

/// A reference to a value kept in the store: the digest of its bytes.
#[derive(Debug, Clone, Copy, PartialEq, Eq)]
pub struct Snapshot {
    hash: [u8; 32],
}

impl Snapshot {
    /// The digest the value is kept under.
    pub closed spec fn digest(self) -> Seq<u8> {
        self.hash@
    }

    /// The digest the value is kept under.
    pub fn hash(&self) -> (r: &[u8; 32])
        ensures
            r@ == self.digest(),
    {
        &self.hash
    }
}

/// The store: values kept as bytes under the digests of those bytes.
pub struct Store {
    backend: MemBackend,
}

impl Store {
    /// The bytes kept under each digest.
    pub closed spec fn contents(self) -> Map<Seq<u8>, Seq<u8>> {
        self.backend.contents()
    }

    /// Total number of bytes put.
    pub closed spec fn stored_size(self) -> nat {
        self.backend.stored_size()
    }

    /// A store kept in memory only.
    pub fn ephemeral() -> (r: Self)
        ensures
            r.contents() == Map::<Seq<u8>, Seq<u8>>::empty(),
            r.stored_size() == 0,
    {
        Store { backend: MemBackend::new() }
    }

    /// Keeps `bytes` under `digest`.
    pub fn put(&mut self, digest: [u8; 32], bytes: Vec<u8>) -> (r: PutResult)
        requires
            old(self).stored_size() + bytes@.len() <= usize::MAX,
        ensures
            final(self).contents() == old(self).contents().insert(digest@, bytes@),
            final(self).stored_size() == old(self).stored_size() + bytes@.len(),
            (r == PutResult::AlreadyThere) == old(self).contents().contains_key(digest@),
    {
        match self.backend.put(digest, bytes) {
            Ok(r) => r,
            Err(_) => PutResult::Stored,
        }
    }

    /// Writes `content` to the store, under the digest of its bytes.
    pub fn persist<T: Content>(&mut self, content: &T) -> (r: Snapshot)
        requires
            old(self).stored_size() + content.encoding().len() <= usize::MAX,
        ensures
            r.digest() == blake2b_digest(content.encoding()),
            final(self).contents() == old(self).contents().insert(r.digest(), content.encoding()),
            final(self).stored_size() == old(self).stored_size() + content.encoding().len(),
    {
        let mut sink = Sink::new();
        content.persist(&mut sink);
        assert(sink@ =~= content.encoding());
        let hash = sink.fin(self);
        Snapshot { hash }
    }

    /// Reads back the value kept under `hash`.
    pub fn get_hash<T: Content>(&self, hash: &[u8; 32]) -> (r: Result<T, StoreError>)
        ensures
            !self.contents().contains_key(hash@) ==> r == Err::<T, StoreError>(StoreError::NotFound),
            self.contents().contains_key(hash@) ==> {
                &&& r matches Ok(v) ==> starts_with(self.contents()[hash@], v.encoding())
                &&& r matches Ok(v) ==> forall|x: T|
                    #[trigger] x.encoding() == self.contents()[hash@] ==> v.same_value(&x)
                &&& r is Ok <==> exists|v: T| starts_with(self.contents()[hash@], #[trigger] v.encoding())
                &&& r matches Err(e) ==> e is Content
            },
    {
        match self.backend.get_ref(hash) {
            Some(bytes) => {
                let mut source = Source::new(bytes.as_slice());
                let ghost s0 = source@;
                let res = T::restore(&mut source);
                proof {
                    assert(s0 == self.contents()[hash@]);
                    if exists|v: T| starts_with(s0, #[trigger] v.encoding()) {
                        let v = choose|v: T| starts_with(s0, #[trigger] v.encoding());
                        lemma_starts_with(s0, v.encoding());
                        assert(s0 == v.encoding() + s0.skip(v.encoding().len() as int));
                    }
                    if exists|v: T, rest: Seq<u8>| s0 == #[trigger] (v.encoding() + rest) {
                        let (v, rest) = choose|v: T, rest: Seq<u8>| s0 == #[trigger] (v.encoding() + rest);
                        lemma_starts_with(s0, v.encoding());
                        assert(rest =~= s0.skip(v.encoding().len() as int));
                        assert(starts_with(s0, v.encoding()));
                    }
                }
                match res {
                    Ok(v) => {
                        proof {
                            lemma_starts_with(s0, v.encoding());
                            assert(source@ =~= s0.skip(v.encoding().len() as int));
                            assert forall|x: T| #[trigger] x.encoding() == s0 implies v.same_value(&x) by {
                                lemma_restore_persisted(x, v);
                            }
                        }
                        Ok(v)
                    },
                    Err(e) => Err(StoreError::Content(e)),
                }
            },
            None => Err(StoreError::NotFound),
        }
    }

    /// Reads back the value a snapshot refers to.
    pub fn restore<T: Content>(&self, snap: &Snapshot) -> (r: Result<T, StoreError>)
        ensures
            !self.contents().contains_key(snap.digest()) ==> r == Err::<T, StoreError>(StoreError::NotFound),
            self.contents().contains_key(snap.digest()) ==> {
                &&& r matches Ok(v) ==> starts_with(self.contents()[snap.digest()], v.encoding())
                &&& r matches Ok(v) ==> forall|x: T|
                    #[trigger] x.encoding() == self.contents()[snap.digest()] ==> v.same_value(&x)
                &&& r is Ok <==> exists|v: T| starts_with(self.contents()[snap.digest()], #[trigger] v.encoding())
                &&& r matches Err(e) ==> e is Content
            },
    {
        self.get_hash(&snap.hash)
    }

    /// Approximate number of bytes kept.
    pub fn size(&self) -> (r: usize)
        ensures
            r == self.stored_size(),
    {
        self.backend.size()
    }
}

impl Sink {
    /// Hashes the bytes written and keeps them in `store` under their digest,
    /// which it returns.
    pub fn fin(self, store: &mut Store) -> (r: [u8; 32])
        requires
            old(store).stored_size() + self@.len() <= usize::MAX,
        ensures
            r@ == blake2b_digest(self@),
            final(store).contents() == old(store).contents().insert(r@, self@),
            final(store).stored_size() == old(store).stored_size() + self@.len(),
    {
        let bytes = self.into_bytes();
        let hash = blake2b_hash(bytes.as_slice());
        store.put(hash, bytes);
        hash
    }
}

impl Sink {
    /// The digest of the bytes written, keeping them nowhere.
    pub fn fin_dry(self) -> (r: [u8; 32])
        ensures
            r@ == blake2b_digest(self@),
    {
        let bytes = self.into_bytes();
        blake2b_hash(bytes.as_slice())
    }

    /// Keeps the bytes written in `backend` under their digest, which it
    /// returns.
    pub fn fin_into<B: Backend>(self, backend: &mut B) -> (r: Result<[u8; 32], StoreError>)
        requires
            old(backend).stored_size() + self@.len() <= usize::MAX,
        ensures
            r matches Ok(h) ==> {
                &&& h@ == blake2b_digest(self@)
                &&& final(backend).contents().contains_key(h@)
                &&& final(backend).contents().remove(h@) == old(backend).contents().remove(h@)
                &&& final(backend).contents()[h@] == self@ || (old(backend).contents().contains_key(h@)
                    && final(backend).contents()[h@] == old(backend).contents()[h@])
            },
    {
        let bytes = self.into_bytes();
        let hash = blake2b_hash(bytes.as_slice());
        let ghost b = bytes@;
        match backend.put(hash, bytes) {
            Ok(p) => {
                proof {
                    assert(b == self@);
                    match p {
                        PutResult::Stored => {},
                        PutResult::AlreadyThere => {},
                    }
                }
                Ok(hash)
            },
            Err(e) => Err(e),
        }
    }
}

/// Reads back the value that `backend` keeps under `hash`. Where the bytes
/// kept are the encoding of a value, what comes back has that encoding.
pub fn restore_from<T: Content, B: Backend>(backend: &B, hash: &[u8; 32]) -> (r: Result<T, StoreError>)
    ensures
        r matches Ok(v) ==> backend.contents().contains_key(hash@) && forall|x: T|
            x.encoding() == backend.contents()[hash@] ==> #[trigger] v.encoding() == x.encoding()
                && v.same_value(&x),
        r matches Err(e) ==> e is NotFound || e is Content,
        r matches Err(StoreError::Content(_)) ==> backend.contents().contains_key(hash@) && !exists|
            v: T,
        | starts_with(backend.contents()[hash@], #[trigger] v.encoding()),
{
    match backend.get(hash) {
        Ok(bytes) => {
            let mut source = Source::new(bytes.as_slice());
            let ghost s0 = source@;
            let res = T::restore(&mut source);
            match res {
                Ok(v) => {
                    proof {
                        let stored = backend.contents()[hash@];
                        assert forall|x: T| x.encoding() == stored implies #[trigger] v.encoding()
                            == x.encoding() && v.same_value(&x) by {
                            lemma_starts_with(s0, stored);
                            T::lemma_prefix_free(
                                x,
                                v,
                                s0.skip(stored.len() as int),
                                source@,
                            );
                            T::lemma_encoding_determines(v, x);
                        }
                    }
                    Ok(v)
                },
                Err(e) => {
                    proof {
                        let stored = backend.contents()[hash@];
                        if exists|v: T| starts_with(stored, #[trigger] v.encoding()) {
                            let v = choose|v: T| starts_with(stored, #[trigger] v.encoding());
                            lemma_starts_with(s0, stored);
                            lemma_starts_with(stored, v.encoding());
                            let rest = stored.skip(v.encoding().len() as int) + s0.skip(
                                stored.len() as int,
                            );
                            assert(s0 =~= v.encoding() + rest);
                        }
                    }
                    Err(StoreError::Content(e))
                },
            }
        },
        Err(_) => Err(StoreError::NotFound),
    }
}

/// `s` starts with `p`.
pub open spec fn starts_with(s: Seq<u8>, p: Seq<u8>) -> bool {
    p.len() <= s.len() && s.take(p.len() as int) == p
}

/// Starting with `p` is being `p` followed by the rest.
pub proof fn lemma_starts_with(s: Seq<u8>, p: Seq<u8>)
    ensures
        starts_with(s, p) <==> s == p + s.skip(p.len() as int),
{
    if starts_with(s, p) {
        assert(s =~= p + s.skip(p.len() as int));
    }
    if s == p + s.skip(p.len() as int) {
        assert(s.take(p.len() as int) =~= p);
    }
}

/// Reading back what was persisted gives the value persisted: when the
/// bytes kept for `x` start with the encoding of `v`, the two encodings are
/// the same, and so `v` is the same value as `x`.
pub proof fn lemma_restore_persisted<T: Content>(x: T, v: T)
    requires
        starts_with(x.encoding(), v.encoding()),
    ensures
        v.encoding() == x.encoding(),
        v.same_value(&x),
{
    let rest = x.encoding().skip(v.encoding().len() as int);
    lemma_starts_with(x.encoding(), v.encoding());
    assert(x.encoding() + Seq::<u8>::empty() =~= x.encoding());
    T::lemma_prefix_free(x, v, Seq::<u8>::empty(), rest);
    T::lemma_encoding_determines(v, x);
}

/// A value kept in the store, known by the digest of its bytes.
#[derive(Debug, Clone, Copy, PartialEq, Eq)]
pub struct Erased {
    hash: [u8; 32],
}

impl Erased {
    /// The digest the value is kept under.
    pub closed spec fn digest(self) -> Seq<u8> {
        self.hash@
    }

    /// Keeps `t` in the store and refers to it.
    pub fn wrap<T: Content>(t: &T, store: &mut Store) -> (r: Self)
        requires
            old(store).stored_size() + t.encoding().len() <= usize::MAX,
        ensures
            r.digest() == blake2b_digest(t.encoding()),
            final(store).contents() == old(store).contents().insert(r.digest(), t.encoding()),
            final(store).stored_size() == old(store).stored_size() + t.encoding().len(),
    {
        let snap = store.persist(t);
        Erased { hash: *snap.hash() }
    }

    /// Reads the value back from the store, for reading.
    pub fn query<T: Content>(&self, store: &Store) -> (r: Result<Query<T>, StoreError>)
        ensures
            !store.contents().contains_key(self.digest()) ==> r == Err::<Query<T>, StoreError>(
                StoreError::NotFound,
            ),
            store.contents().contains_key(self.digest()) ==> {
                &&& r matches Ok(q) ==> starts_with(store.contents()[self.digest()], q.value().encoding())
                &&& r matches Ok(q) ==> forall|x: T|
                    #[trigger] x.encoding() == store.contents()[self.digest()] ==> q.value().same_value(&x)
                &&& r is Ok <==> exists|v: T| starts_with(store.contents()[self.digest()], #[trigger] v.encoding())
            },
    {
        match store.get_hash(&self.hash) {
            Ok(inner) => Ok(Query { inner }),
            Err(e) => Err(e),
        }
    }

    /// Keeps `t` in the store in place of the value referred to, and refers
    /// to it from now on.
    pub fn commit<T: Content>(&mut self, t: &T, store: &mut Store)
        requires
            old(store).stored_size() + t.encoding().len() <= usize::MAX,
        ensures
            final(self).digest() == blake2b_digest(t.encoding()),
            final(store).contents() == old(store).contents().insert(final(self).digest(), t.encoding()),
            final(store).stored_size() == old(store).stored_size() + t.encoding().len(),
    {
        let snap = store.persist(t);
        self.hash = *snap.hash();
    }
}

/// A read-only view of a value read back through an `Erased` reference.
pub struct Query<T> {
    inner: T,
}

impl<T> Query<T> {
    /// The value read back.
    pub closed spec fn value(self) -> T {
        self.inner
    }

    /// Gives up the view, returning the value.
    pub fn into_inner(self) -> (r: T)
        ensures
            r == self.value(),
    {
        self.inner
    }
}

impl<T> std::ops::Deref for Query<T> {
    type Target = T;

    fn deref(&self) -> (r: &T)
        ensures
            *r == self.value(),
    {
        &self.inner
    }
}

impl Content for Erased {
    open spec fn encoding(&self) -> Seq<u8> {
        self.digest()
    }

    proof fn lemma_prefix_free(a: Self, b: Self, r1: Seq<u8>, r2: Seq<u8>) {
        let (e1, e2) = (a.encoding(), b.encoding());
        assert(e1.len() == 32 && e2.len() == 32);
        assert(e1 =~= (e1 + r1).take(32));
        assert(e2 =~= (e2 + r2).take(32));
        assert(r1 =~= (e1 + r1).skip(32));
        assert(r2 =~= (e2 + r2).skip(32));
    }

    open spec fn same_value(&self, other: &Self) -> bool {
        self.digest() == other.digest()
    }

    proof fn lemma_encoding_determines(a: Self, b: Self) {
    }

    fn persist(&self, sink: &mut Sink) {
        sink.write_all(&self.hash);
    }

    fn restore(source: &mut Source) -> (r: Result<Self, ContentError>) {
        let ghost s0 = source@;
        match source.read_exact(32) {
            Ok(v) => {
                let mut hash = [0u8; 32];
                let mut i: usize = 0;
                while i < 32
                    invariant
                        i <= 32,
                        v@.len() == 32,
                        hash@.len() == 32,
                        forall|j: int| 0 <= j < i ==> hash@[j] == v@[j],
                    decreases 32 - i,
                {
                    hash[i] = v[i];
                    i = i + 1;
                }
                let e = Erased { hash };
                assert(e.encoding() =~= v@);
                assert(s0 =~= e.encoding() + source@);
                Ok(e)
            },
            Err(err) => {
                proof {
                    if exists|v: Erased, rest: Seq<u8>| s0 == #[trigger] (v.encoding() + rest) {
                        let (v, rest) = choose|v: Erased, rest: Seq<u8>| s0 == #[trigger] (v.encoding() + rest);
                        assert(v.hash@.len() == 32);
                        assert(s0.len() >= 32);
                    }
                }
                Err(err)
            },
        }
    }
}

} // verus!
