//! Sequences of nibbles (half-bytes) over byte buffers, the key paths of the
//! radix trie.
use vstd::prelude::*;

use crate::content::{Content, ContentError, Sink, Source};
use crate::hashing::u16_be;

verus! {

/// The `i`:th nibble of `bytes`, high nibble first.
pub open spec fn nibble_at(bytes: Seq<u8>, i: int) -> u8 {
    if i % 2 == 0 {
        (bytes[i / 2] / 16) as u8
    } else {
        (bytes[i / 2] % 16) as u8
    }
}

/// All nibbles of `bytes`, two per byte, high nibble first.
pub open spec fn nibbles_of(bytes: Seq<u8>) -> Seq<u8> {
    Seq::new((2 * bytes.len()) as nat, |i: int| nibble_at(bytes, i))
}

/// Length of the longest common prefix of `a` and `b`.
pub open spec fn common_prefix_len_spec(a: Seq<u8>, b: Seq<u8>) -> nat
    decreases a.len(),
{
    if a.len() == 0 || b.len() == 0 || a[0] != b[0] {
        0
    } else {
        1 + common_prefix_len_spec(a.drop_first(), b.drop_first())
    }
}

/// `l` is the length of the longest common prefix of `a` and `b`.
pub open spec fn is_common_prefix_len(a: Seq<u8>, b: Seq<u8>, l: int) -> bool {
    &&& 0 <= l <= a.len()
    &&& l <= b.len()
    &&& forall|i: int| 0 <= i < l ==> a[i] == b[i]
    &&& (l < a.len() && l < b.len() ==> a[l] != b[l])
}

pub proof fn lemma_common_prefix_len_unique(a: Seq<u8>, b: Seq<u8>, l: int)
    requires
        is_common_prefix_len(a, b, l),
    ensures
        l == common_prefix_len_spec(a, b),
    decreases a.len(),
{
    if a.len() == 0 || b.len() == 0 || a[0] != b[0] {
    } else {
        assert(is_common_prefix_len(a.drop_first(), b.drop_first(), l - 1));
        lemma_common_prefix_len_unique(a.drop_first(), b.drop_first(), l - 1);
    }
}

/// `common_prefix_len_spec` is the length of the longest common prefix.
pub proof fn lemma_common_prefix_len(a: Seq<u8>, b: Seq<u8>)
    ensures
        is_common_prefix_len(a, b, common_prefix_len_spec(a, b) as int),
    decreases a.len(),
{
    if a.len() == 0 || b.len() == 0 || a[0] != b[0] {
    } else {
        lemma_common_prefix_len(a.drop_first(), b.drop_first());
        let l = common_prefix_len_spec(a, b) as int;
        assert forall|i: int| 0 <= i < l implies a[i] == b[i] by {
            if i > 0 {
                assert(a.drop_first()[i - 1] == a[i]);
                assert(b.drop_first()[i - 1] == b[i]);
            }
        }
        if l < a.len() && l < b.len() {
            assert(a.drop_first()[l - 1] == a[l]);
            assert(b.drop_first()[l - 1] == b[l]);
        }
    }
}

/// Distinct byte strings have distinct nibbles.
pub proof fn lemma_nibbles_of_injective(a: Seq<u8>, b: Seq<u8>)
    requires
        nibbles_of(a) == nibbles_of(b),
    ensures
        a == b,
{
    assert(a.len() == b.len()) by {
        assert(nibbles_of(a).len() == 2 * a.len());
        assert(nibbles_of(b).len() == 2 * b.len());
    }
    assert forall|j: int| 0 <= j < a.len() implies a[j] == b[j] by {
        assert(nibbles_of(a)[2 * j] == nibbles_of(b)[2 * j]);
        assert(nibbles_of(a)[2 * j + 1] == nibbles_of(b)[2 * j + 1]);
        assert((2 * j) % 2 == 0 && (2 * j) / 2 == j);
        assert((2 * j + 1) % 2 == 1 && (2 * j + 1) / 2 == j);
        let x = a[j];
        let y = b[j];
        assert(nibble_at(a, 2 * j) == (x / 16) as u8);
        assert(nibble_at(b, 2 * j) == (y / 16) as u8);
        assert(nibble_at(a, 2 * j + 1) == (x % 16) as u8);
        assert(nibble_at(b, 2 * j + 1) == (y % 16) as u8);
        assert(nibbles_of(a)[2 * j] == nibble_at(a, 2 * j));
        assert(nibbles_of(b)[2 * j] == nibble_at(b, 2 * j));
        assert(nibbles_of(a)[2 * j + 1] == nibble_at(a, 2 * j + 1));
        assert(nibbles_of(b)[2 * j + 1] == nibble_at(b, 2 * j + 1));
        assert(x / 16 == y / 16);
        assert(x % 16 == y % 16);
        assert(x / 16 == y / 16 && x % 16 == y % 16 ==> x == y) by (bit_vector);
    }
    assert(a =~= b);
}

proof fn lemma_high_nibble(b: u8)
    ensures
        (b & 0xF0u8) >> 4u8 == b / 16,
        b & 0x0Fu8 == b % 16,
{
    assert((b & 0xF0u8) >> 4u8 == b / 16) by (bit_vector);
    assert(b & 0x0Fu8 == b % 16) by (bit_vector);
}

/// Reads nibble `p` out of `bytes`.
fn read_nibble(bytes: &[u8], p: usize) -> (r: usize)
    requires
        p / 2 < bytes@.len(),
    ensures
        r == nibble_at(bytes@, p as int),
        r < 16,
{
    let byte = bytes[p / 2];
    proof {
        lemma_high_nibble(byte);
    }
    if p % 2 == 0 {
        ((byte & 0xF0) >> 4) as usize
    } else {
        (byte & 0x0F) as usize
    }
}

/// Types that can be viewed as a sequence of nibbles.
pub trait AsNibbles {
    /// The nibbles the value stands for.
    spec fn nibble_view(&self) -> Seq<u8>;

    /// Borrows the value as `Nibbles`.
    fn as_nibbles(&self) -> (r: Nibbles<'_>)
        ensures
            r@ == self.nibble_view(),
    ;
}

/// A borrowed window `[ofs_front, ofs_back)` into the nibbles of a byte slice.
#[derive(Clone, Copy, Debug)]
pub struct Nibbles<'a> {
    bytes: &'a [u8],
    ofs_front: usize,
    ofs_back: usize,
}

impl<'a> View for Nibbles<'a> {
    type V = Seq<u8>;

    closed spec fn view(&self) -> Seq<u8> {
        nibbles_of(self.bytes@).subrange(self.ofs_front as int, self.ofs_back as int)
    }
}

impl<'a> Nibbles<'a> {
    #[verifier::type_invariant]
    closed spec fn inv(self) -> bool {
        &&& self.ofs_front <= self.ofs_back <= 2 * self.bytes@.len()
        &&& 2 * self.bytes@.len() + 2 <= usize::MAX
    }

    /// All nibbles of the underlying bytes, including those outside the window.
    pub closed spec fn raw(self) -> Seq<u8> {
        nibbles_of(self.bytes@)
    }

    /// Start of the window in `raw()`.
    pub closed spec fn front(self) -> int {
        self.ofs_front as int
    }

    /// End of the window in `raw()`.
    pub closed spec fn back(self) -> int {
        self.ofs_back as int
    }

    /// The nibbles of `bytes`.
    pub fn new(bytes: &'a [u8]) -> (r: Self)
        requires
            2 * bytes@.len() + 2 <= usize::MAX,
        ensures
            r@ == nibbles_of(bytes@),
            r.raw() == nibbles_of(bytes@),
            r.front() == 0,
            r.back() == 2 * bytes@.len(),
    {
        let r = Nibbles { bytes, ofs_front: 0, ofs_back: bytes.len() * 2 };
        assert(r@ =~= nibbles_of(bytes@));
        r
    }

    /// The nibble at `idx`, counted from the front of the window.
    pub fn get(&self, idx: usize) -> (r: usize)
        requires
            self.front() + idx < self.raw().len(),
        ensures
            r == self.raw()[self.front() + idx],
            idx < self@.len() ==> r == self@[idx as int],
            r < 16,
    {
        proof {
            use_type_invariant(self);
        }
        read_nibble(self.bytes, self.ofs_front + idx)
    }

    /// Removes the first nibble of the window and returns it.
    pub fn pop_nibble(&mut self) -> (r: usize)
        requires
            old(self)@.len() > 0,
        ensures
            r == old(self)@[0],
            r < 16,
            final(self)@ == old(self)@.drop_first(),
            final(self).raw() == old(self).raw(),
            final(self).front() == old(self).front() + 1,
            final(self).back() == old(self).back(),
    {
        proof {
            use_type_invariant(&*self);
        }
        let nibble = self.get(0);
        self.ofs_front = self.ofs_front + 1;
        assert(self@ =~= old(self)@.drop_first());
        nibble
    }

    /// Drops `by` nibbles from the front of the window.
    pub fn trim_front(&mut self, by: usize)
        requires
            by <= old(self)@.len(),
        ensures
            final(self)@ == old(self)@.skip(by as int),
            final(self).raw() == old(self).raw(),
            final(self).front() == old(self).front() + by,
            final(self).back() == old(self).back(),
    {
        proof {
            use_type_invariant(&*self);
        }
        self.ofs_front = self.ofs_front + by;
        assert(self@ =~= old(self)@.skip(by as int));
    }

    /// Drops `by` nibbles from the back of the window.
    pub fn trim_back(&mut self, by: usize)
        requires
            by <= old(self)@.len(),
        ensures
            final(self)@ == old(self)@.take(old(self)@.len() - by),
            final(self).raw() == old(self).raw(),
            final(self).front() == old(self).front(),
            final(self).back() == old(self).back() - by,
    {
        proof {
            use_type_invariant(&*self);
        }
        self.ofs_back = self.ofs_back - by;
        assert(self@ =~= old(self)@.take(old(self)@.len() - by));
    }

    /// Number of nibbles in the window.
    pub fn len(&self) -> (r: usize)
        ensures
            r == self@.len(),
    {
        proof {
            use_type_invariant(self);
        }
        self.ofs_back - self.ofs_front
    }

    /// The longest common prefix of `self` and `other`, as a window into `self`.
    pub fn common_prefix<A: AsNibbles>(&self, other: &A) -> (r: Nibbles<'a>)
        ensures
            r@ == self@.take(common_prefix_len_spec(self@, other.nibble_view()) as int),
            r.raw() == self.raw(),
            r.front() == self.front(),
    {
        let o = other.as_nibbles();
        let len = self.common_prefix_len(&o);
        let mut nibbles = *self;
        nibbles.trim_back(self.len() - len);
        nibbles
    }

    /// Length of the longest common prefix of `self` and `other`.
    fn common_prefix_len(&self, other: &Self) -> (r: usize)
        ensures
            r == common_prefix_len_spec(self@, other@),
            r <= self@.len(),
            r <= other@.len(),
    {
        let self_len = self.len();
        let other_len = other.len();
        let min_len = if self_len < other_len {
            self_len
        } else {
            other_len
        };
        proof {
            use_type_invariant(self);
            use_type_invariant(other);
        }
        let mut i: usize = 0;
        while i < min_len
            invariant
                i <= min_len,
                min_len <= self@.len(),
                min_len <= other@.len(),
                min_len == self@.len() || min_len == other@.len(),
                forall|j: int| 0 <= j < i ==> self@[j] == other@[j],
                self@ == self.raw().subrange(self.front(), self.back()),
                other@ == other.raw().subrange(other.front(), other.back()),
                self@.len() == self.back() - self.front(),
                other@.len() == other.back() - other.front(),
                self.back() <= self.raw().len(),
                other.back() <= other.raw().len(),
            decreases min_len - i,
        {
            if self.get(i) != other.get(i) {
                proof {
                    lemma_common_prefix_len_unique(self@, other@, i as int);
                }
                return i;
            }
            i = i + 1;
        }
        proof {
            lemma_common_prefix_len_unique(self@, other@, min_len as int);
        }
        min_len
    }

    /// Nibble-wise equality of two windows.
    pub fn nibbles_eq(&self, other: &Self) -> (r: bool)
        ensures
            r == (self@ == other@),
    {
        proof {
            use_type_invariant(self);
            use_type_invariant(other);
        }
        if self.len() != other.len() {
            return false;
        }
        let n = self.len();
        let mut i: usize = 0;
        while i < n
            invariant
                i <= n,
                n == self@.len(),
                n == other@.len(),
                forall|j: int| 0 <= j < i ==> self@[j] == other@[j],
                self@ == self.raw().subrange(self.front(), self.back()),
                other@ == other.raw().subrange(other.front(), other.back()),
                self@.len() == self.back() - self.front(),
                other@.len() == other.back() - other.front(),
                self.back() <= self.raw().len(),
                other.back() <= other.raw().len(),
            decreases n - i,
        {
            if self.get(i) != other.get(i) {
                return false;
            }
            i = i + 1;
        }
        assert(self@ =~= other@);
        true
    }
}

impl<'a> AsNibbles for Nibbles<'a> {
    open spec fn nibble_view(&self) -> Seq<u8> {
        self@
    }

    fn as_nibbles(&self) -> (r: Nibbles<'_>) {
        *self
    }
}

/// Copies `bytes` into a fresh vector.
fn copy_bytes(bytes: &[u8]) -> (r: Vec<u8>)
    ensures
        r@ == bytes@,
{
    let mut vec: Vec<u8> = Vec::with_capacity(bytes.len());
    let mut i: usize = 0;
    while i < bytes.len()
        invariant
            i <= bytes@.len(),
            vec@ == bytes@.take(i as int),
        decreases bytes@.len() - i,
    {
        vec.push(bytes[i]);
        i = i + 1;
        assert(vec@ =~= bytes@.take(i as int));
    }
    assert(bytes@.take(bytes@.len() as int) =~= bytes@);
    vec
}

impl<'a> Nibbles<'a> {
    /// An owned copy of the window.
    pub fn into_buf(&self) -> (r: NibbleBuf)
        ensures
            r@ == self@,
            r.raw() == self.raw(),
            r.front() == self.front(),
            r.back() == self.back(),
    {
        proof {
            use_type_invariant(self);
        }
        NibbleBuf { bytes: copy_bytes(self.bytes), ofs_front: self.ofs_front, ofs_back: self.ofs_back }
    }
}

/// An owned window `[ofs_front, ofs_back)` into the nibbles of a byte buffer.
#[derive(Debug)]
pub struct NibbleBuf {
    bytes: Vec<u8>,
    ofs_front: usize,
    ofs_back: usize,
}

impl View for NibbleBuf {
    type V = Seq<u8>;

    closed spec fn view(&self) -> Seq<u8> {
        nibbles_of(self.bytes@).subrange(self.ofs_front as int, self.ofs_back as int)
    }
}

/// Lifting a byte change into the nibble sequence.
proof fn lemma_nibbles_update(bytes: Seq<u8>, j: int, nb: u8)
    requires
        0 <= j < bytes.len(),
    ensures
        nibbles_of(bytes.update(j, nb)) =~= nibbles_of(bytes).update(2 * j, nb / 16).update(
            2 * j + 1,
            nb % 16,
        ),
{
}

proof fn lemma_nibbles_push(bytes: Seq<u8>, b: u8)
    ensures
        nibbles_of(bytes.push(b)) =~= nibbles_of(bytes) + seq![b / 16, b % 16],
{
}

/// The raw nibbles after writing nibble position `p`: a zero byte is appended
/// first when `p` lies just past the end of the buffer.
pub open spec fn padded_for(raw: Seq<u8>, p: int) -> Seq<u8> {
    if p / 2 == raw.len() / 2 {
        raw + seq![0u8, 0u8]
    } else {
        raw
    }
}

impl Default for NibbleBuf {
    fn default() -> (r: Self)
        ensures
            r@ == Seq::<u8>::empty(),
            r.raw() == Seq::<u8>::empty(),
            r.front() == 0,
            r.back() == 0,
    {
        let r = NibbleBuf { bytes: Vec::new(), ofs_front: 0, ofs_back: 0 };
        assert(r@ =~= Seq::<u8>::empty());
        assert(r.raw() =~= Seq::<u8>::empty());
        r
    }
}

impl NibbleBuf {
    #[verifier::type_invariant]
    closed spec fn inv(self) -> bool {
        &&& self.ofs_front <= self.ofs_back <= 2 * self.bytes@.len()
        &&& 2 * self.bytes@.len() + 2 <= usize::MAX
    }

    /// All nibbles of the underlying bytes, including those outside the window.
    pub closed spec fn raw(self) -> Seq<u8> {
        nibbles_of(self.bytes@)
    }

    /// Start of the window in `raw()`.
    pub closed spec fn front(self) -> int {
        self.ofs_front as int
    }

    /// End of the window in `raw()`.
    pub closed spec fn back(self) -> int {
        self.ofs_back as int
    }

    /// A buffer holding all nibbles of `bytes`.
    pub fn new(bytes: &[u8]) -> (r: Self)
        requires
            2 * bytes@.len() + 2 <= usize::MAX,
        ensures
            r@ == nibbles_of(bytes@),
            r.raw() == nibbles_of(bytes@),
            r.front() == 0,
            r.back() == 2 * bytes@.len(),
    {
        let vec = copy_bytes(bytes);
        let r = NibbleBuf { bytes: vec, ofs_front: 0, ofs_back: bytes.len() * 2 };
        assert(r@ =~= nibbles_of(bytes@));
        r
    }

    /// The nibble at `i`, counted from the front of the window.
    pub fn get(&self, i: usize) -> (r: usize)
        requires
            self.front() + i < self.raw().len(),
        ensures
            r == self.raw()[self.front() + i],
            i < self@.len() ==> r == self@[i as int],
            r < 16,
    {
        self.as_nibbles().get(i)
    }

    /// Number of nibbles in the window. The window is the part of `raw()`
    /// between `front()` and `back()`, and `raw()` holds the two nibbles of
    /// each byte of the buffer.
    pub fn len(&self) -> (r: usize)
        ensures
            r == self@.len(),
            r == self.back() - self.front(),
            0 <= self.front() <= self.back() <= self.raw().len(),
            self@ == self.raw().subrange(self.front(), self.back()),
            self.raw().len() % 2 == 0,
            self.raw().len() + 2 <= usize::MAX,
    {
        proof {
            use_type_invariant(self);
        }
        self.ofs_back - self.ofs_front
    }

    /// Drops `by` nibbles from the front of the window.
    pub fn trim_front(&mut self, by: usize)
        requires
            by <= old(self)@.len(),
        ensures
            final(self)@ == old(self)@.skip(by as int),
            final(self).raw() == old(self).raw(),
            final(self).front() == old(self).front() + by,
            final(self).back() == old(self).back(),
    {
        proof {
            use_type_invariant(&*self);
        }
        self.ofs_front = self.ofs_front + by;
        assert(self@ =~= old(self)@.skip(by as int));
    }

    /// Removes the first nibble of the window and returns it.
    pub fn pop_nibble(&mut self) -> (r: usize)
        requires
            old(self)@.len() > 0,
        ensures
            r == old(self)@[0],
            r < 16,
            final(self)@ == old(self)@.drop_first(),
            final(self).raw() == old(self).raw(),
            final(self).front() == old(self).front() + 1,
            final(self).back() == old(self).back(),
    {
        proof {
            use_type_invariant(&*self);
        }
        let nibble = self.get(0);
        self.ofs_front = self.ofs_front + 1;
        assert(self@ =~= old(self)@.drop_first());
        nibble
    }

    /// Writes the low four bits of `to` at nibble `idx` (counted from the
    /// front of the window), growing the buffer by one byte when the position
    /// lies just past its end.
    pub fn set(&mut self, idx: usize, to: usize)
        requires
            old(self).front() + idx <= usize::MAX,
            (old(self).front() + idx) / 2 <= old(self).raw().len() / 2,
            (old(self).front() + idx) / 2 == old(self).raw().len() / 2 ==> old(self).raw().len()
                + 4 <= usize::MAX,
        ensures
            final(self).raw() == padded_for(old(self).raw(), old(self).front() + idx).update(
                old(self).front() + idx,
                (to % 16) as u8,
            ),
            final(self).front() == old(self).front(),
            final(self).back() == old(self).back(),
            idx < old(self)@.len() ==> final(self)@ == old(self)@.update(idx as int, (to % 16) as u8),
            idx >= old(self)@.len() ==> final(self)@ == old(self)@,
    {
        proof {
            use_type_invariant(&*self);
        }
        let p = self.ofs_front + idx;
        let byte_index = p / 2;
        let ghost raw0 = self.raw();
        let mut tmp = NibbleBuf { bytes: Vec::new(), ofs_front: 0, ofs_back: 0 };
        std::mem::swap(self, &mut tmp);
        let NibbleBuf { mut bytes, ofs_front, ofs_back } = tmp;
        if byte_index >= bytes.len() {
            bytes.push(0);
            proof {
                lemma_nibbles_push(old(self).bytes@, 0);
            }
        }
        assert(nibbles_of(bytes@) == padded_for(raw0, p as int));
        let b = bytes[byte_index];
        let t = to as u8;
        assert(t % 16 == to % 16) by (bit_vector)
            requires
                t == to as u8,
        ;
        let nb = if p % 2 == 0 {
            assert(((b & 0x0Fu8) | ((t << 4u8) & 0xF0u8)) / 16 == t % 16) by (bit_vector);
            assert(((b & 0x0Fu8) | ((t << 4u8) & 0xF0u8)) % 16 == b % 16) by (bit_vector);
            (b & 0x0F) | ((t << 4) & 0xF0)
        } else {
            assert(((b & 0xF0u8) | (t & 0x0Fu8)) / 16 == b / 16) by (bit_vector);
            assert(((b & 0xF0u8) | (t & 0x0Fu8)) % 16 == t % 16) by (bit_vector);
            (b & 0xF0) | (t & 0x0F)
        };
        let ghost bytes1 = bytes@;
        bytes.set(byte_index, nb);
        *self = NibbleBuf { bytes, ofs_front, ofs_back };
        proof {
            lemma_nibbles_update(bytes1, byte_index as int, nb);
            assert(self.raw() =~= padded_for(raw0, p as int).update(p as int, (to % 16) as u8));
            if idx < old(self)@.len() {
                assert(self@ =~= old(self)@.update(idx as int, (to % 16) as u8));
            } else {
                assert(self@ =~= old(self)@);
            }
        }
    }

    /// Appends the low four bits of `nibble` to the window.
    pub fn push(&mut self, nibble: usize)
        requires
            old(self).raw().len() + 4 <= usize::MAX,
        ensures
            final(self)@ == old(self)@.push((nibble % 16) as u8),
            final(self).front() == old(self).front(),
            final(self).back() == old(self).back() + 1,
            final(self).raw().len() <= old(self).raw().len() + 2,
    {
        proof {
            use_type_invariant(&*self);
        }
        let i = self.len();
        self.set(i, nibble);
        proof {
            use_type_invariant(&*self);
            let b = old(self).back();
            let l = old(self).raw().len();
            assert(l == 2 * old(self).bytes@.len());
            assert(self.raw().len() == padded_for(old(self).raw(), b).len());
            if b / 2 == l / 2 {
                assert(self.raw().len() == l + 2);
            } else {
                assert(b < l);
            }
            assert(self.raw().len() == 2 * self.bytes@.len());
        }
        self.ofs_back = self.ofs_back + 1;
        assert(self@ =~= old(self)@.push((nibble % 16) as u8));
    }

    /// Appends all nibbles of `other`.
    pub fn append<A: AsNibbles>(&mut self, other: &A)
        requires
            old(self).raw().len() + 2 * other.nibble_view().len() + 4 <= usize::MAX,
        ensures
            final(self)@ == old(self)@ + other.nibble_view(),
            final(self).front() == old(self).front(),
            final(self).raw().len() <= old(self).raw().len() + 2 * other.nibble_view().len(),
    {
        let nibbles = other.as_nibbles();
        let n = nibbles.len();
        proof {
            use_type_invariant(&nibbles);
        }
        let mut i: usize = 0;
        while i < n
            invariant
                i <= n,
                n == nibbles@.len(),
                nibbles@ == other.nibble_view(),
                nibbles@ == nibbles.raw().subrange(nibbles.front(), nibbles.back()),
                nibbles@.len() == nibbles.back() - nibbles.front(),
                nibbles.back() <= nibbles.raw().len(),
                self@ == old(self)@ + nibbles@.take(i as int),
                self.front() == old(self).front(),
                self.raw().len() <= old(self).raw().len() + 2 * i,
                old(self).raw().len() + 2 * n + 4 <= usize::MAX,
            decreases n - i,
        {
            let nib = nibbles.get(i);
            self.push(nib);
            i = i + 1;
            assert(self@ =~= old(self)@ + nibbles@.take(i as int));
        }
        assert(nibbles@.take(n as int) =~= nibbles@);
    }

    /// Nibble-wise equality of two buffers.
    pub fn nibbles_eq(&self, other: &Self) -> (r: bool)
        ensures
            r == (self@ == other@),
    {
        self.as_nibbles().nibbles_eq(&other.as_nibbles())
    }
}

impl AsNibbles for NibbleBuf {
    open spec fn nibble_view(&self) -> Seq<u8> {
        self@
    }

    fn as_nibbles(&self) -> (r: Nibbles<'_>)
        ensures
            r.raw() == self.raw(),
            r.front() == self.front(),
            r.back() == self.back(),
    {
        proof {
            use_type_invariant(self);
        }
        let r = Nibbles { bytes: self.bytes.as_slice(), ofs_front: self.ofs_front, ofs_back: self.ofs_back };
        assert(r@ == self@);
        r
    }
}

impl Clone for NibbleBuf {
    fn clone(&self) -> (r: Self)
        ensures
            r@ == self@,
            r.raw() == self.raw(),
            r.front() == self.front(),
            r.back() == self.back(),
    {
        proof {
            use_type_invariant(self);
        }
        NibbleBuf {
            bytes: copy_bytes(self.bytes.as_slice()),
            ofs_front: self.ofs_front,
            ofs_back: self.ofs_back,
        }
    }
}

impl PartialEq for NibbleBuf {
    fn eq(&self, other: &Self) -> (r: bool) {
        self.nibbles_eq(other)
    }
}

impl vstd::std_specs::cmp::PartialEqSpecImpl for NibbleBuf {
    open spec fn obeys_eq_spec() -> bool {
        true
    }

    open spec fn eq_spec(&self, other: &NibbleBuf) -> bool {
        self@ == other@
    }
}

/// The number whose big-endian bytes are `b0`, `b1`.
pub open spec fn be16(b0: u8, b1: u8) -> int {
    b0 as int * 256 + b1 as int
}

/// What reading a buffer from bytes `s` gives: the nibbles, and the number of
/// bytes read. The bytes hold the front and back offsets of the window, two
/// bytes each, then the bytes of the buffer up to the one holding the last
/// nibble.
pub open spec fn nibble_buf_decode(s: Seq<u8>) -> Option<(Seq<u8>, int)> {
    if s.len() < 4 {
        None
    } else {
        let f = be16(s[0], s[1]);
        let b = be16(s[2], s[3]);
        let n = (b + 1) / 2;
        if f > b || s.len() < 4 + n {
            None
        } else {
            Some((nibbles_of(s.subrange(4, 4 + n)).subrange(f, b), 4 + n))
        }
    }
}

/// A number read back from its big-endian bytes.
proof fn lemma_be16(x: u16)
    ensures
        be16(u16_be(x)[0], u16_be(x)[1]) == x,
{
    assert(x == ((x >> 8u16) as u8) * 256 + (x as u8)) by (bit_vector);
}

/// The nibbles of a run of bytes are a run of the nibbles.
proof fn lemma_nibbles_of_subrange(b: Seq<u8>, a: int, c: int)
    requires
        0 <= a <= c <= b.len(),
    ensures
        nibbles_of(b.subrange(a, c)) == nibbles_of(b).subrange(2 * a, 2 * c),
{
    let l = nibbles_of(b.subrange(a, c));
    let r = nibbles_of(b).subrange(2 * a, 2 * c);
    assert forall|i: int| 0 <= i < l.len() implies l[i] == r[i] by {
        assert((2 * a + i) % 2 == i % 2);
        assert((2 * a + i) / 2 == a + i / 2);
        assert(b.subrange(a, c)[i / 2] == b[a + i / 2]);
    }
    assert(l =~= r);
}

impl NibbleBuf {
    /// The bytes the buffer is written as: the window's front and back
    /// offsets counted from the byte holding its first nibble, two bytes
    /// each, then the bytes from that one to the one holding its last nibble.
    /// Offsets past 16 bits are cut to their low 16 bits.
    pub closed spec fn encoding(self) -> Seq<u8> {
        let start = self.ofs_front / 2;
        let end = (self.ofs_back + 1) / 2;
        u16_be((self.ofs_front - 2 * start) as u16) + u16_be((self.ofs_back - 2 * start) as u16)
            + self.bytes@.subrange(start as int, end as int)
    }

    /// The window, counted from the byte holding its first nibble, fits in
    /// 16 bits, so that its encoding reads back.
    pub closed spec fn persistable(self) -> bool {
        self.ofs_back - 2 * (self.ofs_front / 2) <= u16::MAX
    }

    /// Writes the buffer's encoding. Bytes that start with the encoding of a
    /// persistable buffer read back as its nibbles.
    pub fn persist(&self, sink: &mut Sink)
        ensures
            final(sink)@ == old(sink)@ + self.encoding(),
            self.persistable() ==> forall|rest: Seq<u8>|
                #[trigger] nibble_buf_decode(self.encoding() + rest) == Some(
                    (self@, self.encoding().len() as int),
                ),
    {
        proof {
            use_type_invariant(self);
        }
        let start = self.ofs_front / 2;
        let end = (self.ofs_back + 1) / 2;
        let nf: u16 = (self.ofs_front - start * 2) as u16;
        #[verifier::truncate]
        let nb: u16 = (self.ofs_back - start * 2) as u16;
        nf.persist(sink);
        nb.persist(sink);
        let mut piece: Vec<u8> = Vec::new();
        let mut i: usize = start;
        while i < end
            invariant
                start <= i <= end,
                end <= self.bytes@.len(),
                piece@ == self.bytes@.subrange(start as int, i as int),
            decreases end - i,
        {
            piece.push(self.bytes[i]);
            i = i + 1;
            assert(piece@ =~= self.bytes@.subrange(start as int, i as int));
        }
        sink.write_all(piece.as_slice());
        proof {
            assert(sink@ =~= old(sink)@ + self.encoding());
            if self.persistable() {
                let e = self.encoding();
                assert forall|rest: Seq<u8>|
                    #[trigger] nibble_buf_decode(e + rest) == Some((self@, e.len() as int)) by {
                    let s = e + rest;
                    lemma_be16(nf);
                    lemma_be16(nb);
                    assert(s[0] == u16_be(nf)[0] && s[1] == u16_be(nf)[1]);
                    assert(s[2] == u16_be(nb)[0] && s[3] == u16_be(nb)[1]);
                    assert(nb == self.ofs_back - 2 * start);
                    let n = (nb + 1) / 2;
                    assert(n == end - start);
                    assert(s.subrange(4, 4 + n) =~= self.bytes@.subrange(start as int, end as int));
                    lemma_nibbles_of_subrange(self.bytes@, start as int, end as int);
                    assert(nibbles_of(s.subrange(4, 4 + n)).subrange(nf as int, nb as int) =~= self@);
                }
            }
        }
    }

    /// Reads a buffer from the front of the source: it fails with
    /// `UnexpectedEnd` when the bytes end early and with `InvalidEncoding`
    /// when the front offset lies past the back one.
    pub fn restore(source: &mut Source) -> (r: Result<NibbleBuf, ContentError>)
        ensures
            r is Ok <==> nibble_buf_decode(old(source)@) is Some,
            r matches Ok(b) ==> nibble_buf_decode(old(source)@) matches Some(d) && b@ == d.0
                && final(source)@ == old(source)@.skip(d.1),
    {
        let ghost s = source@;
        let front = match u16::restore(source) {
            Ok(f) => f,
            Err(e) => {
                proof {
                    if s.len() >= 4 {
                        lemma_u16_from_bytes(s);
                        assert(s == read_spec_u16(s).encoding() + s.skip(2));
                    }
                }
                return Err(e);
            },
        };
        proof {
            assert(source@ =~= s.skip(2));
        }
        let back = match u16::restore(source) {
            Ok(b) => b,
            Err(e) => {
                proof {
                    let s1 = s.skip(2);
                    if s.len() >= 4 {
                        lemma_u16_from_bytes(s1);
                        assert(s1 == read_spec_u16(s1).encoding() + s1.skip(2));
                    }
                }
                return Err(e);
            },
        };
        proof {
            lemma_be16(front);
            lemma_be16(back);
            assert(s[0] == u16_be(front)[0] && s[1] == u16_be(front)[1]);
            assert(s[2] == u16_be(back)[0] && s[3] == u16_be(back)[1]);
        }
        if front > back {
            return Err(ContentError::InvalidEncoding);
        }
        let byte_len = (back as usize + 1) / 2;
        let bytes = match source.read_exact(byte_len) {
            Ok(v) => v,
            Err(e) => {
                return Err(e);
            },
        };
        let r = NibbleBuf { bytes, ofs_front: front as usize, ofs_back: back as usize };
        proof {
            assert(bytes@ =~= s.subrange(4, 4 + byte_len));
            assert(s.skip(4 + byte_len) =~= source@);
        }
        Ok(r)
    }
}

/// The `u16` whose big-endian bytes start `s`.
spec fn read_spec_u16(s: Seq<u8>) -> u16 {
    (s[0] as int * 256 + s[1] as int) as u16
}

/// Bytes that start with two bytes start with the encoding of a `u16`.
proof fn lemma_u16_from_bytes(s: Seq<u8>)
    requires
        s.len() >= 2,
    ensures
        s == u16_be(read_spec_u16(s)) + s.skip(2),
{
    let b0 = s[0];
    let b1 = s[1];
    let x = read_spec_u16(s);
    assert(x == b0 as int * 256 + b1 as int);
    assert((x >> 8u16) as u8 == b0 && x as u8 == b1) by (bit_vector)
        requires
            x == b0 as int * 256 + b1 as int,
    ;
    assert(s =~= u16_be(x) + s.skip(2));
}

} // verus!
