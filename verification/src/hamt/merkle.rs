//! Merkle hashing of hash tries, and proofs that a pair is held by a trie
//! with a given root hash.
//!
//! A node is hashed with Blake2b over its encoding: for each slot a tag byte
//! (`0` empty, `1` pair, `2` subtrie) followed, for a pair, by the key and
//! the value, and for a subtrie, by the subtrie's hash.
use vstd::prelude::*;

use super::{
    lemma_canonical_level, lemma_same_map_lookup, max_depth, width, HAMTSearch, HamtNode, NarrowHAMT,
    Slot, HAMT,
};
use crate::content::{Content, Sink};
use crate::hashing::{blake2b_digest, blake2b_hash, lemma_u64_be_injective, u64_be};
use crate::map::KV;
use crate::search::{Method, SearchResult};
use crate::store::digest_eq;

verus! {

impl<V: Content> HamtNode<V> {
    /// The encoding of the first `i` slots of the node.
    pub closed spec fn encoding_upto(self, i: int) -> Seq<u8>
        decreases self, i,
    {
        if i <= 0 || i > self.slots@.len() {
            Seq::empty()
        } else {
            self.encoding_upto(i - 1) + match self.slots@[i - 1] {
                Slot::Empty => seq![0u8],
                Slot::Leaf(kv) => seq![1u8] + u64_be(kv.key) + kv.val.encoding(),
                Slot::Node(n) => seq![2u8] + blake2b_digest(
                    n.encoding_upto(n.slots@.len() as int),
                ),
            }
        }
    }

    /// The bytes that are hashed for the node.
    pub closed spec fn encoding(self) -> Seq<u8> {
        self.encoding_upto(self.slots@.len() as int)
    }

    /// The hash of the node.
    pub open spec fn digest(self) -> Seq<u8> {
        blake2b_digest(self.encoding())
    }

    /// Computes the hash of the node, hashing the subtries below it.
    pub fn node_hash(&self) -> (r: [u8; 32])
        ensures
            r@ == self.digest(),
        decreases self,
    {
        let mut sink = Sink::new();
        let len = self.slots.len();
        let mut i: usize = 0;
        while i < len
            invariant
                i <= len,
                len == self.slots@.len(),
                sink@ == self.encoding_upto(i as int),
            decreases len - i,
        {
            let ghost before = sink@;
            match &self.slots[i] {
                Slot::Empty => {
                    sink.write_all(&[0u8]);
                },
                Slot::Leaf(kv) => {
                    sink.write_all(&[1u8]);
                    kv.key.persist(&mut sink);
                    kv.val.persist(&mut sink);
                },
                Slot::Node(n) => {
                    sink.write_all(&[2u8]);
                    let h = n.node_hash();
                    sink.write_all(&h);
                },
            }
            proof {
                let tail = match self.slots@[i as int] {
                    Slot::Empty => seq![0u8],
                    Slot::Leaf(kv) => seq![1u8] + u64_be(kv.key) + kv.val.encoding(),
                    Slot::Node(n) => seq![2u8] + blake2b_digest(n.encoding_upto(n.slots@.len() as int)),
                };
                assert(sink@ =~= before + tail);
            }
            i = i + 1;
        }
        let bytes = sink.into_bytes();
        blake2b_hash(bytes.as_slice())
    }
}

/// Every Blake2b digest is 32 bytes long, as the result type of the
/// hashing call says.
pub open spec fn digests_sized() -> bool {
    forall|s: Seq<u8>| #[trigger] blake2b_digest(s).len() == 32
}

/// Slots `x` and `y` stand for the same thing: both empty; pairs with the
/// same key and the same value; or subtries with the same hash.
pub open spec fn slots_alike<V: Content>(x: Slot<V>, y: Slot<V>) -> bool {
    match (x, y) {
        (Slot::Empty, Slot::Empty) => true,
        (Slot::Leaf(p), Slot::Leaf(q)) => p.key == q.key && p.val.same_value(&q.val),
        (Slot::Node(m), Slot::Node(n)) => m.digest() == n.digest(),
        _ => false,
    }
}

/// The bytes slot `x` adds to the encoding of its node.
spec fn slot_bytes<V: Content>(x: Slot<V>) -> Seq<u8> {
    match x {
        Slot::Empty => seq![0u8],
        Slot::Leaf(kv) => seq![1u8] + u64_be(kv.key) + kv.val.encoding(),
        Slot::Node(n) => seq![2u8] + blake2b_digest(n.encoding_upto(n.slots@.len() as int)),
    }
}

/// No slot's bytes begin another's: where the bytes of two slots, each
/// followed by more bytes, agree, the two slots are alike and the bytes after
/// them agree.
proof fn lemma_slot_bytes_prefix_free<V: Content>(x: Slot<V>, y: Slot<V>, r1: Seq<u8>, r2: Seq<u8>)
    requires
        digests_sized(),
        slot_bytes(x) + r1 == slot_bytes(y) + r2,
    ensures
        slots_alike(x, y),
        r1 == r2,
{
    let s = slot_bytes(x) + r1;
    assert(s[0] == slot_bytes(x)[0]);
    assert(s[0] == (slot_bytes(y) + r2)[0]);
    match (x, y) {
        (Slot::Empty, Slot::Empty) => {
            assert(r1 =~= s.skip(1));
            assert(r2 =~= (slot_bytes(y) + r2).skip(1));
        },
        (Slot::Leaf(p), Slot::Leaf(q)) => {
            assert(u64_be(p.key) =~= s.subrange(1, 9));
            assert(u64_be(q.key) =~= (slot_bytes(y) + r2).subrange(1, 9));
            lemma_u64_be_injective(p.key, q.key);
            assert(p.val.encoding() + r1 =~= s.skip(9));
            assert(q.val.encoding() + r2 =~= (slot_bytes(y) + r2).skip(9));
            V::lemma_prefix_free(p.val, q.val, r1, r2);
            V::lemma_encoding_determines(p.val, q.val);
        },
        (Slot::Node(m), Slot::Node(n)) => {
            let d1 = blake2b_digest(m.encoding_upto(m.slots@.len() as int));
            let d2 = blake2b_digest(n.encoding_upto(n.slots@.len() as int));
            assert(d1.len() == 32 && d2.len() == 32);
            assert(d1 =~= s.subrange(1, 33));
            assert(d2 =~= (slot_bytes(y) + r2).subrange(1, 33));
            assert(r1 =~= s.skip(33));
            assert(r2 =~= (slot_bytes(y) + r2).skip(33));
        },
        _ => {},
    }
}

impl<V: Content> HamtNode<V> {
    /// Number of slots of the node.
    pub closed spec fn slot_count(self) -> int {
        self.slots@.len() as int
    }

    /// The slot `i` of the node.
    pub closed spec fn slot_of(self, i: int) -> Slot<V> {
        self.slots@[i]
    }

    /// The bytes of slots `i` and on.
    spec fn encoding_from(self, i: int) -> Seq<u8>
        decreases self.slots@.len() - i,
    {
        if i < 0 || i >= self.slots@.len() {
            Seq::empty()
        } else {
            slot_bytes(self.slots@[i]) + self.encoding_from(i + 1)
        }
    }

    /// The encoding is that of the first `i` slots followed by that of the
    /// rest.
    proof fn lemma_encoding_split(self, i: int)
        requires
            0 <= i <= self.slots@.len(),
        ensures
            self.encoding_upto(i) + self.encoding_from(i) == self.encoding(),
        decreases self.slots@.len() - i,
    {
        if i == self.slots@.len() {
            assert(self.encoding_upto(i) + self.encoding_from(i) =~= self.encoding_upto(i));
        } else {
            self.lemma_encoding_split(i + 1);
            assert(self.encoding_upto(i + 1) == self.encoding_upto(i) + slot_bytes(self.slots@[i]));
            assert(self.encoding_upto(i) + self.encoding_from(i) =~= self.encoding_upto(i + 1)
                + self.encoding_from(i + 1));
        }
    }

    /// Nodes whose slots from `i` on have the same bytes have as many slots,
    /// alike one by one.
    proof fn lemma_encoding_from_alike(self, b: Self, i: int)
        requires
            digests_sized(),
            0 <= i <= self.slots@.len(),
            i <= b.slots@.len(),
            self.encoding_from(i) == b.encoding_from(i),
        ensures
            self.slots@.len() == b.slots@.len(),
            forall|k: int| i <= k < self.slots@.len() ==> slots_alike(#[trigger] self.slots@[k], b.slots@[k]),
        decreases self.slots@.len() - i,
    {
        if i == self.slots@.len() {
            if i < b.slots@.len() {
                assert(b.encoding_from(i).len() >= 1);
            }
        } else if i == b.slots@.len() {
            assert(self.encoding_from(i).len() >= 1);
        } else {
            lemma_slot_bytes_prefix_free(
                self.slots@[i],
                b.slots@[i],
                self.encoding_from(i + 1),
                b.encoding_from(i + 1),
            );
            self.lemma_encoding_from_alike(b, i + 1);
        }
    }
}

/// The hash of a node commits to what its slots hold: two nodes with the
/// same encoding (and so, unless Blake2b gives two encodings one digest, any
/// two nodes with the same hash) have as many slots, and in each slot hold
/// alike: nothing in both, pairs with the same key and the same value, or
/// subtries with the same hash.
pub proof fn law_encoding_commits_to_slots<V: Content>(a: HamtNode<V>, b: HamtNode<V>)
    requires
        digests_sized(),
        a.encoding() == b.encoding(),
    ensures
        a.slot_count() == b.slot_count(),
        forall|i: int| 0 <= i < a.slot_count() ==> slots_alike(#[trigger] a.slot_of(i), b.slot_of(i)),
{
    a.lemma_encoding_split(0);
    b.lemma_encoding_split(0);
    assert(a.encoding_upto(0) + a.encoding_from(0) =~= a.encoding_from(0));
    assert(b.encoding_upto(0) + b.encoding_from(0) =~= b.encoding_from(0));
    a.lemma_encoding_from_alike(b, 0);
}

impl<V: Content> Slot<V> {
    /// The hash of the subtrie in the slot, if it holds one.
    pub fn node_hash(&self) -> (r: Option<[u8; 32]>)
        ensures
            r is Some <==> self is Node,
            r matches Some(h) ==> h@ == self->Node_0.digest(),
    {
        match self {
            Slot::Node(n) => Some(n.node_hash()),
            _ => None,
        }
    }
}

/// Two slots hash alike: both empty, the same pair, or subtries with the
/// same hash.
pub open spec fn same_slot<V: Content>(a: Slot<V>, b: Slot<V>) -> bool {
    match (a, b) {
        (Slot::Empty, Slot::Empty) => true,
        (Slot::Leaf(x), Slot::Leaf(y)) => x == y,
        (Slot::Node(m), Slot::Node(n)) => m.digest() == n.digest(),
        _ => false,
    }
}

/// Nodes whose slots hash alike have the same encoding.
proof fn lemma_same_encoding<V: Content>(a: HamtNode<V>, b: HamtNode<V>, i: int)
    requires
        a.slots@.len() == b.slots@.len(),
        forall|k: int| 0 <= k < a.slots@.len() ==> same_slot(#[trigger] a.slots@[k], b.slots@[k]),
        0 <= i <= a.slots@.len(),
    ensures
        a.encoding_upto(i) == b.encoding_upto(i),
    decreases i,
{
    if i > 0 {
        lemma_same_encoding(a, b, i - 1);
        assert(same_slot(a.slots@[i - 1], b.slots@[i - 1]));
    }
}

impl<V: Content + Copy> HamtNode<V> {
    /// A copy of the node and the subtries below it.
    fn clone_node(&self) -> (r: Self)
        ensures
            r.slots@.len() == self.slots@.len(),
            forall|k: int| 0 <= k < self.slots@.len() ==> same_slot(#[trigger] r.slots@[k], self.slots@[k]),
            r.digest() == self.digest(),
        decreases self,
    {
        let len = self.slots.len();
        let mut slots: Vec<Slot<V>> = Vec::new();
        let mut i: usize = 0;
        while i < len
            invariant
                i <= len,
                len == self.slots@.len(),
                slots@.len() == i,
                forall|k: int| 0 <= k < i ==> same_slot(#[trigger] slots@[k], self.slots@[k]),
            decreases len - i,
        {
            let s = match &self.slots[i] {
                Slot::Empty => Slot::Empty,
                Slot::Leaf(kv) => Slot::Leaf(*kv),
                Slot::Node(n) => Slot::Node(Box::new(n.clone_node())),
            };
            slots.push(s);
            i = i + 1;
        }
        let r = HamtNode { slots };
        proof {
            lemma_same_encoding(r, *self, len as int);
        }
        r
    }
}

/// Compact, well-formed nodes at one path that look every key up alike
/// have the same hash.
proof fn lemma_canonical_digest<V: Content>(a: HamtNode<V>, b: HamtNode<V>, path: Seq<int>, wide: bool)
    requires
        a.wf(path, wide),
        b.wf(path, wide),
        a.compact(path.len() as int, wide),
        b.compact(path.len() as int, wide),
        forall|x: u64| #[trigger] a.lookup(x, path.len() as int, wide) == b.lookup(x, path.len() as int, wide),
        path.len() < max_depth(wide),
    ensures
        a.digest() == b.digest(),
    decreases max_depth(wide) - path.len(),
{
    lemma_canonical_level(a, b, path, wide);
    assert forall|i: int| 0 <= i < a.slots@.len() implies same_slot(#[trigger] a.slots@[i], b.slots@[i]) by {
        match (a.slots@[i], b.slots@[i]) {
            (Slot::Node(m), Slot::Node(n)) => {
                lemma_canonical_digest(*m, *n, path.push(i), wide);
            },
            _ => {},
        }
    }
    lemma_same_encoding(a, b, a.slots@.len() as int);
}

/// The two hash tries, wide and narrow, seen through their root node.
pub trait HashTrie<V: Content>: Sized {
    /// Whether the trie's nodes are wide.
    spec fn wide() -> bool;

    /// The root node.
    spec fn root_spec(&self) -> HamtNode<V>;

    /// Whether the trie's nodes are wide.
    fn is_wide() -> (r: bool)
        ensures
            r == Self::wide(),
    ;

    /// The map the trie holds.
    spec fn map_spec(&self) -> Map<u64, V>;

    /// The root node, well formed, holding the map.
    fn root(&self) -> (r: &HamtNode<V>)
        ensures
            *r == self.root_spec(),
            r.wf(Seq::empty(), Self::wide()),
            r.compact(0, Self::wide()),
            self.map_spec() == r.map_view(Self::wide()),
    ;

    /// The hash of the trie: that of its root node.
    fn root_hash(&self) -> (r: [u8; 32])
        ensures
            r@ == self.root_spec().digest(),
    {
        self.root().node_hash()
    }
}

impl<V: Content> HashTrie<V> for HAMT<V> {
    open spec fn wide() -> bool {
        true
    }

    closed spec fn root_spec(&self) -> HamtNode<V> {
        self.root
    }

    fn is_wide() -> (r: bool) {
        true
    }

    open spec fn map_spec(&self) -> Map<u64, V> {
        self@
    }

    fn root(&self) -> (r: &HamtNode<V>) {
        let r = self.root_node();
        assert(<HAMT<V> as HashTrie<V>>::wide() == true);
        assert(self.map_spec() == self@);
        r
    }
}

impl<V: Content> HashTrie<V> for NarrowHAMT<V> {
    open spec fn wide() -> bool {
        false
    }

    closed spec fn root_spec(&self) -> HamtNode<V> {
        self.root
    }

    fn is_wide() -> (r: bool) {
        false
    }

    open spec fn map_spec(&self) -> Map<u64, V> {
        self@
    }

    fn root(&self) -> (r: &HamtNode<V>) {
        let r = self.root_node();
        assert(<NarrowHAMT<V> as HashTrie<V>>::wide() == false);
        assert(self.map_spec() == self@);
        r
    }
}

/// A level of a proof: a copy of a node on the path to the pair, and the
/// slot the path leaves it through.
struct ProofLevel<V> {
    ofs: usize,
    node: HamtNode<V>,
}

/// A Merkle proof that a pair is held by a trie: the nodes on the path from
/// the root to the pair.
pub struct Proof<V> {
    levels: Vec<ProofLevel<V>>,
}

impl<V> Proof<V> {
    /// Each level's slot lies within its node.
    #[verifier::type_invariant]
    closed spec fn inv(self) -> bool {
        forall|j: int|
            0 <= j < self.levels@.len() ==> #[trigger] self.levels@[j].ofs
                < self.levels@[j].node.slots@.len()
    }

    /// The slots the proof's path leaves its levels through.
    pub closed spec fn offsets(self) -> Seq<int> {
        Seq::new(self.levels@.len(), |j: int| self.levels@[j].ofs as int)
    }

    /// The pair the proof is about: the slot of the last level.
    pub closed spec fn leaf_spec(self) -> KV<u64, V> {
        let last = self.levels@.last();
        last.node.slots@[last.ofs as int]->Leaf_0
    }
}

impl<V: Content + Copy> Proof<V> {
    /// The proof that `t` holds the pair of `k`: copies of the nodes on the
    /// path to the pair. `None` when `t` holds no pair for `k`.
    pub fn new<T: HashTrie<V>>(t: &T, k: u64) -> (r: Option<Self>)
        ensures
            r is Some <==> t.map_spec().contains_key(k),
            r matches Some(p) ==> {
                &&& p.verifies(t.root_spec().digest())
                &&& p.leaf_spec() == KV { key: k, val: t.map_spec()[k] }
            },
    {
        let root = t.root();
        let path = match root.path_of(k, T::is_wide()) {
            Some(p) => p,
            None => {
                return None;
            },
        };
        let ghost pv = path@;
        let len = path.len();
        let mut levels: Vec<ProofLevel<V>> = Vec::new();
        let mut i: usize = 0;
        while i < len
            invariant
                i <= len,
                len == pv.len(),
                path@ == pv,
                levels@.len() == i,
                forall|j: int| 0 <= j < pv.len() ==> #[trigger] pv[j].0 < pv[j].1.slots@.len(),
                forall|j: int|
                    0 <= j < i ==> {
                        &&& (#[trigger] levels@[j]).ofs == pv[j].0
                        &&& levels@[j].node.slots@.len() == pv[j].1.slots@.len()
                        &&& levels@[j].node.digest() == pv[j].1.digest()
                        &&& forall|m: int|
                            0 <= m < pv[j].1.slots@.len() ==> same_slot(
                                #[trigger] levels@[j].node.slots@[m],
                                pv[j].1.slots@[m],
                            )
                    },
            decreases len - i,
        {
            let (ofs, node) = path[i];
            let copy = node.clone_node();
            levels.push(ProofLevel { ofs, node: copy });
            proof {
                assert(levels@[i as int].ofs == pv[i as int].0);
            }
            i = i + 1;
        }
        let r = Proof { levels };
        proof {
            let l = r.levels@;
            assert forall|j: int|
                1 <= j < l.len() implies (#[trigger] l[j - 1].node.slots@[l[j - 1].ofs as int] matches Slot::Node(
                n,
            ) && n.digest() == l[j].node.digest()) by {
                let o = pv[j - 1].0 as int;
                assert(same_slot(l[j - 1].node.slots@[o], pv[j - 1].1.slots@[o]));
            }
            let lo = pv.last().0 as int;
            assert(l.last() == l[l.len() - 1]);
            assert(same_slot(l.last().node.slots@[lo], pv.last().1.slots@[lo]));
        }
        Some(r)
    }
}

impl<V: Content> Proof<V> {
    /// The proof holds against a trie with root hash `root`: it has a level,
    /// the first level's node has hash `root`, each level's slot holds a
    /// subtrie with the hash of the next level's node, and the last level's
    /// slot holds a pair.
    pub closed spec fn verifies(self, root: Seq<u8>) -> bool {
        let l = self.levels@;
        &&& l.len() > 0
        &&& forall|j: int| 0 <= j < l.len() ==> #[trigger] l[j].ofs < l[j].node.slots@.len()
        &&& l[0].node.digest() == root
        &&& forall|j: int|
            1 <= j < l.len() ==> (#[trigger] l[j - 1].node.slots@[l[j - 1].ofs as int] matches Slot::Node(
                n,
            ) && n.digest() == l[j].node.digest())
        &&& l.last().node.slots@[l.last().ofs as int] is Leaf
    }

    /// Checks the proof against `against`, bottom up: each node's hash must
    /// be the one kept in the slot above it, and the top node's hash that of
    /// `against`. Returns the pair the proof is about when it holds, `None`
    /// otherwise.
    pub fn prove_member<T: HashTrie<V>>(&self, against: &T) -> (r: Option<&KV<u64, V>>)
        ensures
            r is Some <==> self.verifies(against.root_spec().digest()),
            r matches Some(kv) ==> *kv == self.leaf_spec(),
    {
        proof {
            use_type_invariant(self);
        }
        let ghost l = self.levels@;
        let len = self.levels.len();
        if len == 0 {
            return None;
        }
        let mut previous: [u8; 32] = self.levels[len - 1].node.node_hash();
        let mut j: usize = len - 1;
        while j > 0
            invariant
                0 <= j < len,
                len == l.len(),
                l == self.levels@,
                previous@ == l[j as int].node.digest(),
                forall|i: int| 0 <= i < l.len() ==> #[trigger] l[i].ofs < l[i].node.slots@.len(),
                forall|i: int|
                    j < i < l.len() ==> (#[trigger] l[i - 1].node.slots@[l[i - 1].ofs as int] matches Slot::Node(
                        n,
                    ) && n.digest() == l[i].node.digest()),
            decreases j,
        {
            let level = &self.levels[j - 1];
            match level.node.slots[level.ofs].node_hash() {
                Some(h) => {
                    if !digest_eq(&h, &previous) {
                        return None;
                    }
                },
                None => {
                    return None;
                },
            }
            previous = level.node.node_hash();
            j = j - 1;
        }
        let root = against.root_hash();
        if !digest_eq(&root, &previous) {
            return None;
        }
        let last = &self.levels[len - 1];
        match &last.node.slots[last.ofs] {
            Slot::Leaf(kv) => Some(kv),
            _ => None,
        }
    }
}

impl<V: Content> Proof<V> {
    /// Each node of the proof hashes its slots like the node of the trie
    /// rooted at `root` that it stands for, whenever the two share a hash:
    /// the node reached from `root` through the proof's first `j` slots, if
    /// it has the hash of the proof's node at level `j`, has as many slots,
    /// each hashing like the proof node's. This fails only where Blake2b
    /// gives two different node encodings one digest.
    pub closed spec fn hashes_faithfully(self, root: HamtNode<V>) -> bool {
        let l = self.levels@;
        forall|j: int|
            0 <= j < l.len() ==> (root.node_at(self.offsets().take(j)) matches Some(n) ==> (n.digest()
                == (#[trigger] l[j]).node.digest() ==> {
                &&& l[j].node.slots@.len() == n.slots@.len()
                &&& forall|m: int|
                    0 <= m < n.slots@.len() ==> same_slot(#[trigger] l[j].node.slots@[m], n.slots@[m])
            }))
    }

    /// Going down a proof that holds against `root`'s hash, and whose nodes
    /// hash faithfully, reaches at each level a node of the trie with the
    /// hash of the proof's node.
    proof fn lemma_chain(self, root: HamtNode<V>, j: int)
        requires
            self.verifies(root.digest()),
            self.hashes_faithfully(root),
            0 <= j < self.levels@.len(),
        ensures
            root.node_at(self.offsets().take(j)) matches Some(n) && n.digest()
                == self.levels@[j].node.digest(),
        decreases j,
    {
        let l = self.levels@;
        let offs = self.offsets();
        root.lemma_node_at_push(offs.take(j - 1), l[j - 1].ofs as int);
        if j == 0 {
            assert(offs.take(0) =~= Seq::<int>::empty());
        } else {
            self.lemma_chain(root, j - 1);
            let n = root.node_at(offs.take(j - 1))->0;
            let o = l[j - 1].ofs as int;
            assert(l[j - 1] == l[j - 1]);
            assert(same_slot(l[j - 1].node.slots@[o], n.slots@[o]));
            assert(offs.take(j - 1).push(o) =~= offs.take(j));
        }
    }
}

impl<V: Content> Proof<V> {
    /// Blake2b gives no two different node encodings on the proof's path one
    /// hash: the node reached from `root` through the proof's first `j`
    /// slots, if it has the hash of the proof's node at level `j`, has its
    /// encoding too.
    pub closed spec fn encodings_distinct_on_path(self, root: HamtNode<V>) -> bool {
        let l = self.levels@;
        forall|j: int|
            0 <= j < l.len() ==> (root.node_at(self.offsets().take(j)) matches Some(n) ==> (n.digest()
                == (#[trigger] l[j]).node.digest() ==> n.encoding() == l[j].node.encoding()))
    }

    /// Going down a proof that holds against `root`'s hash reaches at each
    /// level a node of the trie with the hash of the proof's node.
    proof fn lemma_chain_by_encoding(self, root: HamtNode<V>, j: int)
        requires
            digests_sized(),
            self.verifies(root.digest()),
            self.encodings_distinct_on_path(root),
            0 <= j < self.levels@.len(),
        ensures
            root.node_at(self.offsets().take(j)) matches Some(n) && n.digest()
                == self.levels@[j].node.digest(),
        decreases j,
    {
        let l = self.levels@;
        let offs = self.offsets();
        root.lemma_node_at_push(offs.take(j - 1), l[j - 1].ofs as int);
        if j == 0 {
            assert(offs.take(0) =~= Seq::<int>::empty());
        } else {
            self.lemma_chain_by_encoding(root, j - 1);
            let n = root.node_at(offs.take(j - 1))->0;
            let o = l[j - 1].ofs as int;
            assert(l[j - 1] == l[j - 1]);
            law_encoding_commits_to_slots(l[j - 1].node, n);
            assert(slots_alike(l[j - 1].node.slot_of(o), n.slot_of(o)));
            assert(offs.take(j - 1).push(o) =~= offs.take(j));
        }
    }
}

/// A proof that holds against the root hash of a trie shows a pair the trie
/// holds: the trie holds the proof's key, with the same value, unless
/// Blake2b gives two different node encodings on the proof's path one hash.
pub proof fn law_proof_shows_held_pair<V: Content, T: HashTrie<V>>(p: Proof<V>, t: T)
    requires
        digests_sized(),
        t.root_spec().wf(Seq::empty(), T::wide()),
        t.map_spec() == t.root_spec().map_view(T::wide()),
        p.verifies(t.root_spec().digest()),
        p.encodings_distinct_on_path(t.root_spec()),
    ensures
        t.map_spec().contains_key(p.leaf_spec().key),
        p.leaf_spec().val.same_value(&t.map_spec()[p.leaf_spec().key]),
{
    let root = t.root_spec();
    let l = p.levels@;
    let j = l.len() - 1;
    p.lemma_chain_by_encoding(root, j);
    let offs = p.offsets();
    let n = root.node_at(offs.take(j))->0;
    let o = l[j].ofs as int;
    assert(l.last() == l[j]);
    assert(l[j] == l[j]);
    law_encoding_commits_to_slots(l[j].node, n);
    assert(slots_alike(l[j].node.slot_of(o), n.slot_of(o)));
    let kv = n.slots@[o]->Leaf_0;
    root.lemma_leaf_held(offs.take(j), o, kv, T::wide());
}

/// Two tries that hold the same map have the same root hash: the shape of a
/// trie, and so its hash, depends only on the pairs it holds, not on the
/// insertions and removals that built it.
pub proof fn law_same_map_same_root_hash<V: Content, T: HashTrie<V>>(a: T, b: T)
    requires
        a.root_spec().wf(Seq::empty(), T::wide()),
        a.root_spec().compact(0, T::wide()),
        a.map_spec() == a.root_spec().map_view(T::wide()),
        b.root_spec().wf(Seq::empty(), T::wide()),
        b.root_spec().compact(0, T::wide()),
        b.map_spec() == b.root_spec().map_view(T::wide()),
        a.map_spec() == b.map_spec(),
    ensures
        a.root_spec().digest() == b.root_spec().digest(),
{
    lemma_same_map_lookup(a.root_spec(), b.root_spec(), T::wide());
    lemma_canonical_digest(a.root_spec(), b.root_spec(), Seq::empty(), T::wide());
}

/// A proof that holds against the root hash of a trie shows a pair the trie
/// holds, so long as no node on its path shares a hash with a different
/// node of the trie.
pub proof fn law_proof_shows_member<V: Content, T: HashTrie<V>>(p: Proof<V>, t: T)
    requires
        t.root_spec().wf(Seq::empty(), T::wide()),
        t.map_spec() == t.root_spec().map_view(T::wide()),
        p.verifies(t.root_spec().digest()),
        p.hashes_faithfully(t.root_spec()),
    ensures
        t.map_spec().contains_key(p.leaf_spec().key),
        t.map_spec()[p.leaf_spec().key] == p.leaf_spec().val,
{
    let root = t.root_spec();
    let l = p.levels@;
    let j = l.len() - 1;
    p.lemma_chain(root, j);
    let offs = p.offsets();
    let n = root.node_at(offs.take(j))->0;
    let o = l[j].ofs as int;
    assert(l.last() == l[j]);
    assert(same_slot(l[j].node.slots@[o], n.slots@[o]));
    root.lemma_leaf_held(offs.take(j), o, p.leaf_spec(), T::wide());
}

} // verus!
