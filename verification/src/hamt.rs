//! Hash array mapped tries: maps from `u64` keys, where the path to a key is
//! read off the hash of the key, a nibble (wide trie) or two bits (narrow
//! trie) per level.
use vstd::prelude::*;

use crate::handle::HandleType;
use crate::hashing::{key_digest, key_hash};
use crate::map::KV;
use crate::search::{Method, SearchResult};

pub mod merkle;

verus! {

/// Number of levels a trie can have before the hash is exhausted.
pub open spec fn max_depth(wide: bool) -> int {
    if wide {
        16
    } else {
        32
    }
}

/// Number of slots in a node.
pub open spec fn width(wide: bool) -> int {
    if wide {
        16
    } else {
        4
    }
}

/// The slot that hash `h` selects at `depth`.
///
/// The wide trie reads byte `depth / 2`: its high nibble when `depth / 2` is
/// even, its low nibble when it is odd, so two levels in a row read the same
/// nibble. The narrow trie reads byte `depth / 4`, two bits per level from
/// the high end of the byte down.
pub open spec fn slot_spec(h: Seq<u8>, depth: int, wide: bool) -> int {
    if wide {
        let b = h[depth / 2];
        if (depth / 2) % 2 == 0 {
            (b / 16) as int
        } else {
            (b % 16) as int
        }
    } else {
        let b = h[depth / 4];
        let r = depth % 4;
        if r == 0 {
            (b / 64) as int
        } else if r == 1 {
            (b / 16 % 4) as int
        } else if r == 2 {
            (b / 4 % 4) as int
        } else {
            (b % 4) as int
        }
    }
}

/// The slot key `k` goes to at `depth`.
pub open spec fn key_slot(k: u64, depth: int, wide: bool) -> int {
    slot_spec(key_digest(k), depth, wide)
}

/// Key `k` lies under the node reached by `path`.
pub open spec fn follows(k: u64, path: Seq<int>, wide: bool) -> bool {
    forall|d: int| 0 <= d < path.len() ==> #[trigger] key_slot(k, d, wide) == path[d]
}

/// Keys `a` and `b` go to the same slot on every level: a trie cannot tell
/// them apart.
pub open spec fn collide(a: u64, b: u64, wide: bool) -> bool {
    forall|d: int| 0 <= d < max_depth(wide) ==> #[trigger] key_slot(a, d, wide) == key_slot(b, d, wide)
}

proof fn lemma_slot_bound(h: Seq<u8>, depth: int, wide: bool)
    ensures
        0 <= slot_spec(h, depth, wide) < width(wide),
{
}

/// Selects the slot of `hash` at `depth`, as the wide trie does.
pub fn select_slot_wide(hash: &[u8; 8], depth: usize) -> (r: usize)
    requires
        depth < 16,
    ensures
        r == slot_spec(hash@, depth as int, true),
        r < 16,
    no_unwind
{
    let ofs = depth / 2;
    let b = hash[ofs];
    assert((b & 0xF0u8) >> 4u8 == b / 16) by (bit_vector);
    assert(b & 0x0Fu8 == b % 16) by (bit_vector);
    if ofs % 2 == 0 {
        ((b & 0xF0) >> 4) as usize
    } else {
        (b & 0x0F) as usize
    }
}

/// Selects the slot of `hash` at `depth`, as the narrow trie does.
pub fn select_slot_narrow(hash: &[u8; 8], depth: usize) -> (r: usize)
    requires
        depth < 32,
    ensures
        r == slot_spec(hash@, depth as int, false),
        r < 4,
    no_unwind
{
    let b = hash[depth / 4];
    assert((b & 0xC0u8) >> 6u8 == b / 64) by (bit_vector);
    assert((b & 0x30u8) >> 4u8 == b / 16 % 4) by (bit_vector);
    assert((b & 0x0Cu8) >> 2u8 == b / 4 % 4) by (bit_vector);
    assert(b & 0x03u8 == b % 4) by (bit_vector);
    match depth % 4 {
        0 => ((b & 0xC0) >> 6) as usize,
        1 => ((b & 0x30) >> 4) as usize,
        2 => ((b & 0x0C) >> 2) as usize,
        _ => (b & 0x03) as usize,
    }
}

fn select_slot(hash: &[u8; 8], depth: usize, wide: bool) -> (r: usize)
    requires
        depth < max_depth(wide),
    ensures
        r == slot_spec(hash@, depth as int, wide),
        r < width(wide),
    no_unwind
{
    if wide {
        select_slot_wide(hash, depth)
    } else {
        select_slot_narrow(hash, depth)
    }
}

/// Slot selection from a hash, per trie width.
pub trait SlotSelect {
    /// Whether nodes of this trie are wide (16 slots) or narrow (4 slots).
    spec fn is_wide() -> bool;

    /// Selects the slot of `hash` at `depth`.
    fn select_slot(hash: &[u8; 8], depth: usize) -> (r: usize)
        requires
            depth < max_depth(Self::is_wide()),
        ensures
            r == slot_spec(hash@, depth as int, Self::is_wide()),
            r < width(Self::is_wide()),
    ;
}

/// Replaces `v[i]` by `with`, returning the old element.
pub(crate) fn take_slot<T>(v: &mut Vec<T>, i: usize, with: T) -> (r: T)
    requires
        i < old(v)@.len(),
    ensures
        r == old(v)@[i as int],
        final(v)@ == old(v)@.update(i as int, with),
{
    let r = v.remove(i);
    v.insert(i, with);
    assert(v@ =~= old(v)@.update(i as int, with));
    r
}

/// A slot of a trie node.
pub enum Slot<V> {
    /// Nothing stored.
    Empty,
    /// A key-value pair.
    Leaf(KV<u64, V>),
    /// A subtrie.
    Node(Box<HamtNode<V>>),
}

impl<V> Slot<V> {
    /// A mutable reference to the value of the pair in the slot; what is
    /// written through it becomes the pair's value.
    fn leaf_val_mut(&mut self) -> (r: &mut V)
        requires
            *old(self) is Leaf,
        ensures
            *r == (*old(self))->Leaf_0.val,
            *final(self) == Slot::Leaf(KV { key: (*old(self))->Leaf_0.key, val: *final(r) }),
        decreases 0nat,
        no_unwind
    {
        match self {
            Slot::Leaf(kv) => &mut kv.val,
            _ => {
                proof {
                    assert(false);
                }
                self.leaf_val_mut()
            },
        }
    }

    /// A mutable reference to the subtrie in the slot.
    fn node_mut(&mut self) -> (r: &mut HamtNode<V>)
        requires
            *old(self) is Node,
        ensures
            *r == *(*old(self))->Node_0,
            *final(self) == Slot::Node(Box::new(*final(r))),
        decreases 0nat,
        no_unwind
    {
        match self {
            Slot::Node(n) => &mut **n,
            _ => {
                proof {
                    assert(false);
                }
                self.node_mut()
            },
        }
    }

    /// The kind of the slot.
    pub fn handle_type(&self) -> (r: HandleType)
        ensures
            (r == HandleType::Empty) == (*self is Empty),
            (r == HandleType::Leaf) == (*self is Leaf),
            (r == HandleType::Node) == (*self is Node),
    {
        match self {
            Slot::Empty => HandleType::Empty,
            Slot::Leaf(_) => HandleType::Leaf,
            Slot::Node(_) => HandleType::Node,
        }
    }
}

/// A node of a hash trie.
pub struct HamtNode<V> {
    slots: Vec<Slot<V>>,
}

/// What a removal did to a node.
enum Removed<V> {
    Nothing,
    Leaf(KV<u64, V>),
    /// The removed pair, and the single pair left in the node, which the
    /// parent takes in place of the node.
    Collapse(KV<u64, V>, KV<u64, V>),
}

impl<V> HamtNode<V> {
    /// The content of slot `i`.
    pub closed spec fn slot_at(self, i: int) -> Slot<V> {
        self.slots@[i]
    }

    /// The value stored for `k` in the subtrie at `depth`.
    pub closed spec fn lookup(self, k: u64, depth: int, wide: bool) -> Option<V>
        decreases self,
    {
        let s = key_slot(k, depth, wide);
        if 0 <= s < self.slots@.len() {
            match self.slots@[s] {
                Slot::Empty => None,
                Slot::Leaf(kv) => if kv.key == k {
                    Some(kv.val)
                } else {
                    None
                },
                Slot::Node(n) => n.lookup(k, depth + 1, wide),
            }
        } else {
            None
        }
    }

    /// The node, reached through `path`, is well formed: every pair lies on
    /// the path its key selects, and no node lies below the last level.
    pub closed spec fn wf(self, path: Seq<int>, wide: bool) -> bool
        decreases self,
    {
        &&& self.slots@.len() == width(wide)
        &&& path.len() < max_depth(wide)
        &&& forall|i: int|
            0 <= i < width(wide) ==> match #[trigger] self.slots@[i] {
                Slot::Empty => true,
                Slot::Leaf(kv) => follows(kv.key, path.push(i), wide),
                Slot::Node(n) => n.wf(path.push(i), wide),
            }
    }

    /// All slots are empty.
    pub closed spec fn is_empty(self) -> bool {
        forall|i: int| 0 <= i < self.slots@.len() ==> #[trigger] self.slots@[i] is Empty
    }

    /// The subtrie, at depth `d`, holds two different keys.
    pub closed spec fn has_two(self, d: int, wide: bool) -> bool {
        exists|x: u64, y: u64|
            x != y && (#[trigger] self.lookup(x, d, wide)) is Some && (#[trigger] self.lookup(
                y,
                d,
                wide,
            )) is Some
    }

    /// The subtrie, at depth `d`, holds exactly one key.
    pub closed spec fn single_key(self, d: int, wide: bool) -> bool {
        exists|x: u64|
            (#[trigger] self.lookup(x, d, wide)) is Some && forall|y: u64|
                y != x ==> (#[trigger] self.lookup(y, d, wide)) is None
    }

    /// Every subtrie below the node, at depth `d`, holds at least two keys:
    /// a single key always sits directly in a slot.
    pub closed spec fn compact(self, d: int, wide: bool) -> bool
        decreases self,
    {
        forall|i: int|
            0 <= i < self.slots@.len() ==> match #[trigger] self.slots@[i] {
                Slot::Node(n) => n.has_two(d + 1, wide) && n.compact(d + 1, wide),
                _ => true,
            }
    }

    /// After changing slot `s` only, to a pair, nothing, or a compact
    /// subtrie with two keys, a compact node stays compact.
    proof fn lemma_compact_set_slot(self, old_self: Self, s: int, d: int, wide: bool)
        requires
            old_self.compact(d, wide),
            0 <= s < old_self.slots@.len(),
            self.slots@ == old_self.slots@.update(s, self.slots@[s]),
            self.slots@[s] matches Slot::Node(n) ==> n.has_two(d + 1, wide) && n.compact(d + 1, wide),
        ensures
            self.compact(d, wide),
    {
        assert forall|i: int| 0 <= i < self.slots@.len() implies match #[trigger] self.slots@[i] {
            Slot::Node(n) => n.has_two(d + 1, wide) && n.compact(d + 1, wide),
            _ => true,
        } by {
            if i != s {
                assert(self.slots@[i] == old_self.slots@[i]);
            }
        }
    }

    /// The keys of a subtrie in slot `s` of a well-formed node are looked up
    /// through that slot.
    proof fn lemma_child_lookup(self, s: int, x: u64, path: Seq<int>, wide: bool)
        requires
            self.wf(path, wide),
            0 <= s < self.slots@.len(),
            self.slots@[s] is Node,
            self.slots@[s]->Node_0.lookup(x, path.len() + 1int, wide) is Some,
        ensures
            key_slot(x, path.len() as int, wide) == s,
            self.lookup(x, path.len() as int, wide) == self.slots@[s]->Node_0.lookup(
                x,
                path.len() + 1int,
                wide,
            ),
    {
        let c = *self.slots@[s]->Node_0;
        assert(c.wf(path.push(s), wide));
        lemma_lookup_on_path(c, x, path.push(s), wide);
        assert(key_slot(x, path.len() as int, wide) == path.push(s)[path.len() as int]);
    }

    /// A compact node holding a single key holds it directly in a slot, and
    /// nothing else.
    proof fn lemma_single_is_leaf(self, path: Seq<int>, wide: bool)
        requires
            self.wf(path, wide),
            self.compact(path.len() as int, wide),
            self.single_key(path.len() as int, wide),
        ensures
            exists|i: int| self.only_leaf_at(i),
    {
        let d = path.len() as int;
        let x = choose|x: u64|
            (#[trigger] self.lookup(x, d, wide)) is Some && forall|y: u64|
                y != x ==> (#[trigger] self.lookup(y, d, wide)) is None;
        let s = key_slot(x, d, wide);
        lemma_slot_bound(key_digest(x), d, wide);
        assert forall|j: int| 0 <= j < self.slots@.len() && !(self.slots@[j] is Empty) implies j == s
            && self.slots@[j] is Leaf by {
            match self.slots@[j] {
                Slot::Leaf(kv) => {
                    assert(follows(kv.key, path.push(j), wide));
                    assert(key_slot(kv.key, d, wide) == path.push(j)[d]);
                    assert(self.lookup(kv.key, d, wide) == Some(kv.val));
                },
                Slot::Node(c) => {
                    assert(c.has_two(d + 1, wide));
                    let (y1, y2) = choose|y1: u64, y2: u64|
                        y1 != y2 && (#[trigger] c.lookup(y1, d + 1, wide)) is Some && (#[trigger] c.lookup(
                            y2,
                            d + 1,
                            wide,
                        )) is Some;
                    self.lemma_child_lookup(j, y1, path, wide);
                    self.lemma_child_lookup(j, y2, path, wide);
                },
                Slot::Empty => {},
            }
        }
        assert(self.only_leaf_at(s));
    }

    /// What the slots of a well-formed, compact root say of the map it holds:
    /// a pair in a slot belongs to the map and lies in the slot its key
    /// selects, a subtrie holds two keys and is compact, and the map is empty
    /// exactly when every slot is.
    proof fn lemma_root_slots(self, wide: bool)
        requires
            self.wf(Seq::empty(), wide),
            self.compact(0, wide),
        ensures
            (self.map_view(wide) == Map::<u64, V>::empty()) <==> self.is_empty(),
            forall|i: int|
                0 <= i < self.slots@.len() ==> match #[trigger] self.slots@[i] {
                    Slot::Empty => true,
                    Slot::Leaf(kv) => key_slot(kv.key, 0, wide) == i && self.map_view(
                        wide,
                    ).contains_key(kv.key) && self.map_view(wide)[kv.key] == kv.val,
                    Slot::Node(n) => n.has_two(1, wide) && n.compact(1, wide),
                },
    {
        let path = Seq::<int>::empty();
        assert forall|i: int| 0 <= i < self.slots@.len() implies match #[trigger] self.slots@[i] {
            Slot::Empty => true,
            Slot::Leaf(kv) => key_slot(kv.key, 0, wide) == i && self.map_view(wide).contains_key(
                kv.key,
            ) && self.map_view(wide)[kv.key] == kv.val,
            Slot::Node(n) => n.has_two(1, wide) && n.compact(1, wide),
        } by {
            if let Slot::Leaf(kv) = self.slots@[i] {
                assert(follows(kv.key, path.push(i), wide));
                assert(key_slot(kv.key, 0, wide) == path.push(i)[0]);
                assert(self.lookup(kv.key, 0, wide) == Some(kv.val));
            }
        }
        if self.is_empty() {
            assert forall|x: u64| #[trigger] self.lookup(x, 0, wide) is None by {
                lemma_slot_bound(key_digest(x), 0, wide);
            }
            assert(self.map_view(wide) =~= Map::<u64, V>::empty());
        } else {
            let j = choose|j: int| 0 <= j < self.slots@.len() && !(#[trigger] self.slots@[j] is Empty);
            match self.slots@[j] {
                Slot::Leaf(kv) => {
                    assert(self.map_view(wide).contains_key(kv.key));
                },
                Slot::Node(c) => {
                    assert(c.has_two(1, wide));
                    let (y1, y2) = choose|y1: u64, y2: u64|
                        y1 != y2 && (#[trigger] c.lookup(y1, 1, wide)) is Some && (#[trigger] c.lookup(
                            y2,
                            1,
                            wide,
                        )) is Some;
                    self.lemma_child_lookup(j, y1, path, wide);
                    assert(self.map_view(wide).contains_key(y1));
                },
                Slot::Empty => {},
            }
        }
    }

    /// The keys held in slots `i` and on of the trie rooted here, slot by
    /// slot, each subtrie's keys in its place.
    spec fn keys_from(self, i: int) -> Seq<u64>
        decreases self, self.slots@.len() - i,
    {
        if i < 0 || i >= self.slots@.len() {
            Seq::empty()
        } else {
            let rest = self.keys_from(i + 1);
            match self.slots@[i] {
                Slot::Empty => rest,
                Slot::Leaf(kv) => seq![kv.key] + rest,
                Slot::Node(n) => n.keys_from(0) + rest,
            }
        }
    }

    /// In a well-formed node reached through `path`, the keys of slots `i`
    /// and on are those held in the trie whose slot is `i` or later, each
    /// once.
    proof fn lemma_keys_from(self, i: int, path: Seq<int>, wide: bool)
        requires
            self.wf(path, wide),
            0 <= i <= self.slots@.len(),
        ensures
            self.keys_from(i).no_duplicates(),
            forall|x: u64|
                #[trigger] self.keys_from(i).contains(x) <==> (i <= key_slot(x, path.len() as int, wide)
                    && self.lookup(x, path.len() as int, wide) is Some),
        decreases self, self.slots@.len() - i,
    {
        broadcast use vstd::seq_lib::lemma_seq_concat_contains_all_elements;

        let d = path.len() as int;
        if i == self.slots@.len() {
            assert forall|x: u64| !(i <= key_slot(x, d, wide)) by {
                lemma_slot_bound(key_digest(x), d, wide);
            }
        } else {
            self.lemma_keys_from(i + 1, path, wide);
            let rest = self.keys_from(i + 1);
            match self.slots@[i] {
                Slot::Empty => {
                    assert forall|x: u64| #[trigger] self.keys_from(i).contains(x) <==> (i <= key_slot(x, d, wide)
                        && self.lookup(x, d, wide) is Some) by {
                        lemma_slot_bound(key_digest(x), d, wide);
                    }
                },
                Slot::Leaf(kv) => {
                    assert(follows(kv.key, path.push(i), wide));
                    assert(key_slot(kv.key, d, wide) == path.push(i)[d]);
                    assert(!rest.contains(kv.key));
                    assert(seq![kv.key].contains(kv.key)) by {
                        assert(seq![kv.key][0] == kv.key);
                    }
                    vstd::seq_lib::lemma_no_dup_in_concat(seq![kv.key], rest);
                    assert forall|x: u64| #[trigger] self.keys_from(i).contains(x) <==> (i <= key_slot(x, d, wide)
                        && self.lookup(x, d, wide) is Some) by {
                        lemma_slot_bound(key_digest(x), d, wide);
                        if seq![kv.key].contains(x) {
                            assert(x == seq![kv.key][0]);
                        }
                    }
                },
                Slot::Node(c) => {
                    assert(c.wf(path.push(i), wide));
                    c.lemma_keys_from(0, path.push(i), wide);
                    let ck = c.keys_from(0);
                    assert forall|x: u64| #[trigger] ck.contains(x) implies key_slot(x, d, wide) == i
                        && self.lookup(x, d, wide) == c.lookup(x, d + 1, wide) by {
                        lemma_slot_bound(key_digest(x), d + 1, wide);
                        self.lemma_child_lookup(i, x, path, wide);
                    }
                    assert forall|a: int, b: int| 0 <= a < ck.len() && 0 <= b < rest.len() implies ck[a]
                        != rest[b] by {
                        assert(ck.contains(ck[a]));
                        assert(rest.contains(rest[b]));
                    }
                    vstd::seq_lib::lemma_no_dup_in_concat(ck, rest);
                    assert forall|x: u64| #[trigger] self.keys_from(i).contains(x) <==> (i <= key_slot(x, d, wide)
                        && self.lookup(x, d, wide) is Some) by {
                        lemma_slot_bound(key_digest(x), d, wide);
                        lemma_slot_bound(key_digest(x), d + 1, wide);
                        if key_slot(x, d, wide) == i {
                            assert(self.lookup(x, d, wide) == c.lookup(x, d + 1, wide));
                        }
                    }
                },
            }
        }
    }

    /// Appends the keys of the trie rooted here to `out`.
    fn collect_keys(&self, out: &mut Vec<u64>)
        ensures
            final(out)@ == old(out)@ + self.keys_from(0),
        decreases self,
    {
        let mut i: usize = 0;
        while i < self.slots.len()
            invariant
                i <= self.slots@.len(),
                old(out)@ + self.keys_from(0) == out@ + self.keys_from(i as int),
            decreases self.slots@.len() - i,
        {
            let ghost before = out@;
            match &self.slots[i] {
                Slot::Empty => {},
                Slot::Leaf(kv) => {
                    out.push(kv.key);
                },
                Slot::Node(n) => {
                    n.collect_keys(out);
                },
            }
            proof {
                assert(before + self.keys_from(i as int) =~= out@ + self.keys_from(i + 1));
            }
            i = i + 1;
        }
        proof {
            assert(self.keys_from(self.slots@.len() as int) =~= Seq::<u64>::empty());
            assert(out@ + Seq::<u64>::empty() =~= out@);
        }
    }

    /// Slot `i` holds the only non-empty entry of the node, a pair.
    closed spec fn only_leaf_at(self, i: int) -> bool {
        &&& 0 <= i < self.slots@.len()
        &&& self.slots@[i] is Leaf
        &&& forall|j: int| 0 <= j < self.slots@.len() && j != i ==> #[trigger] self.slots@[j] is Empty
    }

    /// A node with all slots empty.
    fn empty(wide: bool) -> (r: Self)
        ensures
            r.slots@.len() == width(wide),
            r.is_empty(),
            forall|path: Seq<int>| path.len() < max_depth(wide) ==> #[trigger] r.wf(path, wide),
            forall|k: u64, d: int| #[trigger] r.lookup(k, d, wide) is None,
            forall|d: int| #[trigger] r.compact(d, wide),
    {
        let n: usize = if wide {
            16
        } else {
            4
        };
        let mut slots: Vec<Slot<V>> = Vec::new();
        let mut i: usize = 0;
        while i < n
            invariant
                i <= n,
                n == width(wide),
                slots@.len() == i,
                forall|j: int| 0 <= j < i ==> #[trigger] slots@[j] is Empty,
            decreases n - i,
        {
            slots.push(Slot::Empty);
            i = i + 1;
        }
        let r = HamtNode { slots };
        assert forall|k: u64, d: int| #[trigger] r.lookup(k, d, wide) is None by {
            lemma_slot_bound(key_digest(k), d, wide);
        }
        r
    }

    /// A mutable reference to the value of `k` in the subtrie at depth
    /// `path.len()`, if it holds `k`. Whatever is written through it becomes
    /// the value of `k`; nothing else changes.
    fn sub_get_mut(
        &mut self,
        depth: usize,
        h: &[u8; 8],
        k: u64,
        wide: bool,
        Ghost(path): Ghost<Seq<int>>,
    ) -> (r: Option<&mut V>)
        requires
            old(self).wf(path, wide),
            old(self).compact(depth as int, wide),
            depth == path.len(),
            h@ == key_digest(k),
        ensures
            final(self).wf(path, wide),
            final(self).compact(depth as int, wide),
            r is Some <==> old(self).lookup(k, depth as int, wide) is Some,
            r matches Some(v) ==> Some(*v) == old(self).lookup(k, depth as int, wide),
            forall|x: u64|
                #![trigger final(self).lookup(x, depth as int, wide)]
                #![trigger old(self).lookup(x, depth as int, wide)]
                final(self).lookup(x, depth as int, wide) == if x == k && r is Some {
                    Some(*final(r->0))
                } else {
                    old(self).lookup(x, depth as int, wide)
                },
        decreases max_depth(wide) - depth,
        no_unwind
    {
        broadcast use HamtNode::lemma_lookup_unfold;

        let s = select_slot(h, depth, wide);
        assert(s == key_slot(k, depth as int, wide));
        let found: u8 = match &self.slots[s] {
            Slot::Leaf(kv) => if kv.key == k {
                1
            } else {
                0
            },
            Slot::Node(_) => 2,
            Slot::Empty => 0,
        };
        if found == 0 {
            return None;
        }
        proof {
            assert forall|x: u64| 0 <= #[trigger] key_slot(x, depth as int, wide) < width(wide) by {
                lemma_slot_bound(key_digest(x), depth as int, wide);
            }
        }
        if found == 1 {
            let slot = &mut self.slots[s];
            Some(slot.leaf_val_mut())
        } else {
            let slot = &mut self.slots[s];
            let n = slot.node_mut();
            HamtNode::sub_get_mut(n, depth + 1, h, k, wide, Ghost(path.push(s as int)))
        }
    }

    /// One step of a lookup.
    broadcast proof fn lemma_lookup_unfold(n: HamtNode<V>, x: u64, d: int, wide: bool)
        ensures
            #[trigger] n.lookup(x, d, wide) == {
                let s = key_slot(x, d, wide);
                if 0 <= s < n.slots@.len() {
                    match n.slots@[s] {
                        Slot::Empty => None,
                        Slot::Leaf(kv) => if kv.key == x {
                            Some(kv.val)
                        } else {
                            None
                        },
                        Slot::Node(m) => m.lookup(x, d + 1, wide),
                    }
                } else {
                    None
                }
            },
    {
    }

    /// Inserts `k -> v` into the subtrie at depth `path.len()`.
    fn sub_insert(
        &mut self,
        depth: usize,
        h: &[u8; 8],
        k: u64,
        v: V,
        wide: bool,
        Ghost(path): Ghost<Seq<int>>,
    ) -> (r: Option<V>)
        requires
            old(self).wf(path, wide),
            old(self).compact(depth as int, wide),
            depth == path.len(),
            h@ == key_digest(k),
            follows(k, path, wide),
            forall|x: u64|
                x != k && (#[trigger] old(self).lookup(x, depth as int, wide)) is Some ==> !collide(
                    x,
                    k,
                    wide,
                ),
        ensures
            final(self).wf(path, wide),
            final(self).compact(depth as int, wide),
            r == old(self).lookup(k, depth as int, wide),
            forall|x: u64| #[trigger]
                final(self).lookup(x, depth as int, wide) == if x == k {
                    Some(v)
                } else {
                    old(self).lookup(x, depth as int, wide)
                },
        decreases max_depth(wide) - depth,
    {
        let s = select_slot(h, depth, wide);
        assert(s == key_slot(k, depth as int, wide));
        let action: u8 = match &self.slots[s] {
            Slot::Empty => 0,
            Slot::Leaf(kv) => if kv.key == k {
                1
            } else {
                2
            },
            Slot::Node(_) => 3,
        };
        let ghost old_self = *self;
        if action == 0 {
            self.slots.set(s, Slot::Leaf(KV::new(k, v)));
            proof {
                self.lemma_set_slot(old_self, s as int, path, wide);
                self.lemma_compact_set_slot(old_self, s as int, depth as int, wide);
            }
            None
        } else if action == 1 {
            let old = take_slot(&mut self.slots, s, Slot::Leaf(KV::new(k, v)));
            proof {
                self.lemma_set_slot(old_self, s as int, path, wide);
                self.lemma_compact_set_slot(old_self, s as int, depth as int, wide);
            }
            match old {
                Slot::Leaf(kv) => Some(kv.val),
                _ => {
                    proof {
                        assert(false);
                    }
                    None
                },
            }
        } else if action == 2 {
            let old = take_slot(&mut self.slots, s, Slot::Empty);
            if let Slot::Leaf(kv) = old {
                let ghost child_path = path.push(s as int);
                proof {
                    assert(old_self.wf(path, wide));
                    assert(follows(kv.key, child_path, wide));
                    assert(old_self.lookup(kv.key, depth as int, wide) == Some(kv.val));
                    assert(!collide(kv.key, k, wide));
                    let d0 = choose|d0: int|
                        0 <= d0 < max_depth(wide) && key_slot(kv.key, d0, wide) != key_slot(
                            k,
                            d0,
                            wide,
                        );
                    if d0 <= depth {
                        assert(key_slot(kv.key, d0, wide) == child_path[d0]);
                        assert(key_slot(k, d0, wide) == child_path[d0]);
                    }
                    assert(depth + 1 < max_depth(wide));
                }
                let old_h = key_hash(kv.key);
                let mut new_node = HamtNode::empty(wide);
                proof {
                    assert(new_node.wf(child_path, wide));
                    assert(new_node.compact(depth + 1, wide));
                }
                new_node.sub_insert(depth + 1, h, k, v, wide, Ghost(child_path));
                proof {
                    assert forall|x: u64|
                        x != kv.key && (#[trigger] new_node.lookup(
                            x,
                            depth + 1,
                            wide,
                        )) is Some implies !collide(x, kv.key, wide) by {
                        assert(x == k);
                    }
                }
                new_node.sub_insert(depth + 1, &old_h, kv.key, kv.val, wide, Ghost(child_path));
                let ghost nn = new_node;
                self.slots.set(s, Slot::Node(Box::new(new_node)));
                proof {
                    assert(self.slots@ =~= old_self.slots@.update(s as int, self.slots@[s as int]));
                    self.lemma_set_slot(old_self, s as int, path, wide);
                    assert(nn.lookup(k, depth + 1, wide) is Some);
                    assert(nn.lookup(kv.key, depth + 1, wide) is Some);
                    assert(nn.has_two(depth + 1, wide));
                    self.lemma_compact_set_slot(old_self, s as int, depth as int, wide);
                    assert forall|x: u64| #[trigger]
                        self.lookup(x, depth as int, wide) == (if x == k {
                            Some(v)
                        } else {
                            old_self.lookup(x, depth as int, wide)
                        }) by {
                        if key_slot(x, depth as int, wide) == s as int {
                            assert(self.lookup(x, depth as int, wide) == nn.lookup(
                                x,
                                depth + 1,
                                wide,
                            ));
                        }
                    }
                }
                None
            } else {
                proof {
                    assert(false);
                }
                None
            }
        } else {
            let old = take_slot(&mut self.slots, s, Slot::Empty);
            if let Slot::Node(b) = old {
                let mut n = *b;
                let ghost child_path = path.push(s as int);
                proof {
                    assert(old_self.wf(path, wide));
                    assert(n.wf(child_path, wide));
                    assert forall|d: int| 0 <= d < child_path.len() implies #[trigger] key_slot(
                        k,
                        d,
                        wide,
                    ) == child_path[d] by {
                        if d < depth {
                            assert(key_slot(k, d, wide) == path[d]);
                        }
                    }
                    assert forall|x: u64|
                        x != k && (#[trigger] n.lookup(x, depth + 1, wide)) is Some implies !collide(
                            x,
                            k,
                            wide,
                        ) by {
                        lemma_lookup_on_path(n, x, child_path, wide);
                        assert(old_self.lookup(x, depth as int, wide) == n.lookup(
                            x,
                            depth + 1,
                            wide,
                        ));
                    }
                }
                let ghost n0 = n;
                proof {
                    assert(n0.has_two(depth + 1, wide) && n0.compact(depth + 1, wide));
                }
                let r = n.sub_insert(depth + 1, h, k, v, wide, Ghost(child_path));
                let ghost nn = n;
                self.slots.set(s, Slot::Node(Box::new(n)));
                proof {
                    assert(self.slots@ =~= old_self.slots@.update(s as int, self.slots@[s as int]));
                    self.lemma_set_slot(old_self, s as int, path, wide);
                    let (y1, y2) = choose|y1: u64, y2: u64|
                        y1 != y2 && (#[trigger] n0.lookup(y1, depth + 1, wide)) is Some && (#[trigger] n0.lookup(
                            y2,
                            depth + 1,
                            wide,
                        )) is Some;
                    assert(nn.lookup(y1, depth + 1, wide) is Some);
                    assert(nn.lookup(y2, depth + 1, wide) is Some);
                    assert(nn.has_two(depth + 1, wide));
                    self.lemma_compact_set_slot(old_self, s as int, depth as int, wide);
                    assert forall|x: u64| #[trigger]
                        self.lookup(x, depth as int, wide) == (if x == k {
                            Some(v)
                        } else {
                            old_self.lookup(x, depth as int, wide)
                        }) by {
                        if key_slot(x, depth as int, wide) == s as int {
                            assert(self.lookup(x, depth as int, wide) == nn.lookup(
                                x,
                                depth + 1,
                                wide,
                            ));
                            assert(old_self.lookup(x, depth as int, wide) == n0.lookup(
                                x,
                                depth + 1,
                                wide,
                            ));
                        }
                    }
                }
                r
            } else {
                proof {
                    assert(false);
                }
                None
            }
        }
    }

    /// Takes the only pair of a node that holds a single pair and no
    /// subtrie, leaving the node empty.
    fn remove_singleton(&mut self, wide: bool, Ghost(path): Ghost<Seq<int>>) -> (r: Option<
        KV<u64, V>,
    >)
        requires
            old(self).wf(path, wide),
        ensures
            final(self).wf(path, wide),
            r is Some <==> exists|i: int| old(self).only_leaf_at(i),
            r is None ==> *final(self) == *old(self),
            r matches Some(kv) ==> {
                &&& final(self).is_empty()
                &&& follows(kv.key, path, wide)
                &&& forall|x: u64| #[trigger]
                    old(self).lookup(x, path.len() as int, wide) == if x == kv.key {
                        Some(kv.val)
                    } else {
                        None::<V>
                    }
            },
    {
        let mut singleton: Option<usize> = None;
        let n = self.slots.len();
        let mut i: usize = 0;
        while i < n
            invariant
                i <= n,
                n == self.slots@.len(),
                *self == *old(self),
                old(self).wf(path, wide),
                singleton matches Some(j) ==> j < i && self.slots@[j as int] is Leaf,
                forall|j: int|
                    0 <= j < i && (singleton matches Some(j0) ==> j != j0) ==> #[trigger] self.slots@[j] is Empty,
            decreases n - i,
        {
            match &self.slots[i] {
                Slot::Empty => {},
                Slot::Leaf(_) => {
                    if singleton.is_none() {
                        singleton = Some(i);
                    } else {
                        proof {
                            assert forall|j: int| !old(self).only_leaf_at(j) by {
                                if old(self).only_leaf_at(j) {
                                    let j0 = singleton->0;
                                    if j == j0 {
                                        assert(self.slots@[i as int] is Empty);
                                    } else {
                                        assert(self.slots@[j0 as int] is Empty);
                                    }
                                }
                            }
                        }
                        return None;
                    }
                },
                Slot::Node(_) => {
                    proof {
                        assert forall|j: int| !old(self).only_leaf_at(j) by {
                            if old(self).only_leaf_at(j) {
                                assert(self.slots@[i as int] is Empty);
                            }
                        }
                    }
                    return None;
                },
            }
            i = i + 1;
        }
        match singleton {
            Some(idx) => {
                let ghost old_self = *self;
                proof {
                    assert(old_self.only_leaf_at(idx as int));
                }
                let taken = take_slot(&mut self.slots, idx, Slot::Empty);
                match taken {
                    Slot::Leaf(kv) => {
                        proof {
                            assert(follows(kv.key, path.push(idx as int), wide));
                            assert forall|d: int| 0 <= d < path.len() implies #[trigger] key_slot(
                                kv.key,
                                d,
                                wide,
                            ) == path[d] by {
                                assert(path.push(idx as int)[d] == path[d]);
                            }
                            assert(key_slot(kv.key, path.len() as int, wide) == idx);
                            assert forall|x: u64| #[trigger]
                                old_self.lookup(x, path.len() as int, wide) == if x == kv.key {
                                    Some(kv.val)
                                } else {
                                    None::<V>
                                } by {
                                lemma_slot_bound(key_digest(x), path.len() as int, wide);
                            }
                            assert forall|j: int| 0 <= j < self.slots@.len() implies #[trigger] self.slots@[j] is Empty by {
                            }
                            assert forall|j: int| 0 <= j < width(wide) implies match #[trigger] self.slots@[j] {
                                Slot::Empty => true,
                                Slot::Leaf(kv) => follows(kv.key, path.push(j), wide),
                                Slot::Node(n) => n.wf(path.push(j), wide),
                            } by {
                                assert(self.slots@[j] is Empty);
                            }
                        }
                        Some(kv)
                    },
                    _ => {
                        proof {
                            assert(false);
                        }
                        None
                    },
                }
            },
            None => {
                proof {
                    assert forall|j: int| !old(self).only_leaf_at(j) by {
                        if old(self).only_leaf_at(j) {
                            assert(self.slots@[j] is Empty);
                        }
                    }
                }
                None
            },
        }
    }

    /// Removes `k` from the subtrie at depth `path.len()`.
    #[verifier::spinoff_prover]
    #[verifier::rlimit(60)]
    fn sub_remove(
        &mut self,
        depth: usize,
        h: &[u8; 8],
        k: u64,
        wide: bool,
        Ghost(path): Ghost<Seq<int>>,
    ) -> (r: Removed<V>)
        requires
            old(self).wf(path, wide),
            old(self).compact(depth as int, wide),
            depth == path.len(),
            h@ == key_digest(k),
        ensures
            final(self).wf(path, wide),
            final(self).compact(depth as int, wide),
            r is Leaf && depth > 0 ==> !final(self).single_key(depth as int, wide),
            match r {
                Removed::Nothing => {
                    &&& old(self).lookup(k, depth as int, wide) is None
                    &&& forall|x: u64| #[trigger]
                        final(self).lookup(x, depth as int, wide) == old(self).lookup(
                            x,
                            depth as int,
                            wide,
                        )
                },
                Removed::Leaf(kv) => {
                    &&& kv.key == k
                    &&& old(self).lookup(k, depth as int, wide) == Some(kv.val)
                    &&& forall|x: u64| #[trigger]
                        final(self).lookup(x, depth as int, wide) == if x == k {
                            None
                        } else {
                            old(self).lookup(x, depth as int, wide)
                        }
                },
                Removed::Collapse(rm, re) => {
                    &&& depth > 0
                    &&& rm.key == k
                    &&& re.key != k
                    &&& follows(re.key, path, wide)
                    &&& final(self).is_empty()
                    &&& forall|x: u64| #[trigger]
                        old(self).lookup(x, depth as int, wide) == if x == k {
                            Some(rm.val)
                        } else if x == re.key {
                            Some(re.val)
                        } else {
                            None
                        }
                },
            },
        decreases max_depth(wide) - depth,
    {
        let s = select_slot(h, depth, wide);
        let ghost old_self = *self;
        let action: u8 = match &self.slots[s] {
            Slot::Empty => 0,
            Slot::Leaf(kv) => if kv.key == k {
                1
            } else {
                0
            },
            Slot::Node(_) => 2,
        };
        if action == 0 {
            return Removed::Nothing;
        }
        let removed_leaf: KV<u64, V>;
        if action == 1 {
            let taken = take_slot(&mut self.slots, s, Slot::Empty);
            proof {
                self.lemma_set_slot(old_self, s as int, path, wide);
                self.lemma_compact_set_slot(old_self, s as int, depth as int, wide);
            }
            match taken {
                Slot::Leaf(kv) => {
                    removed_leaf = kv;
                },
                _ => {
                    proof {
                        assert(false);
                    }
                    return Removed::Nothing;
                },
            }
        } else {
            let taken = take_slot(&mut self.slots, s, Slot::Empty);
            match taken {
                Slot::Node(b) => {
                    let mut n = *b;
                    let ghost n0 = n;
                    let ghost child_path = path.push(s as int);
                    proof {
                        assert(old_self.wf(path, wide));
                        assert(n.wf(child_path, wide));
                        assert(n0.has_two(depth + 1, wide) && n0.compact(depth + 1, wide));
                        assert forall|x: u64| key_slot(x, depth as int, wide) == s implies #[trigger] old_self.lookup(
                            x,
                            depth as int,
                            wide,
                        ) == n0.lookup(x, depth + 1, wide) by {}
                    }
                    match n.sub_remove(depth + 1, h, k, wide, Ghost(child_path)) {
                        Removed::Collapse(rm, re) => {
                            removed_leaf = rm;
                            proof {
                                assert(follows(re.key, child_path, wide));
                                assert(key_slot(re.key, depth as int, wide) == child_path[depth as int]);
                            }
                            self.slots.set(s, Slot::Leaf(re));
                            proof {
                                assert(self.slots@ =~= old_self.slots@.update(s as int, self.slots@[s as int]));
                                self.lemma_set_slot(old_self, s as int, path, wide);
                                self.lemma_compact_set_slot(old_self, s as int, depth as int, wide);
                                assert forall|x: u64| #[trigger]
                                    self.lookup(x, depth as int, wide) == (if x == k {
                                        None
                                    } else {
                                        old_self.lookup(x, depth as int, wide)
                                    }) by {
                                    if key_slot(x, depth as int, wide) == s as int {
                                        assert(old_self.lookup(x, depth as int, wide) == n0.lookup(x, depth + 1, wide));
                                    }
                                }
                            }
                        },
                        result => {
                            let ghost nn = n;
                            self.slots.set(s, Slot::Node(Box::new(n)));
                            proof {
                                assert(self.slots@ =~= old_self.slots@.update(s as int, self.slots@[s as int]));
                                self.lemma_set_slot(old_self, s as int, path, wide);
                                assert forall|x: u64| key_slot(x, depth as int, wide) == s implies #[trigger] self.lookup(
                                    x,
                                    depth as int,
                                    wide,
                                ) == nn.lookup(x, depth + 1, wide) by {}
                                lemma_two_after_removal(n0, nn, k, depth + 1, wide, result is Leaf);
                                self.lemma_compact_set_slot(old_self, s as int, depth as int, wide);
                                let (y1, y2) = choose|y1: u64, y2: u64|
                                    y1 != y2 && (#[trigger] nn.lookup(y1, depth + 1, wide)) is Some
                                        && (#[trigger] nn.lookup(y2, depth + 1, wide)) is Some;
                                self.lemma_child_lookup(s as int, y1, path, wide);
                                self.lemma_child_lookup(s as int, y2, path, wide);
                                lemma_two_not_single(*self, y1, y2, depth as int, wide);
                            }
                            return result;
                        },
                    }
                },
                _ => {
                    proof {
                        assert(false);
                    }
                    return Removed::Nothing;
                },
            }
        }
        let ghost mid = *self;
        assert(removed_leaf.key == k);
        assert(old_self.lookup(k, depth as int, wide) == Some(removed_leaf.val));
        assert forall|x: u64| #[trigger]
            mid.lookup(x, depth as int, wide) == (if x == k {
                None
            } else {
                old_self.lookup(x, depth as int, wide)
            }) by {}
        if depth > 0 {
            match self.remove_singleton(wide, Ghost(path)) {
                Some(kv) => {
                    proof {
                        assert(mid.lookup(kv.key, depth as int, wide) == Some(kv.val));
                        assert(mid.lookup(k, depth as int, wide) is None);
                        assert forall|x: u64| #[trigger]
                            old_self.lookup(x, depth as int, wide) == (if x == k {
                                Some(removed_leaf.val)
                            } else if x == kv.key {
                                Some(kv.val)
                            } else {
                                None
                            }) by {
                            assert(mid.lookup(x, depth as int, wide) == (if x == kv.key {
                                Some(kv.val)
                            } else {
                                None::<V>
                            }));
                        }
                    }
                    Removed::Collapse(removed_leaf, kv)
                },
                None => {
                    proof {
                        if mid.single_key(depth as int, wide) {
                            mid.lemma_single_is_leaf(path, wide);
                        }
                    }
                    Removed::Leaf(removed_leaf)
                },
            }
        } else {
            Removed::Leaf(removed_leaf)
        }
    }

    /// After changing slot `s` only, lookups of keys going to other slots are
    /// unchanged, and the node stays well formed when the new slot is.
    proof fn lemma_set_slot(self, old_self: Self, s: int, path: Seq<int>, wide: bool)
        requires
            old_self.wf(path, wide),
            0 <= s < width(wide),
            self.slots@ == old_self.slots@.update(s, self.slots@[s]),
            match self.slots@[s] {
                Slot::Empty => true,
                Slot::Leaf(kv) => follows(kv.key, path.push(s), wide),
                Slot::Node(n) => n.wf(path.push(s), wide),
            },
        ensures
            self.wf(path, wide),
            forall|x: u64|
                key_slot(x, path.len() as int, wide) != s ==> #[trigger] self.lookup(
                    x,
                    path.len() as int,
                    wide,
                ) == old_self.lookup(x, path.len() as int, wide),
    {
        assert forall|i: int| 0 <= i < width(wide) implies match #[trigger] self.slots@[i] {
            Slot::Empty => true,
            Slot::Leaf(kv) => follows(kv.key, path.push(i), wide),
            Slot::Node(n) => n.wf(path.push(i), wide),
        } by {
            if i != s {
                assert(self.slots@[i] == old_self.slots@[i]);
            }
        }
    }
}

/// Whether `h1` and `h2` select the same slot on every level.
fn hashes_collide(h1: &[u8; 8], h2: &[u8; 8], wide: bool) -> (r: bool)
    ensures
        r == forall|d: int|
            0 <= d < max_depth(wide) ==> #[trigger] slot_spec(h1@, d, wide) == slot_spec(h2@, d, wide),
{
    let m: usize = if wide {
        16
    } else {
        32
    };
    let mut d: usize = 0;
    while d < m
        invariant
            d <= m,
            m == max_depth(wide),
            forall|j: int| 0 <= j < d ==> #[trigger] slot_spec(h1@, j, wide) == slot_spec(h2@, j, wide),
        decreases m - d,
    {
        if select_slot(h1, d, wide) != select_slot(h2, d, wide) {
            return false;
        }
        d = d + 1;
    }
    true
}

/// A search for a key in a hash trie, following the slots its hash selects.
pub struct HAMTSearch {
    hash: [u8; 8],
    key: u64,
    depth: usize,
    wide: bool,
}

impl HAMTSearch {
    /// Starts a search for `key` at the root of a wide (`wide == true`) or
    /// narrow trie.
    pub fn new(key: u64, wide: bool) -> (r: Self)
        ensures
            r.key() == key,
            r.depth() == 0,
            r.is_wide() == wide,
            r.hash_ok(),
    {
        HAMTSearch { hash: key_hash(key), key, depth: 0, wide }
    }

    /// The key searched for.
    pub closed spec fn key(self) -> u64 {
        self.key
    }

    /// The level the search is at.
    pub closed spec fn depth(self) -> int {
        self.depth as int
    }

    /// Whether the search is for a wide trie.
    pub closed spec fn is_wide(self) -> bool {
        self.wide
    }

    /// The search holds the hash of its key.
    pub closed spec fn hash_ok(self) -> bool {
        self.hash@ == key_digest(self.key)
    }
}

impl<V> Method<HamtNode<V>> for HAMTSearch {
    closed spec fn can_select(&self, compound: &HamtNode<V>, offset: usize) -> bool {
        &&& self.depth < max_depth(self.wide)
        &&& self.hash_ok()
        &&& compound.slots@.len() == width(self.wide)
    }

    /// Picks the slot the key's hash selects on this level: `Leaf` when the
    /// slot holds the pair with the searched key, `Path` otherwise.
    fn select(&mut self, compound: &HamtNode<V>, offset: usize) -> (r: SearchResult)
        ensures
            final(self).key() == old(self).key(),
            final(self).is_wide() == old(self).is_wide(),
            final(self).hash_ok() == old(self).hash_ok(),
            final(self).depth() == old(self).depth() + 1,
            ({
                let s = key_slot(old(self).key(), old(self).depth(), old(self).is_wide());
                &&& 0 <= s < width(old(self).is_wide())
                &&& (r == SearchResult::Leaf(s as usize)) == (compound.slot_at(s) matches Slot::Leaf(kv)
                    && kv.key == old(self).key())
                &&& r != SearchResult::Leaf(s as usize) ==> r == SearchResult::Path(s as usize)
            }),
    {
        let slot = select_slot(&self.hash, self.depth, self.wide);
        self.depth = self.depth + 1;
        match &compound.slots[slot] {
            Slot::Leaf(kv) => {
                if kv.key == self.key {
                    SearchResult::Leaf(slot)
                } else {
                    SearchResult::Path(slot)
                }
            },
            _ => SearchResult::Path(slot),
        }
    }
}

impl<V> HamtNode<V> {
    /// The map held by the trie rooted at this node.
    pub closed spec fn map_view(self, wide: bool) -> Map<u64, V> {
        Map::new(|k: u64| self.lookup(k, 0, wide) is Some, |k: u64| self.lookup(k, 0, wide)->0)
    }

    /// Some key of the trie other than `k` collides with `k`.
    pub closed spec fn has_collision(self, k: u64, depth: int, wide: bool) -> bool {
        exists|x: u64|
            x != k && (#[trigger] self.lookup(x, depth, wide)) is Some && collide(x, k, wide)
    }

    /// Looks `k` up in the trie rooted at `self`.
    fn root_get(&self, k: u64, wide: bool) -> (r: Option<&V>)
        requires
            self.wf(Seq::empty(), wide),
        ensures
            r matches Some(v) ==> self.lookup(k, 0, wide) == Some(*v),
            r is None ==> self.lookup(k, 0, wide) is None,
    {
        let mut search = HAMTSearch::new(k, wide);
        let mut node: &HamtNode<V> = self;
        let ghost mut path: Seq<int> = Seq::empty();
        loop
            invariant
                node.wf(path, wide),
                search.depth() == path.len(),
                search.key() == k,
                search.is_wide() == wide,
                search.hash_ok(),
                node.lookup(k, search.depth(), wide) == self.lookup(k, 0, wide),
            decreases max_depth(wide) - search.depth(),
        {
            let ghost d = search.depth();
            match search.select(node, 0) {
                SearchResult::Leaf(i) => {
                    match &node.slots[i] {
                        Slot::Leaf(kv) => {
                            return Some(&kv.val);
                        },
                        _ => {
                            return None;
                        },
                    }
                },
                SearchResult::Path(i) => {
                    match &node.slots[i] {
                        Slot::Node(b) => {
                            proof {
                                path = path.push(i as int);
                            }
                            node = &**b;
                        },
                        _ => {
                            return None;
                        },
                    }
                },
                SearchResult::Nothing => {
                    return None;
                },
            }
        }
    }

    /// Whether some key of the trie rooted at `self` collides with `k`.
    fn root_find_collision(&self, k: u64, wide: bool) -> (r: bool)
        requires
            self.wf(Seq::empty(), wide),
        ensures
            r == self.has_collision(k, 0, wide),
    {
        let h = key_hash(k);
        let mut node: &HamtNode<V> = self;
        let ghost mut path: Seq<int> = Seq::empty();
        let mut depth: usize = 0;
        loop
            invariant
                node.wf(path, wide),
                depth == path.len(),
                h@ == key_digest(k),
                node.has_collision(k, depth as int, wide) == self.has_collision(k, 0, wide),
            decreases max_depth(wide) - depth,
        {
            let s = select_slot(&h, depth, wide);
            let ghost d = depth as int;
            match &node.slots[s] {
                Slot::Empty => {
                    proof {
                        assert forall|x: u64|
                            x != k && (#[trigger] node.lookup(x, d, wide)) is Some implies !collide(
                                x,
                                k,
                                wide,
                            ) by {
                            if collide(x, k, wide) {
                                assert(key_slot(x, d, wide) == key_slot(k, d, wide));
                            }
                        }
                    }
                    return false;
                },
                Slot::Leaf(kv) => {
                    proof {
                        assert(follows(kv.key, path.push(s as int), wide));
                        assert(key_slot(kv.key, d, wide) == path.push(s as int)[d]);
                        assert(node.lookup(kv.key, d, wide) is Some);
                        assert forall|x: u64|
                            x != kv.key && (#[trigger] node.lookup(x, d, wide)) is Some implies !collide(
                                x,
                                k,
                                wide,
                            ) by {
                            if collide(x, k, wide) {
                                assert(key_slot(x, d, wide) == key_slot(k, d, wide));
                            }
                        }
                    }
                    if kv.key == k {
                        return false;
                    }
                    let h2 = key_hash(kv.key);
                    let c = hashes_collide(&h, &h2, wide);
                    proof {
                        if c {
                            assert forall|j: int| 0 <= j < max_depth(wide) implies #[trigger] key_slot(
                                kv.key,
                                j,
                                wide,
                            ) == key_slot(k, j, wide) by {
                                assert(slot_spec(h@, j, wide) == slot_spec(h2@, j, wide));
                            }
                            assert(collide(kv.key, k, wide));
                        } else {
                            let j = choose|j: int|
                                0 <= j < max_depth(wide) && slot_spec(h@, j, wide) != slot_spec(
                                    h2@,
                                    j,
                                    wide,
                                );
                            assert(key_slot(kv.key, j, wide) != key_slot(k, j, wide));
                        }
                    }
                    return c;
                },
                Slot::Node(b) => {
                    proof {
                        assert(b.wf(path.push(s as int), wide));
                        assert forall|x: u64| collide(x, k, wide) implies #[trigger] node.lookup(
                            x,
                            d,
                            wide,
                        ) == b.lookup(x, d + 1, wide) by {
                            assert(key_slot(x, d, wide) == key_slot(k, d, wide));
                        }
                        if node.has_collision(k, d, wide) {
                            let x = choose|x: u64|
                                x != k && (#[trigger] node.lookup(x, d, wide)) is Some && collide(
                                    x,
                                    k,
                                    wide,
                                );
                            assert(b.lookup(x, d + 1, wide) is Some);
                        }
                        if b.has_collision(k, d + 1, wide) {
                            let x = choose|x: u64|
                                x != k && (#[trigger] b.lookup(x, d + 1, wide)) is Some && collide(
                                    x,
                                    k,
                                    wide,
                                );
                            assert(node.lookup(x, d, wide) is Some);
                        }
                        path = path.push(s as int);
                    }
                    node = &**b;
                    depth = depth + 1;
                },
            }
        }
    }

    /// The node reached from this one by following the slots `ofs`, each of
    /// which must hold a subtrie.
    pub closed spec fn node_at(self, ofs: Seq<int>) -> Option<HamtNode<V>>
        decreases ofs.len(),
    {
        if ofs.len() == 0 {
            Some(self)
        } else {
            match self.node_at(ofs.drop_last()) {
                Some(n) => if 0 <= ofs.last() < n.slots@.len() {
                    match n.slots@[ofs.last()] {
                        Slot::Node(m) => Some(*m),
                        _ => None,
                    }
                } else {
                    None
                },
                None => None,
            }
        }
    }

    /// Following one more subtrie slot.
    proof fn lemma_node_at_push(self, ofs: Seq<int>, o: int)
        ensures
            self.node_at(Seq::empty()) == Some(self),
            self.node_at(ofs) matches Some(n) ==> (0 <= o < n.slots@.len() && n.slots@[o] is Node
                ==> self.node_at(ofs.push(o)) == Some(*n.slots@[o]->Node_0)),
    {
        assert(ofs.push(o).drop_last() =~= ofs);
    }

    /// A node reached from a well-formed node lies at the path extended by
    /// the slots followed, and a key that follows that path is looked up
    /// through it.
    proof fn lemma_node_at_lookup(self, path: Seq<int>, ofs: Seq<int>, wide: bool)
        requires
            self.wf(path, wide),
            self.node_at(ofs) is Some,
        ensures
            self.node_at(ofs)->0.wf(path + ofs, wide),
            forall|k: u64|
                follows(k, path + ofs, wide) ==> #[trigger] self.lookup(k, path.len() as int, wide)
                    == self.node_at(ofs)->0.lookup(k, (path.len() + ofs.len()) as int, wide),
        decreases ofs.len(),
    {
        if ofs.len() == 0 {
            assert(path + ofs =~= path);
        } else {
            let pre = ofs.drop_last();
            let o = ofs.last();
            self.lemma_node_at_lookup(path, pre, wide);
            let n = self.node_at(pre)->0;
            assert((path + pre).push(o) =~= path + ofs);
            assert(n.slots@.len() == width(wide));
            assert forall|k: u64| follows(k, path + ofs, wide) implies #[trigger] self.lookup(
                k,
                path.len() as int,
                wide,
            ) == self.node_at(ofs)->0.lookup(k, (path.len() + ofs.len()) as int, wide) by {
                assert forall|d: int| 0 <= d < (path + pre).len() implies #[trigger] key_slot(k, d, wide)
                    == (path + pre)[d] by {
                    assert((path + pre)[d] == (path + ofs)[d]);
                }
                assert(key_slot(k, (path + pre).len() as int, wide) == (path + ofs)[(path + pre).len() as int]);
            }
        }
    }

    /// A pair reached from the root of a well-formed trie, through subtrie
    /// slots `ofs` and then slot `o`, is held by the trie.
    proof fn lemma_leaf_held(self, ofs: Seq<int>, o: int, kv: KV<u64, V>, wide: bool)
        requires
            self.wf(Seq::empty(), wide),
            self.node_at(ofs) matches Some(n) && 0 <= o < n.slots@.len() && n.slots@[o] == Slot::Leaf(kv),
        ensures
            self.map_view(wide).contains_key(kv.key),
            self.map_view(wide)[kv.key] == kv.val,
    {
        let e = Seq::<int>::empty();
        self.lemma_node_at_lookup(e, ofs, wide);
        let n = self.node_at(ofs)->0;
        assert(e + ofs =~= ofs);
        assert(n.slots@.len() == width(wide));
        assert(follows(kv.key, ofs.push(o), wide));
        assert forall|d: int| 0 <= d < ofs.len() implies #[trigger] key_slot(kv.key, d, wide) == ofs[d] by {
            assert(ofs.push(o)[d] == ofs[d]);
        }
        assert(key_slot(kv.key, ofs.len() as int, wide) == ofs.push(o)[ofs.len() as int]);
        assert(self.lookup(kv.key, 0, wide) == Some(kv.val));
    }

    /// The nodes on the path the hash of `k` selects, from this root down to
    /// the node whose slot holds the pair of `k`, each with the slot the path
    /// leaves it through; `None` when the trie holds no pair for `k`.
    fn path_of(&self, k: u64, wide: bool) -> (r: Option<Vec<(usize, &HamtNode<V>)>>)
        requires
            self.wf(Seq::empty(), wide),
        ensures
            r is Some <==> self.map_view(wide).contains_key(k),
            r matches Some(p) ==> {
                &&& p@.len() >= 1
                &&& *p@[0].1 == *self
                &&& forall|j: int| 0 <= j < p@.len() ==> #[trigger] p@[j].0 < p@[j].1.slots@.len()
                &&& forall|j: int|
                    1 <= j < p@.len() ==> (#[trigger] p@[j - 1].1.slots@[p@[j - 1].0 as int] matches Slot::Node(
                        n,
                    ) && *n == *p@[j].1)
                &&& p@.last().1.slots@[p@.last().0 as int] == Slot::Leaf(
                    KV { key: k, val: self.map_view(wide)[k] },
                )
            },
    {
        let mut search = HAMTSearch::new(k, wide);
        let mut node: &HamtNode<V> = self;
        let mut levels: Vec<(usize, &HamtNode<V>)> = Vec::new();
        let ghost mut path: Seq<int> = Seq::empty();
        loop
            invariant
                node.wf(path, wide),
                search.depth() == path.len(),
                search.depth() == levels@.len(),
                search.key() == k,
                search.is_wide() == wide,
                search.hash_ok(),
                node.lookup(k, search.depth(), wide) == self.lookup(k, 0, wide),
                levels@.len() == 0 ==> *node == *self,
                levels@.len() > 0 ==> *levels@[0].1 == *self,
                forall|j: int| 0 <= j < levels@.len() ==> #[trigger] levels@[j].0 < levels@[j].1.slots@.len(),
                forall|j: int|
                    1 <= j < levels@.len() ==> (#[trigger] levels@[j - 1].1.slots@[levels@[j - 1].0 as int] matches Slot::Node(
                        n,
                    ) && *n == *levels@[j].1),
                levels@.len() > 0 ==> (levels@.last().1.slots@[levels@.last().0 as int] matches Slot::Node(n)
                    && *n == *node),
            decreases max_depth(wide) - search.depth(),
        {
            let ghost before = levels@;
            match search.select(node, 0) {
                SearchResult::Leaf(i) => {
                    match &node.slots[i] {
                        Slot::Leaf(kv) => {
                            levels.push((i, node));
                            proof {
                                assert(levels@.drop_last() == before);
                                assert(self.lookup(k, 0, wide) == Some(kv.val));
                                assert(self.map_view(wide).contains_key(k));
                                assert forall|j: int| 1 <= j < levels@.len() implies (#[trigger] levels@[j
                                    - 1].1.slots@[levels@[j - 1].0 as int] matches Slot::Node(n) && *n
                                    == *levels@[j].1) by {
                                    if j < levels@.len() - 1 {
                                        assert(levels@[j] == before[j]);
                                    }
                                    assert(levels@[j - 1] == before[j - 1]);
                                }
                            }
                            return Some(levels);
                        },
                        _ => {
                            return None;
                        },
                    }
                },
                SearchResult::Path(i) => {
                    match &node.slots[i] {
                        Slot::Node(b) => {
                            levels.push((i, node));
                            proof {
                                path = path.push(i as int);
                                assert forall|j: int| 1 <= j < levels@.len() implies (#[trigger] levels@[j
                                    - 1].1.slots@[levels@[j - 1].0 as int] matches Slot::Node(n) && *n
                                    == *levels@[j].1) by {
                                    if j < levels@.len() - 1 {
                                        assert(levels@[j] == before[j]);
                                    }
                                    assert(levels@[j - 1] == before[j - 1]);
                                }
                            }
                            node = &**b;
                        },
                        _ => {
                            proof {
                                assert(!self.map_view(wide).contains_key(k));
                            }
                            return None;
                        },
                    }
                },
                SearchResult::Nothing => {
                    return None;
                },
            }
        }
    }

    /// A mutable reference to the value of `k` in the trie rooted at `self`.
    fn root_get_mut(&mut self, h: &[u8; 8], k: u64, wide: bool) -> (r: Option<&mut V>)
        requires
            old(self).wf(Seq::empty(), wide),
            old(self).compact(0, wide),
            h@ == key_digest(k),
        ensures
            final(self).wf(Seq::empty(), wide),
            final(self).compact(0, wide),
            r is Some <==> old(self).map_view(wide).contains_key(k),
            r matches Some(v) ==> *v == old(self).map_view(wide)[k],
            final(self).map_view(wide) == if r is Some {
                old(self).map_view(wide).insert(k, *final(r->0))
            } else {
                old(self).map_view(wide)
            },
        no_unwind
    {
        self.sub_get_mut(0, h, k, wide, Ghost(Seq::empty()))
    }

    /// Inserts `k -> v` into the trie rooted at `self`.
    fn root_insert(&mut self, k: u64, v: V, wide: bool) -> (r: Option<V>)
        requires
            old(self).wf(Seq::empty(), wide),
            old(self).compact(0, wide),
            !old(self).has_collision(k, 0, wide),
        ensures
            final(self).wf(Seq::empty(), wide),
            final(self).compact(0, wide),
            final(self).map_view(wide) == old(self).map_view(wide).insert(k, v),
            r == old(self).lookup(k, 0, wide),
    {
        let h = key_hash(k);
        let r = self.sub_insert(0, &h, k, v, wide, Ghost(Seq::empty()));
        proof {
            assert(self.map_view(wide) =~= old(self).map_view(wide).insert(k, v));
        }
        r
    }

    /// Removes `k` from the trie rooted at `self`.
    fn root_remove(&mut self, k: u64, wide: bool) -> (r: Option<V>)
        requires
            old(self).wf(Seq::empty(), wide),
            old(self).compact(0, wide),
        ensures
            final(self).wf(Seq::empty(), wide),
            final(self).compact(0, wide),
            final(self).map_view(wide) == old(self).map_view(wide).remove(k),
            r == old(self).lookup(k, 0, wide),
    {
        let h = key_hash(k);
        let r = match self.sub_remove(0, &h, k, wide, Ghost(Seq::empty())) {
            Removed::Nothing => None,
            Removed::Leaf(kv) => Some(kv.val),
            Removed::Collapse(_, _) => {
                proof {
                    assert(false);
                }
                None
            },
        };
        proof {
            assert(self.map_view(wide) =~= old(self).map_view(wide).remove(k));
        }
        r
    }
}

/// A hash array mapped trie with 16 slots per node.
pub struct HAMT<V> {
    root: HamtNode<V>,
}

impl<V> View for HAMT<V> {
    type V = Map<u64, V>;

    closed spec fn view(&self) -> Map<u64, V> {
        self.root.map_view(true)
    }
}

impl<V> SlotSelect for HAMT<V> {
    open spec fn is_wide() -> bool {
        true
    }

    fn select_slot(hash: &[u8; 8], depth: usize) -> (r: usize) {
        select_slot_wide(hash, depth)
    }
}

impl<V> Default for HAMT<V> {
    fn default() -> (r: Self)
        ensures
            r@ == Map::<u64, V>::empty(),
    {
        Self::new()
    }
}

impl<V> HAMT<V> {
    #[verifier::type_invariant]
    closed spec fn inv(self) -> bool {
        self.root.wf(Seq::empty(), true) && self.root.compact(0, true)
    }

    /// Some key of the map other than `k` collides with `k`: the two go to the
    /// same slot on every level, so the trie cannot hold both.
    pub open spec fn collides_with(self, k: u64) -> bool {
        exists|x: u64| x != k && self@.contains_key(x) && #[trigger] collide(x, k, true)
    }

    /// Creates an empty map.
    pub fn new() -> (r: Self)
        ensures
            r@ == Map::<u64, V>::empty(),
    {
        let root = HamtNode::empty(true);
        let r = HAMT { root };
        assert(r@ =~= Map::<u64, V>::empty());
        r
    }

    /// Inserts `k -> v`, returning the value it replaces, if any.
    pub fn insert(&mut self, k: u64, v: V) -> (r: Option<V>)
        requires
            !old(self).collides_with(k),
        ensures
            final(self)@ == old(self)@.insert(k, v),
            r == old(self)@.get(k),
    {
        proof {
            use_type_invariant(&*self);
            assert(!self.root.has_collision(k, 0, true)) by {
                if self.root.has_collision(k, 0, true) {
                    let x = choose|x: u64|
                        x != k && (#[trigger] self.root.lookup(x, 0, true)) is Some && collide(x, k, true);
                    assert(self@.contains_key(x));
                }
            }
        }
        let mut root = HamtNode::empty(true);
        std::mem::swap(&mut root, &mut self.root);
        let r = root.root_insert(k, v, true);
        self.root = root;
        r
    }

    /// Inserts `k -> v` unless another key of the map collides with `k`.
    /// Returns `None` (and leaves the map unchanged) on a collision, else the
    /// value the insertion replaces.
    pub fn try_insert(&mut self, k: u64, v: V) -> (r: Option<Option<V>>)
        ensures
            r is None <==> old(self).collides_with(k),
            r is None ==> final(self)@ == old(self)@,
            r matches Some(o) ==> final(self)@ == old(self)@.insert(k, v) && o == old(self)@.get(k),
    {
        proof {
            use_type_invariant(&*self);
        }
        let c = self.root.root_find_collision(k, true);
        proof {
            if c {
                let x = choose|x: u64|
                    x != k && (#[trigger] self.root.lookup(x, 0, true)) is Some && collide(x, k, true);
                assert(self@.contains_key(x));
            } else {
                assert forall|x: u64| x != k && self@.contains_key(x) implies !#[trigger] collide(x, k, true) by {
                    assert(self.root.lookup(x, 0, true) is Some);
                }
            }
        }
        if c {
            None
        } else {
            Some(self.insert(k, v))
        }
    }

    /// The value stored for `k`, if any.
    pub fn get(&self, k: u64) -> (r: Option<&V>)
        ensures
            r is Some <==> self@.contains_key(k),
            r matches Some(v) ==> *v == self@[k],
    {
        proof {
            use_type_invariant(self);
        }
        self.root.root_get(k, true)
    }

    /// A mutable reference to the value stored for `k`, if any. What is
    /// written through it becomes the value of `k`; the other keys keep
    /// theirs.
    pub fn get_mut(&mut self, k: u64) -> (r: Option<&mut V>)
        ensures
            r is Some <==> old(self)@.contains_key(k),
            r matches Some(v) ==> *v == old(self)@[k],
            final(self)@ == if r is Some {
                old(self)@.insert(k, *final(r->0))
            } else {
                old(self)@
            },
    {
        proof {
            use_type_invariant(&*self);
        }
        let h = key_hash(k);
        self.root.root_get_mut(&h, k, true)
    }

    /// The slots of the root node. A pair in a slot belongs to the map; a
    /// subtrie holds at least two keys, and so does every subtrie below it; the
    /// map is empty exactly when every slot is.
    pub fn children(&self) -> (r: &[Slot<V>])
        ensures
            r@.len() == 16,
            (self@ == Map::<u64, V>::empty()) <==> forall|i: int| 0 <= i < r@.len() ==> #[trigger] r@[i] is Empty,
            forall|i: int|
                0 <= i < r@.len() ==> match #[trigger] r@[i] {
                    Slot::Empty => true,
                    Slot::Leaf(kv) => key_slot(kv.key, 0, true) == i && self@.contains_key(kv.key)
                        && self@[kv.key] == kv.val,
                    Slot::Node(n) => n.has_two(1, true) && n.compact(1, true),
                },
    {
        proof {
            use_type_invariant(self);
            self.root.lemma_root_slots(true);
        }
        self.root.slots.as_slice()
    }

    /// The keys of the map in the order of the trie's slots, each subtrie's
    /// keys in its place.
    pub closed spec fn key_order(self) -> Seq<u64> {
        self.root.keys_from(0)
    }

    /// The keys of the map, each once, in the order of the trie's slots.
    pub fn keys(&self) -> (r: Vec<u64>)
        ensures
            r@ == self.key_order(),
            r@.no_duplicates(),
            forall|x: u64| #[trigger] r@.contains(x) <==> self@.contains_key(x),
    {
        proof {
            use_type_invariant(self);
            self.root.lemma_keys_from(0, Seq::empty(), true);
        }
        let mut out: Vec<u64> = Vec::new();
        self.root.collect_keys(&mut out);
        proof {
            assert(out@ =~= self.root.keys_from(0));
            assert forall|x: u64| #[trigger] out@.contains(x) <==> self@.contains_key(x) by {
                lemma_slot_bound(key_digest(x), 0, true);
            }
        }
        out
    }

    /// Number of pairs in the map.
    pub fn count(&self) -> (r: usize)
        ensures
            r == self@.len(),
            self@.dom().finite(),
    {
        let ks = self.keys();
        proof {
            ks@.unique_seq_to_set();
            assert(ks@.to_set() =~= self@.dom());
        }
        ks.len()
    }

    /// The `n`:th key in the order of the trie's slots, with its value, if
    /// the map holds more than `n` keys.
    pub fn nth(&self, n: usize) -> (r: Option<(u64, &V)>)
        ensures
            r is Some <==> n < self@.len(),
            r matches Some(p) ==> p.0 == self.key_order()[n as int] && self@.contains_key(p.0)
                && *p.1 == self@[p.0],
    {
        let ks = self.keys();
        proof {
            ks@.unique_seq_to_set();
            assert(ks@.to_set() =~= self@.dom());
        }
        if n < ks.len() {
            let k = ks[n];
            proof {
                assert(ks@.contains(k));
            }
            match self.get(k) {
                Some(v) => Some((k, v)),
                None => None,
            }
        } else {
            None
        }
    }

    /// The root node, well formed and holding the map.
    fn root_node(&self) -> (r: &HamtNode<V>)
        ensures
            *r == self.root,
            r.wf(Seq::empty(), true),
            r.compact(0, true),
            self@ == r.map_view(true),
    {
        proof {
            use_type_invariant(self);
        }
        &self.root
    }

    /// Removes `k`, returning its value, if any.
    pub fn remove(&mut self, k: u64) -> (r: Option<V>)
        ensures
            final(self)@ == old(self)@.remove(k),
            r == old(self)@.get(k),
    {
        proof {
            use_type_invariant(&*self);
        }
        let mut root = HamtNode::empty(true);
        std::mem::swap(&mut root, &mut self.root);
        let r = root.root_remove(k, true);
        self.root = root;
        r
    }
}

/// A hash array mapped trie with 4 slots per node.
pub struct NarrowHAMT<V> {
    root: HamtNode<V>,
}

impl<V> View for NarrowHAMT<V> {
    type V = Map<u64, V>;

    closed spec fn view(&self) -> Map<u64, V> {
        self.root.map_view(false)
    }
}

impl<V> SlotSelect for NarrowHAMT<V> {
    open spec fn is_wide() -> bool {
        false
    }

    fn select_slot(hash: &[u8; 8], depth: usize) -> (r: usize) {
        select_slot_narrow(hash, depth)
    }
}

impl<V> Default for NarrowHAMT<V> {
    fn default() -> (r: Self)
        ensures
            r@ == Map::<u64, V>::empty(),
    {
        Self::new()
    }
}

impl<V> NarrowHAMT<V> {
    #[verifier::type_invariant]
    closed spec fn inv(self) -> bool {
        self.root.wf(Seq::empty(), false) && self.root.compact(0, false)
    }

    /// Some key of the map other than `k` collides with `k`: the two go to the
    /// same slot on every level, so the trie cannot hold both.
    pub open spec fn collides_with(self, k: u64) -> bool {
        exists|x: u64| x != k && self@.contains_key(x) && #[trigger] collide(x, k, false)
    }

    /// Creates an empty map.
    pub fn new() -> (r: Self)
        ensures
            r@ == Map::<u64, V>::empty(),
    {
        let root = HamtNode::empty(false);
        let r = NarrowHAMT { root };
        assert(r@ =~= Map::<u64, V>::empty());
        r
    }

    /// Inserts `k -> v`, returning the value it replaces, if any.
    pub fn insert(&mut self, k: u64, v: V) -> (r: Option<V>)
        requires
            !old(self).collides_with(k),
        ensures
            final(self)@ == old(self)@.insert(k, v),
            r == old(self)@.get(k),
    {
        proof {
            use_type_invariant(&*self);
            assert(!self.root.has_collision(k, 0, false)) by {
                if self.root.has_collision(k, 0, false) {
                    let x = choose|x: u64|
                        x != k && (#[trigger] self.root.lookup(x, 0, false)) is Some && collide(x, k, false);
                    assert(self@.contains_key(x));
                }
            }
        }
        let mut root = HamtNode::empty(false);
        std::mem::swap(&mut root, &mut self.root);
        let r = root.root_insert(k, v, false);
        self.root = root;
        r
    }

    /// Inserts `k -> v` unless another key of the map collides with `k`.
    /// Returns `None` (and leaves the map unchanged) on a collision, else the
    /// value the insertion replaces.
    pub fn try_insert(&mut self, k: u64, v: V) -> (r: Option<Option<V>>)
        ensures
            r is None <==> old(self).collides_with(k),
            r is None ==> final(self)@ == old(self)@,
            r matches Some(o) ==> final(self)@ == old(self)@.insert(k, v) && o == old(self)@.get(k),
    {
        proof {
            use_type_invariant(&*self);
        }
        let c = self.root.root_find_collision(k, false);
        proof {
            if c {
                let x = choose|x: u64|
                    x != k && (#[trigger] self.root.lookup(x, 0, false)) is Some && collide(x, k, false);
                assert(self@.contains_key(x));
            } else {
                assert forall|x: u64| x != k && self@.contains_key(x) implies !#[trigger] collide(x, k, false) by {
                    assert(self.root.lookup(x, 0, false) is Some);
                }
            }
        }
        if c {
            None
        } else {
            Some(self.insert(k, v))
        }
    }

    /// The value stored for `k`, if any.
    pub fn get(&self, k: u64) -> (r: Option<&V>)
        ensures
            r is Some <==> self@.contains_key(k),
            r matches Some(v) ==> *v == self@[k],
    {
        proof {
            use_type_invariant(self);
        }
        self.root.root_get(k, false)
    }

    /// A mutable reference to the value stored for `k`, if any. What is
    /// written through it becomes the value of `k`; the other keys keep
    /// theirs.
    pub fn get_mut(&mut self, k: u64) -> (r: Option<&mut V>)
        ensures
            r is Some <==> old(self)@.contains_key(k),
            r matches Some(v) ==> *v == old(self)@[k],
            final(self)@ == if r is Some {
                old(self)@.insert(k, *final(r->0))
            } else {
                old(self)@
            },
    {
        proof {
            use_type_invariant(&*self);
        }
        let h = key_hash(k);
        self.root.root_get_mut(&h, k, false)
    }

    /// The slots of the root node. A pair in a slot belongs to the map; a
    /// subtrie holds at least two keys, and so does every subtrie below it; the
    /// map is empty exactly when every slot is.
    pub fn children(&self) -> (r: &[Slot<V>])
        ensures
            r@.len() == 4,
            (self@ == Map::<u64, V>::empty()) <==> forall|i: int| 0 <= i < r@.len() ==> #[trigger] r@[i] is Empty,
            forall|i: int|
                0 <= i < r@.len() ==> match #[trigger] r@[i] {
                    Slot::Empty => true,
                    Slot::Leaf(kv) => key_slot(kv.key, 0, false) == i && self@.contains_key(kv.key)
                        && self@[kv.key] == kv.val,
                    Slot::Node(n) => n.has_two(1, false) && n.compact(1, false),
                },
    {
        proof {
            use_type_invariant(self);
            self.root.lemma_root_slots(false);
        }
        self.root.slots.as_slice()
    }

    /// The keys of the map in the order of the trie's slots, each subtrie's
    /// keys in its place.
    pub closed spec fn key_order(self) -> Seq<u64> {
        self.root.keys_from(0)
    }

    /// The keys of the map, each once, in the order of the trie's slots.
    pub fn keys(&self) -> (r: Vec<u64>)
        ensures
            r@ == self.key_order(),
            r@.no_duplicates(),
            forall|x: u64| #[trigger] r@.contains(x) <==> self@.contains_key(x),
    {
        proof {
            use_type_invariant(self);
            self.root.lemma_keys_from(0, Seq::empty(), false);
        }
        let mut out: Vec<u64> = Vec::new();
        self.root.collect_keys(&mut out);
        proof {
            assert(out@ =~= self.root.keys_from(0));
            assert forall|x: u64| #[trigger] out@.contains(x) <==> self@.contains_key(x) by {
                lemma_slot_bound(key_digest(x), 0, false);
            }
        }
        out
    }

    /// Number of pairs in the map.
    pub fn count(&self) -> (r: usize)
        ensures
            r == self@.len(),
            self@.dom().finite(),
    {
        let ks = self.keys();
        proof {
            ks@.unique_seq_to_set();
            assert(ks@.to_set() =~= self@.dom());
        }
        ks.len()
    }

    /// The `n`:th key in the order of the trie's slots, with its value, if
    /// the map holds more than `n` keys.
    pub fn nth(&self, n: usize) -> (r: Option<(u64, &V)>)
        ensures
            r is Some <==> n < self@.len(),
            r matches Some(p) ==> p.0 == self.key_order()[n as int] && self@.contains_key(p.0)
                && *p.1 == self@[p.0],
    {
        let ks = self.keys();
        proof {
            ks@.unique_seq_to_set();
            assert(ks@.to_set() =~= self@.dom());
        }
        if n < ks.len() {
            let k = ks[n];
            proof {
                assert(ks@.contains(k));
            }
            match self.get(k) {
                Some(v) => Some((k, v)),
                None => None,
            }
        } else {
            None
        }
    }

    /// The root node, well formed and holding the map.
    fn root_node(&self) -> (r: &HamtNode<V>)
        ensures
            *r == self.root,
            r.wf(Seq::empty(), false),
            r.compact(0, false),
            self@ == r.map_view(false),
    {
        proof {
            use_type_invariant(self);
        }
        &self.root
    }

    /// Removes `k`, returning its value, if any.
    pub fn remove(&mut self, k: u64) -> (r: Option<V>)
        ensures
            final(self)@ == old(self)@.remove(k),
            r == old(self)@.get(k),
    {
        proof {
            use_type_invariant(&*self);
        }
        let mut root = HamtNode::empty(false);
        std::mem::swap(&mut root, &mut self.root);
        let r = root.root_remove(k, false);
        self.root = root;
        r
    }
}

/// Tries with the same map look every key up alike.
proof fn lemma_same_map_lookup<V>(a: HamtNode<V>, b: HamtNode<V>, wide: bool)
    requires
        a.map_view(wide) == b.map_view(wide),
    ensures
        forall|x: u64| #[trigger] a.lookup(x, 0, wide) == b.lookup(x, 0, wide),
{
    assert forall|x: u64| #[trigger] a.lookup(x, 0, wide) == b.lookup(x, 0, wide) by {
        let (ma, mb) = (a.map_view(wide), b.map_view(wide));
        assert(ma.contains_key(x) == (a.lookup(x, 0, wide) is Some));
        assert(mb.contains_key(x) == (b.lookup(x, 0, wide) is Some));
        if a.lookup(x, 0, wide) is Some {
            assert(ma[x] == a.lookup(x, 0, wide)->0);
            assert(mb[x] == b.lookup(x, 0, wide)->0);
        }
    }
}

/// Two compact, well-formed nodes at `path` that look every key up alike
/// have slots of the same kinds: empty, the same pair, or subtries that are
/// again compact, well formed and look every key up alike.
proof fn lemma_canonical_level<V>(a: HamtNode<V>, b: HamtNode<V>, path: Seq<int>, wide: bool)
    requires
        a.wf(path, wide),
        b.wf(path, wide),
        a.compact(path.len() as int, wide),
        b.compact(path.len() as int, wide),
        forall|x: u64| #[trigger] a.lookup(x, path.len() as int, wide) == b.lookup(x, path.len() as int, wide),
    ensures
        a.slots@.len() == b.slots@.len(),
        forall|i: int|
            0 <= i < a.slots@.len() ==> match (#[trigger] a.slots@[i], b.slots@[i]) {
                (Slot::Empty, Slot::Empty) => true,
                (Slot::Leaf(x), Slot::Leaf(y)) => x == y,
                (Slot::Node(m), Slot::Node(n)) => {
                    &&& path.push(i).len() < max_depth(wide)
                    &&& m.wf(path.push(i), wide)
                    &&& n.wf(path.push(i), wide)
                    &&& m.compact(path.len() + 1int, wide)
                    &&& n.compact(path.len() + 1int, wide)
                    &&& forall|x: u64| #![trigger m.lookup(x, path.len() + 1int, wide)] m.lookup(x, path.len() + 1int, wide) == n.lookup(x, path.len() + 1int, wide)
                },
                _ => false,
            },
{
    let d = path.len() as int;
    assert forall|i: int| 0 <= i < a.slots@.len() implies match (#[trigger] a.slots@[i], b.slots@[i]) {
        (Slot::Empty, Slot::Empty) => true,
        (Slot::Leaf(x), Slot::Leaf(y)) => x == y,
        (Slot::Node(m), Slot::Node(n)) => {
            &&& path.push(i).len() < max_depth(wide)
            &&& m.wf(path.push(i), wide)
            &&& n.wf(path.push(i), wide)
            &&& m.compact(path.len() + 1int, wide)
            &&& n.compact(path.len() + 1int, wide)
            &&& forall|x: u64| #![trigger m.lookup(x, path.len() + 1int, wide)] m.lookup(x, path.len() + 1int, wide) == n.lookup(x, path.len() + 1int, wide)
        },
        _ => false,
    } by {
        lemma_slot_kind(a, b, path, i, wide);
        lemma_slot_kind(b, a, path, i, wide);
        match (a.slots@[i], b.slots@[i]) {
            (Slot::Leaf(x), Slot::Leaf(y)) => {
                assert(follows(x.key, path.push(i), wide));
                assert(key_slot(x.key, d, wide) == path.push(i)[d]);
                assert(a.lookup(x.key, d, wide) == Some(x.val));
                assert(b.lookup(x.key, d, wide) == Some(x.val));
                assert(y.key == x.key);
                assert(y.val == x.val);
            },
            (Slot::Node(m), Slot::Node(n)) => {
                assert(a.wf(path, wide));
                assert(m.wf(path.push(i), wide));
                assert(n.wf(path.push(i), wide));
                assert(m.compact(d + 1, wide));
                assert(n.compact(d + 1, wide));
                assert forall|x: u64| #![trigger m.lookup(x, d + 1, wide)] m.lookup(x, d + 1, wide) == n.lookup(x, d + 1, wide) by {
                    if m.lookup(x, d + 1, wide) is Some {
                        a.lemma_child_lookup(i, x, path, wide);
                    }
                    if n.lookup(x, d + 1, wide) is Some {
                        b.lemma_child_lookup(i, x, path, wide);
                    }
                    lemma_slot_bound(key_digest(x), d, wide);
                }
            },
            _ => {},
        }
    }
}

/// In two nodes that look every key up alike, a slot of the first that is
/// empty, or holds a pair, is matched in the second by a slot of the same
/// kind; for a pair, by the same pair's key.
proof fn lemma_slot_kind<V>(a: HamtNode<V>, b: HamtNode<V>, path: Seq<int>, i: int, wide: bool)
    requires
        a.wf(path, wide),
        b.wf(path, wide),
        a.compact(path.len() as int, wide),
        b.compact(path.len() as int, wide),
        forall|x: u64| #[trigger] a.lookup(x, path.len() as int, wide) == b.lookup(x, path.len() as int, wide),
        0 <= i < a.slots@.len(),
    ensures
        a.slots@.len() == b.slots@.len(),
        a.slots@[i] is Empty ==> b.slots@[i] is Empty,
        a.slots@[i] is Leaf ==> b.slots@[i] is Leaf,
        a.slots@[i] is Node ==> b.slots@[i] is Node,
{
    let d = path.len() as int;
    match b.slots@[i] {
        Slot::Leaf(y) => {
            assert(follows(y.key, path.push(i), wide));
            assert(key_slot(y.key, d, wide) == path.push(i)[d]);
            assert(b.lookup(y.key, d, wide) == Some(y.val));
            assert(a.lookup(y.key, d, wide) is Some);
            if a.slots@[i] is Node {
                let m = *a.slots@[i]->Node_0;
                assert(m.has_two(d + 1, wide));
                let (y1, y2) = choose|y1: u64, y2: u64|
                    y1 != y2 && (#[trigger] m.lookup(y1, d + 1, wide)) is Some && (#[trigger] m.lookup(
                        y2,
                        d + 1,
                        wide,
                    )) is Some;
                a.lemma_child_lookup(i, y1, path, wide);
                a.lemma_child_lookup(i, y2, path, wide);
                assert(b.lookup(y1, d, wide) is Some);
                assert(b.lookup(y2, d, wide) is Some);
            }
        },
        Slot::Node(n) => {
            assert(n.has_two(d + 1, wide));
            let (y1, y2) = choose|y1: u64, y2: u64|
                y1 != y2 && (#[trigger] n.lookup(y1, d + 1, wide)) is Some && (#[trigger] n.lookup(
                    y2,
                    d + 1,
                    wide,
                )) is Some;
            b.lemma_child_lookup(i, y1, path, wide);
            b.lemma_child_lookup(i, y2, path, wide);
            assert(a.lookup(y1, d, wide) is Some);
            assert(a.lookup(y2, d, wide) is Some);
        },
        Slot::Empty => {
            match a.slots@[i] {
                Slot::Leaf(x) => {
                    assert(follows(x.key, path.push(i), wide));
                    assert(key_slot(x.key, d, wide) == path.push(i)[d]);
                    assert(a.lookup(x.key, d, wide) == Some(x.val));
                },
                Slot::Node(m) => {
                    assert(m.has_two(d + 1, wide));
                    let (y1, y2) = choose|y1: u64, y2: u64|
                        y1 != y2 && (#[trigger] m.lookup(y1, d + 1, wide)) is Some && (#[trigger] m.lookup(
                            y2,
                            d + 1,
                            wide,
                        )) is Some;
                    a.lemma_child_lookup(i, y1, path, wide);
                },
                Slot::Empty => {},
            }
        },
    }
}

/// A subtrie with two keys does not hold a single key.
proof fn lemma_two_not_single<V>(n: HamtNode<V>, y1: u64, y2: u64, d: int, wide: bool)
    requires
        y1 != y2,
        n.lookup(y1, d, wide) is Some,
        n.lookup(y2, d, wide) is Some,
    ensures
        n.has_two(d, wide),
        !n.single_key(d, wide),
{
    if n.single_key(d, wide) {
        let x = choose|x: u64|
            (#[trigger] n.lookup(x, d, wide)) is Some && forall|y: u64|
                y != x ==> (#[trigger] n.lookup(y, d, wide)) is None;
        if y1 != x {
            assert(n.lookup(y1, d, wide) is None);
        } else {
            assert(n.lookup(y2, d, wide) is None);
        }
    }
}

/// A subtrie with two keys that loses at most key `k`, and does not end up
/// with a single key when it loses one, still has two keys.
proof fn lemma_two_after_removal<V>(before: HamtNode<V>, after: HamtNode<V>, k: u64, d: int, wide: bool, removed: bool)
    requires
        before.has_two(d, wide),
        removed ==> !after.single_key(d, wide),
        forall|x: u64| #[trigger]
            after.lookup(x, d, wide) == if x == k && removed {
                None
            } else {
                before.lookup(x, d, wide)
            },
    ensures
        after.has_two(d, wide),
{
    let (y1, y2) = choose|y1: u64, y2: u64|
        y1 != y2 && (#[trigger] before.lookup(y1, d, wide)) is Some && (#[trigger] before.lookup(
            y2,
            d,
            wide,
        )) is Some;
    if !removed || (y1 != k && y2 != k) {
        assert(after.lookup(y1, d, wide) is Some);
        assert(after.lookup(y2, d, wide) is Some);
    } else {
        let y = if y1 == k {
            y2
        } else {
            y1
        };
        assert(after.lookup(y, d, wide) is Some);
        assert(!(forall|z: u64| z != y ==> (#[trigger] after.lookup(z, d, wide)) is None));
        let z = choose|z: u64| z != y && !((#[trigger] after.lookup(z, d, wide)) is None);
        assert(after.lookup(z, d, wide) is Some);
    }
}

/// A key found by a lookup from the node at `path` lies on that path.
proof fn lemma_lookup_on_path<V>(n: HamtNode<V>, x: u64, path: Seq<int>, wide: bool)
    requires
        n.wf(path, wide),
        n.lookup(x, path.len() as int, wide) is Some,
    ensures
        follows(x, path, wide),
    decreases n,
{
    let d = path.len() as int;
    let s = key_slot(x, d, wide);
    lemma_slot_bound(key_digest(x), d, wide);
    match n.slots@[s] {
        Slot::Empty => {},
        Slot::Leaf(kv) => {
            assert(kv.key == x);
            assert(follows(x, path.push(s), wide));
            assert forall|j: int| 0 <= j < path.len() implies #[trigger] key_slot(x, j, wide)
                == path[j] by {
                assert(key_slot(x, j, wide) == path.push(s)[j]);
            }
        },
        Slot::Node(c) => {
            assert(c.wf(path.push(s), wide));
            lemma_lookup_on_path(*c, x, path.push(s), wide);
            assert forall|j: int| 0 <= j < path.len() implies #[trigger] key_slot(x, j, wide)
                == path[j] by {
                assert(key_slot(x, j, wide) == path.push(s)[j]);
            }
        },
    }
}

} // verus!
