//! Radix tries: maps from byte-string keys whose entries lie along the
//! nibbles of their keys. Each node branches on one nibble, and each branch
//! carries the run of nibbles that all keys below it share.
use vstd::prelude::*;

use crate::hamt::take_slot;
use crate::nibbles::{
    common_prefix_len_spec, lemma_common_prefix_len, lemma_nibbles_of_injective, nibbles_of,
    NibbleBuf, Nibbles,
};
use crate::search::{Method, SearchResult};

verus! {

/// Number of handles of a node: one for a key ending at the node and one per
/// nibble value.
pub const N_BUCKETS: usize = 17;

/// Longest key, in bytes.
pub const MAX_KEY_LEN: usize = 32767;

/// Longest key, in nibbles.
pub const KEY_NIBBLES: usize = 65534;

/// Bound on the nibbles of the buffer behind a stored prefix.
pub const PREFIX_RAW_MAX: usize = 131076;

/// A handle of a radix node.
pub enum Bucket<V> {
    /// Nothing stored.
    Empty,
    /// The value of a key.
    Leaf(V),
    /// A subtrie.
    Node(Box<RadixNode<V>>),
}

/// A node of a radix trie. Handle 0 holds the value of a key that ends at the
/// node; handle `n + 1` holds the keys that continue with nibble `n` and then
/// with the nibbles of prefix `n`.
pub struct RadixNode<V> {
    handles: Vec<Bucket<V>>,
    prefixes: Vec<NibbleBuf>,
}

/// `p` is a prefix of `s`.
pub open spec fn prefix_of(p: Seq<u8>, s: Seq<u8>) -> bool {
    p.len() <= s.len() && s.take(p.len() as int) == p
}

/// The key path that handle `idx` of a node with only that handle stands
/// for, when its prefix is `p`.
pub open spec fn handle_path(idx: int, p: Seq<u8>) -> Seq<u8> {
    if idx == 0 {
        Seq::empty()
    } else {
        seq![(idx - 1) as u8] + p
    }
}

impl<V> RadixNode<V> {
    /// The value stored under the nibble path `path` in the trie rooted here.
    pub closed spec fn lookup(self, path: Seq<u8>) -> Option<V>
        decreases self,
    {
        if self.handles@.len() != 17 || self.prefixes@.len() != 16 {
            None
        } else if path.len() == 0 {
            match self.handles@[0] {
                Bucket::Leaf(v) => Some(v),
                _ => None,
            }
        } else if path[0] < 16 {
            let p = self.prefixes@[path[0] as int]@;
            let rest = path.drop_first();
            match self.handles@[path[0] + 1] {
                Bucket::Empty => None,
                Bucket::Leaf(v) => if rest == p {
                    Some(v)
                } else {
                    None
                },
                Bucket::Node(n) => if prefix_of(p, rest) {
                    n.lookup(rest.skip(p.len() as int))
                } else {
                    None
                },
            }
        } else {
            None
        }
    }

    /// The node lies `d` nibbles below the root: it has all its handles, no
    /// subtrie in the place of a key ending here, and every key below it has
    /// at most `KEY_NIBBLES` nibbles.
    pub closed spec fn wf(self, d: nat) -> bool
        decreases self,
    {
        &&& self.handles@.len() == 17
        &&& self.prefixes@.len() == 16
        &&& !(self.handles@[0] is Node)
        &&& d <= KEY_NIBBLES
        &&& forall|j: int|
            0 <= j < 16 ==> {
                &&& (#[trigger] self.prefixes@[j]).raw().len() <= PREFIX_RAW_MAX
                &&& match self.handles@[j + 1] {
                    Bucket::Empty => true,
                    Bucket::Leaf(_) => d + 1 + self.prefixes@[j]@.len() <= KEY_NIBBLES,
                    Bucket::Node(n) => n.wf(d + 1 + self.prefixes@[j]@.len()),
                }
            }
    }

    /// All handles are empty.
    pub closed spec fn is_empty(self) -> bool {
        &&& self.handles@.len() == 17
        &&& self.prefixes@.len() == 16
        &&& forall|j: int| 0 <= j < 17 ==> #[trigger] self.handles@[j] is Empty
    }
}

/// What handle `h`, behind prefix `p`, holds for the nibbles `rest` that
/// follow the branching nibble.
pub closed spec fn slot_lookup<V>(h: Bucket<V>, p: Seq<u8>, rest: Seq<u8>) -> Option<V> {
    match h {
        Bucket::Empty => None,
        Bucket::Leaf(v) => if rest == p {
            Some(v)
        } else {
            None
        },
        Bucket::Node(n) => if prefix_of(p, rest) {
            n.lookup(rest.skip(p.len() as int))
        } else {
            None
        },
    }
}

/// Handle `h` behind prefix `p` is well formed at depth `d`.
pub closed spec fn bucket_wf<V>(h: Bucket<V>, p: NibbleBuf, d: nat) -> bool {
    &&& p.raw().len() <= PREFIX_RAW_MAX
    &&& match h {
        Bucket::Empty => true,
        Bucket::Leaf(_) => d + 1 + p@.len() <= KEY_NIBBLES,
        Bucket::Node(n) => n.wf(d + 1 + p@.len()),
    }
}

/// Node `n` holds `v` where the nibbles `q` lead: in handle 0 for no
/// nibbles, else in the handle of the first nibble, behind the rest.
pub closed spec fn holds_at<V>(n: RadixNode<V>, q: Seq<u8>, v: V) -> bool {
    if q.len() == 0 {
        n.handles@[0] == Bucket::Leaf(v)
    } else {
        n.handles@[q[0] + 1] == Bucket::Leaf(v) && n.prefixes@[q[0] as int]@ == q.drop_first()
    }
}

/// Node `n` holds `h` in handle `i` (behind prefix `p` when `i > 0`), `v`
/// where the nibbles `q` lead, and nothing else.
pub closed spec fn pair_node<V>(n: RadixNode<V>, i: int, h: Bucket<V>, p: Seq<u8>, q: Seq<u8>, v: V) -> bool {
    &&& n.complete()
    &&& n.handles@[i] == h
    &&& (i > 0 ==> n.prefixes@[i - 1]@ == p)
    &&& holds_at(n, q, v)
    &&& forall|j: int|
        0 <= j < 17 && j != i && j != RadixNode::<V>::handle_of(q) ==> #[trigger] n.handles@[j] is Empty
}

/// How storing `v` under the nibbles `rest` turns handle `h` behind prefix
/// `p` into handle `h2` behind `p2`: an empty handle takes the value behind
/// `rest`; a value under `rest` itself is replaced; a value under a proper
/// prefix of `rest` becomes a node, behind `p`, holding it for no nibbles and
/// `v` for the rest; a subtrie under a prefix of `rest` takes `v` in turn;
/// otherwise the handle becomes a node, behind the common part of `rest` and
/// `p`, holding the old handle and `v`.
pub closed spec fn slot_inserted<V>(h: Bucket<V>, p: Seq<u8>, h2: Bucket<V>, p2: Seq<u8>, rest: Seq<u8>, v: V) -> bool
    decreases rest.len() + 1, 0nat,
{
    let c = common_prefix_len_spec(rest, p) as int;
    let split = p2 == rest.take(c) && c < p.len() && (h2 matches Bucket::Node(n) && pair_node(
        *n,
        p[c] + 1,
        h,
        p.skip(c + 1),
        rest.skip(c),
        v,
    ));
    match h {
        Bucket::Empty => h2 == Bucket::Leaf(v) && p2 == rest,
        Bucket::Leaf(w) => if rest == p {
            h2 == Bucket::Leaf(v) && p2 == p
        } else if prefix_of(p, rest) {
            p2 == p && (h2 matches Bucket::Node(n) && pair_node(
                *n,
                0,
                Bucket::Leaf(w),
                Seq::empty(),
                rest.skip(p.len() as int),
                v,
            ))
        } else {
            split
        },
        Bucket::Node(m) => if prefix_of(p, rest) {
            p2 == p && (h2 matches Bucket::Node(n) && inserted(*m, *n, rest.skip(p.len() as int), v))
        } else {
            split
        },
    }
}

/// Node `b` is node `a` after storing `v` under the nibbles `path`: only the
/// handle `path` goes through, and its prefix, change, as `slot_inserted`
/// says (handle 0 simply takes the value when `path` is empty).
pub closed spec fn inserted<V>(a: RadixNode<V>, b: RadixNode<V>, path: Seq<u8>, v: V) -> bool
    decreases path.len(), 1nat,
{
    let h = RadixNode::<V>::handle_of(path);
    &&& b.complete()
    &&& forall|j: int| 0 <= j < 17 && j != h ==> #[trigger] b.handles@[j] == a.handles@[j]
    &&& forall|j: int| 0 <= j < 16 && j + 1 != h ==> #[trigger] b.prefixes@[j] == a.prefixes@[j]
    &&& if path.len() == 0 {
        b.handles@[0] == Bucket::Leaf(v)
    } else {
        slot_inserted(
            a.handles@[h],
            a.prefixes@[h - 1]@,
            b.handles@[h],
            b.prefixes@[h - 1]@,
            path.drop_first(),
            v,
        )
    }
}

/// Nodes `a` and `b` are laid out alike: the same prefixes, and in each
/// handle nothing, the same value, or subtries laid out alike.
pub closed spec fn same_layout<V>(a: RadixNode<V>, b: RadixNode<V>) -> bool
    decreases a,
{
    &&& a.handles@.len() == b.handles@.len()
    &&& a.prefixes@.len() == b.prefixes@.len()
    &&& forall|j: int| 0 <= j < a.prefixes@.len() ==> (#[trigger] a.prefixes@[j])@ == b.prefixes@[j]@
    &&& forall|j: int|
        0 <= j < a.handles@.len() ==> match (#[trigger] a.handles@[j], b.handles@[j]) {
            (Bucket::Empty, Bucket::Empty) => true,
            (Bucket::Leaf(x), Bucket::Leaf(y)) => x == y,
            (Bucket::Node(m), Bucket::Node(m2)) => same_layout(*m, *m2),
            _ => false,
        }
}

/// Handles `h` and `h2` are laid out alike.
pub closed spec fn same_bucket<V>(h: Bucket<V>, h2: Bucket<V>) -> bool {
    match (h, h2) {
        (Bucket::Empty, Bucket::Empty) => true,
        (Bucket::Leaf(x), Bucket::Leaf(y)) => x == y,
        (Bucket::Node(m), Bucket::Node(m2)) => same_layout(*m, *m2),
        _ => false,
    }
}

/// Node `m` holds exactly two values, each directly in a handle: the one
/// under the nibbles `sub`, held in the handle of a nibble, and one more.
pub closed spec fn two_with<V>(m: RadixNode<V>, sub: Seq<u8>) -> bool {
    &&& m.complete()
    &&& sub.len() > 0
    &&& sub[0] < 16
    &&& m.handles@[sub[0] + 1] is Leaf
    &&& m.prefixes@[sub[0] as int]@ == sub.drop_first()
    &&& exists|i: int|
        #![trigger m.handles@[i]]
        0 <= i < 17 && i != sub[0] + 1 && m.handles@[i] is Leaf && forall|j: int|
            0 <= j < 17 && j != i && j != sub[0] + 1 ==> #[trigger] m.handles@[j] is Empty
}

/// In a node with `two_with(m, sub)`, the handle of the value other than the
/// one under `sub`.
pub closed spec fn lone_other<V>(m: RadixNode<V>, sub: Seq<u8>) -> int {
    choose|i: int| 0 <= i < 17 && i != sub[0] + 1 && #[trigger] m.handles@[i] is Leaf
}

/// How removing the value under the nibbles `rest`, which handle `h` behind
/// prefix `p` holds, turns the handle into `h2` behind `p2`: a value held
/// directly leaves the handle empty, behind no nibbles; a subtrie holding
/// just that value and one more, each directly in a handle, gives way to the
/// other value, behind the joined nibbles; any other subtrie loses the value
/// in turn.
pub closed spec fn slot_removed<V>(h: Bucket<V>, p: Seq<u8>, h2: Bucket<V>, p2: Seq<u8>, rest: Seq<u8>) -> bool
    decreases rest.len() + 1, 0nat,
{
    match h {
        Bucket::Node(m) => {
            let sub = rest.skip(p.len() as int);
            if two_with(*m, sub) {
                let i = lone_other(*m, sub);
                h2 == m.handles@[i] && p2 == p + handle_path(
                    i,
                    if i > 0 {
                        m.prefixes@[i - 1]@
                    } else {
                        Seq::empty()
                    },
                )
            } else {
                prefix_of(p, rest) && p2 == p && (h2 matches Bucket::Node(m2) && removed(
                    *m,
                    *m2,
                    sub,
                ))
            }
        },
        _ => h2 is Empty && p2.len() == 0,
    }
}

/// Node `b` is node `a` after removing the value under the nibbles `path`,
/// which it holds: only the handle `path` goes through, and its prefix,
/// change, as `slot_removed` says (handle 0 is emptied when `path` is
/// empty).
pub closed spec fn removed<V>(a: RadixNode<V>, b: RadixNode<V>, path: Seq<u8>) -> bool
    decreases path.len(), 1nat,
{
    let h = RadixNode::<V>::handle_of(path);
    &&& b.complete()
    &&& forall|j: int| 0 <= j < 17 && j != h ==> #[trigger] b.handles@[j] == a.handles@[j]
    &&& forall|j: int| 0 <= j < 16 && j + 1 != h ==> #[trigger] b.prefixes@[j] == a.prefixes@[j]
    &&& if path.len() == 0 {
        b.handles@[0] is Empty
    } else {
        slot_removed(
            a.handles@[h],
            a.prefixes@[h - 1]@,
            b.handles@[h],
            b.prefixes@[h - 1]@,
            path.drop_first(),
        )
    }
}

/// Every node is laid out like itself.
proof fn lemma_same_layout_refl<V>(a: RadixNode<V>)
    ensures
        same_layout(a, a),
    decreases a,
{
    assert forall|j: int| 0 <= j < a.handles@.len() implies match (#[trigger] a.handles@[j], a.handles@[j]) {
        (Bucket::Empty, Bucket::Empty) => true,
        (Bucket::Leaf(x), Bucket::Leaf(y)) => x == y,
        (Bucket::Node(m), Bucket::Node(m2)) => same_layout(*m, *m2),
        _ => false,
    } by {
        if let Bucket::Node(m) = a.handles@[j] {
            lemma_same_layout_refl(*m);
        }
    }
}

/// A node whose handle `i` was replaced by one laid out alike, and whose
/// prefixes read alike, is laid out like the node before.
proof fn lemma_same_layout_update<V>(a: RadixNode<V>, b: RadixNode<V>, i: int)
    requires
        0 <= i < a.handles@.len(),
        b.handles@ == a.handles@.update(i, b.handles@[i]),
        same_bucket(a.handles@[i], b.handles@[i]),
        a.prefixes@.len() == b.prefixes@.len(),
        forall|j: int| 0 <= j < a.prefixes@.len() ==> (#[trigger] a.prefixes@[j])@ == b.prefixes@[j]@,
    ensures
        same_layout(a, b),
{
    assert forall|j: int| 0 <= j < a.handles@.len() implies match (#[trigger] a.handles@[j], b.handles@[j]) {
        (Bucket::Empty, Bucket::Empty) => true,
        (Bucket::Leaf(x), Bucket::Leaf(y)) => x == y,
        (Bucket::Node(m), Bucket::Node(m2)) => same_layout(*m, *m2),
        _ => false,
    } by {
        if j != i {
            if let Bucket::Node(m) = a.handles@[j] {
                lemma_same_layout_refl(*m);
            }
        }
    }
}

/// Looking up a non-empty path goes through the handle its first nibble
/// selects.
proof fn lemma_lookup_slot<V>(n: RadixNode<V>, path: Seq<u8>)
    requires
        n.handles@.len() == 17,
        n.prefixes@.len() == 16,
        path.len() > 0,
        path[0] < 16,
    ensures
        n.lookup(path) == slot_lookup(
            n.handles@[path[0] + 1],
            n.prefixes@[path[0] as int]@,
            path.drop_first(),
        ),
{
}

/// Two nodes that differ only in handle `i` (and its prefix) hold the same
/// values on all paths not going through that handle.
proof fn lemma_frame<V>(a: RadixNode<V>, b: RadixNode<V>, i: int)
    requires
        a.handles@.len() == 17,
        b.handles@.len() == 17,
        a.prefixes@.len() == 16,
        b.prefixes@.len() == 16,
        0 <= i < 17,
        forall|j: int| 0 <= j < 17 && j != i ==> a.handles@[j] == b.handles@[j],
        forall|j: int| 0 <= j < 16 && j != i - 1 ==> a.prefixes@[j] == b.prefixes@[j],
    ensures
        forall|q: Seq<u8>|
            (if i == 0 {
                q.len() > 0
            } else {
                q.len() == 0 || q[0] + 1 != i
            }) ==> #[trigger] b.lookup(q) == a.lookup(q),
{
    assert forall|q: Seq<u8>|
        (if i == 0 {
            q.len() > 0
        } else {
            q.len() == 0 || q[0] + 1 != i
        }) implies #[trigger] b.lookup(q) == a.lookup(q) by {
        if q.len() > 0 && q[0] < 16 {
            lemma_lookup_slot(a, q);
            lemma_lookup_slot(b, q);
            assert(a.handles@[q[0] + 1] == b.handles@[q[0] + 1]);
            assert(a.prefixes@[q[0] as int] == b.prefixes@[q[0] as int]);
        }
    }
}

/// A node that differs from a well-formed one only in handle `i`, which is
/// well formed, is well formed.
proof fn lemma_wf_frame<V>(a: RadixNode<V>, b: RadixNode<V>, i: int, d: nat)
    requires
        a.wf(d),
        b.handles@.len() == 17,
        b.prefixes@.len() == 16,
        0 <= i < 17,
        forall|j: int| 0 <= j < 17 && j != i ==> a.handles@[j] == b.handles@[j],
        forall|j: int| 0 <= j < 16 && j != i - 1 ==> a.prefixes@[j] == b.prefixes@[j],
        i == 0 ==> !(b.handles@[0] is Node),
        i > 0 ==> bucket_wf(b.handles@[i], b.prefixes@[i - 1], d),
    ensures
        b.wf(d),
{
    assert forall|j: int| 0 <= j < 16 implies {
        &&& (#[trigger] b.prefixes@[j]).raw().len() <= PREFIX_RAW_MAX
        &&& match b.handles@[j + 1] {
            Bucket::Empty => true,
            Bucket::Leaf(_) => d + 1 + b.prefixes@[j]@.len() <= KEY_NIBBLES,
            Bucket::Node(n) => n.wf(d + 1 + b.prefixes@[j]@.len()),
        }
    } by {
        if j + 1 != i {
            assert(a.prefixes@[j] == b.prefixes@[j]);
            assert(a.handles@[j + 1] == b.handles@[j + 1]);
        }
    }
}

/// The handles of a well-formed node are well formed.
proof fn lemma_wf_bucket<V>(n: RadixNode<V>, d: nat, j: int)
    requires
        n.wf(d),
        0 <= j < 16,
    ensures
        bucket_wf(n.handles@[j + 1], n.prefixes@[j], d),
{
    assert(n.prefixes@[j].raw().len() <= PREFIX_RAW_MAX);
}

impl<V> RadixNode<V> {
    /// A node with all handles empty.
    fn empty() -> (r: Self)
        ensures
            r.is_empty(),
            forall|j: int| 0 <= j < 16 ==> (#[trigger] r.prefixes@[j])@.len() == 0 && r.prefixes@[j].raw().len() == 0,
            forall|q: Seq<u8>| #[trigger] r.lookup(q) is None,
            forall|d: nat| d <= KEY_NIBBLES ==> #[trigger] r.wf(d),
    {
        let mut handles: Vec<Bucket<V>> = Vec::new();
        let mut i: usize = 0;
        while i < N_BUCKETS
            invariant
                i <= N_BUCKETS,
                handles@.len() == i,
                forall|j: int| 0 <= j < i ==> #[trigger] handles@[j] is Empty,
            decreases N_BUCKETS - i,
        {
            handles.push(Bucket::Empty);
            i = i + 1;
        }
        let mut prefixes: Vec<NibbleBuf> = Vec::new();
        let mut i: usize = 0;
        while i < N_BUCKETS - 1
            invariant
                i <= N_BUCKETS - 1,
                prefixes@.len() == i,
                forall|j: int| 0 <= j < i ==> (#[trigger] prefixes@[j])@.len() == 0 && prefixes@[j].raw().len() == 0,
            decreases N_BUCKETS - 1 - i,
        {
            prefixes.push(NibbleBuf::default());
            i = i + 1;
        }
        let r = RadixNode { handles, prefixes };
        proof {
            assert forall|q: Seq<u8>| #[trigger] r.lookup(q) is None by {
                if q.len() > 0 && q[0] < 16 {
                    assert(r.handles@[q[0] + 1] is Empty);
                }
            }
            assert forall|d: nat| d <= KEY_NIBBLES implies #[trigger] r.wf(d) by {
                assert forall|j: int| 0 <= j < 16 implies {
                    &&& (#[trigger] r.prefixes@[j]).raw().len() <= PREFIX_RAW_MAX
                    &&& match r.handles@[j + 1] {
                        Bucket::Empty => true,
                        Bucket::Leaf(_) => d + 1 + r.prefixes@[j]@.len() <= KEY_NIBBLES,
                        Bucket::Node(n) => n.wf(d + 1 + r.prefixes@[j]@.len()),
                    }
                } by {
                    assert(r.handles@[j + 1] is Empty);
                }
            }
        }
        r
    }

    /// Stores `v` under `search`, whose handle is known to be empty.
    fn place(&mut self, search: &Nibbles, v: V, Ghost(d): Ghost<nat>)
        requires
            old(self).wf(d),
            d + search@.len() <= KEY_NIBBLES,
            search.raw().len() <= PREFIX_RAW_MAX,
            search@.len() == 0 ==> old(self).handles@[0] is Empty,
            search@.len() > 0 && search@[0] < 16 ==> old(self).handles@[search@[0] + 1] is Empty,
        ensures
            final(self).wf(d),
            forall|q: Seq<u8>|
                #[trigger] final(self).lookup(q) == if q == search@ {
                    Some(v)
                } else {
                    old(self).lookup(q)
                },
            final(self).handles@ == old(self).handles@.update(Self::handle_of(search@), Bucket::Leaf(v)),
            search@.len() > 0 ==> search@[0] < 16,
            search@.len() == 0 ==> final(self).prefixes@ == old(self).prefixes@,
            search@.len() > 0 ==> final(self).prefixes@ == old(self).prefixes@.update(
                search@[0] as int,
                final(self).prefixes@[search@[0] as int],
            ) && final(self).prefixes@[search@[0] as int]@ == search@.drop_first(),
    {
        let ghost a = *self;
        if search.len() == 0 {
            self.handles.set(0, Bucket::Leaf(v));
            proof {
                lemma_frame(a, *self, 0);
                lemma_wf_frame(a, *self, 0, d);
                assert forall|q: Seq<u8>|
                    #[trigger] self.lookup(q) == if q == search@ {
                        Some(v)
                    } else {
                        a.lookup(q)
                    } by {
                    if q.len() == 0 {
                        assert(q =~= search@);
                    }
                }
            }
        } else {
            let mut rest = *search;
            let nib = rest.pop_nibble();
            let buf = rest.into_buf();
            self.handles.set(nib + 1, Bucket::Leaf(v));
            self.prefixes.set(nib, buf);
            proof {
                let i = nib + 1;
                lemma_frame(a, *self, i as int);
                lemma_wf_frame(a, *self, i as int, d);
                assert forall|q: Seq<u8>|
                    #[trigger] self.lookup(q) == if q == search@ {
                        Some(v)
                    } else {
                        a.lookup(q)
                    } by {
                    if q.len() > 0 && q[0] + 1 == i {
                        lemma_lookup_slot(a, q);
                        lemma_lookup_slot(*self, q);
                        assert(a.handles@[i as int] is Empty);
                        if q.drop_first() == rest@ {
                            assert(rest@ == search@.drop_first());
                            assert(q[0] == search@[0]);
                            assert forall|k: int| 0 <= k < q.len() implies q[k] == search@[k] by {
                                if k > 0 {
                                    assert(q[k] == q.drop_first()[k - 1]);
                                    assert(search@[k] == search@.drop_first()[k - 1]);
                                }
                            }
                            assert(q =~= search@);
                        }
                        if q == search@ {
                            assert(q.drop_first() =~= rest@);
                        }
                    }
                }
            }
        }
    }
}

/// A node with a single handle `p[c] + 1`, holding `h` behind the rest of
/// `p`, placed behind the first `c` nibbles of `p`, holds what `h` held behind
/// all of `p`.
proof fn lemma_split_lookup<V>(h: Bucket<V>, p: Seq<u8>, c: int, nn: RadixNode<V>)
    requires
        0 <= c < p.len(),
        p[c] < 16,
        nn.handles@.len() == 17,
        nn.prefixes@.len() == 16,
        nn.handles@[p[c] + 1] == h,
        nn.prefixes@[p[c] as int]@ == p.skip(c + 1),
        forall|j: int| 0 <= j < 17 && j != p[c] + 1 ==> #[trigger] nn.handles@[j] is Empty,
    ensures
        forall|r: Seq<u8>|
            #[trigger] slot_lookup(Bucket::Node(Box::new(nn)), p.take(c), r) == slot_lookup(h, p, r),
{
    assert forall|r: Seq<u8>|
        #[trigger] slot_lookup(Bucket::Node(Box::new(nn)), p.take(c), r) == slot_lookup(h, p, r) by {
        let pc = p.take(c);
        if prefix_of(pc, r) {
            let x = r.skip(c);
            if x.len() == 0 {
                assert(nn.handles@[0] is Empty);
                if r == p {
                    assert(false);
                }
            } else if x[0] != p[c] {
                assert(x[0] == r[c]);
                if x[0] < 16 {
                    lemma_lookup_slot(nn, x);
                    assert(nn.handles@[x[0] + 1] is Empty);
                }
                if r == p {
                    assert(false);
                }
                if prefix_of(p, r) {
                    assert(r.take(p.len() as int)[c] == r[c]);
                }
            } else {
                lemma_lookup_slot(nn, x);
                let xr = x.drop_first();
                assert(xr =~= r.skip(c + 1));
                let ps = p.skip(c + 1);
                if xr == ps {
                    assert forall|k: int| 0 <= k < r.len() implies r[k] == p[k] by {
                        if k < c {
                            assert(r.take(c)[k] == r[k]);
                            assert(pc[k] == p[k]);
                        } else if k > c {
                            assert(xr[k - c - 1] == r[k]);
                            assert(ps[k - c - 1] == p[k]);
                        }
                    }
                    assert(r =~= p);
                }
                if r == p {
                    assert(xr =~= ps);
                }
                if prefix_of(ps, xr) {
                    assert forall|k: int| 0 <= k < p.len() implies r.take(p.len() as int)[k] == p[k] by {
                        if k < c {
                            assert(r.take(c)[k] == r[k]);
                            assert(pc[k] == p[k]);
                        } else if k > c {
                            assert(xr.take(ps.len() as int)[k - c - 1] == r[k]);
                            assert(ps[k - c - 1] == p[k]);
                        }
                    }
                    assert(r.take(p.len() as int) =~= p);
                    assert(xr.skip(ps.len() as int) =~= r.skip(p.len() as int));
                }
                if prefix_of(p, r) {
                    assert(xr.take(ps.len() as int) =~= ps) by {
                        assert forall|k: int| 0 <= k < ps.len() implies xr.take(ps.len() as int)[k]
                            == ps[k] by {
                            assert(r.take(p.len() as int)[k + c + 1] == p[k + c + 1]);
                        }
                    }
                    assert(xr.skip(ps.len() as int) =~= r.skip(p.len() as int));
                }
            }
        } else {
            if r == p {
                assert(r.take(c) =~= pc);
            }
            if prefix_of(p, r) {
                assert(r.take(c) =~= pc) by {
                    assert forall|k: int| 0 <= k < c implies r.take(c)[k] == pc[k] by {
                        assert(r.take(p.len() as int)[k] == p[k]);
                    }
                }
            }
        }
    }
}

/// A node holding only `w` in its handle 0, placed behind `p`, holds what a
/// pair handle with `w` behind `p` held.
proof fn lemma_extend_lookup<V>(w: V, p: Seq<u8>, nn: RadixNode<V>)
    requires
        nn.handles@.len() == 17,
        nn.prefixes@.len() == 16,
        nn.handles@[0] == Bucket::Leaf(w),
        forall|j: int| 1 <= j < 17 ==> #[trigger] nn.handles@[j] is Empty,
    ensures
        forall|r: Seq<u8>|
            #[trigger] slot_lookup(Bucket::Node(Box::new(nn)), p, r) == slot_lookup(Bucket::Leaf(w), p, r),
{
    assert forall|r: Seq<u8>|
        #[trigger] slot_lookup(Bucket::Node(Box::new(nn)), p, r) == slot_lookup(Bucket::Leaf(w), p, r) by {
        if prefix_of(p, r) {
            let x = r.skip(p.len() as int);
            if x.len() == 0 {
                assert(r.take(p.len() as int) =~= r);
                assert(r =~= p);
            } else {
                if x[0] < 16 {
                    lemma_lookup_slot(nn, x);
                }
                if r == p {
                    assert(false);
                }
            }
        } else {
            if r == p {
                assert(r.take(r.len() as int) =~= r);
            }
        }
    }
}

/// Storing `v` under the rest of `r0` in a node behind `q` stores it under
/// `r0` in the handle.
proof fn lemma_node_update<V>(a: RadixNode<V>, b: RadixNode<V>, q: Seq<u8>, r0: Seq<u8>, v: V)
    requires
        prefix_of(q, r0),
        forall|x: Seq<u8>|
            #[trigger] b.lookup(x) == if x == r0.skip(q.len() as int) {
                Some(v)
            } else {
                a.lookup(x)
            },
    ensures
        forall|r: Seq<u8>|
            #[trigger] slot_lookup(Bucket::Node(Box::new(b)), q, r) == if r == r0 {
                Some(v)
            } else {
                slot_lookup(Bucket::Node(Box::new(a)), q, r)
            },
{
    assert forall|r: Seq<u8>|
        #[trigger] slot_lookup(Bucket::Node(Box::new(b)), q, r) == if r == r0 {
            Some(v)
        } else {
            slot_lookup(Bucket::Node(Box::new(a)), q, r)
        } by {
        if prefix_of(q, r) {
            let x = r.skip(q.len() as int);
            assert(b.lookup(x) == if x == r0.skip(q.len() as int) {
                Some(v)
            } else {
                a.lookup(x)
            });
            if x == r0.skip(q.len() as int) {
                assert(r =~= r.take(q.len() as int) + x);
                assert(r0 =~= r0.take(q.len() as int) + r0.skip(q.len() as int));
            }
        }
    }
}

impl<V> RadixNode<V> {
    /// Stores `v` under `search` in the trie rooted here, returning the value
    /// stored there before.
    fn _insert(&mut self, search: &mut Nibbles, v: V, Ghost(d): Ghost<nat>) -> (r: Option<V>)
        requires
            old(self).wf(d),
            d + old(search)@.len() <= KEY_NIBBLES,
            old(search).raw().len() <= PREFIX_RAW_MAX,
        ensures
            final(self).wf(d),
            forall|q: Seq<u8>|
                #[trigger] final(self).lookup(q) == if q == old(search)@ {
                    Some(v)
                } else {
                    old(self).lookup(q)
                },
            r == old(self).lookup(old(search)@),
            inserted(*old(self), *final(self), old(search)@, v),
            ({
                let h = Self::handle_of(old(search)@);
                let rest = old(search)@.drop_first();
                &&& forall|j: int|
                    0 <= j < 17 && j != h ==> #[trigger] final(self).handles@[j] == old(self).handles@[j]
                &&& forall|j: int|
                    0 <= j < 16 && j + 1 != h ==> #[trigger] final(self).prefixes@[j] == old(self).prefixes@[j]
                &&& old(self).handles@[h] is Empty ==> final(self).handles@[h] == Bucket::Leaf(v) && (h > 0
                    ==> final(self).prefixes@[h - 1]@ == rest)
                &&& h > 0 && old(self).handles@[h] is Leaf && !prefix_of(old(self).prefixes@[h - 1]@, rest)
                    && !prefix_of(rest, old(self).prefixes@[h - 1]@) ==> (final(self).handles@[h] matches Bucket::Node(
                    n,
                ) && n.two_leaf_node())
            }),
        decreases old(search)@.len(), 1nat,
    {
        let ghost a = *self;
        let ghost path = search@;
        if search.len() == 0 {
            let old_h = take_slot(&mut self.handles, 0, Bucket::Leaf(v));
            proof {
                lemma_frame(a, *self, 0);
                lemma_wf_frame(a, *self, 0, d);
                assert forall|q: Seq<u8>|
                    #[trigger] self.lookup(q) == if q == path {
                        Some(v)
                    } else {
                        a.lookup(q)
                    } by {
                    if q.len() == 0 {
                        assert(q =~= path);
                    }
                }
            }
            match old_h {
                Bucket::Leaf(o) => Some(o),
                _ => None,
            }
        } else {
            let nib = search.pop_nibble();
            let ghost rest = search@;
            proof {
                lemma_wf_bucket(a, d, nib as int);
                lemma_lookup_slot(a, path);
            }
            let h = take_slot(&mut self.handles, nib + 1, Bucket::Empty);
            let p = take_slot(&mut self.prefixes, nib, NibbleBuf::default());
            let (h2, p2, r) = insert_into_slot(h, p, search, v, Ghost(d));
            self.handles.set(nib + 1, h2);
            self.prefixes.set(nib, p2);
            proof {
                lemma_frame(a, *self, nib + 1);
                lemma_wf_frame(a, *self, nib + 1, d);
                assert forall|q: Seq<u8>|
                    #[trigger] self.lookup(q) == if q == path {
                        Some(v)
                    } else {
                        a.lookup(q)
                    } by {
                    if q.len() > 0 && q[0] + 1 == nib + 1 {
                        lemma_lookup_slot(a, q);
                        lemma_lookup_slot(*self, q);
                        if q.drop_first() == rest {
                            assert forall|k: int| 0 <= k < q.len() implies q[k] == path[k] by {
                                if k > 0 {
                                    assert(q[k] == q.drop_first()[k - 1]);
                                    assert(path[k] == path.drop_first()[k - 1]);
                                }
                            }
                            assert(q =~= path);
                        }
                        if q == path {
                            assert(q.drop_first() =~= rest);
                        }
                    }
                }
            }
            r
        }
    }
}

/// Stores `v` under `search` in handle `h` behind prefix `p`, returning the
/// new handle and prefix, and the value stored there before.
fn insert_into_slot<'a, V>(
    h: Bucket<V>,
    p: NibbleBuf,
    search: &mut Nibbles<'a>,
    v: V,
    Ghost(d): Ghost<nat>,
) -> (res: (Bucket<V>, NibbleBuf, Option<V>))
    requires
        bucket_wf(h, p, d),
        d + 1 + old(search)@.len() <= KEY_NIBBLES,
        old(search).raw().len() <= PREFIX_RAW_MAX,
    ensures
        bucket_wf(res.0, res.1, d),
        forall|r: Seq<u8>|
            #[trigger] slot_lookup(res.0, res.1@, r) == if r == old(search)@ {
                Some(v)
            } else {
                slot_lookup(h, p@, r)
            },
        res.2 == slot_lookup(h, p@, old(search)@),
        slot_inserted(h, p@, res.0, res.1@, old(search)@, v),
        h is Empty ==> res.0 == Bucket::Leaf(v) && res.1@ == old(search)@,
        h is Leaf && !prefix_of(p@, old(search)@) && !prefix_of(old(search)@, p@) ==> (res.0 matches Bucket::Node(
            n,
        ) && n.two_leaf_node()),
    decreases old(search)@.len() + 1, 0nat,
{
    let ghost rest = search@;
    let path_len = p.len();
    let common = search.common_prefix(&p);
    let common_len = common.len();
    proof {
        lemma_common_prefix_len(rest, p@);
    }
    match h {
        Bucket::Empty => {
            let buf = search.into_buf();
            (Bucket::Leaf(v), buf, None)
        },
        Bucket::Leaf(o) => {
            if common_len == search.len() && common_len == path_len {
                proof {
                    assert(rest =~= p@);
                    assert(rest.take(rest.len() as int) =~= rest);
                }
                (Bucket::Leaf(v), p, Some(o))
            } else if common_len < path_len {
                proof {
                    if common_len == rest.len() {
                        assert(p@.take(rest.len() as int) =~= rest);
                    }
                }
                split_slot(Bucket::Leaf(o), p, common, search, v, Ghost(d))
            } else {
                proof {
                    assert(rest.take(path_len as int) =~= p@);
                }
                extend_slot(o, p, search, v, Ghost(d))
            }
        },
        Bucket::Node(n) => {
            if common_len < path_len {
                split_slot(Bucket::Node(n), p, common, search, v, Ghost(d))
            } else {
                proof {
                    assert(rest.take(path_len as int) =~= p@);
                }
                search.trim_front(common_len);
                let mut n = *n;
                let ghost n0 = n;
                let r = n._insert(search, v, Ghost((d + 1 + path_len) as nat));
                proof {
                    lemma_node_update(n0, n, p@, rest, v);
                }
                (Bucket::Node(Box::new(n)), p, r)
            }
        },
    }
}

/// Stores `v` under `search` in handle `h` whose prefix `p` is not a prefix
/// of `search`: the handle becomes a node behind the common part, holding `h`
/// and the new value.
fn split_slot<'a, V>(
    h: Bucket<V>,
    p: NibbleBuf,
    common: Nibbles<'a>,
    search: &mut Nibbles<'a>,
    v: V,
    Ghost(d): Ghost<nat>,
) -> (res: (Bucket<V>, NibbleBuf, Option<V>))
    requires
        bucket_wf(h, p, d),
        !(h is Empty),
        common@ == old(search)@.take(common@.len() as int),
        common@.len() < p@.len(),
        common@.len() <= old(search)@.len(),
        forall|j: int| 0 <= j < common@.len() ==> #[trigger] p@[j] == common@[j],
        common@.len() < old(search)@.len() ==> old(search)@[common@.len() as int] != p@[common@.len()
            as int],
        d + 1 + old(search)@.len() <= KEY_NIBBLES,
        old(search).raw().len() <= PREFIX_RAW_MAX,
        common.raw() == old(search).raw(),
    ensures
        bucket_wf(res.0, res.1, d),
        forall|r: Seq<u8>|
            #[trigger] slot_lookup(res.0, res.1@, r) == if r == old(search)@ {
                Some(v)
            } else {
                slot_lookup(h, p@, r)
            },
        res.2 is None,
        slot_lookup(h, p@, old(search)@) is None,
        h is Leaf && common@.len() < old(search)@.len() ==> (res.0 matches Bucket::Node(n)
            && n.two_leaf_node()),
        res.1@ == common@,
        res.0 matches Bucket::Node(n) && pair_node(
            *n,
            p@[common@.len() as int] + 1,
            h,
            p@.skip(common@.len() + 1int),
            old(search)@.skip(common@.len() as int),
            v,
        ),
{
    let ghost rest = search@;
    let ghost pv = p@;
    let c = common.len();
    let common_buf = common.into_buf();
    let mut old_path = p;
    old_path.trim_front(c);
    let nib = old_path.pop_nibble();
    proof {
        assert(old_path@ =~= pv.skip(c + 1));
        assert(common@ =~= pv.take(c as int));
        assert(h matches Bucket::Node(n) ==> n.wf(d + 1 + pv.len()));
    }
    let mut nn = RadixNode::empty();
    let ghost e = nn;
    nn.handles.set(nib + 1, h);
    nn.prefixes.set(nib, old_path);
    let ghost nn0 = nn;
    proof {
        assert(e.wf((d + 1 + c) as nat));
        lemma_wf_frame(e, nn0, nib + 1, (d + 1 + c) as nat);
        assert forall|j: int| 0 <= j < 17 && j != pv[c as int] + 1 implies #[trigger] nn0.handles@[j] is Empty by {
            assert(e.handles@[j] is Empty);
        }
        lemma_split_lookup(h, pv, c as int, nn0);
    }
    search.trim_front(c);
    proof {
        if search@.len() > 0 && search@[0] < 16 {
            assert(search@[0] == rest[c as int]);
            assert(nn0.handles@[search@[0] + 1] == e.handles@[search@[0] + 1]);
        }
        assert(nn0.lookup(search@) is None) by {
            if search@.len() > 0 && search@[0] < 16 {
                lemma_lookup_slot(nn0, search@);
            }
        }
        assert(slot_lookup(Bucket::Node(Box::new(nn0)), pv.take(c as int), rest) == nn0.lookup(
            search@,
        )) by {
            assert(rest.take(c as int) =~= pv.take(c as int));
        }
    }
    nn.place(search, v, Ghost((d + 1 + c) as nat));
    proof {
        lemma_node_update(nn0, nn, common@, rest, v);
        if h is Leaf && c < rest.len() {
            let s1 = search@[0] + 1;
            let s2 = nib + 1;
            assert(search@[0] == rest[c as int]);
            assert(s1 != s2);
            assert(nn.handles@ == nn0.handles@.update(s1, Bucket::Leaf(v)));
            lemma_two_leaf_intro(nn, s1, s2);
        }
    }
    (Bucket::Node(Box::new(nn)), common_buf, None)
}

/// Stores `v` under `search` in a pair handle whose prefix `p` is a proper
/// prefix of `search`: the handle becomes a node behind `p`, holding the old
/// value for the end of `p` and the new value.
fn extend_slot<'a, V>(w: V, p: NibbleBuf, search: &mut Nibbles<'a>, v: V, Ghost(d): Ghost<nat>) -> (res: (
    Bucket<V>,
    NibbleBuf,
    Option<V>,
))
    requires
        bucket_wf(Bucket::Leaf(w), p, d),
        prefix_of(p@, old(search)@),
        p@.len() < old(search)@.len(),
        d + 1 + old(search)@.len() <= KEY_NIBBLES,
        old(search).raw().len() <= PREFIX_RAW_MAX,
    ensures
        bucket_wf(res.0, res.1, d),
        forall|r: Seq<u8>|
            #[trigger] slot_lookup(res.0, res.1@, r) == if r == old(search)@ {
                Some(v)
            } else {
                slot_lookup(Bucket::Leaf(w), p@, r)
            },
        res.2 is None,
        slot_lookup(Bucket::Leaf(w), p@, old(search)@) is None,
        res.1@ == p@,
        res.0 matches Bucket::Node(n) && pair_node(
            *n,
            0,
            Bucket::Leaf(w),
            Seq::empty(),
            old(search)@.skip(p@.len() as int),
            v,
        ),
{
    let ghost rest = search@;
    let path_len = p.len();
    let mut nn = RadixNode::empty();
    let ghost e = nn;
    nn.handles.set(0, Bucket::Leaf(w));
    let ghost nn0 = nn;
    proof {
        assert(e.wf((d + 1 + path_len) as nat));
        lemma_wf_frame(e, nn0, 0, (d + 1 + path_len) as nat);
        assert forall|j: int| 1 <= j < 17 implies #[trigger] nn0.handles@[j] is Empty by {
            assert(e.handles@[j] is Empty);
        }
        lemma_extend_lookup(w, p@, nn0);
    }
    search.trim_front(path_len);
    proof {
        if search@.len() > 0 && search@[0] < 16 {
            assert(nn0.handles@[search@[0] + 1] is Empty);
        }
    }
    nn.place(search, v, Ghost((d + 1 + path_len) as nat));
    proof {
        lemma_node_update(nn0, nn, p@, rest, v);
    }
    (Bucket::Node(Box::new(nn)), p, None)
}

impl<V> RadixNode<V> {
    /// The value held directly in handle `i`, if any.
    pub closed spec fn value_at(self, i: int) -> Option<V> {
        match self.handles@[i] {
            Bucket::Leaf(v) => Some(v),
            _ => None,
        }
    }

    /// Handle `i` holds a subtrie that holds, under `after`, what this node
    /// holds under `before`, which is `before.len() - after.len()` nibbles
    /// longer.
    pub closed spec fn descends(self, i: int, before: Seq<u8>, after: Seq<u8>) -> bool {
        &&& 1 <= i < 17
        &&& self.handles@.len() == 17
        &&& self.prefixes@.len() == 16
        &&& self.handles@[i] matches Bucket::Node(n)
        &&& self.lookup(before) == n.lookup(after)
        &&& before.len() == after.len() + 1 + self.prefixes@[i - 1]@.len()
        &&& before.len() > 0
        &&& before[0] + 1 == i
        &&& prefix_of(self.prefixes@[i - 1]@, before.drop_first())
        &&& after == before.drop_first().skip(self.prefixes@[i - 1]@.len() as int)
    }

    /// The nibbles `path` end at handle `i`: handle 0 for no nibbles, else
    /// the handle of the first nibble, with the rest being its prefix.
    pub closed spec fn ends_at(self, i: int, path: Seq<u8>) -> bool {
        ||| i == 0 && path.len() == 0
        ||| 1 <= i < 17 && path.len() > 0 && path[0] + 1 == i && path.drop_first()
            == self.prefixes@[i - 1]@
    }

    /// The node has all its handles.
    pub closed spec fn complete(self) -> bool {
        self.handles@.len() == 17 && self.prefixes@.len() == 16
    }

    /// The node holds exactly two values, each directly in a handle of a
    /// nibble, and nothing else.
    #[verifier::opaque]
    pub closed spec fn two_leaf_node(self) -> bool {
        &&& self.complete()
        &&& exists|i: int, j: int|
            #![trigger self.handles@[i], self.handles@[j]]
            1 <= i < j < 17 && self.handles@[i] is Leaf && self.handles@[j] is Leaf && forall|l: int|
                0 <= l < 17 && l != i && l != j ==> #[trigger] self.handles@[l] is Empty
    }

    /// The handle through which a lookup of `path` goes: handle 0 for no
    /// nibbles, else the handle of the first nibble.
    pub open spec fn handle_of(path: Seq<u8>) -> int {
        if path.len() == 0 {
            0
        } else {
            path[0] + 1
        }
    }

    /// The nibbles `path` end at a value held directly in the handle of
    /// their first nibble: the rest of them is that handle's prefix.
    pub closed spec fn leaf_step(self, path: Seq<u8>) -> bool {
        &&& path.len() > 0
        &&& path[0] < 16
        &&& self.handles@[path[0] + 1] is Leaf
        &&& path.drop_first() == self.prefixes@[path[0] as int]@
    }

    /// The nibbles `path` go on into the subtrie in the handle of their
    /// first nibble: that handle's prefix begins the rest of them.
    pub closed spec fn node_step(self, path: Seq<u8>) -> bool {
        &&& path.len() > 0
        &&& path[0] < 16
        &&& self.handles@[path[0] + 1] is Node
        &&& prefix_of(self.prefixes@[path[0] as int]@, path.drop_first())
    }
}

/// Keys stored `d` nibbles below the root have at most `KEY_NIBBLES - d`
/// more nibbles.
proof fn lemma_lookup_len<V>(n: RadixNode<V>, d: nat, path: Seq<u8>)
    requires
        n.wf(d),
        n.lookup(path) is Some,
    ensures
        d + path.len() <= KEY_NIBBLES,
    decreases n,
{
    if path.len() > 0 && path[0] < 16 {
        let j = path[0] as int;
        lemma_wf_bucket(n, d, j);
        let p = n.prefixes@[j]@;
        let rest = path.drop_first();
        match n.handles@[j + 1] {
            Bucket::Node(c) => {
                lemma_lookup_len(*c, d + 1 + p.len(), rest.skip(p.len() as int));
            },
            _ => {},
        }
    }
}

impl<'a, V> Method<RadixNode<V>> for Nibbles<'a> {
    open spec fn can_select(&self, compound: &RadixNode<V>, offset: usize) -> bool {
        compound.complete()
    }

    /// Takes one step of a lookup: `Leaf(0)` when no nibbles are left,
    /// `Leaf(i)` when handle `i` holds a value and is where the searched
    /// nibbles end, `Path(i)` (dropping the nibbles consumed) when the search
    /// goes on in the subtrie of handle `i`, `Nothing` otherwise.
    fn select(&mut self, compound: &RadixNode<V>, offset: usize) -> (r: SearchResult)
        ensures
            old(self)@.len() == 0 ==> r == SearchResult::Leaf(0),
            old(self)@.len() > 0 ==> (r is Leaf <==> compound.leaf_step(old(self)@)),
            old(self)@.len() > 0 ==> (r is Path <==> compound.node_step(old(self)@)),
            r matches SearchResult::Leaf(i) ==> (i > 0 ==> compound.value_at(i as int) is Some),
            r matches SearchResult::Leaf(i) ==> i < 17 && compound.lookup(old(self)@)
                == compound.value_at(i as int) && compound.ends_at(i as int, old(self)@),
            r matches SearchResult::Path(i) ==> compound.descends(i as int, old(self)@, final(self)@),
            r is Nothing ==> compound.lookup(old(self)@) is None,
    {
        let ghost before = self@;
        if self.len() == 0 {
            return SearchResult::Leaf(0);
        }
        let nibble = self.pop_nibble();
        let i = nibble + 1;
        let ghost rest = self@;
        let prefix = &compound.prefixes[i - 1];
        let common_len = self.common_prefix(prefix).len();
        let search_len = self.len();
        let path_len = prefix.len();
        proof {
            lemma_common_prefix_len(rest, prefix@);
            lemma_lookup_slot(*compound, before);
            assert(before.drop_first() == rest);
        }
        match &compound.handles[i] {
            Bucket::Leaf(_) => {
                if common_len == search_len && common_len == path_len {
                    proof {
                        assert(rest =~= prefix@);
                    }
                    SearchResult::Leaf(i)
                } else {
                    SearchResult::Nothing
                }
            },
            Bucket::Node(_) => {
                if common_len == path_len {
                    proof {
                        assert(rest.take(path_len as int) =~= prefix@);
                    }
                    self.trim_front(common_len);
                    SearchResult::Path(i)
                } else {
                    SearchResult::Nothing
                }
            },
            Bucket::Empty => SearchResult::Nothing,
        }
    }
}

impl<V> Bucket<V> {
    /// A mutable reference to the value in the handle; what is written
    /// through it becomes the handle's value.
    fn leaf_mut(&mut self) -> (r: &mut V)
        requires
            *old(self) is Leaf,
        ensures
            *r == (*old(self))->Leaf_0,
            *final(self) == Bucket::Leaf(*final(r)),
        decreases 0nat,
        no_unwind
    {
        match self {
            Bucket::Leaf(v) => v,
            _ => {
                proof {
                    assert(false);
                }
                self.leaf_mut()
            },
        }
    }

    /// A mutable reference to the subtrie in the handle.
    fn node_mut(&mut self) -> (r: &mut RadixNode<V>)
        requires
            *old(self) is Node,
        ensures
            *r == *(*old(self))->Node_0,
            *final(self) == Bucket::Node(Box::new(*final(r))),
        decreases 0nat,
        no_unwind
    {
        match self {
            Bucket::Node(n) => &mut **n,
            _ => {
                proof {
                    assert(false);
                }
                self.node_mut()
            },
        }
    }
}

/// What handle `h`, behind prefix `p`, holds for the nibbles `rest`, kept
/// folded until the handle's kind is known.
#[verifier::opaque]
spec fn through<V>(h: Bucket<V>, p: Seq<u8>, rest: Seq<u8>) -> Option<V> {
    slot_lookup(h, p, rest)
}

/// A lookup of a non-empty path goes through the handle of its first nibble.
broadcast proof fn lemma_lookup_through<V>(n: RadixNode<V>, q: Seq<u8>)
    requires
        n.complete(),
        q.len() > 0,
    ensures
        #[trigger] n.lookup(q) == if q[0] < 16 {
            through(n.handles@[q[0] + 1], n.prefixes@[q[0] as int]@, q.drop_first())
        } else {
            None
        },
{
    reveal(through);
}

/// A lookup of the empty path reads handle 0.
broadcast proof fn lemma_lookup_here<V>(n: RadixNode<V>, q: Seq<u8>)
    requires
        n.complete(),
        q.len() == 0,
    ensures
        #[trigger] n.lookup(q) == match n.handles@[0] {
            Bucket::Leaf(v) => Some(v),
            _ => None,
        },
{
}

/// Through a value handle.
broadcast proof fn lemma_through_leaf<V>(v: V, p: Seq<u8>, rest: Seq<u8>)
    ensures
        #[trigger] through(Bucket::Leaf(v), p, rest) == if rest == p {
            Some(v)
        } else {
            None
        },
{
    reveal(through);
}

/// Through a subtrie handle.
broadcast proof fn lemma_through_node<V>(m: Box<RadixNode<V>>, p: Seq<u8>, rest: Seq<u8>)
    ensures
        #[trigger] through(Bucket::Node(m), p, rest) == if prefix_of(p, rest) {
            m.lookup(rest.skip(p.len() as int))
        } else {
            None
        },
{
    reveal(through);
}

/// Equal nibbles come from equal bytes.
broadcast proof fn lemma_nibbles_of_injective_auto(a: Seq<u8>, b: Seq<u8>)
    ensures
        #[trigger] nibbles_of(a) == #[trigger] nibbles_of(b) ==> a == b,
{
    if nibbles_of(a) == nibbles_of(b) {
        lemma_nibbles_of_injective(a, b);
    }
}

impl<V> RadixNode<V> {
    /// The handles `idx` lead from this node down to a value: each but the
    /// last holds a subtrie that the nibbles `paths[j]` descend into as
    /// `paths[j + 1]`, and the last holds the value that `paths` ends at.
    pub closed spec fn on_path(self, idx: Seq<usize>, paths: Seq<Seq<u8>>) -> bool
        decreases idx.len(),
    {
        &&& idx.len() >= 1
        &&& paths.len() == idx.len()
        &&& if idx.len() == 1 {
            &&& self.complete()
            &&& idx[0] < 17
            &&& self.handles@[idx[0] as int] is Leaf
            &&& self.ends_at(idx[0] as int, paths[0])
        } else {
            &&& self.descends(idx[0] as int, paths[0], paths[1])
            &&& self.handles@[idx[0] as int]->Node_0.on_path(idx.drop_first(), paths.drop_first())
        }
    }

    /// The handles leading to the value of the nibbles `search` holds, if the
    /// trie holds one, with the nibbles left at each level.
    fn path_to(&self, search: &mut Nibbles, Ghost(d): Ghost<nat>) -> (r: Option<
        (Vec<usize>, Ghost<Seq<Seq<u8>>>),
    >)
        requires
            self.wf(d),
            d + old(search)@.len() <= KEY_NIBBLES,
        ensures
            r is Some <==> self.lookup(old(search)@) is Some,
            r matches Some((idx, paths)) ==> paths@.len() >= 1 && paths@[0] == old(search)@
                && self.on_path(idx@, paths@),
        decreases old(search)@.len(),
    {
        let ghost before = search@;
        match search.select(self, 0) {
            SearchResult::Leaf(i) => {
                match &self.handles[i] {
                    Bucket::Leaf(_) => {
                        let mut idx: Vec<usize> = Vec::new();
                        idx.push(i);
                        let ghost paths = seq![before];
                        proof {
                            assert(self.on_path(idx@, paths));
                        }
                        Some((idx, Ghost(paths)))
                    },
                    _ => None,
                }
            },
            SearchResult::Path(i) => {
                match &self.handles[i] {
                    Bucket::Node(n) => {
                        proof {
                            lemma_wf_bucket(*self, d, i - 1);
                        }
                        let ghost d2 = d + 1 + self.prefixes@[i - 1]@.len();
                        match n.path_to(search, Ghost(d2)) {
                            Some((mut idx, gp)) => {
                                let ghost paths = gp@;
                                let ghost rest = idx@;
                                idx.insert(0, i);
                                let ghost all = seq![before] + paths;
                                proof {
                                    assert(idx@.drop_first() =~= rest);
                                    assert(all.drop_first() =~= paths);
                                    assert(self.on_path(idx@, all));
                                }
                                Some((idx, Ghost(all)))
                            },
                            None => None,
                        }
                    },
                    _ => None,
                }
            },
            SearchResult::Nothing => None,
        }
    }

    /// A mutable reference to the value at the end of the handles
    /// `idx[j..]`. What is written through it becomes the value of the
    /// nibbles `paths[j]`; nothing else changes.
    fn follow_mut(&mut self, idx: &Vec<usize>, j: usize, Ghost(paths): Ghost<Seq<Seq<u8>>>, Ghost(d): Ghost<nat>) -> (r: &mut V)
        requires
            old(self).wf(d),
            j < idx@.len(),
            paths.len() == idx@.len(),
            old(self).on_path(idx@.skip(j as int), paths.skip(j as int)),
        ensures
            final(self).wf(d),
            Some(*r) == old(self).lookup(paths[j as int]),
            forall|q: Seq<u8>| #[trigger]
                final(self).lookup(q) == if q == paths[j as int] {
                    Some(*final(r))
                } else {
                    old(self).lookup(q)
                },
        decreases idx@.len() - j,
        no_unwind
    {
        broadcast use lemma_lookup_through, lemma_lookup_here, lemma_through_leaf, lemma_through_node;

        let i = idx[j];
        let ghost sidx = idx@.skip(j as int);
        let ghost spaths = paths.skip(j as int);
        let ghost path = paths[j as int];
        proof {
            assert(sidx[0] == i);
            assert(spaths[0] == path);
        }
        if j == idx.len() - 1 {
            proof {
                assert(sidx.len() == 1);
                assert forall|q: Seq<u8>|
                    (if i == 0 {
                        q.len() == 0
                    } else {
                        q.len() > 0 && q[0] + 1 == i && q.drop_first() == self.prefixes@[i - 1]@
                    }) <==> q == path by {
                    if i == 0 && q.len() == 0 {
                        assert(q =~= path);
                    }
                    if i != 0 && q.len() > 0 && q[0] + 1 == i && q.drop_first() == self.prefixes@[i - 1]@ {
                        assert(q =~= seq![q[0]] + q.drop_first());
                        assert(path =~= seq![path[0]] + path.drop_first());
                    }
                }
                if i > 0 {
                    lemma_wf_bucket(*self, d, i - 1);
                }
            }
            let h = &mut self.handles[i];
            h.leaf_mut()
        } else {
            let ghost p = self.prefixes@[i - 1]@;
            let ghost next = paths[j + 1];
            proof {
                assert(sidx.drop_first() =~= idx@.skip(j + 1));
                assert(spaths.drop_first() =~= paths.skip(j + 1));
                assert(spaths[1] == next);
                lemma_wf_bucket(*self, d, i - 1);
                assert forall|q: Seq<u8>|
                    (q.len() > 0 && q[0] + 1 == i && prefix_of(p, q.drop_first())
                        && q.drop_first().skip(p.len() as int) == next) <==> q == path by {
                    if q.len() > 0 && q[0] + 1 == i && prefix_of(p, q.drop_first())
                        && q.drop_first().skip(p.len() as int) == next {
                        assert(q.drop_first() =~= p + next);
                        assert(path.drop_first() =~= p + next);
                        assert(q =~= seq![q[0]] + q.drop_first());
                        assert(path =~= seq![path[0]] + path.drop_first());
                    }
                }
            }
            let h = &mut self.handles[i];
            let n = h.node_mut();
            RadixNode::follow_mut(n, idx, j + 1, Ghost(paths), Ghost(d + 1 + p.len()))
        }
    }
}

/// A map from byte-string keys, kept as a radix trie over the nibbles of the
/// keys.
pub struct Radix<V> {
    root: RadixNode<V>,
}

/// The default radix trie map.
pub type DefaultRadixMap<V> = Radix<V>;

impl<V> View for Radix<V> {
    type V = Map<Seq<u8>, V>;

    closed spec fn view(&self) -> Map<Seq<u8>, V> {
        Map::new(
            |k: Seq<u8>| self.root.lookup(nibbles_of(k)) is Some,
            |k: Seq<u8>| self.root.lookup(nibbles_of(k))->0,
        )
    }
}

impl<V> Default for Radix<V> {
    fn default() -> (r: Self)
        ensures
            r@ == Map::<Seq<u8>, V>::empty(),
    {
        Self::new()
    }
}

impl<V> Radix<V> {
    #[verifier::type_invariant]
    closed spec fn inv(self) -> bool {
        self.root.wf(0)
    }

    /// Creates an empty map, whose root has all handles empty and all
    /// prefixes empty.
    pub fn new() -> (r: Self)
        ensures
            r@ == Map::<Seq<u8>, V>::empty(),
            r.handles().len() == 17,
            forall|i: int| 0 <= i < 17 ==> #[trigger] r.handles()[i] is Empty,
            forall|j: int| 0 <= j < 16 ==> #[trigger] r.prefix(j).len() == 0,
    {
        let root = RadixNode::empty();
        assert(root.wf(0));
        let r = Radix { root };
        assert(r@ =~= Map::<Seq<u8>, V>::empty());
        r
    }

    /// Inserts `k -> v`, returning the value it replaces, if any.
    ///
    /// Only the root handle of `k`'s first nibble (handle 0 for the empty key)
    /// and its prefix change. An empty handle takes the value, behind the rest
    /// of `k`'s nibbles; a handle holding another value, where neither key's
    /// remaining nibbles begin the other's, becomes a node holding both
    /// values, each directly in a handle. At every level below, the layout
    /// changes as `inserted` says.
    pub fn insert(&mut self, k: &[u8], v: V) -> (r: Option<V>)
        requires
            k@.len() <= MAX_KEY_LEN,
        ensures
            final(self)@ == old(self)@.insert(k@, v),
            r == old(self)@.get(k@),
            final(self).handles().len() == 17,
            inserted(old(self).root_node(), final(self).root_node(), nibbles_of(k@), v),
            ({
                let h = RadixNode::<V>::handle_of(nibbles_of(k@));
                let rest = nibbles_of(k@).drop_first();
                &&& forall|j: int|
                    0 <= j < 17 && j != h ==> #[trigger] final(self).handles()[j] == old(self).handles()[j]
                &&& forall|j: int| 0 <= j < 16 && j + 1 != h ==> #[trigger] final(self).prefix(j) == old(self).prefix(j)
                &&& old(self).handles()[h] is Empty ==> final(self).handles()[h] == Bucket::Leaf(v) && (h > 0
                    ==> final(self).prefix(h - 1) == rest)
                &&& h > 0 && old(self).handles()[h] is Leaf && !prefix_of(old(self).prefix(h - 1), rest)
                    && !prefix_of(rest, old(self).prefix(h - 1)) ==> (final(self).handles()[h] matches Bucket::Node(n)
                    && n.two_leaf_node())
            }),
    {
        proof {
            use_type_invariant(&*self);
        }
        let mut search = Nibbles::new(k);
        let mut root = RadixNode::empty();
        std::mem::swap(&mut root, &mut self.root);
        let ghost a = root;
        let r = root._insert(&mut search, v, Ghost(0));
        self.root = root;
        proof {
            assert forall|x: Seq<u8>| #[trigger] self.root.lookup(nibbles_of(x)) == if x == k@ {
                Some(v)
            } else {
                a.lookup(nibbles_of(x))
            } by {
                if nibbles_of(x) == nibbles_of(k@) {
                    lemma_nibbles_of_injective(x, k@);
                }
            }
            assert(self@ =~= old(self)@.insert(k@, v));
        }
        r
    }

    /// A mutable reference to the value under `k`, if any. What is written
    /// through it becomes the value of `k`; the other keys keep theirs.
    pub fn get_mut(&mut self, k: &[u8]) -> (r: Option<&mut V>)
        ensures
            r is Some <==> old(self)@.contains_key(k@),
            r matches Some(v) ==> *v == old(self)@[k@],
            final(self)@ == if r is Some {
                old(self)@.insert(k@, *final(r->0))
            } else {
                old(self)@
            },
    {
        broadcast use lemma_nibbles_of_injective_auto;

        proof {
            use_type_invariant(&*self);
        }
        if k.len() > MAX_KEY_LEN {
            proof {
                if self.root.lookup(nibbles_of(k@)) is Some {
                    lemma_lookup_len(self.root, 0, nibbles_of(k@));
                }
            }
            return None;
        }
        let mut search = Nibbles::new(k);
        match self.root.path_to(&mut search, Ghost(0)) {
            Some((idx, gp)) => {
                let ghost paths = gp@;
                proof {
                    assert(idx@.skip(0) =~= idx@);
                    assert(paths.skip(0) =~= paths);
                }
                Some(self.root.follow_mut(&idx, 0, Ghost(paths), Ghost(0)))
            },
            None => None,
        }
    }

    /// The value under `k`, if any.
    pub fn get(&self, k: &[u8]) -> (r: Option<&V>)
        ensures
            r is Some <==> self@.contains_key(k@),
            r matches Some(v) ==> *v == self@[k@],
    {
        proof {
            use_type_invariant(self);
        }
        if k.len() > MAX_KEY_LEN {
            proof {
                if self.root.lookup(nibbles_of(k@)) is Some {
                    lemma_lookup_len(self.root, 0, nibbles_of(k@));
                }
            }
            return None;
        }
        let ghost key = nibbles_of(k@);
        let mut search = Nibbles::new(k);
        let mut node: &RadixNode<V> = &self.root;
        let ghost mut dd: nat = 0;
        loop
            invariant
                node.wf(dd),
                dd + search@.len() <= KEY_NIBBLES,
                node.lookup(search@) == self.root.lookup(key),
                key == nibbles_of(k@),
            decreases search@.len(),
        {
            let ghost before = search@;
            match search.select(node, 0) {
                SearchResult::Leaf(i) => {
                    return match &node.handles[i] {
                        Bucket::Leaf(v) => Some(v),
                        _ => None,
                    };
                },
                SearchResult::Path(i) => {
                    match &node.handles[i] {
                        Bucket::Node(n) => {
                            proof {
                                lemma_wf_bucket(*node, dd, i - 1);
                                dd = dd + 1 + node.prefixes@[i - 1]@.len();
                            }
                            node = &**n;
                        },
                        _ => {
                            return None;
                        },
                    }
                },
                SearchResult::Nothing => {
                    return None;
                },
            }
        }
    }
}

/// What removing a key from a subtrie did.
pub enum Removed<V> {
    /// The key was not there.
    Nothing,
    /// The value was removed.
    Leaf(V),
    /// The value (first) was removed, and the node was left with a single
    /// value (second), stored at handle `idx` (fourth) behind the prefix
    /// (third); the node has been emptied so that the parent can store that
    /// value in its own handle.
    Collapse(V, V, NibbleBuf, usize),
}

/// What removing a key from one handle did.
enum SlotRemoved<V> {
    /// The key was not there.
    Nothing,
    /// The handle held the value itself, and is now empty.
    Here(V),
    /// The value was removed below the handle.
    Below(V),
}

/// A complete node whose only non-empty handles are two value handles of
/// nibbles holds exactly two values.
proof fn lemma_two_leaf_intro<V>(a: RadixNode<V>, x: int, y: int)
    requires
        a.complete(),
        1 <= x < 17,
        1 <= y < 17,
        x != y,
        a.handles@[x] is Leaf,
        a.handles@[y] is Leaf,
        forall|l: int| 0 <= l < 17 && l != x && l != y ==> #[trigger] a.handles@[l] is Empty,
    ensures
        a.two_leaf_node(),
{
    reveal(RadixNode::two_leaf_node);
    if x < y {
        assert(a.handles@[x] is Leaf && a.handles@[y] is Leaf);
    } else {
        assert(a.handles@[y] is Leaf && a.handles@[x] is Leaf);
    }
}

/// A two-value node has all its handles, none of them a subtrie, and no
/// value for a key ending at it.
proof fn lemma_two_leaf_shape<V>(a: RadixNode<V>)
    requires
        a.two_leaf_node(),
    ensures
        a.complete(),
        a.handles@[0] is Empty,
        forall|i: int| 0 <= i < 17 ==> !(#[trigger] a.handles@[i] is Node),
{
    reveal(RadixNode::two_leaf_node);
    let (x, y) = choose|x: int, y: int|
        #![trigger a.handles@[x], a.handles@[y]]
        1 <= x < y < 17 && a.handles@[x] is Leaf && a.handles@[y] is Leaf && forall|l: int|
            0 <= l < 17 && l != x && l != y ==> #[trigger] a.handles@[l] is Empty;
    assert(a.handles@[0] is Empty);
    assert forall|i: int| 0 <= i < 17 implies !(#[trigger] a.handles@[i] is Node) by {
        if i != x && i != y {
            assert(a.handles@[i] is Empty);
        }
    }
}

/// Emptying one of the two value handles of a two-value node leaves a node
/// with a single value, held directly in a handle.
proof fn lemma_two_leaf_singleton<V>(a: RadixNode<V>, b: RadixNode<V>, i: int)
    requires
        a.two_leaf_node(),
        1 <= i < 17,
        a.handles@[i] is Leaf,
        b.handles@ == a.handles@.update(i, Bucket::Empty),
    ensures
        exists|l: int| b.only_value_at(l),
{
    reveal(RadixNode::two_leaf_node);
    let (x, y) = choose|x: int, y: int|
        #![trigger a.handles@[x], a.handles@[y]]
        1 <= x < y < 17 && a.handles@[x] is Leaf && a.handles@[y] is Leaf && forall|l: int|
            0 <= l < 17 && l != x && l != y ==> #[trigger] a.handles@[l] is Empty;
    let o = if i == x { y } else { x };
    if i != x && i != y {
        assert(a.handles@[i] is Empty);
    }
    assert forall|l: int| 0 <= l < b.handles@.len() && l != o implies #[trigger] b.handles@[l] is Empty by {
        if l != i {
            assert(a.handles@[l] is Empty);
        }
    }
    assert(b.only_value_at(o));
}

/// Emptying the handle of `path` in a node with `two_with(a, path)` leaves
/// a node holding a single value, directly in a handle.
proof fn lemma_two_with_singleton<V>(a: RadixNode<V>, b: RadixNode<V>, path: Seq<u8>)
    requires
        two_with(a, path),
        b.handles@ == a.handles@.update(path[0] + 1, Bucket::Empty),
    ensures
        exists|l: int| b.only_value_at(l),
{
    let i = choose|i: int|
        #![trigger a.handles@[i]]
        0 <= i < 17 && i != path[0] + 1 && a.handles@[i] is Leaf && forall|j: int|
            0 <= j < 17 && j != i && j != path[0] + 1 ==> #[trigger] a.handles@[j] is Empty;
    assert forall|j: int| 0 <= j < b.handles@.len() && j != i implies #[trigger] b.handles@[j] is Empty by {
        if j != path[0] + 1 {
            assert(a.handles@[j] is Empty);
        }
    }
    assert(b.only_value_at(i));
}

/// A node left with a single value, directly in handle `t`, after emptying
/// the handle of `path`, which held the value under `path`, held exactly
/// those two values, and `t` is the other one's handle.
proof fn lemma_singleton_two_with<V>(a: RadixNode<V>, b: RadixNode<V>, path: Seq<u8>, t: int)
    requires
        a.complete(),
        path.len() > 0,
        path[0] < 16,
        a.handles@[path[0] + 1] is Leaf,
        a.prefixes@[path[0] as int]@ == path.drop_first(),
        b.handles@ == a.handles@.update(path[0] + 1, Bucket::Empty),
        b.only_value_at(t),
    ensures
        two_with(a, path),
        lone_other(a, path) == t,
        a.handles@[t] == b.handles@[t],
{
    let h = path[0] + 1;
    assert(t != h);
    assert(a.handles@[t] == b.handles@[t]);
    assert forall|j: int| 0 <= j < 17 && j != t && j != h implies #[trigger] a.handles@[j] is Empty by {
        assert(b.handles@[j] is Empty);
    }
    assert(a.handles@[t] is Leaf);
    let o = lone_other(a, path);
    assert(0 <= o < 17 && o != h && a.handles@[o] is Leaf);
    if o != t {
        assert(a.handles@[o] is Empty);
    }
}

impl<V> RadixNode<V> {
    /// Handle `i` holds a value directly, and every other handle is empty.
    spec fn only_value_at(self, i: int) -> bool {
        &&& 0 <= i < self.handles@.len()
        &&& self.handles@[i] is Leaf
        &&& forall|j: int| 0 <= j < self.handles@.len() && j != i ==> #[trigger] self.handles@[j] is Empty
    }

    /// When the node holds nothing but one value directly in a handle, takes
    /// that value out with the handle's prefix and index, leaving the node
    /// empty.
    fn remove_singleton(&mut self, Ghost(d): Ghost<nat>) -> (r: Option<(V, NibbleBuf, usize)>)
        requires
            old(self).wf(d),
        ensures
            final(self).wf(d),
            r is Some <==> exists|i: int| old(self).only_value_at(i),
            r is None ==> *final(self) == *old(self),
            r matches Some(t) ==> {
                &&& old(self).only_value_at(t.2 as int)
                &&& t.2 < 17
                &&& old(self).handles@[t.2 as int] == Bucket::Leaf(t.0)
                &&& final(self).is_empty()
                &&& (t.2 == 0 ==> t.1@.len() == 0 && final(self).prefixes@ == old(self).prefixes@)
                &&& (t.2 > 0 ==> {
                    &&& t.1 == old(self).prefixes@[t.2 - 1]
                    &&& final(self).prefixes@ == old(self).prefixes@.update(
                        t.2 - 1,
                        final(self).prefixes@[t.2 - 1],
                    )
                    &&& final(self).prefixes@[t.2 - 1]@.len() == 0
                    &&& final(self).prefixes@[t.2 - 1].raw().len() == 0
                })
                &&& t.1.raw().len() <= PREFIX_RAW_MAX
                &&& d + handle_path(t.2 as int, t.1@).len() <= KEY_NIBBLES
                &&& forall|q: Seq<u8>|
                    #[trigger] old(self).lookup(q) == if q == handle_path(t.2 as int, t.1@) {
                        Some(t.0)
                    } else {
                        None
                    }
                &&& forall|q: Seq<u8>| #[trigger] final(self).lookup(q) is None
            },
    {
        let ghost a = *self;
        let mut singleton: Option<usize> = None;
        let mut i: usize = 0;
        while i < N_BUCKETS
            invariant
                i <= N_BUCKETS,
                *self == a,
                a.wf(d),
                singleton is None ==> forall|j: int| 0 <= j < i ==> #[trigger] a.handles@[j] is Empty,
                singleton matches Some(s) ==> {
                    &&& s < i
                    &&& a.handles@[s as int] is Leaf
                    &&& forall|j: int| 0 <= j < i && j != s ==> #[trigger] a.handles@[j] is Empty
                },
            decreases N_BUCKETS - i,
        {
            match &self.handles[i] {
                Bucket::Empty => {},
                Bucket::Leaf(_) => {
                    if singleton.is_some() {
                        proof {
                            assert forall|j: int| !a.only_value_at(j) by {
                                if a.only_value_at(j) {
                                    let s0 = singleton->0 as int;
                                    if j == s0 {
                                        assert(a.handles@[i as int] is Empty);
                                    } else {
                                        assert(a.handles@[s0] is Empty);
                                    }
                                }
                            }
                        }
                        return None;
                    }
                    singleton = Some(i);
                },
                Bucket::Node(_) => {
                    proof {
                        assert forall|j: int| !a.only_value_at(j) by {
                            if a.only_value_at(j) {
                                assert(a.handles@[i as int] is Empty);
                            }
                        }
                    }
                    return None;
                },
            }
            i = i + 1;
        }
        proof {
            if singleton is None {
                assert forall|j: int| !a.only_value_at(j) by {
                    if a.only_value_at(j) {
                        assert(a.handles@[j] is Empty);
                    }
                }
            } else {
                assert(a.only_value_at(singleton->0 as int));
            }
        }
        match singleton {
            Some(idx) => {
                let taken = take_slot(&mut self.handles, idx, Bucket::Empty);
                let nb = if idx > 0 {
                    take_slot(&mut self.prefixes, idx - 1, NibbleBuf::default())
                } else {
                    NibbleBuf::default()
                };
                let l = match taken {
                    Bucket::Leaf(l) => l,
                    _ => {
                        proof {
                            assert(false);
                        }
                        return None;
                    },
                };
                proof {
                    let hp = handle_path(idx as int, nb@);
                    if idx > 0 {
                        lemma_wf_bucket(a, d, idx - 1);
                    }
                    assert forall|q: Seq<u8>| #[trigger] a.lookup(q) == if q == hp {
                        Some(l)
                    } else {
                        None
                    } by {
                        if q.len() == 0 {
                            if idx > 0 {
                                assert(a.handles@[0] is Empty);
                                assert(hp.len() > 0);
                            } else {
                                assert(q =~= hp);
                            }
                        } else if q[0] < 16 {
                            lemma_lookup_slot(a, q);
                            if q[0] + 1 == idx {
                                if q.drop_first() == nb@ {
                                    assert(q =~= hp);
                                }
                                if q == hp {
                                    assert(q.drop_first() =~= nb@);
                                }
                            } else {
                                assert(a.handles@[q[0] + 1] is Empty);
                                if q == hp {
                                    assert(q[0] == hp[0]);
                                }
                            }
                        } else {
                            if q == hp {
                                assert(q[0] == hp[0]);
                            }
                        }
                    }
                    assert forall|j: int| 0 <= j < 17 implies #[trigger] self.handles@[j] is Empty by {
                        if j != idx {
                            assert(a.handles@[j] is Empty);
                        }
                    }
                    assert forall|q: Seq<u8>| #[trigger] self.lookup(q) is None by {
                        if q.len() > 0 && q[0] < 16 {
                            assert(self.handles@[q[0] + 1] is Empty);
                        }
                    }
                    assert forall|j: int| 0 <= j < 16 implies {
                        &&& (#[trigger] self.prefixes@[j]).raw().len() <= PREFIX_RAW_MAX
                        &&& match self.handles@[j + 1] {
                            Bucket::Empty => true,
                            Bucket::Leaf(_) => d + 1 + self.prefixes@[j]@.len() <= KEY_NIBBLES,
                            Bucket::Node(n) => n.wf(d + 1 + self.prefixes@[j]@.len()),
                        }
                    } by {
                        assert(self.handles@[j + 1] is Empty);
                        if j != idx - 1 {
                            assert(self.prefixes@[j] == a.prefixes@[j]);
                        }
                    }
                }
                Some((l, nb, idx))
            },
            None => None,
        }
    }

    /// Removes the value under `search` from the trie rooted here, which
    /// lies `depth` levels below the root. Below the root, a node left with
    /// a single value directly in a handle is emptied and reported for
    /// collapsing into its parent.
    #[verifier::rlimit(40)]
    fn _remove(&mut self, search: &mut Nibbles, depth: usize, Ghost(d): Ghost<nat>) -> (r: Removed<V>)
        requires
            old(self).wf(d),
            d + old(search)@.len() <= KEY_NIBBLES,
            depth <= d,
        ensures
            final(self).wf(d),
            r is Nothing ==> old(self).lookup(old(search)@) is None && forall|q: Seq<u8>|
                #[trigger] final(self).lookup(q) == old(self).lookup(q),
            r matches Removed::Leaf(x) ==> old(self).lookup(old(search)@) == Some(x) && forall|
                q: Seq<u8>,
            |
                #[trigger] final(self).lookup(q) == if q == old(search)@ {
                    None
                } else {
                    old(self).lookup(q)
                },
            r matches Removed::Collapse(x, l, nb, idx) ==> {
                &&& depth > 0
                &&& old(self).lookup(old(search)@) == Some(x)
                &&& idx < 17
                &&& (idx == 0 ==> nb@.len() == 0)
                &&& nb.raw().len() <= PREFIX_RAW_MAX
                &&& d + handle_path(idx as int, nb@).len() <= KEY_NIBBLES
                &&& handle_path(idx as int, nb@) != old(search)@
                &&& forall|q: Seq<u8>|
                    #[trigger] old(self).lookup(q) == if q == old(search)@ {
                        Some(x)
                    } else if q == handle_path(idx as int, nb@) {
                        Some(l)
                    } else {
                        None
                    }
                &&& forall|q: Seq<u8>| #[trigger] final(self).lookup(q) is None
            },
            depth == 0 ==> forall|j: int|
                0 <= j < 17 && j != Self::handle_of(old(search)@) ==> #[trigger] final(self).handles@[j]
                    == old(self).handles@[j],
            depth == 0 ==> forall|j: int|
                0 <= j < 16 && j + 1 != Self::handle_of(old(search)@) ==> #[trigger] final(self).prefixes@[j]
                    == old(self).prefixes@[j],
            depth == 0 && !(r is Nothing) && old(self).handles@[Self::handle_of(old(search)@)] is Leaf
                ==> final(self).handles@[Self::handle_of(old(search)@)] is Empty,
            depth == 0 && !(r is Nothing) ==> (old(self).handles@[Self::handle_of(old(search)@)] matches Bucket::Node(
                n,
            ) && n.two_leaf_node() ==> final(self).handles@[Self::handle_of(old(search)@)] is Leaf),
            depth > 0 && !(r is Nothing) && old(self).two_leaf_node() ==> r is Collapse,
            r is Nothing ==> same_layout(*old(self), *final(self)),
            r is Leaf ==> removed(*old(self), *final(self), old(search)@),
            r is Leaf && depth > 0 ==> !two_with(*old(self), old(search)@),
            r matches Removed::Collapse(x, l, nb, idx) ==> {
                &&& two_with(*old(self), old(search)@)
                &&& idx == lone_other(*old(self), old(search)@)
                &&& old(self).handles@[idx as int] == Bucket::Leaf(l)
                &&& idx > 0 ==> nb@ == old(self).prefixes@[idx - 1]@
            },
        decreases old(search)@.len(), 1nat,
    {
        let ghost a = *self;
        let ghost path = search@;
        proof {
            if a.two_leaf_node() {
                lemma_two_leaf_shape(a);
            }
        }
        if search.len() == 0 {
            let is_leaf = match &self.handles[0] {
                Bucket::Leaf(_) => true,
                _ => false,
            };
            if !is_leaf {
                proof {
                    lemma_same_layout_refl(a);
                }
                return Removed::Nothing;
            }
            let taken = take_slot(&mut self.handles, 0, Bucket::Empty);
            proof {
                lemma_frame(a, *self, 0);
                lemma_wf_frame(a, *self, 0, d);
                assert forall|q: Seq<u8>| #[trigger] self.lookup(q) == if q == path {
                    None
                } else {
                    a.lookup(q)
                } by {
                    if q.len() == 0 {
                        assert(q =~= path);
                    }
                }
            }
            return match taken {
                Bucket::Leaf(x) => Removed::Leaf(x),
                _ => Removed::Nothing,
            };
        }
        let nib = search.pop_nibble();
        let ghost rest = search@;
        proof {
            lemma_wf_bucket(a, d, nib as int);
            lemma_lookup_slot(a, path);
        }
        let h = take_slot(&mut self.handles, nib + 1, Bucket::Empty);
        let p = take_slot(&mut self.prefixes, nib, NibbleBuf::default());
        let (h2, p2, res) = remove_from_slot(h, p, search, depth, Ghost(d));
        self.handles.set(nib + 1, h2);
        self.prefixes.set(nib, p2);
        proof {
            lemma_frame(a, *self, nib + 1);
            lemma_wf_frame(a, *self, nib + 1, d);
            assert forall|q: Seq<u8>|
                #[trigger] self.lookup(q) == if q == path && !(res is Nothing) {
                    None
                } else {
                    a.lookup(q)
                } by {
                if q.len() > 0 && q[0] + 1 == nib + 1 {
                    lemma_lookup_slot(a, q);
                    lemma_lookup_slot(*self, q);
                    if q.drop_first() == rest {
                        assert forall|k: int| 0 <= k < q.len() implies q[k] == path[k] by {
                            if k > 0 {
                                assert(q[k] == q.drop_first()[k - 1]);
                                assert(path[k] == path.drop_first()[k - 1]);
                            }
                        }
                        assert(q =~= path);
                    }
                    if q == path {
                        assert(q.drop_first() =~= rest);
                    }
                }
            }
        }
        match res {
            SlotRemoved::Nothing => {
                proof {
                    assert(self.handles@ =~= a.handles@.update(nib + 1, self.handles@[nib + 1]));
                    assert forall|j: int| 0 <= j < a.prefixes@.len() implies (#[trigger] a.prefixes@[j])@
                        == self.prefixes@[j]@ by {
                        if j != nib {
                            assert(self.prefixes@[j] == a.prefixes@[j]);
                        }
                    }
                    lemma_same_layout_update(a, *self, nib + 1);
                }
                Removed::Nothing
            },
            SlotRemoved::Below(x) => Removed::Leaf(x),
            SlotRemoved::Here(x) => {
                if depth > 0 {
                    let ghost b = *self;
                    proof {
                        assert(b.handles@ =~= a.handles@.update(nib + 1, Bucket::Empty));
                        if a.two_leaf_node() {
                            lemma_two_leaf_singleton(a, b, nib + 1);
                        }
                        if two_with(a, path) {
                            lemma_two_with_singleton(a, b, path);
                        }
                    }
                    match self.remove_singleton(Ghost(d)) {
                        Some((l, nb, idx)) => {
                            proof {
                                assert(rest == a.prefixes@[nib as int]@);
                                assert(path.drop_first() == rest);
                                lemma_singleton_two_with(a, b, path, idx as int);
                                let hp = handle_path(idx as int, nb@);
                                assert(b.lookup(hp) == Some(l));
                                if hp == path {
                                    assert(b.lookup(path) is None);
                                }
                                assert forall|q: Seq<u8>|
                                    #[trigger] a.lookup(q) == if q == path {
                                        Some(x)
                                    } else if q == hp {
                                        Some(l)
                                    } else {
                                        None
                                    } by {
                                    assert(b.lookup(q) == if q == path {
                                        None
                                    } else {
                                        a.lookup(q)
                                    });
                                }
                            }
                            Removed::Collapse(x, l, nb, idx)
                        },
                        None => Removed::Leaf(x),
                    }
                } else {
                    Removed::Leaf(x)
                }
            },
        }
    }
}

/// Removes the value under `search` from handle `h` behind prefix `p`,
/// returning the new handle and prefix. A subtrie below the handle that was
/// left with a single value is replaced by a handle with that value, behind
/// the joined prefixes.
#[verifier::rlimit(40)]
fn remove_from_slot<'a, V>(
    h: Bucket<V>,
    p: NibbleBuf,
    search: &mut Nibbles<'a>,
    depth: usize,
    Ghost(d): Ghost<nat>,
) -> (res: (Bucket<V>, NibbleBuf, SlotRemoved<V>))
    requires
        bucket_wf(h, p, d),
        d + 1 + old(search)@.len() <= KEY_NIBBLES,
        depth <= d,
    ensures
        bucket_wf(res.0, res.1, d),
        res.2 is Nothing ==> slot_lookup(h, p@, old(search)@) is None && forall|r: Seq<u8>|
            #[trigger] slot_lookup(res.0, res.1@, r) == slot_lookup(h, p@, r),
        res.2 matches SlotRemoved::Here(x) ==> slot_lookup(h, p@, old(search)@) == Some(x),
        res.2 matches SlotRemoved::Below(x) ==> slot_lookup(h, p@, old(search)@) == Some(x),
        !(res.2 is Nothing) ==> forall|r: Seq<u8>|
            #[trigger] slot_lookup(res.0, res.1@, r) == if r == old(search)@ {
                None
            } else {
                slot_lookup(h, p@, r)
            },
        res.2 is Nothing ==> same_bucket(h, res.0) && res.1@ == p@,
        !(res.2 is Nothing) ==> slot_removed(h, p@, res.0, res.1@, old(search)@),
        res.2 is Here ==> res.0 is Empty && h is Leaf,
        h is Leaf && !(res.2 is Nothing) ==> res.2 is Here,
        h matches Bucket::Node(n) && n.two_leaf_node() && !(res.2 is Nothing) ==> res.0 is Leaf,
    decreases old(search)@.len() + 1, 0nat,
{
    let ghost rest = search@;
    let path_len = p.len();
    let common_len = search.common_prefix(&p).len();
    proof {
        lemma_common_prefix_len(rest, p@);
    }
    match h {
        Bucket::Empty => (Bucket::Empty, p, SlotRemoved::Nothing),
        Bucket::Leaf(x) => {
            if common_len == search.len() && common_len == path_len {
                proof {
                    assert(rest =~= p@);
                }
                (Bucket::Empty, NibbleBuf::default(), SlotRemoved::Here(x))
            } else {
                proof {
                    if rest == p@ {
                        assert(false);
                    }
                }
                (Bucket::Leaf(x), p, SlotRemoved::Nothing)
            }
        },
        Bucket::Node(n) => {
            if common_len < path_len {
                proof {
                    if prefix_of(p@, rest) {
                        assert(rest.take(path_len as int)[common_len as int] == rest[common_len as int]);
                        assert(false);
                    }
                }
                proof {
                    lemma_same_layout_refl(*n);
                }
                (Bucket::Node(n), p, SlotRemoved::Nothing)
            } else {
                proof {
                    assert(rest.take(path_len as int) =~= p@);
                }
                search.trim_front(common_len);
                let mut n = *n;
                let ghost n0 = n;
                let ghost sub = search@;
                let res = n._remove(search, depth + 1, Ghost((d + 1 + path_len) as nat));
                match res {
                    Removed::Nothing => (Bucket::Node(Box::new(n)), p, SlotRemoved::Nothing),
                    Removed::Leaf(x) => {
                        proof {
                            assert forall|r: Seq<u8>|
                                #[trigger] slot_lookup(Bucket::Node(Box::new(n)), p@, r) == if r
                                    == rest {
                                    None
                                } else {
                                    slot_lookup(Bucket::Node(Box::new(n0)), p@, r)
                                } by {
                                if prefix_of(p@, r) && r.skip(path_len as int) == sub {
                                    assert(r =~= r.take(path_len as int) + r.skip(path_len as int));
                                    assert(rest =~= rest.take(path_len as int) + sub);
                                }
                            }
                        }
                        (Bucket::Node(Box::new(n)), p, SlotRemoved::Below(x))
                    },
                    Removed::Collapse(x, l, nb, idx) => {
                        let mut np = NibbleBuf::default();
                        np.append(&p);
                        if idx > 0 {
                            np.push(idx - 1);
                        }
                        np.append(&nb);
                        proof {
                            let hp = handle_path(idx as int, nb@);
                            assert(np@ =~= p@ + hp);
                            assert forall|r: Seq<u8>|
                                #[trigger] slot_lookup(Bucket::Leaf(l), np@, r) == if r == rest {
                                    None
                                } else {
                                    slot_lookup(Bucket::Node(Box::new(n0)), p@, r)
                                } by {
                                if r == np@ {
                                    assert(r.take(path_len as int) =~= p@);
                                    assert(r.skip(path_len as int) =~= hp);
                                    if r == rest {
                                        assert(false);
                                    }
                                }
                                if prefix_of(p@, r) {
                                    let x2 = r.skip(path_len as int);
                                    assert(r =~= r.take(path_len as int) + x2);
                                    if x2 == hp {
                                        assert(r =~= np@);
                                    }
                                    if x2 == sub {
                                        assert(rest =~= rest.take(path_len as int) + sub);
                                    }
                                }
                            }
                        }
                        (Bucket::Leaf(l), np, SlotRemoved::Below(x))
                    },
                }
            }
        },
    }
}

impl<V> Radix<V> {
    /// The root node.
    pub closed spec fn root_node(self) -> RadixNode<V> {
        self.root
    }

    /// The handles of the root node.
    pub closed spec fn handles(self) -> Seq<Bucket<V>> {
        self.root.handles@
    }

    /// The nibbles that follow the branching nibble for the keys in root
    /// handle `j + 1`.
    pub closed spec fn prefix(self, j: int) -> Seq<u8> {
        self.root.prefixes@[j]@
    }

    /// The handles of the root node: handle 0 holds the value of the empty
    /// key, handle `n + 1` the keys whose first nibble is `n`. When all of
    /// them are empty, so is the map.
    pub fn children(&self) -> (r: &[Bucket<V>])
        ensures
            r@ == self.handles(),
            r@.len() == 17,
            !(r@[0] is Node),
            (r@[0] is Leaf) == self@.contains_key(Seq::empty()),
            (forall|i: int| 0 <= i < r@.len() ==> #[trigger] r@[i] is Empty) ==> self@ == Map::<
                Seq<u8>,
                V,
            >::empty(),
    {
        proof {
            use_type_invariant(self);
            assert(nibbles_of(Seq::<u8>::empty()) =~= Seq::<u8>::empty());
            if forall|i: int| 0 <= i < 17 ==> #[trigger] self.root.handles@[i] is Empty {
                assert forall|q: Seq<u8>| #[trigger] self.root.lookup(q) is None by {
                    if q.len() > 0 && q[0] < 16 {
                        assert(self.root.handles@[q[0] + 1] is Empty);
                    }
                    assert(self.root.handles@[0] is Empty);
                }
                assert(self@ =~= Map::<Seq<u8>, V>::empty());
            }
        }
        self.root.handles.as_slice()
    }

    /// Removes `k`, returning its value, if any.
    ///
    /// Only the root handle of `k`'s first nibble (handle 0 for the empty key)
    /// changes. When `k` was held directly in it, it is emptied; when it held
    /// a node with just `k` and one other value, each directly in a handle,
    /// that node is collapsed and the handle holds the other value. At every
    /// level below, the layout changes as `removed` says; when `k` is absent,
    /// the layout stays as it was.
    pub fn remove(&mut self, k: &[u8]) -> (r: Option<V>)
        requires
            k@.len() <= MAX_KEY_LEN,
        ensures
            final(self)@ == old(self)@.remove(k@),
            r == old(self)@.get(k@),
            r is Some ==> removed(old(self).root_node(), final(self).root_node(), nibbles_of(k@)),
            r is None ==> same_layout(old(self).root_node(), final(self).root_node()),
            ({
                let h = RadixNode::<V>::handle_of(nibbles_of(k@));
                &&& forall|j: int|
                    0 <= j < 17 && j != h ==> #[trigger] final(self).handles()[j] == old(self).handles()[j]
                &&& forall|j: int| 0 <= j < 16 && j + 1 != h ==> #[trigger] final(self).prefix(j) == old(self).prefix(j)
                &&& r is Some && old(self).handles()[h] is Leaf ==> final(self).handles()[h] is Empty
                &&& r is Some ==> (old(self).handles()[h] matches Bucket::Node(n) && n.two_leaf_node()
                    ==> final(self).handles()[h] is Leaf)
            }),
    {
        proof {
            use_type_invariant(&*self);
        }
        let mut search = Nibbles::new(k);
        let mut root = RadixNode::empty();
        std::mem::swap(&mut root, &mut self.root);
        let ghost a = root;
        let res = root._remove(&mut search, 0, Ghost(0));
        self.root = root;
        proof {
            assert forall|x: Seq<u8>| #[trigger] self.root.lookup(nibbles_of(x)) == if x == k@ && !(
            res is Nothing) {
                None
            } else {
                a.lookup(nibbles_of(x))
            } by {
                if nibbles_of(x) == nibbles_of(k@) {
                    lemma_nibbles_of_injective(x, k@);
                }
            }
            assert(self@ =~= old(self)@.remove(k@));
        }
        match res {
            Removed::Leaf(x) => Some(x),
            _ => None,
        }
    }
}

} // verus!
