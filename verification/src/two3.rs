//! 2-3 trees: ordered maps from `u64` keys, whose leaves all lie on the same
//! level and whose inner nodes hold two or three children, each annotated
//! with the maximum key and the number of leaves below it.
use vstd::prelude::*;

use crate::annotations::{Annotation, Associative, Cardinality, ErasedAnnotation, KeyCount, MaxKey};
use crate::handle::HandleType;
use crate::hamt::take_slot;
use crate::map::KV;
use crate::search::{Method, SearchResult};

verus! {

/// Minimum number of children of an inner node.
pub const N: usize = 2;

/// Maximum number of children of a node.
pub const M: usize = 3;

/// A slot of a 2-3 tree node.
pub enum Handle<V> {
    /// Nothing stored.
    Empty,
    /// A key-value pair.
    Leaf(KV<u64, V>),
    /// A subtree with its annotation.
    Node(Box<Two3Node<V>>, KeyCount),
}

/// A node of a 2-3 tree.
pub struct Two3Node<V> {
    children: Vec<Handle<V>>,
}

/// The pairs below a handle, in key order.
pub closed spec fn handle_leaves<V>(h: Handle<V>) -> Seq<KV<u64, V>>
    decreases h,
{
    match h {
        Handle::Empty => Seq::empty(),
        Handle::Leaf(kv) => seq![kv],
        Handle::Node(n, _) => seq_leaves(n.children@),
    }
}

/// The pairs below a sequence of handles, in order.
pub closed spec fn seq_leaves<V>(c: Seq<Handle<V>>) -> Seq<KV<u64, V>>
    decreases c,
{
    if c.len() == 0 {
        Seq::empty()
    } else {
        seq_leaves(c.drop_last()) + handle_leaves(c.last())
    }
}

/// The annotation that a subtree with pairs `l` carries.
pub open spec fn ann_of<V>(l: Seq<KV<u64, V>>) -> KeyCount {
    KeyCount { key: MaxKey(l.last().key), count: Cardinality(l.len() as u64) }
}

/// A handle of height `height`: a pair has height 1, a node holding two or
/// three handles of height `h` has height `h + 1` and carries the annotation
/// of its pairs.
pub closed spec fn handle_wf<V>(h: Handle<V>, height: nat) -> bool
    decreases h,
{
    match h {
        Handle::Empty => false,
        Handle::Leaf(_) => height == 1,
        Handle::Node(n, ann) => {
            &&& height >= 2
            &&& seq_wf(n.children@, (height - 1) as nat)
            &&& 2 <= n.children@.len() <= 3
            &&& ann == ann_of(seq_leaves(n.children@))
        },
    }
}

/// All handles have height `height`.
pub closed spec fn seq_wf<V>(c: Seq<Handle<V>>, height: nat) -> bool
    decreases c,
{
    forall|i: int| 0 <= i < c.len() ==> handle_wf(#[trigger] c[i], height)
}

/// Keys strictly increase along `l`.
pub open spec fn sorted<V>(l: Seq<KV<u64, V>>) -> bool {
    forall|i: int, j: int| 0 <= i < j < l.len() ==> #[trigger] l[i].key < #[trigger] l[j].key
}

/// The map a sequence of pairs stands for.
pub open spec fn map_of<V>(l: Seq<KV<u64, V>>) -> Map<u64, V>
    decreases l.len(),
{
    if l.len() == 0 {
        Map::empty()
    } else {
        map_of(l.drop_last()).insert(l.last().key, l.last().val)
    }
}

/// `l` holds a pair with key `k`.
pub open spec fn has_key<V>(l: Seq<KV<u64, V>>, k: u64) -> bool {
    exists|i: int| 0 <= i < l.len() && #[trigger] l[i].key == k
}

pub proof fn lemma_map_of<V>(l: Seq<KV<u64, V>>)
    requires
        sorted(l),
    ensures
        forall|k: u64| #[trigger] map_of(l).contains_key(k) <==> has_key(l, k),
        forall|i: int| 0 <= i < l.len() ==> #[trigger] map_of(l)[l[i].key] == l[i].val,
    decreases l.len(),
{
    if l.len() > 0 {
        let p = l.drop_last();
        assert(sorted(p));
        lemma_map_of(p);
        assert forall|k: u64| #[trigger] map_of(l).contains_key(k) <==> has_key(l, k) by {
            if has_key(l, k) {
                let i = choose|i: int| 0 <= i < l.len() && #[trigger] l[i].key == k;
                if i < l.len() - 1 {
                    assert(p[i].key == k);
                }
            }
            if map_of(p).contains_key(k) {
                let i = choose|i: int| 0 <= i < p.len() && #[trigger] p[i].key == k;
                assert(l[i].key == k);
            }
        }
        assert forall|i: int| 0 <= i < l.len() implies #[trigger] map_of(l)[l[i].key] == l[i].val by {
            if i < l.len() - 1 {
                assert(p[i] == l[i]);
                assert(l[i].key < l[l.len() - 1].key);
                assert(map_of(p)[p[i].key] == p[i].val);
            }
        }
    }
}

/// Two sorted sequences with the same pairs stand for the same map.
pub proof fn lemma_map_of_ext<V>(a: Seq<KV<u64, V>>, b: Seq<KV<u64, V>>, m: Map<u64, V>)
    requires
        sorted(a),
        forall|k: u64| #[trigger] m.contains_key(k) <==> has_key(a, k),
        forall|i: int| 0 <= i < a.len() ==> #[trigger] m[a[i].key] == a[i].val,
        b == a,
    ensures
        map_of(b) == m,
{
    lemma_map_of(a);
    assert forall|k: u64| #[trigger] map_of(a).contains_key(k) implies map_of(a)[k] == m[k] by {
        let i = choose|i: int| 0 <= i < a.len() && #[trigger] a[i].key == k;
    }
    assert(map_of(b) =~= m);
}

pub proof fn lemma_seq_leaves_concat<V>(a: Seq<Handle<V>>, b: Seq<Handle<V>>)
    ensures
        seq_leaves(a + b) == seq_leaves(a) + seq_leaves(b),
    decreases b.len(),
{
    if b.len() == 0 {
        assert(a + b =~= a);
        assert(seq_leaves(b) =~= Seq::<KV<u64, V>>::empty());
        assert(seq_leaves(a) + seq_leaves(b) =~= seq_leaves(a));
    } else {
        assert((a + b).drop_last() =~= a + b.drop_last());
        assert((a + b).last() == b.last());
        lemma_seq_leaves_concat(a, b.drop_last());
        assert(seq_leaves(a + b) =~= seq_leaves(a) + seq_leaves(b));
    }
}

pub proof fn lemma_seq_leaves_single<V>(h: Handle<V>)
    ensures
        seq_leaves(seq![h]) == handle_leaves(h),
{
    assert(seq![h].drop_last() =~= Seq::<Handle<V>>::empty());
    assert(seq_leaves(Seq::<Handle<V>>::empty()) =~= Seq::<KV<u64, V>>::empty());
    assert(seq_leaves(seq![h]) =~= handle_leaves(h));
}

/// The pairs of handle `i` sit between those of the handles before and
/// after it.
pub proof fn lemma_seq_leaves_split<V>(c: Seq<Handle<V>>, i: int)
    requires
        0 <= i < c.len(),
    ensures
        seq_leaves(c) == seq_leaves(c.take(i)) + handle_leaves(c[i]) + seq_leaves(c.skip(i + 1)),
{
    assert(c =~= c.take(i) + (seq![c[i]] + c.skip(i + 1)));
    lemma_seq_leaves_concat(c.take(i), seq![c[i]] + c.skip(i + 1));
    lemma_seq_leaves_concat(seq![c[i]], c.skip(i + 1));
    lemma_seq_leaves_single(c[i]);
    assert(seq_leaves(c) =~= seq_leaves(c.take(i)) + handle_leaves(c[i]) + seq_leaves(
        c.skip(i + 1),
    ));
}

/// A handle of any height holds at least one pair; a pair handle exactly one.
pub proof fn lemma_handle_nonempty<V>(h: Handle<V>, height: nat)
    requires
        handle_wf(h, height),
    ensures
        handle_leaves(h).len() >= 1,
        h is Leaf ==> handle_leaves(h) == seq![h->Leaf_0],
        h is Leaf <==> height == 1,
        h is Node ==> handle_leaves(h).len() >= 2,
    decreases h,
{
    match h {
        Handle::Empty => {},
        Handle::Leaf(kv) => {},
        Handle::Node(n, _) => {
            let c = n.children@;
            lemma_handle_nonempty(c[0], (height - 1) as nat);
            lemma_handle_nonempty(c[1], (height - 1) as nat);
            lemma_seq_leaves_split(c, 0);
            lemma_seq_leaves_split(c.skip(1), 0);
            assert(c.skip(1)[0] == c[1]);
            assert(c.skip(1).take(0) =~= Seq::<Handle<V>>::empty());
            assert(seq_leaves(c.skip(1).take(0)) =~= Seq::<KV<u64, V>>::empty());
            assert(c.take(0) =~= Seq::<Handle<V>>::empty());
            assert(seq_leaves(c.take(0)) =~= Seq::<KV<u64, V>>::empty());
        },
    }
}

pub proof fn lemma_seq_leaves_nonempty<V>(c: Seq<Handle<V>>, height: nat)
    requires
        seq_wf(c, height),
    ensures
        seq_leaves(c).len() >= c.len(),
    decreases c.len(),
{
    if c.len() > 0 {
        lemma_seq_leaves_nonempty(c.drop_last(), height);
        lemma_handle_nonempty(c.last(), height);
    }
}

/// The largest key below a handle.
pub open spec fn hmax<V>(h: Handle<V>) -> u64 {
    handle_leaves(h).last().key
}

/// In sorted pairs, every key below a handle is at most its maximum, keys
/// below earlier handles are smaller and keys below later ones are larger.
pub proof fn lemma_sorted_handles<V>(c: Seq<Handle<V>>, height: nat, i: int)
    requires
        seq_wf(c, height),
        sorted(seq_leaves(c)),
        0 <= i < c.len(),
    ensures
        forall|j: int|
            0 <= j < seq_leaves(c.take(i)).len() ==> #[trigger] seq_leaves(c.take(i))[j].key < handle_leaves(
                c[i],
            )[0].key,
        forall|j: int|
            0 <= j < seq_leaves(c.skip(i + 1)).len() ==> hmax(c[i]) < #[trigger] seq_leaves(
                c.skip(i + 1),
            )[j].key,
        forall|j: int|
            0 <= j < handle_leaves(c[i]).len() ==> #[trigger] handle_leaves(c[i])[j].key <= hmax(
                c[i],
            ),
        sorted(handle_leaves(c[i])),
        sorted(seq_leaves(c.take(i))),
        sorted(seq_leaves(c.skip(i + 1))),
        forall|j: int| 0 <= j < i ==> hmax(#[trigger] c[j]) < handle_leaves(c[i])[0].key,
        forall|j: int| i < j < c.len() ==> hmax(c[i]) < #[trigger] hmax(c[j]),
{
    lemma_seq_leaves_split(c, i);
    lemma_handle_nonempty(c[i], height);
    let pre = seq_leaves(c.take(i));
    let mid = handle_leaves(c[i]);
    let post = seq_leaves(c.skip(i + 1));
    let l = seq_leaves(c);
    assert(l == pre + mid + post);
    assert forall|j: int| 0 <= j < pre.len() implies #[trigger] pre[j].key < mid[0].key by {
        assert(l[j] == pre[j]);
        assert(l[pre.len() as int] == mid[0]);
    }
    assert forall|j: int| 0 <= j < post.len() implies hmax(c[i]) < #[trigger] post[j].key by {
        assert(l[pre.len() + mid.len() + j] == post[j]);
        assert(l[pre.len() + mid.len() - 1] == mid.last());
    }
    assert forall|j: int| 0 <= j < mid.len() implies #[trigger] mid[j].key <= hmax(c[i]) by {
        assert(l[pre.len() + j] == mid[j]);
        assert(l[pre.len() + mid.len() - 1] == mid.last());
    }
    assert forall|a: int, b: int| 0 <= a < b < mid.len() implies #[trigger] mid[a].key
        < #[trigger] mid[b].key by {
        assert(l[pre.len() + a] == mid[a]);
        assert(l[pre.len() + b] == mid[b]);
    }
    assert forall|a: int, b: int| 0 <= a < b < pre.len() implies #[trigger] pre[a].key
        < #[trigger] pre[b].key by {
        assert(l[a] == pre[a]);
        assert(l[b] == pre[b]);
    }
    assert forall|a: int, b: int| 0 <= a < b < post.len() implies #[trigger] post[a].key
        < #[trigger] post[b].key by {
        assert(l[pre.len() + mid.len() + a] == post[a]);
        assert(l[pre.len() + mid.len() + b] == post[b]);
    }
    assert forall|j: int| 0 <= j < i implies hmax(#[trigger] c[j]) < mid[0].key by {
        lemma_seq_leaves_split(c.take(i), j);
        assert(c.take(i)[j] == c[j]);
        lemma_handle_nonempty(c[j], height);
        let pj = seq_leaves(c.take(i).take(j));
        assert(pre == pj + handle_leaves(c[j]) + seq_leaves(c.take(i).skip(j + 1)));
        assert(pre[pj.len() + handle_leaves(c[j]).len() - 1] == handle_leaves(c[j]).last());
    }
    assert forall|j: int| i < j < c.len() implies hmax(c[i]) < #[trigger] hmax(c[j]) by {
        let q = j - i - 1;
        assert(c.skip(i + 1)[q] == c[j]);
        lemma_seq_leaves_split(c.skip(i + 1), q);
        lemma_handle_nonempty(c[j], height);
        let pq = seq_leaves(c.skip(i + 1).take(q));
        assert(post == pq + handle_leaves(c[j]) + seq_leaves(c.skip(i + 1).skip(q + 1)));
        assert(post[pq.len() + handle_leaves(c[j]).len() - 1] == handle_leaves(c[j]).last());
    }
}

/// The annotation of a handle, if any.
pub fn handle_annotation<V>(h: &Handle<V>) -> (r: Option<KeyCount>)
    ensures
        h is Empty <==> r is None,
        forall|height: nat|
            handle_wf(*h, height) && handle_leaves(*h).len() <= u64::MAX ==> r == Some(
                ann_of(handle_leaves(*h)),
            ),
{
    match h {
        Handle::Empty => None,
        Handle::Leaf(kv) => {
            let r = KeyCount::from_leaf(kv);
            proof {
                assert(handle_leaves(*h) == seq![*kv]);
            }
            Some(r)
        },
        Handle::Node(_, ann) => Some(*ann),
    }
}

impl<V> ErasedAnnotation<KeyCount> for Handle<V> {
    /// The annotation of the handle: none when empty, the leaf's own for a
    /// pair, the one the node handle carries.
    fn annotation(&self) -> (r: Option<KeyCount>)
        ensures
            *self is Empty <==> r is None,
            forall|height: nat|
                handle_wf(*self, height) && handle_leaves(*self).len() <= u64::MAX ==> r == Some(
                    ann_of(handle_leaves(*self)),
                ),
    {
        handle_annotation(self)
    }
}

impl<V> Handle<V> {
    /// A handle holding the pair `kv`.
    pub fn new_leaf(kv: KV<u64, V>) -> (r: Self)
        ensures
            r == Handle::Leaf(kv),
    {
        Handle::Leaf(kv)
    }

    /// An empty handle.
    pub fn new_empty() -> (r: Self)
        ensures
            r is Empty,
    {
        Handle::Empty
    }

    /// A handle holding node `n`, with its annotation.
    pub fn new_node(n: Two3Node<V>, Ghost(height): Ghost<nat>) -> (r: Self)
        requires
            seq_wf(n.handles(), height),
            2 <= n.handles().len() <= 3,
            sorted(n.leaves()),
            n.leaves().len() <= u64::MAX,
        ensures
            handle_wf(r, height + 1),
            handle_leaves(r) == n.leaves(),
            r is Node,
    {
        let ann = n.annotation(Ghost(height));
        Handle::Node(Box::new(n), ann)
    }

    /// Whether the handle is empty.
    pub fn is_none(&self) -> (r: bool)
        ensures
            r == (*self is Empty),
    {
        match self {
            Handle::Empty => true,
            _ => false,
        }
    }

    /// The pair the handle holds, if it holds one.
    pub fn leaf(&self) -> (r: Option<&KV<u64, V>>)
        ensures
            r matches Some(kv) ==> *self == Handle::Leaf(*kv),
            r is None <==> !(*self is Leaf),
    {
        match self {
            Handle::Leaf(kv) => Some(kv),
            _ => None,
        }
    }

    /// The pair the handle holds, if it holds one.
    pub fn try_into_leaf(self) -> (r: Option<KV<u64, V>>)
        ensures
            r matches Some(kv) ==> self == Handle::Leaf(kv),
            r is None <==> !(self is Leaf),
    {
        match self {
            Handle::Leaf(kv) => Some(kv),
            _ => None,
        }
    }

    /// The pair held by a pair handle.
    pub fn into_leaf(self) -> (r: KV<u64, V>)
        requires
            self is Leaf,
        ensures
            self == Handle::Leaf(r),
        decreases 0nat,
    {
        match self {
            Handle::Leaf(kv) => kv,
            _ => {
                proof {
                    assert(false);
                }
                self.into_leaf()
            },
        }
    }

    /// The node held by a node handle.
    pub fn into_node(self) -> (r: Two3Node<V>)
        requires
            self is Node,
        ensures
            r == *self->Node_0,
        decreases 0nat,
    {
        match self {
            Handle::Node(n, _) => *n,
            _ => {
                proof {
                    assert(false);
                }
                self.into_node()
            },
        }
    }

    /// A mutable reference to the pair the handle holds, if it holds one;
    /// what is written through it becomes the handle's pair.
    pub fn leaf_mut(&mut self) -> (r: Option<&mut KV<u64, V>>)
        ensures
            r is Some <==> *old(self) is Leaf,
            r matches Some(kv) ==> *kv == (*old(self))->Leaf_0 && *final(self) == Handle::Leaf(
                *final(kv),
            ),
            r is None ==> *final(self) == *old(self),
    {
        match self {
            Handle::Leaf(kv) => Some(kv),
            _ => None,
        }
    }

    /// The kind of the handle.
    pub fn handle_type(&self) -> (r: HandleType)
        ensures
            (r == HandleType::Empty) == (*self is Empty),
            (r == HandleType::Leaf) == (*self is Leaf),
            (r == HandleType::Node) == (*self is Node),
    {
        match self {
            Handle::Empty => HandleType::Empty,
            Handle::Leaf(_) => HandleType::Leaf,
            Handle::Node(..) => HandleType::Node,
        }
    }
}

impl<V> Two3Node<V> {
    /// The pairs of the subtree, in order.
    pub closed spec fn leaves(self) -> Seq<KV<u64, V>> {
        seq_leaves(self.children@)
    }

    /// The handles of the node.
    pub closed spec fn handles(self) -> Seq<Handle<V>> {
        self.children@
    }

    /// The handles of the node, in order.
    pub fn children(&self) -> (r: &[Handle<V>])
        ensures
            r@ == self.handles(),
    {
        self.children.as_slice()
    }

    /// An empty node.
    pub fn new() -> (r: Self)
        ensures
            r.handles() == Seq::<Handle<V>>::empty(),
            r.leaves() == Seq::<KV<u64, V>>::empty(),
    {
        let r = Two3Node { children: Vec::new() };
        assert(r.children@ =~= Seq::<Handle<V>>::empty());
        r
    }

    /// The annotation of the node: the combination of its children's.
    #[verifier::rlimit(40)]
    pub fn annotation(&self, Ghost(height): Ghost<nat>) -> (r: KeyCount)
        requires
            seq_wf(self.handles(), height),
            self.handles().len() > 0,
            sorted(self.leaves()),
            self.leaves().len() <= u64::MAX,
        ensures
            r == ann_of(self.leaves()),
    {
        let ghost c = self.children@;
        proof {
            lemma_handle_nonempty(c[0], height);
            lemma_seq_leaves_split(c, 0);
            assert(c.take(0) =~= Seq::<Handle<V>>::empty());
            assert(seq_leaves(c.take(0)) =~= Seq::<KV<u64, V>>::empty());
            lemma_seq_leaves_split(c.take(1), 0);
            assert(c.take(1).take(0) =~= Seq::<Handle<V>>::empty());
            assert(c.take(1).skip(1) =~= Seq::<Handle<V>>::empty());
            assert(seq_leaves(c.take(1).take(0)) =~= Seq::<KV<u64, V>>::empty());
            assert(seq_leaves(c.take(1).skip(1)) =~= Seq::<KV<u64, V>>::empty());
            assert(seq_leaves(c.take(1)) =~= handle_leaves(c[0]));
            lemma_seq_leaves_nonempty(c, height);
            assert(c =~= c.take(1) + c.skip(1));
            lemma_seq_leaves_concat(c.take(1), c.skip(1));
            assert(handle_leaves(c[0]).len() <= u64::MAX);
            assert(handle_wf(c[0], height));
        }
        let mut acc = match handle_annotation(&self.children[0]) {
            Some(a) => a,
            None => {
                proof {
                    assert(false);
                }
                KeyCount { key: MaxKey(0), count: Cardinality(0) }
            },
        };
        let mut i: usize = 1;
        while i < self.children.len()
            invariant
                1 <= i <= c.len(),
                c == self.children@,
                seq_wf(c, height),
                sorted(seq_leaves(c)),
                seq_leaves(c).len() <= u64::MAX,
                acc == ann_of(seq_leaves(c.take(i as int))),
                seq_leaves(c.take(i as int)).len() > 0,
            decreases c.len() - i,
        {
            proof {
                lemma_sorted_handles(c, height, i as int);
                lemma_handle_nonempty(c[i as int], height);
                assert(c.take(i + 1) =~= c.take(i as int) + seq![c[i as int]]);
                lemma_seq_leaves_concat(c.take(i as int), seq![c[i as int]]);
                lemma_seq_leaves_single(c[i as int]);
                assert(c =~= c.take(i + 1) + c.skip(i + 1));
                lemma_seq_leaves_concat(c.take(i + 1), c.skip(i + 1));
                let pre = seq_leaves(c.take(i as int));
                assert(pre.last().key < handle_leaves(c[i as int])[0].key);
                assert(handle_leaves(c[i as int])[0].key <= hmax(c[i as int]));
                assert(handle_wf(c[i as int], height));
            }
            let a = match handle_annotation(&self.children[i]) {
                Some(a) => a,
                None => {
                    proof {
                        assert(false);
                    }
                    KeyCount { key: MaxKey(0), count: Cardinality(0) }
                },
            };
            acc.op(&a);
            i = i + 1;
        }
        proof {
            assert(c.take(c.len() as int) =~= c);
        }
        acc
    }
}

/// The pairs before handle `i` end with the largest key of handle `i - 1`.
pub proof fn lemma_take_last<V>(c: Seq<Handle<V>>, height: nat, i: int)
    requires
        seq_wf(c, height),
        1 <= i <= c.len(),
    ensures
        seq_leaves(c.take(i)).len() > 0,
        seq_leaves(c.take(i)).last() == handle_leaves(c[i - 1]).last(),
{
    assert(c.take(i).drop_last() =~= c.take(i - 1));
    assert(c.take(i).last() == c[i - 1]);
    lemma_handle_nonempty(c[i - 1], height);
}

/// Where a key can be found among the handles of a node.
pub proof fn lemma_key_location<V>(c: Seq<Handle<V>>, height: nat, i: int, k: u64)
    requires
        seq_wf(c, height),
        sorted(seq_leaves(c)),
        0 <= i < c.len(),
        forall|j: int| 0 <= j < i ==> hmax(#[trigger] c[j]) < k,
        hmax(c[i]) >= k,
    ensures
        has_key(seq_leaves(c), k) ==> has_key(handle_leaves(c[i]), k),
        forall|j: int|
            0 <= j < handle_leaves(c[i]).len() ==> seq_leaves(c).contains(
                #[trigger] handle_leaves(c[i])[j],
            ),
{
    lemma_sorted_handles(c, height, i);
    lemma_seq_leaves_split(c, i);
    let pre = seq_leaves(c.take(i));
    let mid = handle_leaves(c[i]);
    let post = seq_leaves(c.skip(i + 1));
    let l = seq_leaves(c);
    if i > 0 {
        lemma_take_last(c, height, i);
        assert(hmax(c[i - 1]) < k);
    }
    if has_key(l, k) {
        let x = choose|x: int| 0 <= x < l.len() && #[trigger] l[x].key == k;
        if x < pre.len() {
            assert(l[x] == pre[x]);
            assert(pre[x].key <= pre.last().key) by {
                if x < pre.len() - 1 {
                    assert(pre[x].key < pre[pre.len() - 1].key);
                }
            }
            assert(false);
        } else if x >= pre.len() + mid.len() {
            assert(l[x] == post[x - pre.len() - mid.len()]);
            assert(false);
        } else {
            assert(l[x] == mid[x - pre.len()]);
        }
    }
    assert forall|j: int| 0 <= j < mid.len() implies l.contains(#[trigger] mid[j]) by {
        assert(l[pre.len() + j] == mid[j]);
    }
}

/// A key larger than every handle's maximum is not in the node.
pub proof fn lemma_key_absent<V>(c: Seq<Handle<V>>, height: nat, k: u64)
    requires
        seq_wf(c, height),
        sorted(seq_leaves(c)),
        forall|j: int| 0 <= j < c.len() ==> hmax(#[trigger] c[j]) < k,
    ensures
        !has_key(seq_leaves(c), k),
{
    let l = seq_leaves(c);
    if has_key(l, k) {
        let x = choose|x: int| 0 <= x < l.len() && #[trigger] l[x].key == k;
        lemma_take_last(c, height, c.len() as int);
        assert(c.take(c.len() as int) =~= c);
        assert(hmax(c[c.len() - 1]) < k);
        if x < l.len() - 1 {
            assert(l[x].key < l[l.len() - 1].key);
        }
    }
}

/// A search for a key in a 2-3 tree, guided by the maximum-key annotations.
pub struct Two3TreeSearch {
    key: u64,
}

impl Two3TreeSearch {
    /// Starts a search for `key`.
    pub fn new(key: u64) -> (r: Self)
        ensures
            r.key() == key,
    {
        Two3TreeSearch { key }
    }

    /// The key searched for.
    pub closed spec fn key(self) -> u64 {
        self.key
    }
}

/// The annotations of all handles of `c` are present and correct.
pub closed spec fn searchable<V>(c: Seq<Handle<V>>) -> bool {
    exists|height: nat| seq_wf(c, height) && seq_leaves(c).len() <= u64::MAX
}

/// The key a handle's annotation carries: the pair's key for a pair, the
/// maximum key for a node.
pub open spec fn ann_key<V>(h: Handle<V>) -> Option<u64> {
    match h {
        Handle::Empty => None,
        Handle::Leaf(kv) => Some(kv.key),
        Handle::Node(_, a) => Some(a.key.0),
    }
}

/// In a well-formed handle, the annotation carries the maximum key.
pub proof fn lemma_ann_key<V>(c: Seq<Handle<V>>, height: nat, j: int)
    requires
        seq_wf(c, height),
        0 <= j < c.len(),
    ensures
        ann_key(c[j]) == Some(hmax(c[j])),
{
    assert(handle_wf(c[j], height));
    lemma_handle_nonempty(c[j], height);
}

/// In handles whose annotations are correct, each carries its maximum key.
pub proof fn lemma_searchable_ann_keys<V>(c: Seq<Handle<V>>)
    requires
        searchable(c),
    ensures
        forall|j: int| 0 <= j < c.len() ==> ann_key(#[trigger] c[j]) == Some(hmax(c[j])),
{
    let height = choose|height: nat| seq_wf(c, height) && seq_leaves(c).len() <= u64::MAX;
    assert forall|j: int| 0 <= j < c.len() implies ann_key(#[trigger] c[j]) == Some(hmax(c[j])) by {
        lemma_ann_key(c, height, j);
    }
}

/// What locating key `k` among handles `c` may answer: `Leaf(i)` for the
/// pair with key `k`, `Path(i)` for the first handle whose maximum key is at
/// least `k` (or for a last handle that is a node when all maxima are
/// smaller), `Nothing` when every maximum is smaller and no node is last.
pub open spec fn locate_post<V>(c: Seq<Handle<V>>, k: u64, r: SearchResult) -> bool {
    &&& r matches SearchResult::Leaf(i) ==> {
        &&& i < c.len()
        &&& c[i as int] is Leaf
        &&& hmax(c[i as int]) == k
        &&& forall|j: int| 0 <= j < i ==> hmax(#[trigger] c[j]) < k
    }
    &&& r matches SearchResult::Path(i) ==> {
        &&& i < c.len()
        &&& forall|j: int| 0 <= j < i ==> hmax(#[trigger] c[j]) < k
        &&& ((hmax(c[i as int]) >= k && !(c[i as int] is Leaf && hmax(c[i as int]) == k)) || (i
            == c.len() - 1 && c[i as int] is Node && hmax(c[i as int]) < k))
    }
    &&& r is Nothing ==> {
        &&& forall|j: int| 0 <= j < c.len() ==> hmax(#[trigger] c[j]) < k
        &&& (c.len() == 0 || !(c.last() is Node))
    }
}

/// A search for `k` stops at handle `h`: its annotation carries a key that
/// is at least `k`.
pub open spec fn stops_at<V>(h: Handle<V>, k: u64) -> bool {
    ann_key(h) matches Some(m) && k <= m
}

/// What a search for key `k` answers among handles `c`, read off their
/// annotations alone: the first handle it stops at (`Leaf` when that is the
/// pair with key `k`, `Path` otherwise); else `Path` to the last handle when
/// that is a node; else `Nothing`.
pub open spec fn ann_locate_post<V>(c: Seq<Handle<V>>, k: u64, r: SearchResult) -> bool {
    &&& r matches SearchResult::Leaf(i) ==> {
        &&& i < c.len()
        &&& c[i as int] is Leaf
        &&& ann_key(c[i as int]) == Some(k)
        &&& forall|j: int| 0 <= j < i ==> !stops_at(#[trigger] c[j], k)
    }
    &&& r matches SearchResult::Path(i) ==> {
        &&& i < c.len()
        &&& forall|j: int| 0 <= j < i ==> !stops_at(#[trigger] c[j], k)
        &&& ((stops_at(c[i as int], k) && !(c[i as int] is Leaf && ann_key(c[i as int]) == Some(k)))
            || (i == c.len() - 1 && c[i as int] is Node && !stops_at(c[i as int], k)))
    }
    &&& r is Nothing ==> {
        &&& forall|j: int| 0 <= j < c.len() ==> !stops_at(#[trigger] c[j], k)
        &&& (c.len() == 0 || !(c.last() is Node))
    }
}

/// Where the annotations are correct, the answer read off them is the one
/// read off the maximum keys.
pub proof fn lemma_ann_locate<V>(c: Seq<Handle<V>>, k: u64, r: SearchResult)
    requires
        searchable(c),
        ann_locate_post(c, k, r),
    ensures
        locate_post(c, k, r),
{
    lemma_searchable_ann_keys(c);
    assert forall|j: int| 0 <= j < c.len() implies (stops_at(#[trigger] c[j], k) <==> hmax(c[j]) >= k) && (
    ann_key(c[j]) == Some(k) <==> hmax(c[j]) == k) by {
        assert(ann_key(c[j]) == Some(hmax(c[j])));
    }
    if let SearchResult::Leaf(i) = r {
        assert(hmax(c[i as int]) == k);
    }
    if let SearchResult::Path(i) = r {
        assert(stops_at(c[i as int], k) <==> hmax(c[i as int]) >= k);
    }
}

/// A way of locating, within one node of a tree ordered by maximum keys, the
/// handle under which a key belongs.
pub trait KeyLocate {
    /// Locates `k` among the handles of `node`.
    fn locate<V>(node: &Two3Node<V>, k: u64) -> (r: SearchResult)
        requires
            searchable(node.handles()),
        ensures
            locate_post(node.handles(), k, r),
    ;
}

impl KeyLocate for Two3TreeSearch {
    fn locate<V>(node: &Two3Node<V>, k: u64) -> (r: SearchResult) {
        let mut search = Two3TreeSearch::new(k);
        let r = search.select(node, 0);
        proof {
            lemma_ann_locate(node.handles(), k, r);
        }
        r
    }
}

impl<V> Method<Two3Node<V>> for Two3TreeSearch {
    open spec fn can_select(&self, compound: &Two3Node<V>, offset: usize) -> bool {
        true
    }

    /// Picks the first handle whose annotation carries a key at least the
    /// searched key: `Leaf` when it is the pair with that key, `Path`
    /// otherwise. When there is none, picks the last handle if it is a node.
    fn select(&mut self, compound: &Two3Node<V>, offset: usize) -> (r: SearchResult)
        ensures
            final(self).key() == old(self).key(),
            ann_locate_post(compound.handles(), old(self).key(), r),
    {
        locate_in(compound, self.key)
    }
}

/// Locates `k` among the handles of `node` by their annotations: the first
/// handle whose annotation carries a key at least `k` (`Leaf` when it is the
/// pair with key `k`, `Path` otherwise), else the last handle if it is a
/// node, else `Nothing`.
fn locate_in<V>(node: &Two3Node<V>, k: u64) -> (r: SearchResult)
    ensures
        ann_locate_post(node.handles(), k, r),
    no_unwind
{
    let ghost c = node.children@;
    let len = node.children.len();
    let mut i: usize = 0;
    while i < len
        invariant
            i <= len,
            len == c.len(),
            c == node.children@,
            forall|j: int| 0 <= j < i ==> !stops_at(#[trigger] c[j], k),
        decreases len - i,
    {
        let h = &node.children[i];
        let m = match h {
            Handle::Empty => None,
            Handle::Leaf(kv) => Some(kv.key),
            Handle::Node(_, ann) => Some(ann.key.0),
        };
        match m {
            Some(m) => {
                if k == m {
                    match h {
                        Handle::Leaf(_) => {
                            return SearchResult::Leaf(i);
                        },
                        _ => {
                            return SearchResult::Path(i);
                        },
                    }
                } else if k < m {
                    return SearchResult::Path(i);
                }
            },
            None => {},
        }
        i = i + 1;
    }
    if len > 0 {
        match &node.children[len - 1] {
            Handle::Node(..) => {
                return SearchResult::Path(len - 1);
            },
            _ => {},
        }
    }
    SearchResult::Nothing
}

impl<V> Two3Node<V> {
    /// Looks `k` up in the tree rooted at this node.
    fn find<S: KeyLocate>(&self, k: u64, Ghost(height): Ghost<nat>) -> (r: Option<&V>)
        requires
            seq_wf(self.handles(), height),
            sorted(self.leaves()),
            self.leaves().len() <= u64::MAX,
        ensures
            r is Some <==> has_key(self.leaves(), k),
            r matches Some(v) ==> self.leaves().contains(KV { key: k, val: *v }),
    {
        let mut node: &Two3Node<V> = self;
        let ghost mut hh: nat = height;
        loop
            invariant
                seq_wf(node.children@, hh),
                sorted(node.leaves()),
                node.leaves().len() <= self.leaves().len(),
                self.leaves().len() <= u64::MAX,
                has_key(self.leaves(), k) ==> has_key(node.leaves(), k),
                has_key(node.leaves(), k) ==> has_key(self.leaves(), k),
                forall|j: int|
                    0 <= j < node.leaves().len() ==> self.leaves().contains(
                        #[trigger] node.leaves()[j],
                    ),
            decreases hh,
        {
            let ghost c = node.children@;
            let res = S::locate(node, k);
            match res {
                SearchResult::Leaf(i) => {
                    proof {
                        lemma_key_location(c, hh, i as int, k);
                        lemma_handle_nonempty(c[i as int], hh);
                    }
                    match &node.children[i] {
                        Handle::Leaf(kv) => {
                            proof {
                                assert(handle_leaves(c[i as int])[0] == *kv);
                                assert(has_key(node.leaves(), k));
                            }
                            return Some(&kv.val);
                        },
                        _ => {
                            proof {
                                assert(false);
                            }
                            return None;
                        },
                    }
                },
                SearchResult::Path(i) => {
                    proof {
                        lemma_handle_nonempty(c[i as int], hh);
                        if hmax(c[i as int]) >= k {
                            lemma_key_location(c, hh, i as int, k);
                        } else {
                            lemma_key_absent(c, hh, k);
                            lemma_sorted_handles(c, hh, i as int);
                            lemma_seq_leaves_split(c, i as int);
                            let mid = handle_leaves(c[i as int]);
                            assert forall|j: int| 0 <= j < mid.len() implies node.leaves().contains(
                                #[trigger] mid[j],
                            ) by {
                                assert(node.leaves()[seq_leaves(c.take(i as int)).len() + j] == mid[j]);
                            }
                        }
                    }
                    match &node.children[i] {
                        Handle::Node(n, _) => {
                            proof {
                                assert(handle_wf(c[i as int], hh));
                                lemma_seq_leaves_split(c, i as int);
                                lemma_sorted_handles(c, hh, i as int);
                                assert forall|j: int| 0 <= j < n.leaves().len() implies self.leaves().contains(
                                    #[trigger] n.leaves()[j],
                                ) by {
                                    assert(node.leaves().contains(handle_leaves(c[i as int])[j]));
                                }
                                hh = (hh - 1) as nat;
                            }
                            node = &**n;
                        },
                        _ => {
                            proof {
                                lemma_sorted_handles(c, hh, i as int);
                                if has_key(node.leaves(), k) {
                                    assert(has_key(handle_leaves(c[i as int]), k));
                                    assert(handle_leaves(c[i as int])[0].key == k);
                                }
                            }
                            return None;
                        },
                    }
                },
                SearchResult::Nothing => {
                    proof {
                        lemma_key_absent(c, hh, k);
                    }
                    return None;
                },
            }
        }
    }
}

/// Replacing handle `i` replaces its pairs in place.
pub broadcast proof fn lemma_update_handle_leaves<V>(c: Seq<Handle<V>>, i: int, x: Handle<V>)
    requires
        0 <= i < c.len(),
    ensures
        #[trigger] seq_leaves(c.update(i, x)) == seq_leaves(c.take(i)) + handle_leaves(x)
            + seq_leaves(c.skip(i + 1)),
{
    lemma_update_handle(c, i, x);
}

/// Replacing a handle by one of the same height keeps handles of one height.
pub broadcast proof fn lemma_update_handle_wf<V>(c: Seq<Handle<V>>, height: nat, i: int, x: Handle<V>)
    requires
        seq_wf(c, height),
        0 <= i < c.len(),
        handle_wf(x, height),
    ensures
        #[trigger] seq_wf(c.update(i, x), height),
{
}

/// Changing the value of a pair keeps the pairs sorted and changes the map
/// at that pair's key.
pub broadcast proof fn lemma_map_of_update_value<V>(l: Seq<KV<u64, V>>, j: int, kv: KV<u64, V>)
    requires
        sorted(l),
        0 <= j < l.len(),
        l[j].key == kv.key,
    ensures
        #[trigger] map_of(l.update(j, kv)) == map_of(l).insert(kv.key, kv.val),
{
    lemma_map_of_update(l, j, kv);
}

/// Changing the value of a pair keeps the pairs sorted.
pub broadcast proof fn lemma_sorted_update_value<V>(l: Seq<KV<u64, V>>, j: int, kv: KV<u64, V>)
    requires
        sorted(l),
        0 <= j < l.len(),
        l[j].key == kv.key,
    ensures
        #[trigger] sorted(l.update(j, kv)),
{
    lemma_map_of_update(l, j, kv);
}

/// Changing the value of a pair keeps the annotation of the pairs.
pub broadcast proof fn lemma_ann_of_update<V>(l: Seq<KV<u64, V>>, j: int, kv: KV<u64, V>)
    requires
        0 <= j < l.len(),
        l[j].key == kv.key,
    ensures
        #[trigger] ann_of(l.update(j, kv)) == ann_of(l),
{
}

impl<V> Handle<V> {
    /// A mutable reference to the value of the pair in the handle; what is
    /// written through it becomes the pair's value.
    fn leaf_val_mut(&mut self) -> (r: &mut V)
        requires
            *old(self) is Leaf,
        ensures
            *r == (*old(self))->Leaf_0.val,
            *final(self) == Handle::Leaf(KV { key: (*old(self))->Leaf_0.key, val: *final(r) }),
        decreases 0nat,
        no_unwind
    {
        match self {
            Handle::Leaf(kv) => &mut kv.val,
            _ => {
                proof {
                    assert(false);
                }
                self.leaf_val_mut()
            },
        }
    }

    /// A mutable reference to the node in the handle; the annotation stays.
    fn node_mut(&mut self) -> (r: &mut Two3Node<V>)
        requires
            *old(self) is Node,
        ensures
            *r == *(*old(self))->Node_0,
            *final(self) == Handle::Node(Box::new(*final(r)), (*old(self))->Node_1),
        decreases 0nat,
        no_unwind
    {
        match self {
            Handle::Node(n, _) => &mut **n,
            _ => {
                proof {
                    assert(false);
                }
                self.node_mut()
            },
        }
    }
}

impl<V> Two3Node<V> {
    /// A mutable reference to the value under `k` in the tree rooted at this
    /// node, with the position of its pair among the node's pairs. What is
    /// written through it becomes the value of that pair; nothing else
    /// changes.
    #[verifier::rlimit(60)]
    fn find_mut(&mut self, k: u64, Ghost(height): Ghost<nat>) -> (r: (
        Option<&mut V>,
        Ghost<int>,
    ))
        requires
            seq_wf(old(self).handles(), height),
            sorted(old(self).leaves()),
            old(self).leaves().len() <= u64::MAX,
        ensures
            seq_wf(final(self).handles(), height),
            final(self).handles().len() == old(self).handles().len(),
            r.0 is Some <==> has_key(old(self).leaves(), k),
            r.0 matches Some(v) ==> {
                &&& 0 <= r.1@ < old(self).leaves().len()
                &&& old(self).leaves()[r.1@] == KV { key: k, val: *v }
                &&& final(self).leaves() == old(self).leaves().update(
                    r.1@,
                    KV { key: k, val: *final(v) },
                )
            },
            r.0 is None ==> final(self).leaves() == old(self).leaves(),
        decreases height,
        no_unwind
    {
        broadcast use lemma_update_handle_leaves, lemma_update_handle_wf, lemma_ann_of_update;

        let ghost c = self.children@;
        proof {
            lemma_searchable(c, height);
        }
        let res = locate_in(self, k);
        proof {
            lemma_ann_locate(c, k, res);
        }
        match res {
            SearchResult::Leaf(i) => {
                proof {
                    lemma_handle_nonempty(c[i as int], height);
                    lemma_seq_leaves_split(c, i as int);
                    assert(handle_leaves(c[i as int]) == seq![c[i as int]->Leaf_0]);
                    let p = seq_leaves(c.take(i as int)).len();
                    assert(self.leaves()[p as int] == c[i as int]->Leaf_0);
                    assert(has_key(self.leaves(), k));
                }
                let ghost pos = seq_leaves(c.take(i as int)).len() as int;
                let h = &mut self.children[i];
                (Some(h.leaf_val_mut()), Ghost(pos))
            },
            SearchResult::Path(i) => {
                let is_node = match &self.children[i] {
                    Handle::Node(..) => true,
                    _ => false,
                };
                proof {
                    lemma_handle_nonempty(c[i as int], height);
                }
                if !is_node {
                    proof {
                        lemma_sorted_handles(c, height, i as int);
                        lemma_key_location(c, height, i as int, k);
                        if has_key(self.leaves(), k) {
                            assert(has_key(handle_leaves(c[i as int]), k));
                            assert(handle_leaves(c[i as int])[0].key == k);
                        }
                    }
                    return (None, Ghost(0));
                }
                proof {
                    lemma_handle_node(c[i as int], height);
                    lemma_seq_leaves_split(c, i as int);
                    lemma_sorted_handles(c, height, i as int);
                    if hmax(c[i as int]) >= k {
                        lemma_key_location(c, height, i as int, k);
                    } else {
                        lemma_key_absent(c, height, k);
                    }
                    let mid = handle_leaves(c[i as int]);
                    assert forall|a: int, b: int| 0 <= a < b < mid.len() implies #[trigger] mid[a].key
                        < #[trigger] mid[b].key by {
                        let p = seq_leaves(c.take(i as int)).len();
                        assert(self.leaves()[p + a] == mid[a]);
                        assert(self.leaves()[p + b] == mid[b]);
                    }
                    assert(has_key(mid, k) ==> has_key(self.leaves(), k)) by {
                        if has_key(mid, k) {
                            let j = choose|j: int| 0 <= j < mid.len() && #[trigger] mid[j].key == k;
                            let p = seq_leaves(c.take(i as int)).len();
                            assert(self.leaves()[p + j] == mid[j]);
                        }
                    }
                }
                let ghost pre = seq_leaves(c.take(i as int));
                let h = &mut self.children[i];
                let n = h.node_mut();
                let (r, Ghost(j)) = Two3Node::find_mut(n, k, Ghost((height - 1) as nat));
                (r, Ghost(pre.len() + j))
            },
            SearchResult::Nothing => {
                proof {
                    lemma_key_absent(c, height, k);
                }
                (None, Ghost(0))
            },
        }
    }
}

/// The pairs after replacing handle `i`.
pub proof fn lemma_update_handle<V>(c: Seq<Handle<V>>, i: int, x: Handle<V>)
    requires
        0 <= i < c.len(),
    ensures
        seq_leaves(c.update(i, x)) == seq_leaves(c.take(i)) + handle_leaves(x) + seq_leaves(
            c.skip(i + 1),
        ),
{
    let c2 = c.update(i, x);
    lemma_seq_leaves_split(c2, i);
    assert(c2.take(i) =~= c.take(i));
    assert(c2.skip(i + 1) =~= c.skip(i + 1));
}

/// The pairs after inserting handle `x` at `i`.
pub proof fn lemma_insert_handle<V>(c: Seq<Handle<V>>, i: int, x: Handle<V>)
    requires
        0 <= i <= c.len(),
    ensures
        seq_leaves(c.insert(i, x)) == seq_leaves(c.take(i)) + handle_leaves(x) + seq_leaves(
            c.skip(i),
        ),
{
    let c2 = c.insert(i, x);
    lemma_seq_leaves_split(c2, i);
    assert(c2.take(i) =~= c.take(i));
    assert(c2.skip(i + 1) =~= c.skip(i));
}

/// Three sorted runs, each below the next, make a sorted sequence.
pub proof fn lemma_sorted3<V>(a: Seq<KV<u64, V>>, b: Seq<KV<u64, V>>, c: Seq<KV<u64, V>>)
    requires
        sorted(a),
        sorted(b),
        sorted(c),
        forall|i: int, j: int| 0 <= i < a.len() && 0 <= j < b.len() ==> #[trigger] a[i].key < #[trigger] b[j].key,
        forall|i: int, j: int| 0 <= i < b.len() && 0 <= j < c.len() ==> #[trigger] b[i].key < #[trigger] c[j].key,
        forall|i: int, j: int| 0 <= i < a.len() && 0 <= j < c.len() ==> #[trigger] a[i].key < #[trigger] c[j].key,
    ensures
        sorted(a + b + c),
{
    let s = a + b + c;
    assert forall|i: int, j: int| 0 <= i < j < s.len() implies #[trigger] s[i].key < #[trigger] s[j].key by {
        let la = a.len() as int;
        let lb = b.len() as int;
        if i < la {
            if j < la {
                assert(s[i] == a[i] && s[j] == a[j]);
            } else if j < la + lb {
                assert(s[i] == a[i] && s[j] == b[j - la]);
            } else {
                assert(s[i] == a[i] && s[j] == c[j - la - lb]);
            }
        } else if i < la + lb {
            if j < la + lb {
                assert(s[i] == b[i - la] && s[j] == b[j - la]);
            } else {
                assert(s[i] == b[i - la] && s[j] == c[j - la - lb]);
            }
        } else {
            assert(s[i] == c[i - la - lb] && s[j] == c[j - la - lb]);
        }
    }
}

/// Inserting a pair between a smaller and a larger key keeps keys sorted.
pub proof fn lemma_sorted_insert<V>(l: Seq<KV<u64, V>>, p: int, kv: KV<u64, V>)
    requires
        sorted(l),
        0 <= p <= l.len(),
        p > 0 ==> l[p - 1].key < kv.key,
        p < l.len() ==> kv.key < l[p].key,
    ensures
        sorted(l.insert(p, kv)),
{
    let t = l.insert(p, kv);
    assert forall|a: int, b: int| 0 <= a < b < t.len() implies #[trigger] t[a].key
        < #[trigger] t[b].key by {
        if a < p && b < p {
            assert(t[a] == l[a] && t[b] == l[b]);
        } else if a < p && b == p {
            assert(t[a] == l[a]);
            if a < p - 1 {
                assert(l[a].key < l[p - 1].key);
            }
        } else if a < p {
            assert(t[a] == l[a] && t[b] == l[b - 1]);
        } else if a == p {
            assert(t[b] == l[b - 1]);
            if b - 1 > p {
                assert(l[p].key < l[b - 1].key);
            }
        } else {
            assert(t[a] == l[a - 1] && t[b] == l[b - 1]);
        }
    }
}

/// What inserting into a node did.
pub enum InsertResult<V> {
    /// The pair was added.
    Inserted,
    /// The pair replaced the returned pair with the same key.
    Replaced(KV<u64, V>),
    /// The pair was added and the node split; the returned node holds the
    /// upper half and goes right of this node in the parent.
    Split(Handle<V>),
}

/// What removing from a node did.
pub enum RemoveResult<V> {
    /// The key was not there.
    Noop,
    /// The pair was removed.
    Removed(KV<u64, V>),
    /// The pair was removed and the node was left with a single child, to be
    /// merged with a sibling by the parent.
    Merge(KV<u64, V>),
}

impl<V> Two3Node<V> {
    /// Inserts handle `x` at position `p`, splitting the node when it is full.
    fn insert_handle_at(
        &mut self,
        p: usize,
        x: Handle<V>,
        depth: usize,
        Ghost(height): Ghost<nat>,
    ) -> (r: InsertResult<V>)
        requires
            seq_wf(old(self).handles(), height),
            handle_wf(x, height),
            old(self).handles().len() <= 3,
            p <= old(self).handles().len(),
            sorted(seq_leaves(old(self).handles().insert(p as int, x))),
            seq_leaves(old(self).handles().insert(p as int, x)).len() <= u64::MAX,
        ensures
            ({
                let t = seq_leaves(old(self).handles().insert(p as int, x));
                &&& r is Inserted || r is Split
                &&& sorted(final(self).leaves())
                &&& r is Inserted ==> {
                    &&& final(self).leaves() == t
                    &&& ((seq_wf(final(self).handles(), height) && final(self).handles().len()
                        == old(self).handles().len() + 1 && final(self).handles().len() <= 3) || (depth == 0 && seq_wf(
                        final(self).handles(),
                        height + 1,
                    ) && final(self).handles().len() == 2))
                }
                &&& r matches InsertResult::Split(nh) ==> {
                    &&& depth > 0
                    &&& final(self).leaves() + handle_leaves(nh) == t
                    &&& seq_wf(final(self).handles(), height)
                    &&& final(self).handles().len() == 2
                    &&& handle_wf(nh, height + 1)
                    &&& sorted(final(self).leaves() + handle_leaves(nh))
                }
            }),
            ({
                let whole = old(self).handles().insert(p as int, x);
                &&& old(self).handles().len() < 3 ==> r is Inserted && final(self).handles() == whole
                &&& old(self).handles().len() == 3 && depth > 0 ==> final(self).handles() == whole.take(2)
                    && (r matches InsertResult::Split(nh) && nh matches Handle::Node(m, _) && m.handles()
                    == whole.skip(2))
                &&& old(self).handles().len() == 3 && depth == 0 ==> r is Inserted && (final(self).handles()[0] matches Handle::Node(
                    m,
                    _,
                ) && m.handles() == whole.take(2)) && (final(self).handles()[1] matches Handle::Node(
                    m,
                    _,
                ) && m.handles() == whole.skip(2))
            }),
    {
        let ghost c = self.children@;
        let ghost t = seq_leaves(c.insert(p as int, x));
        if self.children.len() < M {
            self.children.insert(p, x);
            proof {
                assert forall|j: int| 0 <= j < self.children@.len() implies handle_wf(
                    #[trigger] self.children@[j],
                    height,
                ) by {
                    if j < p {
                        assert(self.children@[j] == c[j]);
                    } else if j > p {
                        assert(self.children@[j] == c[j - 1]);
                    }
                }
            }
            return InsertResult::Inserted;
        }
        let ghost whole = c.insert(p as int, x);
        let mut new_node = Two3Node::new();
        let popped = self.children.pop().unwrap();
        if p < N {
            let second = self.children.pop().unwrap();
            new_node.children.push(second);
            new_node.children.push(popped);
            self.children.insert(p, x);
        } else {
            new_node.children.push(popped);
            new_node.children.insert(p - N, x);
        }
        proof {
            assert(self.children@ + new_node.children@ =~= whole);
            assert(self.children@ =~= whole.take(2));
            assert(new_node.children@ =~= whole.skip(2));
            assert forall|j: int| 0 <= j < whole.len() implies handle_wf(#[trigger] whole[j], height) by {
                if j < p {
                    assert(whole[j] == c[j]);
                } else if j > p {
                    assert(whole[j] == c[j - 1]);
                }
            }
            assert forall|j: int| 0 <= j < self.children@.len() implies handle_wf(
                #[trigger] self.children@[j],
                height,
            ) by {
                assert(self.children@[j] == whole[j]);
            }
            assert forall|j: int| 0 <= j < new_node.children@.len() implies handle_wf(
                #[trigger] new_node.children@[j],
                height,
            ) by {
                assert(new_node.children@[j] == whole[j + 2]);
            }
            lemma_seq_leaves_concat(self.children@, new_node.children@);
            let a = seq_leaves(self.children@);
            let b = seq_leaves(new_node.children@);
            assert(a + b == t);
            assert forall|i: int, j: int| 0 <= i < j < b.len() implies #[trigger] b[i].key
                < #[trigger] b[j].key by {
                assert(t[a.len() + i] == b[i]);
                assert(t[a.len() + j] == b[j]);
            }
            assert forall|i: int, j: int| 0 <= i < j < a.len() implies #[trigger] a[i].key
                < #[trigger] a[j].key by {
                assert(t[i] == a[i]);
                assert(t[j] == a[j]);
            }
        }
        let new_ann = new_node.annotation(Ghost(height));
        let new_handle = Handle::Node(Box::new(new_node), new_ann);
        if depth == 0 {
            let mut old_root = Two3Node::new();
            std::mem::swap(self, &mut old_root);
            let old_ann = old_root.annotation(Ghost(height));
            self.children.push(Handle::Node(Box::new(old_root), old_ann));
            self.children.push(new_handle);
            proof {
                let c2 = self.children@;
                assert(c2.len() == 2);
                assert(c2.drop_last() =~= seq![c2[0]]);
                lemma_seq_leaves_single(c2[0]);
                assert(seq_leaves(c2) == handle_leaves(c2[0]) + handle_leaves(c2[1]));
                assert forall|j: int| 0 <= j < c2.len() implies handle_wf(#[trigger] c2[j], height + 1) by {}
            }
            InsertResult::Inserted
        } else {
            InsertResult::Split(new_handle)
        }
    }
}

/// What inserting `kv` into node `old`, `depth` levels below the root,
/// promises of the node afterwards (`new`) and of the result `r`.
pub closed spec fn insert_post<V>(
    old: Two3Node<V>,
    new: Two3Node<V>,
    kv: KV<u64, V>,
    depth: usize,
    height: nat,
    r: InsertResult<V>,
) -> bool {
    &&& sorted(new.leaves())
    &&& height == 1 ==> (r matches InsertResult::Replaced(o) ==> exists|j: int|
        0 <= j < old.handles().len() && old.handles()[j] == Handle::Leaf(o) && new.handles()
            == old.handles().update(j, Handle::Leaf(kv)))
    &&& height == 1 && !(r is Replaced) ==> exists|j: int|
        #![trigger old.handles().insert(j, Handle::Leaf(kv))]
        0 <= j <= old.handles().len() && ({
            let w = old.handles().insert(j, Handle::Leaf(kv));
            &&& old.handles().len() < 3 ==> new.handles() == w
            &&& r matches InsertResult::Split(nh) ==> (nh matches Handle::Node(m, _) && new.handles()
                + m.handles() == w)
        })
    &&& r matches InsertResult::Split(nh) ==> (nh matches Handle::Node(m, _) && m.handles().len() == 2)
    &&& r is Inserted && depth == 0 && old.handles().len() == 3 && new.handles().len() == 2 ==> forall|j: int|
        0 <= j < 2 ==> (#[trigger] new.handles()[j] matches Handle::Node(m, _) && m.handles().len() == 2)
    &&& r matches InsertResult::Replaced(o) ==> {
        &&& seq_wf(new.handles(), height)
        &&& new.handles().len() == old.handles().len()
        &&& o.key == kv.key
        &&& exists|j: int|
            0 <= j < old.leaves().len() && old.leaves()[j] == o && new.leaves()
                == old.leaves().update(j, kv)
    }
    &&& !(r is Replaced) ==> !has_key(old.leaves(), kv.key)
    &&& r is Inserted ==> {
        &&& exists|q: int|
            0 <= q <= old.leaves().len() && new.leaves() == old.leaves().insert(q, kv)
        &&& ((seq_wf(new.handles(), height) && 1 <= new.handles().len() <= 3
            && old.handles().len() <= new.handles().len()) || (depth == 0 && seq_wf(
            new.handles(),
            height + 1,
        ) && new.handles().len() == 2))
    }
    &&& r matches InsertResult::Split(nh) ==> {
        &&& depth > 0
        &&& exists|q: int|
            0 <= q <= old.leaves().len() && new.leaves() + handle_leaves(nh) == old.leaves().insert(
                q,
                kv,
            )
        &&& seq_wf(new.handles(), height)
        &&& new.handles().len() == 2
        &&& handle_wf(nh, height + 1)
        &&& sorted(new.leaves() + handle_leaves(nh))
    }
}

/// `insert_post` for a node whose handles were `oc`: what inserting `kv` into node `old`, `depth` levels below the root,
/// promises of the node afterwards (`new`) and of the result `r`.
pub closed spec fn insert_post_seq<V>(
    oc: Seq<Handle<V>>,
    new: Two3Node<V>,
    kv: KV<u64, V>,
    depth: usize,
    height: nat,
    r: InsertResult<V>,
) -> bool {
    &&& sorted(new.leaves())
    &&& r matches InsertResult::Split(nh) ==> (nh matches Handle::Node(m, _) && m.handles().len() == 2)
    &&& r is Inserted && depth == 0 && oc.len() == 3 && new.handles().len() == 2 ==> forall|j: int|
        0 <= j < 2 ==> (#[trigger] new.handles()[j] matches Handle::Node(m, _) && m.handles().len() == 2)
    &&& r matches InsertResult::Replaced(o) ==> {
        &&& seq_wf(new.handles(), height)
        &&& new.handles().len() == oc.len()
        &&& o.key == kv.key
        &&& exists|j: int|
            0 <= j < seq_leaves(oc).len() && seq_leaves(oc)[j] == o && new.leaves()
                == seq_leaves(oc).update(j, kv)
    }
    &&& !(r is Replaced) ==> !has_key(seq_leaves(oc), kv.key)
    &&& r is Inserted ==> {
        &&& exists|q: int|
            0 <= q <= seq_leaves(oc).len() && new.leaves() == seq_leaves(oc).insert(q, kv)
        &&& ((seq_wf(new.handles(), height) && 1 <= new.handles().len() <= 3
            && oc.len() <= new.handles().len()) || (depth == 0 && seq_wf(
            new.handles(),
            height + 1,
        ) && new.handles().len() == 2))
    }
    &&& r matches InsertResult::Split(nh) ==> {
        &&& depth > 0
        &&& exists|q: int|
            0 <= q <= seq_leaves(oc).len() && new.leaves() + handle_leaves(nh) == seq_leaves(oc).insert(
                q,
                kv,
            )
        &&& seq_wf(new.handles(), height)
        &&& new.handles().len() == 2
        &&& handle_wf(nh, height + 1)
        &&& sorted(new.leaves() + handle_leaves(nh))
    }
}

impl<V> Two3Node<V> {
    /// Inserts `kv` into the subtree rooted at this node, `depth` levels below
    /// the root.
    #[verifier::rlimit(60)]
    #[verifier::spinoff_prover]
    fn _insert<S: KeyLocate>(&mut self, kv: KV<u64, V>, depth: usize, Ghost(height): Ghost<nat>) -> (r:
        InsertResult<V>)
        requires
            height >= 1,
            seq_wf(old(self).handles(), height),
            old(self).handles().len() <= 3,
            height >= 2 ==> old(self).handles().len() >= 1,
            sorted(old(self).leaves()),
            old(self).leaves().len() < u64::MAX,
        ensures
            insert_post(*old(self), *final(self), kv, depth, height, r),
        decreases height, 1nat,
    {
        let ghost c = self.children@;
        let ghost l = seq_leaves(c);
        let k = kv.key;
        let len = self.children.len();
        let res = S::locate(self, k);
        let insert_at: usize;
        let mut handle: Handle<V>;
        let ghost c1: Seq<Handle<V>>;
        match res {
            SearchResult::Leaf(i) => {
                proof {
                    lemma_handle_nonempty(c[i as int], height);
                    lemma_seq_leaves_split(c, i as int);
                    lemma_update_handle(c, i as int, Handle::Leaf(kv));
                    assert(handle_leaves(Handle::Leaf(kv)) == seq![kv]);
                    let pre = seq_leaves(c.take(i as int));
                    assert(l[pre.len() as int] == handle_leaves(c[i as int])[0]);
                    assert(seq_leaves(c.update(i as int, Handle::Leaf(kv))) =~= l.update(
                        pre.len() as int,
                        kv,
                    ));
                    assert forall|a: int, b: int|
                        0 <= a < b < l.len() implies #[trigger] l.update(pre.len() as int, kv)[a].key
                        < #[trigger] l.update(pre.len() as int, kv)[b].key by {
                        assert(l[a].key < l[b].key);
                    }
                }
                let old = take_slot(&mut self.children, i, Handle::Leaf(kv));
                proof {
                    assert forall|j: int| 0 <= j < self.children@.len() implies handle_wf(
                        #[trigger] self.children@[j],
                        height,
                    ) by {
                        if j != i {
                            assert(self.children@[j] == c[j]);
                        }
                    }
                }
                match old {
                    Handle::Leaf(o) => {
                        return InsertResult::Replaced(o);
                    },
                    _ => {
                        proof {
                            assert(false);
                        }
                        return InsertResult::Inserted;
                    },
                }
            },
            SearchResult::Path(i) => {
                proof {
                    lemma_handle_nonempty(c[i as int], height);
                    lemma_sorted_handles(c, height, i as int);
                    lemma_seq_leaves_split(c, i as int);
                    if i > 0 {
                        lemma_take_last(c, height, i as int);
                    }
                }
                let is_leaf = match &self.children[i] {
                    Handle::Leaf(_) => true,
                    _ => false,
                };
                if is_leaf {
                    insert_at = i;
                    handle = Handle::Leaf(kv);
                    proof {
                        c1 = c;
                        let pre = seq_leaves(c.take(i as int));
                        let post = seq_leaves(c.skip(i + 1));
                        let mid = handle_leaves(c[i as int]);
                        lemma_insert_handle(c, i as int, Handle::Leaf(kv));
                        assert(handle_leaves(Handle::Leaf(kv)) == seq![kv]);
                        lemma_seq_leaves_split(c.skip(i as int), 0);
                        assert(c.skip(i as int)[0] == c[i as int]);
                        assert(c.skip(i as int).take(0) =~= Seq::<Handle<V>>::empty());
                        assert(seq_leaves(c.skip(i as int).take(0)) =~= Seq::<KV<u64, V>>::empty());
                        assert(c.skip(i as int).skip(1) =~= c.skip(i + 1));
                        assert(seq_leaves(c.insert(i as int, Handle::Leaf(kv))) =~= l.insert(
                            pre.len() as int,
                            kv,
                        ));
                        assert(l[pre.len() as int] == mid[0]);
                        if i > 0 {
                            assert(l[pre.len() - 1] == pre.last());
                        }
                        lemma_sorted_insert(l, pre.len() as int, kv);
                        lemma_key_location(c, height, i as int, k);
                        assert(handle_leaves(c[i as int]) == seq![c[i as int]->Leaf_0]);
                        assert(!has_key(l, k)) by {
                            if has_key(l, k) {
                                assert(has_key(handle_leaves(c[i as int]), k));
                            }
                        }
                    }
                } else {
                    return self.insert_below::<S>(i, kv, depth, Ghost(height));
                }
            },
            SearchResult::Nothing => {
                insert_at = len;
                handle = Handle::Leaf(kv);
                proof {
                    c1 = c;
                    lemma_key_absent(c, height, k);
                    if len > 0 {
                        lemma_handle_nonempty(c[len - 1], height);
                        lemma_take_last(c, height, len as int);
                        assert(c.take(len as int) =~= c);
                    }
                    lemma_insert_handle(c, len as int, Handle::Leaf(kv));
                    assert(handle_leaves(Handle::Leaf(kv)) == seq![kv]);
                    assert(c.skip(len as int) =~= Seq::<Handle<V>>::empty());
                    assert(seq_leaves(c.skip(len as int)) =~= Seq::<KV<u64, V>>::empty());
                    assert(c.take(len as int) =~= c);
                    assert(seq_leaves(c.insert(len as int, Handle::Leaf(kv))) =~= l.insert(
                        l.len() as int,
                        kv,
                    ));
                    lemma_sorted_insert(l, l.len() as int, kv);
                }
            },
        }
        proof {
            let t = seq_leaves(c1.insert(insert_at as int, handle));
            assert(seq_wf(c1, height));
            assert(sorted(t));
            assert(exists|q: int| 0 <= q <= l.len() && t == l.insert(q, kv));
        }
        let r = self.insert_handle_at(insert_at, handle, depth, Ghost(height));
        proof {
            assert(c1 == c && handle == Handle::Leaf(kv));
            let w = old(self).handles().insert(insert_at as int, Handle::Leaf(kv));
            if r is Split && r->Split_0 is Node {
                assert(self.handles() + r->Split_0->Node_0.handles() =~= w);
            }
            assert(0 <= insert_at <= old(self).handles().len());
        }
        r
    }

    /// Inserts `kv` below handle `i`, a node, which the search selected.
    #[verifier::rlimit(80)]
    fn insert_below<S: KeyLocate>(&mut self, i: usize, kv: KV<u64, V>, depth: usize, Ghost(height): Ghost<nat>) -> (r:
        InsertResult<V>)
        requires
            height >= 2,
            seq_wf(old(self).handles(), height),
            old(self).handles().len() <= 3,
            sorted(old(self).leaves()),
            old(self).leaves().len() < u64::MAX,
            i < old(self).handles().len(),
            old(self).handles()[i as int] is Node,
            forall|j: int| 0 <= j < i ==> hmax(#[trigger] old(self).handles()[j]) < kv.key,
            hmax(old(self).handles()[i as int]) >= kv.key || (i == old(self).handles().len() - 1
                && hmax(old(self).handles()[i as int]) < kv.key),
        ensures
            insert_post(*old(self), *final(self), kv, depth, height, r),
        decreases height, 0nat,
    {
        let ghost c = self.children@;
        let ghost l = seq_leaves(c);
        proof {
            lemma_handle_nonempty(c[i as int], height);
            lemma_sorted_handles(c, height, i as int);
            lemma_seq_leaves_split(c, i as int);
            lemma_seq_leaves_nonempty(c, height);
        }
        let taken = take_slot(&mut self.children, i, Handle::Empty);
        let mut n = match taken {
            Handle::Node(b, _) => *b,
            _ => {
                proof {
                    assert(false);
                }
                return InsertResult::Inserted;
            },
        };
        let ghost ln = n.leaves();
        proof {
            assert(handle_wf(c[i as int], height));
            assert(ln == handle_leaves(c[i as int]));
        }
        let ghost n_old = n;
        let ghost kv_g = kv;
        let d1 = depth.saturating_add(1);
        let res2 = n._insert::<S>(kv, d1, Ghost((height - 1) as nat));
        proof {
            assert(insert_post(n_old, n, kv, d1, (height - 1) as nat, res2));
            assert(n_old.leaves() == ln);
        }
        proof {
            lemma_child_not_present(c, height, i as int, kv.key);
            assert(self.handles() =~= c.update(i as int, Handle::Empty));
            assert(handle_wf(c[i as int], height));
        }
        self.finish_child(i, n, res2, Ghost(kv_g), depth, Ghost(height), Ghost(c), Ghost(n_old))
    }

    /// Puts back child `i` after inserting into it, according to what the
    /// insertion did.
    fn finish_child(
        &mut self,
        i: usize,
        n: Two3Node<V>,
        res: InsertResult<V>,
        Ghost(kv): Ghost<KV<u64, V>>,
        depth: usize,
        Ghost(height): Ghost<nat>,
        Ghost(c): Ghost<Seq<Handle<V>>>,
        Ghost(n_old): Ghost<Two3Node<V>>,
    ) -> (r: InsertResult<V>)
        requires
            height >= 2,
            seq_wf(c, height),
            c.len() <= 3,
            sorted(seq_leaves(c)),
            seq_leaves(c).len() < u64::MAX,
            i < c.len(),
            c[i as int] == Handle::Node(Box::new(n_old), c[i as int]->Node_1),
            forall|j: int| 0 <= j < i ==> hmax(#[trigger] c[j]) < kv.key,
            hmax(c[i as int]) >= kv.key || (i == c.len() - 1 && hmax(c[i as int]) < kv.key),
            old(self).handles() == c.update(i as int, Handle::Empty),
            insert_post(n_old, n, kv, depth.saturating_add(1) as usize, (height - 1) as nat, res),
            has_key(seq_leaves(c), kv.key) ==> has_key(n_old.leaves(), kv.key),
        ensures
            insert_post_seq(c, *final(self), kv, depth, height, r),
    {
        let ghost ln = n_old.leaves();
        proof {
            assert(handle_wf(c[i as int], height));
            assert(ln == handle_leaves(c[i as int]));
            lemma_seq_leaves_split(c, i as int);
        }
        match res {
            InsertResult::Replaced(o) => {
                proof {
                    let j = choose|j: int|
                        0 <= j < ln.len() && ln[j] == o && n.leaves() == ln.update(j, kv);
                }
                self.finish_replaced(i, n, o, Ghost(kv), depth, Ghost(height), Ghost(c))
            },
            InsertResult::Inserted => {
                proof {
                    let q = choose|q: int| 0 <= q <= ln.len() && n.leaves() == ln.insert(q, kv);
                    assert(n.leaves().len() == ln.len() + 1);
                    assert(!has_key(seq_leaves(c), kv.key));
                }
                self.finish_inserted(i, n, Ghost(kv), depth, Ghost(height), Ghost(c))
            },
            InsertResult::Split(nh2) => {
                proof {
                    assert(exists|q: int|
                        0 <= q <= ln.len() && n.leaves() + handle_leaves(nh2) == ln.insert(q, kv));
                    assert(!has_key(seq_leaves(c), kv.key));
                }
                self.finish_split(i, n, nh2, Ghost(kv), depth, Ghost(height), Ghost(c), Ghost(ln))
            },
        }
    }

    /// Puts back child `i`, in which a pair was replaced.
    fn finish_replaced(
        &mut self,
        i: usize,
        n: Two3Node<V>,
        o: KV<u64, V>,
        Ghost(kv): Ghost<KV<u64, V>>,
        depth: usize,
        Ghost(height): Ghost<nat>,
        Ghost(c): Ghost<Seq<Handle<V>>>,
    ) -> (r: InsertResult<V>)
        requires
            height >= 2,
            seq_wf(c, height),
            c.len() <= 3,
            sorted(seq_leaves(c)),
            seq_leaves(c).len() < u64::MAX,
            i < c.len(),
            c[i as int] is Node,
            old(self).handles() == c.update(i as int, Handle::Empty),
            o.key == kv.key,
            exists|j: int|
                0 <= j < handle_leaves(c[i as int]).len() && handle_leaves(c[i as int])[j] == o
                    && n.leaves() == handle_leaves(c[i as int]).update(j, kv),
            seq_wf(n.handles(), (height - 1) as nat),
            2 <= n.handles().len() <= 3,
            sorted(n.leaves()),
        ensures
            r == InsertResult::Replaced(o),
            insert_post_seq(c, *final(self), kv, depth, height, r),
    {
        let ghost l = seq_leaves(c);
        let ghost ln = handle_leaves(c[i as int]);
        proof {
            lemma_seq_leaves_split(c, i as int);
        }
        let ann = n.annotation(Ghost((height - 1) as nat));
        let ghost nh = Handle::Node(Box::new(n), ann);
        self.children.set(i, Handle::Node(Box::new(n), ann));
        proof {
            assert(self.children@ =~= c.update(i as int, nh));
            lemma_update_handle(c, i as int, nh);
            let j = choose|j: int| 0 <= j < ln.len() && ln[j] == o && n.leaves() == ln.update(j, kv);
            lemma_child_replaced(c, height, i as int, kv, j);
            lemma_wf_update(c, height, i as int, nh);
            let pre = seq_leaves(c.take(i as int));
            assert(l[pre.len() + j] == o);
            assert(self.leaves() == l.update(pre.len() + j, kv));
        }
        InsertResult::Replaced(o)
    }

    /// Puts back child `i`, into which a pair was inserted without a split.
    fn finish_inserted(
        &mut self,
        i: usize,
        n: Two3Node<V>,
        Ghost(kv): Ghost<KV<u64, V>>,
        depth: usize,
        Ghost(height): Ghost<nat>,
        Ghost(c): Ghost<Seq<Handle<V>>>,
    ) -> (r: InsertResult<V>)
        requires
            height >= 2,
            seq_wf(c, height),
            c.len() <= 3,
            sorted(seq_leaves(c)),
            seq_leaves(c).len() < u64::MAX,
            i < c.len(),
            c[i as int] is Node,
            forall|j: int| 0 <= j < i ==> hmax(#[trigger] c[j]) < kv.key,
            hmax(c[i as int]) >= kv.key || (i == c.len() - 1 && hmax(c[i as int]) < kv.key),
            old(self).handles() == c.update(i as int, Handle::Empty),
            exists|q: int|
                0 <= q <= handle_leaves(c[i as int]).len() && n.leaves() == handle_leaves(
                    c[i as int],
                ).insert(q, kv),
            seq_wf(n.handles(), (height - 1) as nat),
            2 <= n.handles().len() <= 3,
            sorted(n.leaves()),
            !has_key(seq_leaves(c), kv.key),
        ensures
            r == InsertResult::<V>::Inserted,
            insert_post_seq(c, *final(self), kv, depth, height, r),
    {
        let ghost l = seq_leaves(c);
        let ghost ln = handle_leaves(c[i as int]);
        proof {
            lemma_seq_leaves_split(c, i as int);
            let q = choose|q: int| 0 <= q <= ln.len() && n.leaves() == ln.insert(q, kv);
            assert(n.leaves().len() == ln.len() + 1);
        }
        let ann = n.annotation(Ghost((height - 1) as nat));
        let ghost nh = Handle::Node(Box::new(n), ann);
        self.children.set(i, Handle::Node(Box::new(n), ann));
        proof {
            assert(self.children@ =~= c.update(i as int, nh));
            lemma_update_handle(c, i as int, nh);
            let q = choose|q: int| 0 <= q <= ln.len() && n.leaves() == ln.insert(q, kv);
            lemma_child_inserted(c, height, i as int, kv, n.leaves(), q);
            lemma_wf_update(c, height, i as int, nh);
        }
        InsertResult::Inserted
    }

    /// Puts back node `n`, the lower half of the split child `i`, and inserts
    /// the upper half `nh2` after it.
    #[verifier::rlimit(40)]
    fn finish_split(
        &mut self,
        i: usize,
        n: Two3Node<V>,
        nh2: Handle<V>,
        Ghost(kv): Ghost<KV<u64, V>>,
        depth: usize,
        Ghost(height): Ghost<nat>,
        Ghost(c): Ghost<Seq<Handle<V>>>,
        Ghost(ln): Ghost<Seq<KV<u64, V>>>,
    ) -> (r: InsertResult<V>)
        requires
            height >= 2,
            seq_wf(c, height),
            c.len() <= 3,
            sorted(seq_leaves(c)),
            seq_leaves(c).len() < u64::MAX,
            i < c.len(),
            c[i as int] is Node,
            forall|j: int| 0 <= j < i ==> hmax(#[trigger] c[j]) < kv.key,
            hmax(c[i as int]) >= kv.key || (i == c.len() - 1 && hmax(c[i as int]) < kv.key),
            old(self).handles() == c.update(i as int, Handle::Empty),
            ln == handle_leaves(c[i as int]),
            exists|q: int| 0 <= q <= ln.len() && n.leaves() + handle_leaves(nh2) == ln.insert(q, kv),
            seq_wf(n.handles(), (height - 1) as nat),
            n.handles().len() == 2,
            handle_wf(nh2, height),
            sorted(n.leaves() + handle_leaves(nh2)),
            !has_key(seq_leaves(c), kv.key),
        ensures
            insert_post_seq(c, *final(self), kv, depth, height, r),
    {
        proof {
            assert(exists|q: int|
                0 <= q <= ln.len() && n.leaves() + handle_leaves(nh2) == ln.insert(q, kv));
            let q = choose|q: int|
                0 <= q <= ln.len() && n.leaves() + handle_leaves(nh2) == ln.insert(q, kv);
            assert((n.leaves() + handle_leaves(nh2)).len() == ln.len() + 1);
            lemma_seq_leaves_split(c, i as int);
            assert(sorted(n.leaves())) by {
                let a = n.leaves();
                let t = a + handle_leaves(nh2);
                assert forall|x: int, y: int| 0 <= x < y < a.len() implies #[trigger] a[x].key
                    < #[trigger] a[y].key by {
                    assert(t[x] == a[x] && t[y] == a[y]);
                }
            }
        }
        let ann = n.annotation(Ghost((height - 1) as nat));
        let ghost nh = Handle::Node(Box::new(n), ann);
        self.children.set(i, Handle::Node(Box::new(n), ann));
        proof {
            let c1 = self.children@;
            assert(c1 =~= c.update(i as int, nh));
            let q = choose|q: int|
                0 <= q <= ln.len() && n.leaves() + handle_leaves(nh2) == ln.insert(q, kv);
            let c2 = c1.insert(i + 1, nh2);
            assert(c2 =~= c.take(i as int) + seq![nh, nh2] + c.skip(i + 1));
            lemma_seq_leaves_concat(c.take(i as int) + seq![nh, nh2], c.skip(i + 1));
            lemma_seq_leaves_concat(c.take(i as int), seq![nh, nh2]);
            assert(seq![nh, nh2].drop_last() =~= seq![nh]);
            lemma_seq_leaves_single(nh);
            lemma_child_inserted(c, height, i as int, kv, n.leaves() + handle_leaves(nh2), q);
            lemma_wf_update(c, height, i as int, nh);
        }
        self.insert_handle_at(i + 1, nh2, depth, Ghost(height))
    }
}

/// Handle `i` keeps height `height` after it is replaced by `x` of that height.
pub proof fn lemma_wf_update<V>(c: Seq<Handle<V>>, height: nat, i: int, x: Handle<V>)
    requires
        seq_wf(c, height),
        0 <= i < c.len(),
        handle_wf(x, height),
    ensures
        seq_wf(c.update(i, x), height),
{
    assert forall|j: int| 0 <= j < c.len() implies handle_wf(#[trigger] c.update(i, x)[j], height) by {
        if j != i {
            assert(c.update(i, x)[j] == c[j]);
        }
    }
}

/// When the search picked node `i`, the key can only be below it.
pub proof fn lemma_child_not_present<V>(c: Seq<Handle<V>>, height: nat, i: int, k: u64)
    requires
        seq_wf(c, height),
        sorted(seq_leaves(c)),
        0 <= i < c.len(),
        forall|j: int| 0 <= j < i ==> hmax(#[trigger] c[j]) < k,
        hmax(c[i]) >= k || (i == c.len() - 1 && hmax(c[i]) < k),
    ensures
        has_key(seq_leaves(c), k) ==> has_key(handle_leaves(c[i]), k),
{
    if hmax(c[i]) >= k {
        lemma_key_location(c, height, i, k);
    } else {
        lemma_key_absent(c, height, k);
    }
}

/// Replacing a pair below node `i` replaces it in the whole sequence.
pub proof fn lemma_child_replaced<V>(c: Seq<Handle<V>>, height: nat, i: int, kv: KV<u64, V>, j: int)
    requires
        seq_wf(c, height),
        sorted(seq_leaves(c)),
        0 <= i < c.len(),
        0 <= j < handle_leaves(c[i]).len(),
        handle_leaves(c[i])[j].key == kv.key,
    ensures
        ({
            let pre = seq_leaves(c.take(i));
            let post = seq_leaves(c.skip(i + 1));
            let l = seq_leaves(c);
            &&& pre + handle_leaves(c[i]).update(j, kv) + post == l.update(pre.len() + j, kv)
            &&& l[pre.len() + j] == handle_leaves(c[i])[j]
            &&& sorted(l.update(pre.len() + j, kv))
            &&& 0 <= pre.len() + j < l.len()
        }),
{
    lemma_seq_leaves_split(c, i);
    let pre = seq_leaves(c.take(i));
    let post = seq_leaves(c.skip(i + 1));
    let l = seq_leaves(c);
    let ln = handle_leaves(c[i]);
    assert(pre + ln.update(j, kv) + post =~= l.update(pre.len() + j, kv));
    assert(l[pre.len() + j] == ln[j]);
    assert forall|a: int, b: int| 0 <= a < b < l.len() implies #[trigger] l.update(
        pre.len() + j,
        kv,
    )[a].key < #[trigger] l.update(pre.len() + j, kv)[b].key by {
        assert(l[a].key < l[b].key);
    }
}

/// Inserting a pair below node `i`, which the search selected, inserts it in
/// the whole sorted sequence.
pub proof fn lemma_child_inserted<V>(
    c: Seq<Handle<V>>,
    height: nat,
    i: int,
    kv: KV<u64, V>,
    ln2: Seq<KV<u64, V>>,
    q: int,
)
    requires
        seq_wf(c, height),
        sorted(seq_leaves(c)),
        0 <= i < c.len(),
        forall|j: int| 0 <= j < i ==> hmax(#[trigger] c[j]) < kv.key,
        hmax(c[i]) >= kv.key || (i == c.len() - 1 && hmax(c[i]) < kv.key),
        0 <= q <= handle_leaves(c[i]).len(),
        ln2 == handle_leaves(c[i]).insert(q, kv),
        sorted(ln2),
    ensures
        ({
            let pre = seq_leaves(c.take(i));
            let post = seq_leaves(c.skip(i + 1));
            let l = seq_leaves(c);
            &&& pre + ln2 + post == l.insert(pre.len() + q, kv)
            &&& sorted(pre + ln2 + post)
            &&& 0 <= pre.len() + q <= l.len()
        }),
{
    lemma_seq_leaves_split(c, i);
    lemma_sorted_handles(c, height, i);
    lemma_handle_nonempty(c[i], height);
    if i > 0 {
        lemma_take_last(c, height, i);
    }
    let pre = seq_leaves(c.take(i));
    let post = seq_leaves(c.skip(i + 1));
    let l = seq_leaves(c);
    let ln = handle_leaves(c[i]);
    let k = kv.key;
    assert(pre + ln2 + post =~= l.insert(pre.len() + q, kv));
    if i > 0 {
        assert(pre.last().key < k);
        lemma_all_below(pre, k);
    } else {
        assert(c.take(0) =~= Seq::<Handle<V>>::empty());
        assert(pre =~= Seq::<KV<u64, V>>::empty());
    }
    if hmax(c[i]) < k {
        assert(c.skip(i + 1).len() == 0);
        assert(seq_leaves(c.skip(i + 1)) =~= Seq::<KV<u64, V>>::empty());
    }
    lemma_insert_between(pre, ln, post, kv, q, l);
}

/// In a sorted sequence whose last key is below `k`, all keys are.
pub proof fn lemma_all_below<V>(s: Seq<KV<u64, V>>, k: u64)
    requires
        sorted(s),
        s.len() > 0,
        s.last().key < k,
    ensures
        forall|a: int| 0 <= a < s.len() ==> #[trigger] s[a].key < k,
{
    assert forall|a: int| 0 <= a < s.len() implies #[trigger] s[a].key < k by {
        if a < s.len() - 1 {
            assert(s[a].key < s[s.len() - 1].key);
        }
    }
}

/// Inserting `kv` into the middle run keeps `pre + mid + post` sorted when
/// `kv` lies above `pre` and below `post`.
pub proof fn lemma_insert_between<V>(
    pre: Seq<KV<u64, V>>,
    mid: Seq<KV<u64, V>>,
    post: Seq<KV<u64, V>>,
    kv: KV<u64, V>,
    q: int,
    l: Seq<KV<u64, V>>,
)
    requires
        l == pre + mid + post,
        sorted(l),
        sorted(mid.insert(q, kv)),
        0 <= q <= mid.len(),
        forall|a: int| 0 <= a < pre.len() ==> #[trigger] pre[a].key < kv.key,
        forall|b: int| 0 <= b < post.len() ==> kv.key < #[trigger] post[b].key,
    ensures
        sorted(pre + mid.insert(q, kv) + post),
{
    let ln2 = mid.insert(q, kv);
    assert forall|a: int, j: int| 0 <= a < pre.len() && 0 <= j < mid.len() implies #[trigger] pre[a].key
        < #[trigger] mid[j].key by {
        assert(l[a] == pre[a]);
        assert(l[pre.len() + j] == mid[j]);
    }
    assert forall|j: int, b: int| 0 <= j < mid.len() && 0 <= b < post.len() implies #[trigger] mid[j].key
        < #[trigger] post[b].key by {
        assert(l[pre.len() + j] == mid[j]);
        assert(l[pre.len() + mid.len() + b] == post[b]);
    }
    assert forall|a: int, b: int| 0 <= a < pre.len() && 0 <= b < ln2.len() implies #[trigger] pre[a].key
        < #[trigger] ln2[b].key by {
        if b < q {
            assert(ln2[b] == mid[b]);
        } else if b > q {
            assert(ln2[b] == mid[b - 1]);
        }
    }
    assert forall|a: int, b: int| 0 <= a < ln2.len() && 0 <= b < post.len() implies #[trigger] ln2[a].key
        < #[trigger] post[b].key by {
        if a < q {
            assert(ln2[a] == mid[a]);
        } else if a > q {
            assert(ln2[a] == mid[a - 1]);
        }
    }
    assert forall|a: int, b: int| 0 <= a < pre.len() && 0 <= b < post.len() implies #[trigger] pre[a].key
        < #[trigger] post[b].key by {
        assert(l[a] == pre[a]);
        assert(l[pre.len() + mid.len() + b] == post[b]);
    }
    assert(sorted(pre)) by {
        assert forall|x: int, y: int| 0 <= x < y < pre.len() implies #[trigger] pre[x].key
            < #[trigger] pre[y].key by {
            assert(l[x] == pre[x] && l[y] == pre[y]);
        }
    }
    assert(sorted(post)) by {
        assert forall|x: int, y: int| 0 <= x < y < post.len() implies #[trigger] post[x].key
            < #[trigger] post[y].key by {
            assert(l[pre.len() + mid.len() + x] == post[x] && l[pre.len() + mid.len() + y]
                == post[y]);
        }
    }
    lemma_sorted3(pre, ln2, post);
}

/// Removing a pair from a sorted sequence keeps it sorted.
pub proof fn lemma_sorted_remove<V>(l: Seq<KV<u64, V>>, j: int)
    requires
        sorted(l),
        0 <= j < l.len(),
    ensures
        sorted(l.remove(j)),
{
    let t = l.remove(j);
    assert forall|a: int, b: int| 0 <= a < b < t.len() implies #[trigger] t[a].key
        < #[trigger] t[b].key by {
        let a0 = if a < j { a } else { a + 1 };
        let b0 = if b < j { b } else { b + 1 };
        assert(t[a] == l[a0] && t[b] == l[b0]);
    }
}

/// A contiguous run of a sorted sequence is sorted.
pub proof fn lemma_sorted_sub<V>(l: Seq<KV<u64, V>>, a: Seq<KV<u64, V>>, off: int)
    requires
        sorted(l),
        0 <= off,
        off + a.len() <= l.len(),
        forall|x: int| 0 <= x < a.len() ==> #[trigger] a[x] == l[off + x],
    ensures
        sorted(a),
{
    assert forall|x: int, y: int| 0 <= x < y < a.len() implies #[trigger] a[x].key
        < #[trigger] a[y].key by {
        assert(a[x] == l[off + x] && a[y] == l[off + y]);
    }
}

/// Child `i` of handles `oc`, a node, lost a pair and stayed a node of its
/// own: handles `f` differ from `oc` in handle `i` only.
pub closed spec fn child_kept<V>(oc: Seq<Handle<V>>, f: Seq<Handle<V>>, i: int) -> bool {
    &&& 0 <= i < oc.len()
    &&& oc[i] is Node
    &&& f.len() == oc.len()
    &&& f == oc.update(i, f[i])
    &&& f[i] is Node
}

/// Child `i` of handles `oc`, left with the single handle `nc`, was
/// rebalanced with its neighbour (the one before it where there is one, else
/// the one after) into handles `f`. The two children's handles, in order,
/// make four, split two and two over two nodes, or three, in one node; a
/// root (`depth == 0`) left with that one node is replaced by it.
pub closed spec fn sibling_layout<V>(
    oc: Seq<Handle<V>>,
    f: Seq<Handle<V>>,
    i: int,
    nc: Seq<Handle<V>>,
    depth: usize,
) -> bool {
    let lo: int = if i > 0 {
        i - 1
    } else {
        0
    };
    let sib = oc[if i > 0 {
        i - 1
    } else {
        1
    }]->Node_0;
    let run = if i > 0 {
        sib.handles() + nc
    } else {
        nc + sib.handles()
    };
    &&& 0 <= i < oc.len()
    &&& nc.len() == 1
    &&& run.len() == 4 ==> f == oc.take(lo) + seq![f[lo], f[lo + 1]] + oc.skip(lo + 2) && (f[lo] matches Handle::Node(
        m,
        _,
    ) && m.handles() == run.take(2)) && (f[lo + 1] matches Handle::Node(m, _) && m.handles() == run.skip(
        2,
    ))
    &&& run.len() == 3 && (oc.len() == 3 || depth > 0) ==> f == oc.take(lo) + seq![f[lo]] + oc.skip(
        lo + 2,
    ) && (f[lo] matches Handle::Node(m, _) && m.handles() == run)
    &&& run.len() == 3 && oc.len() == 2 && depth == 0 ==> f == run
}

/// What removing `k` from a node with handles `oc`, `depth` levels below the
/// root, promises of the node afterwards (`new`) and of the result `r`.
pub closed spec fn remove_post_seq<V>(
    oc: Seq<Handle<V>>,
    new: Two3Node<V>,
    k: u64,
    depth: usize,
    height: nat,
    r: RemoveResult<V>,
) -> bool {
    let l = seq_leaves(oc);
    &&& sorted(new.leaves())
    &&& height >= 2 && !(r is Noop) ==> (exists|i: int| #[trigger] child_kept(oc, new.handles(), i))
        || (exists|i: int, nc: Seq<Handle<V>>| #[trigger] sibling_layout(oc, new.handles(), i, nc, depth))
    &&& height == 1 && r is Noop ==> new.handles() == oc
    &&& height == 1 ==> (r matches RemoveResult::Removed(kv) ==> exists|j: int|
        0 <= j < oc.len() && oc[j] == Handle::Leaf(kv) && new.handles() == oc.remove(j))
    &&& height == 1 ==> (r matches RemoveResult::Merge(kv) ==> exists|j: int|
        0 <= j < oc.len() && oc[j] == Handle::Leaf(kv) && new.handles() == oc.remove(j))
    &&& r is Noop ==> {
        &&& !has_key(l, k)
        &&& new.leaves() == l
        &&& seq_wf(new.handles(), height)
        &&& new.handles().len() == oc.len()
    }
    &&& r matches RemoveResult::Removed(kv) ==> {
        &&& kv.key == k
        &&& exists|j: int| 0 <= j < l.len() && l[j] == kv && new.leaves() == l.remove(j)
        &&& ((seq_wf(new.handles(), height) && new.handles().len() <= 3 && (depth > 0 ==> 2
            <= new.handles().len()) && (height >= 2 ==> new.handles().len() >= 2)) || (depth == 0
            && height >= 2 && seq_wf(new.handles(), (height - 1) as nat) && new.handles().len()
            <= 3 && (height >= 3 ==> new.handles().len() >= 2)))
    }
    &&& r matches RemoveResult::Merge(kv) ==> {
        &&& depth > 0
        &&& kv.key == k
        &&& exists|j: int| 0 <= j < l.len() && l[j] == kv && new.leaves() == l.remove(j)
        &&& seq_wf(new.handles(), height)
        &&& new.handles().len() == 1
    }
}

/// The pairs of a one- or two-handle sequence.
pub proof fn lemma_seq_leaves_two<V>(x: Handle<V>, y: Handle<V>)
    ensures
        seq_leaves(seq![x, y]) == handle_leaves(x) + handle_leaves(y),
{
    assert(seq![x, y].drop_last() =~= seq![x]);
    lemma_seq_leaves_single(x);
}

impl<V> Two3Node<V> {
    /// Removes `k` from the subtree rooted at this node, `depth` levels below
    /// the root.
    #[verifier::rlimit(60)]
    fn _remove<S: KeyLocate>(&mut self, k: u64, depth: usize, Ghost(height): Ghost<nat>) -> (r: RemoveResult<V>)
        requires
            height >= 1,
            seq_wf(old(self).handles(), height),
            old(self).handles().len() <= 3,
            depth > 0 ==> 2 <= old(self).handles().len(),
            height >= 2 ==> 2 <= old(self).handles().len(),
            sorted(old(self).leaves()),
            old(self).leaves().len() <= u64::MAX,
        ensures
            remove_post_seq(old(self).handles(), *final(self), k, depth, height, r),
        decreases height, 1nat,
    {
        let ghost c = self.children@;
        let ghost l = seq_leaves(c);
        let res = S::locate(self, k);
        match res {
            SearchResult::Leaf(i) => {
                proof {
                    lemma_handle_nonempty(c[i as int], height);
                    lemma_seq_leaves_split(c, i as int);
                    let pre = seq_leaves(c.take(i as int));
                    assert(c.remove(i as int) =~= c.take(i as int) + c.skip(i + 1));
                    lemma_seq_leaves_concat(c.take(i as int), c.skip(i + 1));
                    assert(seq_leaves(c.remove(i as int)) =~= l.remove(pre.len() as int));
                    assert(l[pre.len() as int] == c[i as int]->Leaf_0);
                    lemma_sorted_remove(l, pre.len() as int);
                    assert forall|j: int| 0 <= j < c.len() - 1 implies handle_wf(
                        #[trigger] c.remove(i as int)[j],
                        height,
                    ) by {
                        if j < i {
                            assert(c.remove(i as int)[j] == c[j]);
                        } else {
                            assert(c.remove(i as int)[j] == c[j + 1]);
                        }
                    }
                }
                let removed = self.children.remove(i);
                let leaf = match removed {
                    Handle::Leaf(kv) => kv,
                    _ => {
                        proof {
                            assert(false);
                        }
                        return RemoveResult::Noop;
                    },
                };
                if self.children.len() < N && depth > 0 {
                    RemoveResult::Merge(leaf)
                } else {
                    RemoveResult::Removed(leaf)
                }
            },
            SearchResult::Path(i) => {
                proof {
                    lemma_handle_nonempty(c[i as int], height);
                    lemma_child_not_present(c, height, i as int, k);
                }
                let go_down = match &self.children[i] {
                    Handle::Node(_, ann) => ann.key.0 >= k,
                    _ => false,
                };
                if go_down {
                    self.remove_below::<S>(i, k, depth, Ghost(height))
                } else {
                    proof {
                        if c[i as int] is Node {
                            assert(hmax(c[i as int]) < k);
                            lemma_key_absent(c, height, k);
                        } else {
                            lemma_sorted_handles(c, height, i as int);
                            if has_key(l, k) {
                                assert(has_key(handle_leaves(c[i as int]), k));
                                assert(handle_leaves(c[i as int])[0].key == k);
                            }
                        }
                    }
                    RemoveResult::Noop
                }
            },
            SearchResult::Nothing => {
                proof {
                    lemma_key_absent(c, height, k);
                }
                RemoveResult::Noop
            },
        }
    }

    /// Removes `k` below handle `i`, a node whose maximum key is at least `k`.
    #[verifier::rlimit(80)]
    #[verifier::spinoff_prover]
    fn remove_below<S: KeyLocate>(&mut self, i: usize, k: u64, depth: usize, Ghost(height): Ghost<nat>) -> (r:
        RemoveResult<V>)
        requires
            height >= 2,
            seq_wf(old(self).handles(), height),
            2 <= old(self).handles().len() <= 3,
            sorted(old(self).leaves()),
            old(self).leaves().len() <= u64::MAX,
            i < old(self).handles().len(),
            old(self).handles()[i as int] is Node,
            hmax(old(self).handles()[i as int]) >= k,
            has_key(old(self).leaves(), k) ==> has_key(handle_leaves(old(self).handles()[i as int]), k),
        ensures
            remove_post_seq(old(self).handles(), *final(self), k, depth, height, r),
        decreases height, 0nat,
    {
        let ghost c = self.children@;
        let ghost l = seq_leaves(c);
        proof {
            lemma_seq_leaves_split(c, i as int);
            lemma_sorted_handles(c, height, i as int);
            assert(handle_wf(c[i as int], height));
        }
        let taken = take_slot(&mut self.children, i, Handle::Empty);
        let (mut n, old_ann) = match taken {
            Handle::Node(b, a) => (*b, a),
            _ => {
                proof {
                    assert(false);
                }
                return RemoveResult::Noop;
            },
        };
        let ghost ln = n.leaves();
        let ghost n_old = n;
        let d1 = depth.saturating_add(1);
        let res = n._remove::<S>(k, d1, Ghost((height - 1) as nat));
        proof {
            assert(n_old.handles() == n_old.children@);
            assert(remove_post_seq(n_old.children@, n, k, d1, (height - 1) as nat, res));
            assert(self.handles() =~= c.update(i as int, Handle::Empty));
        }
        match res {
            RemoveResult::Noop => {
                self.children.set(i, Handle::Node(Box::new(n), old_ann));
                proof {
                    let nh = Handle::Node(Box::new(n), old_ann);
                    assert(self.children@ =~= c.update(i as int, nh));
                    lemma_update_handle(c, i as int, nh);
                    lemma_wf_update(c, height, i as int, nh);
                }
                RemoveResult::Noop
            },
            RemoveResult::Removed(leaf) => {
                proof {
                    let j = choose|j: int| 0 <= j < ln.len() && ln[j] == leaf && n.leaves() == ln.remove(j);
                    lemma_seq_leaves_split(c, i as int);
                }
                self.finish_removed(i, n, leaf, Ghost(k), depth, Ghost(height), Ghost(c))
            },
            RemoveResult::Merge(leaf) => {
                proof {
                    let j = choose|j: int| 0 <= j < ln.len() && ln[j] == leaf && n.leaves() == ln.remove(j);
                    let pre = seq_leaves(c.take(i as int));
                    let post = seq_leaves(c.skip(i + 1));
                    assert(pre + n.leaves() + post =~= l.remove(pre.len() + j));
                    assert(l[pre.len() + j] == leaf);
                }
                self.merge_child(i, n, leaf, Ghost(k), depth, Ghost(height), Ghost(c))
            },
        }
    }

    /// Puts back child `i`, from which a pair was removed without underflow.
    fn finish_removed(
        &mut self,
        i: usize,
        n: Two3Node<V>,
        leaf: KV<u64, V>,
        Ghost(k): Ghost<u64>,
        depth: usize,
        Ghost(height): Ghost<nat>,
        Ghost(c): Ghost<Seq<Handle<V>>>,
    ) -> (r: RemoveResult<V>)
        requires
            height >= 2,
            seq_wf(c, height),
            2 <= c.len() <= 3,
            sorted(seq_leaves(c)),
            seq_leaves(c).len() <= u64::MAX,
            i < c.len(),
            c[i as int] is Node,
            old(self).handles() == c.update(i as int, Handle::Empty),
            leaf.key == k,
            exists|j: int|
                0 <= j < handle_leaves(c[i as int]).len() && handle_leaves(c[i as int])[j] == leaf
                    && n.leaves() == handle_leaves(c[i as int]).remove(j),
            seq_wf(n.handles(), (height - 1) as nat),
            2 <= n.handles().len() <= 3,
        ensures
            remove_post_seq(c, *final(self), k, depth, height, r),
            r == RemoveResult::Removed(leaf),
    {
        let ghost l = seq_leaves(c);
        let ghost ln = handle_leaves(c[i as int]);
        let ghost pre = seq_leaves(c.take(i as int));
        let ghost post = seq_leaves(c.skip(i + 1));
        proof {
            lemma_seq_leaves_split(c, i as int);
            let j = choose|j: int| 0 <= j < ln.len() && ln[j] == leaf && n.leaves() == ln.remove(j);
            assert(pre + n.leaves() + post =~= l.remove(pre.len() + j));
            assert(l[pre.len() + j] == leaf);
            lemma_sorted_remove(l, pre.len() + j);
            lemma_sorted_sub(l.remove(pre.len() + j), n.leaves(), pre.len() as int);
        }
        let ann = n.annotation(Ghost((height - 1) as nat));
        let ghost nh = Handle::Node(Box::new(n), ann);
        self.children.set(i, Handle::Node(Box::new(n), ann));
        proof {
            assert(self.children@ =~= c.update(i as int, nh));
            lemma_update_handle(c, i as int, nh);
            lemma_wf_update(c, height, i as int, nh);
            let j = choose|j: int| 0 <= j < ln.len() && ln[j] == leaf && n.leaves() == ln.remove(j);
            assert(self.leaves() == l.remove(pre.len() + j));
            assert(child_kept(c, self.handles(), i as int));
        }
        RemoveResult::Removed(leaf)
    }
}


/// The pairs of a sequence in which the two handles at `lo` and `lo + 1` were
/// replaced by `mid`.
pub proof fn lemma_replace_pair<V>(c: Seq<Handle<V>>, lo: int, mid: Seq<Handle<V>>)
    requires
        0 <= lo,
        lo + 2 <= c.len(),
    ensures
        seq_leaves(c) == seq_leaves(c.take(lo)) + handle_leaves(c[lo]) + handle_leaves(c[lo + 1])
            + seq_leaves(c.skip(lo + 2)),
        seq_leaves(c.take(lo) + mid + c.skip(lo + 2)) == seq_leaves(c.take(lo)) + seq_leaves(mid)
            + seq_leaves(c.skip(lo + 2)),
{
    assert(c =~= c.take(lo) + seq![c[lo], c[lo + 1]] + c.skip(lo + 2));
    lemma_seq_leaves_concat(c.take(lo) + seq![c[lo], c[lo + 1]], c.skip(lo + 2));
    lemma_seq_leaves_concat(c.take(lo), seq![c[lo], c[lo + 1]]);
    lemma_seq_leaves_two(c[lo], c[lo + 1]);
    lemma_seq_leaves_concat(c.take(lo) + mid, c.skip(lo + 2));
    lemma_seq_leaves_concat(c.take(lo), mid);
}

/// Handles of one height stay of that height when two neighbours are
/// replaced by others of the same height.
pub proof fn lemma_wf_replace_pair<V>(c: Seq<Handle<V>>, height: nat, lo: int, mid: Seq<Handle<V>>)
    requires
        seq_wf(c, height),
        seq_wf(mid, height),
        0 <= lo,
        lo + 2 <= c.len(),
    ensures
        seq_wf(c.take(lo) + mid + c.skip(lo + 2), height),
{
    let t = c.take(lo) + mid + c.skip(lo + 2);
    assert forall|x: int| 0 <= x < t.len() implies handle_wf(#[trigger] t[x], height) by {
        if x < lo {
            assert(t[x] == c[x]);
        } else if x < lo + mid.len() {
            assert(t[x] == mid[x - lo]);
        } else {
            assert(t[x] == c[x - mid.len() + 2]);
        }
    }
}

impl<V> Two3Node<V> {
    /// Rebalances two neighbouring nodes, one of which holds a single handle
    /// and the other two or three (`short_is_right` tells which). With three
    /// handles in all they become one node; with four, two nodes of two.
    /// The handles keep their order.
    fn merge_pair(
        left: Two3Node<V>,
        right: Two3Node<V>,
        short_is_right: bool,
        Ghost(height): Ghost<nat>,
    ) -> (r: (Two3Node<V>, Option<Two3Node<V>>))
        requires
            seq_wf(left.handles(), height),
            seq_wf(right.handles(), height),
            short_is_right ==> right.handles().len() == 1 && 2 <= left.handles().len() <= 3,
            !short_is_right ==> left.handles().len() == 1 && 2 <= right.handles().len() <= 3,
        ensures
            seq_wf(r.0.handles(), height),
            r.1 is None ==> r.0.handles() == left.handles() + right.handles() && r.0.handles().len()
                == 3,
            r.1 matches Some(s) ==> {
                &&& r.0.handles() + s.handles() == left.handles() + right.handles()
                &&& r.0.handles().len() == 2
                &&& s.handles().len() == 2
                &&& seq_wf(s.handles(), height)
            },
    {
        let ghost a = left.children@;
        let ghost b = right.children@;
        let mut left = left;
        let mut right = right;
        if short_is_right {
            if left.children.len() == N {
                let popped = right.children.pop().unwrap();
                left.children.push(popped);
                proof {
                    assert(left.children@ =~= a + b);
                    assert forall|x: int| 0 <= x < left.children@.len() implies handle_wf(
                        #[trigger] left.children@[x],
                        height,
                    ) by {
                        if x < a.len() {
                            assert(left.children@[x] == a[x]);
                        } else {
                            assert(left.children@[x] == b[0]);
                        }
                    }
                }
                (left, None)
            } else {
                let popped = left.children.pop().unwrap();
                right.children.insert(0, popped);
                proof {
                    assert(left.children@ + right.children@ =~= a + b);
                    assert forall|x: int| 0 <= x < right.children@.len() implies handle_wf(
                        #[trigger] right.children@[x],
                        height,
                    ) by {
                        if x == 0 {
                            assert(right.children@[x] == a[2]);
                        } else {
                            assert(right.children@[x] == b[0]);
                        }
                    }
                    assert forall|x: int| 0 <= x < left.children@.len() implies handle_wf(
                        #[trigger] left.children@[x],
                        height,
                    ) by {
                        assert(left.children@[x] == a[x]);
                    }
                }
                (left, Some(right))
            }
        } else {
            if right.children.len() == N {
                let popped = left.children.pop().unwrap();
                right.children.insert(0, popped);
                proof {
                    assert(right.children@ =~= a + b);
                    assert forall|x: int| 0 <= x < right.children@.len() implies handle_wf(
                        #[trigger] right.children@[x],
                        height,
                    ) by {
                        if x == 0 {
                            assert(right.children@[x] == a[0]);
                        } else {
                            assert(right.children@[x] == b[x - 1]);
                        }
                    }
                }
                (right, None)
            } else {
                let removed = right.children.remove(0);
                left.children.push(removed);
                proof {
                    assert(left.children@ + right.children@ =~= a + b);
                    assert forall|x: int| 0 <= x < left.children@.len() implies handle_wf(
                        #[trigger] left.children@[x],
                        height,
                    ) by {
                        if x == 0 {
                            assert(left.children@[x] == a[0]);
                        } else {
                            assert(left.children@[x] == b[0]);
                        }
                    }
                    assert forall|x: int| 0 <= x < right.children@.len() implies handle_wf(
                        #[trigger] right.children@[x],
                        height,
                    ) by {
                        assert(right.children@[x] == b[x + 1]);
                    }
                }
                (left, Some(right))
            }
        }
    }

    /// Wraps node `n`, whose pairs are a contiguous run of the sorted
    /// sequence `t`, in a handle of height `height`.
    fn wrap_node(n: Two3Node<V>, Ghost(height): Ghost<nat>, Ghost(t): Ghost<Seq<KV<u64, V>>>, Ghost(
        off,
    ): Ghost<int>) -> (r: Handle<V>)
        requires
            height >= 2,
            seq_wf(n.handles(), (height - 1) as nat),
            2 <= n.handles().len() <= 3,
            sorted(t),
            t.len() <= u64::MAX,
            0 <= off,
            off + n.leaves().len() <= t.len(),
            forall|x: int| 0 <= x < n.leaves().len() ==> #[trigger] n.leaves()[x] == t[off + x],
        ensures
            handle_wf(r, height),
            handle_leaves(r) == n.leaves(),
            r matches Handle::Node(m, _) && *m == n,
    {
        proof {
            lemma_sorted_sub(t, n.leaves(), off);
        }
        let ann = n.annotation(Ghost((height - 1) as nat));
        Handle::Node(Box::new(n), ann)
    }
}


/// The pairs left after a removal below handle `i`, with the neighbour
/// pair of handles at `lo` and `lo + 1` written as two runs `a` and `b`.
pub proof fn lemma_merge_run<V>(
    c: Seq<Handle<V>>,
    i: int,
    lo: int,
    nl: Seq<KV<u64, V>>,
    a: Seq<KV<u64, V>>,
    b: Seq<KV<u64, V>>,
)
    requires
        2 <= c.len(),
        0 <= i < c.len(),
        lo == if i > 0 { i - 1 } else { 0 },
        i > 0 ==> a == handle_leaves(c[i - 1]) && b == nl,
        i == 0 ==> a == nl && b == handle_leaves(c[1]),
    ensures
        seq_leaves(c.take(i)) + nl + seq_leaves(c.skip(i + 1)) == seq_leaves(c.take(lo)) + a + b
            + seq_leaves(c.skip(lo + 2)),
{
    if i > 0 {
        assert(c.take(i) =~= c.take(lo) + seq![c[lo]]);
        lemma_seq_leaves_concat(c.take(lo), seq![c[lo]]);
        lemma_seq_leaves_single(c[lo]);
        assert(c.skip(i + 1) =~= c.skip(lo + 2));
    } else {
        assert(c.take(0) =~= Seq::<Handle<V>>::empty());
        assert(seq_leaves(c.take(0)) =~= Seq::<KV<u64, V>>::empty());
        assert(c.skip(1) =~= seq![c[1]] + c.skip(2));
        lemma_seq_leaves_concat(seq![c[1]], c.skip(2));
        lemma_seq_leaves_single(c[1]);
    }
    assert(seq_leaves(c.take(i)) + nl + seq_leaves(c.skip(i + 1)) =~= seq_leaves(c.take(lo)) + a
        + b + seq_leaves(c.skip(lo + 2)));
}

impl<V> Two3Node<V> {
    /// Fills the two emptied slots `lo` and `lo + 1` with nodes `a` and `b`.
    #[verifier::rlimit(80)]
    #[verifier::spinoff_prover]
    fn put_two(
        &mut self,
        lo: usize,
        a: Two3Node<V>,
        b: Two3Node<V>,
        Ghost(height): Ghost<nat>,
        Ghost(c): Ghost<Seq<Handle<V>>>,
        Ghost(t): Ghost<Seq<KV<u64, V>>>,
    )
        requires
            height >= 2,
            seq_wf(c, height),
            lo + 2 <= c.len(),
            c.len() <= 3,
            old(self).handles() == c.update(lo as int, Handle::Empty).update(lo + 1, Handle::Empty),
            seq_wf(a.handles(), (height - 1) as nat),
            seq_wf(b.handles(), (height - 1) as nat),
            a.handles().len() == 2,
            b.handles().len() == 2,
            sorted(t),
            t.len() <= u64::MAX,
            t == seq_leaves(c.take(lo as int)) + a.leaves() + b.leaves() + seq_leaves(c.skip(lo + 2)),
        ensures
            final(self).leaves() == t,
            seq_wf(final(self).handles(), height),
            final(self).handles().len() == c.len(),
            final(self).handles() == c.take(lo as int) + seq![
                final(self).handles()[lo as int],
                final(self).handles()[lo + 1],
            ] + c.skip(lo + 2),
            final(self).handles()[lo as int] matches Handle::Node(m, _) && *m == a,
            final(self).handles()[lo + 1] matches Handle::Node(m, _) && *m == b,
    {
        let ghost pre = seq_leaves(c.take(lo as int));
        let ghost post = seq_leaves(c.skip(lo + 2));
        let ghost off2: int = (pre.len() + a.leaves().len()) as int;
        proof {
            assert forall|x: int| 0 <= x < a.leaves().len() implies #[trigger] a.leaves()[x] == t[pre.len()
                + x] by {}
            assert forall|x: int| 0 <= x < b.leaves().len() implies #[trigger] b.leaves()[x] == t[off2
                + x] by {}
        }
        let h1 = Two3Node::wrap_node(a, Ghost(height), Ghost(t), Ghost(pre.len() as int));
        let h2 = Two3Node::wrap_node(b, Ghost(height), Ghost(t), Ghost(off2));
        let ghost mid = seq![h1, h2];
        self.children.set(lo, h1);
        self.children.set(lo + 1, h2);
        proof {
            assert(self.children@ =~= c.take(lo as int) + mid + c.skip(lo + 2));
            lemma_replace_pair(c, lo as int, mid);
            lemma_seq_leaves_two(h1, h2);
            assert forall|x: int| 0 <= x < mid.len() implies handle_wf(#[trigger] mid[x], height) by {}
            lemma_wf_replace_pair(c, height, lo as int, mid);
            assert(self.leaves() =~= t);
        }
    }

    /// Fills the emptied slot `lo` with node `a` and drops the emptied slot
    /// `lo + 1`.
    fn put_one(
        &mut self,
        lo: usize,
        a: Two3Node<V>,
        Ghost(height): Ghost<nat>,
        Ghost(c): Ghost<Seq<Handle<V>>>,
        Ghost(t): Ghost<Seq<KV<u64, V>>>,
    )
        requires
            height >= 2,
            seq_wf(c, height),
            lo + 2 <= c.len(),
            c.len() <= 3,
            old(self).handles() == c.update(lo as int, Handle::Empty).update(lo + 1, Handle::Empty),
            seq_wf(a.handles(), (height - 1) as nat),
            a.handles().len() == 3,
            sorted(t),
            t.len() <= u64::MAX,
            t == seq_leaves(c.take(lo as int)) + a.leaves() + seq_leaves(c.skip(lo + 2)),
        ensures
            final(self).leaves() == t,
            seq_wf(final(self).handles(), height),
            final(self).handles().len() == c.len() - 1,
            final(self).handles() == c.take(lo as int) + seq![final(self).handles()[lo as int]] + c.skip(
                lo + 2,
            ),
            final(self).handles()[lo as int] matches Handle::Node(m, _) && *m == a,
    {
        let ghost pre = seq_leaves(c.take(lo as int));
        proof {
            assert forall|x: int| 0 <= x < a.leaves().len() implies #[trigger] a.leaves()[x] == t[pre.len()
                + x] by {}
        }
        let h1 = Two3Node::wrap_node(a, Ghost(height), Ghost(t), Ghost(pre.len() as int));
        let ghost mid = seq![h1];
        self.children.set(lo, h1);
        self.children.remove(lo + 1);
        proof {
            assert(self.children@ =~= c.take(lo as int) + mid + c.skip(lo + 2));
            lemma_replace_pair(c, lo as int, mid);
            lemma_seq_leaves_single(h1);
            assert forall|x: int| 0 <= x < mid.len() implies handle_wf(#[trigger] mid[x], height) by {}
            lemma_wf_replace_pair(c, height, lo as int, mid);
            assert(self.leaves() =~= t);
        }
    }

    /// Replaces a node whose only handle is a node by that node.
    fn collapse_root(&mut self, Ghost(height): Ghost<nat>)
        requires
            height >= 2,
            old(self).handles().len() == 1,
            seq_wf(old(self).handles(), height),
        ensures
            final(self).leaves() == old(self).leaves(),
            seq_wf(final(self).handles(), (height - 1) as nat),
            2 <= final(self).handles().len() <= 3,
            old(self).handles()[0] matches Handle::Node(m, _) && final(self).handles() == m.handles(),
    {
        let ghost c = self.children@;
        proof {
            lemma_handle_nonempty(c[0], height);
            assert(handle_wf(c[0], height));
            lemma_seq_leaves_single(c[0]);
            assert(c =~= seq![c[0]]);
        }
        let single = take_slot(&mut self.children, 0, Handle::Empty);
        match single {
            Handle::Node(b, _) => {
                *self = *b;
            },
            _ => {
                proof {
                    assert(false);
                }
            },
        }
    }

    /// Puts back child `i`, left with a single handle by a removal below it,
    /// by rebalancing it with a neighbour: the one before it where there is
    /// one, else the one after it. Where the two make one node, the parent
    /// loses a handle; a root left with one handle is replaced by that
    /// handle's node.
    #[verifier::rlimit(40)]
    fn merge_child(
        &mut self,
        i: usize,
        n: Two3Node<V>,
        leaf: KV<u64, V>,
        Ghost(k): Ghost<u64>,
        depth: usize,
        Ghost(height): Ghost<nat>,
        Ghost(c): Ghost<Seq<Handle<V>>>,
    ) -> (r: RemoveResult<V>)
        requires
            height >= 2,
            seq_wf(c, height),
            2 <= c.len() <= 3,
            sorted(seq_leaves(c)),
            seq_leaves(c).len() <= u64::MAX,
            i < c.len(),
            old(self).handles() == c.update(i as int, Handle::Empty),
            leaf.key == k,
            exists|p: int|
                0 <= p < seq_leaves(c).len() && seq_leaves(c)[p] == leaf && seq_leaves(
                    c.take(i as int),
                ) + n.leaves() + seq_leaves(c.skip(i + 1)) == seq_leaves(c).remove(p),
            seq_wf(n.handles(), (height - 1) as nat),
            n.handles().len() == 1,
        ensures
            remove_post_seq(c, *final(self), k, depth, height, r),
            sibling_layout(c, final(self).handles(), i as int, n.handles(), depth),
    {
        let ghost l = seq_leaves(c);
        let ghost p = choose|p: int|
            0 <= p < seq_leaves(c).len() && seq_leaves(c)[p] == leaf && seq_leaves(c.take(i as int))
                + n.leaves() + seq_leaves(c.skip(i + 1)) == seq_leaves(c).remove(p);
        let ghost t = l.remove(p);
        proof {
            lemma_sorted_remove(l, p);
        }
        let lo: usize = if i > 0 { i - 1 } else { 0 };
        let j: usize = if i > 0 { i - 1 } else { 1 };
        proof {
            lemma_handle_nonempty(c[j as int], height);
            assert(handle_wf(c[j as int], height));
        }
        let sib_h = take_slot(&mut self.children, j, Handle::Empty);
        let sib = match sib_h {
            Handle::Node(b, _) => *b,
            _ => {
                proof {
                    assert(false);
                }
                return RemoveResult::Noop;
            },
        };
        proof {
            assert(handle_leaves(c[j as int]) == sib.leaves());
            assert(seq_wf(sib.handles(), (height - 1) as nat));
            assert(self.children@ =~= c.update(lo as int, Handle::Empty).update(lo + 1, Handle::Empty));
        }
        let ghost left_l = if i > 0 { sib.leaves() } else { n.leaves() };
        let ghost right_l = if i > 0 { n.leaves() } else { sib.leaves() };
        let ghost left_h = if i > 0 { sib.handles() } else { n.handles() };
        let ghost right_h = if i > 0 { n.handles() } else { sib.handles() };
        let ghost pre = seq_leaves(c.take(lo as int));
        let ghost post = seq_leaves(c.skip(lo + 2));
        proof {
            lemma_merge_run(c, i as int, lo as int, n.leaves(), left_l, right_l);
            lemma_seq_leaves_concat(left_h, right_h);
            assert(t == pre + left_l + right_l + post);
        }
        let (first, second) = if i > 0 {
            Two3Node::merge_pair(sib, n, true, Ghost((height - 1) as nat))
        } else {
            Two3Node::merge_pair(n, sib, false, Ghost((height - 1) as nat))
        };
        let r = match second {
            Some(s) => {
                proof {
                    assert(first.handles() + s.handles() == left_h + right_h);
                    lemma_seq_leaves_concat(first.handles(), s.handles());
                    assert(first.leaves() + s.leaves() == left_l + right_l);
                    assert(pre + first.leaves() + s.leaves() + post =~= pre + (left_l + right_l) + post);
                    assert(t == pre + first.leaves() + s.leaves() + post);
                }
                self.put_two(lo, first, s, Ghost(height), Ghost(c), Ghost(t));
                proof {
                    assert(first.handles() =~= (left_h + right_h).take(2));
                    assert(s.handles() =~= (left_h + right_h).skip(2));
                    assert(self.leaves() == l.remove(p));
                    assert(0 <= p < l.len() && l[p] == leaf);
                    assert(sorted(self.leaves()));
                    assert(exists|j: int| 0 <= j < l.len() && l[j] == leaf && self.leaves() == l.remove(j));
                }
                RemoveResult::Removed(leaf)
            },
            None => {
                proof {
                    assert(first.handles() == left_h + right_h);
                    assert(first.leaves() == left_l + right_l);
                    assert(pre + first.leaves() + post =~= pre + (left_l + right_l) + post);
                    assert(t == pre + first.leaves() + post);
                }
                self.put_one(lo, first, Ghost(height), Ghost(c), Ghost(t));
                if self.children.len() < N {
                    if depth > 0 {
                        RemoveResult::Merge(leaf)
                    } else {
                        self.collapse_root(Ghost(height));
                        RemoveResult::Removed(leaf)
                    }
                } else {
                    RemoveResult::Removed(leaf)
                }
            },
        };
        proof {
            assert(sibling_layout(c, self.handles(), i as int, n.handles(), depth));
        }
        r
    }
}


/// Inserting a pair with a new key into a sorted sequence inserts it into the
/// map the sequence stands for.
pub proof fn lemma_map_of_insert<V>(l: Seq<KV<u64, V>>, q: int, kv: KV<u64, V>)
    requires
        sorted(l),
        !has_key(l, kv.key),
        0 <= q <= l.len(),
        sorted(l.insert(q, kv)),
    ensures
        map_of(l.insert(q, kv)) == map_of(l).insert(kv.key, kv.val),
{
    let t = l.insert(q, kv);
    let m = map_of(l).insert(kv.key, kv.val);
    lemma_map_of(l);
    assert forall|k: u64| #[trigger] m.contains_key(k) <==> has_key(t, k) by {
        if has_key(l, k) {
            let i = choose|i: int| 0 <= i < l.len() && #[trigger] l[i].key == k;
            if i < q {
                assert(t[i].key == k);
            } else {
                assert(t[i + 1].key == k);
            }
        }
        if k == kv.key {
            assert(t[q].key == k);
        }
        if has_key(t, k) {
            let i = choose|i: int| 0 <= i < t.len() && #[trigger] t[i].key == k;
            if i < q {
                assert(l[i].key == k);
            } else if i > q {
                assert(l[i - 1].key == k);
            }
        }
    }
    assert forall|i: int| 0 <= i < t.len() implies #[trigger] m[t[i].key] == t[i].val by {
        if i < q {
            assert(t[i] == l[i]);
            assert(l[i].key != kv.key);
        } else if i > q {
            assert(t[i] == l[i - 1]);
            assert(l[i - 1].key != kv.key);
        }
    }
    lemma_map_of_ext(t, t, m);
}

/// Replacing the pair at `j` by one with the same key updates the map.
pub proof fn lemma_map_of_update<V>(l: Seq<KV<u64, V>>, j: int, kv: KV<u64, V>)
    requires
        sorted(l),
        0 <= j < l.len(),
        l[j].key == kv.key,
    ensures
        sorted(l.update(j, kv)),
        map_of(l.update(j, kv)) == map_of(l).insert(kv.key, kv.val),
        map_of(l).contains_key(kv.key),
        map_of(l)[kv.key] == l[j].val,
{
    let t = l.update(j, kv);
    let m = map_of(l).insert(kv.key, kv.val);
    lemma_map_of(l);
    assert forall|a: int, b: int| 0 <= a < b < t.len() implies #[trigger] t[a].key
        < #[trigger] t[b].key by {
        assert(l[a].key < l[b].key);
    }
    assert(has_key(l, kv.key)) by {
        assert(l[j].key == kv.key);
    }
    assert forall|k: u64| #[trigger] m.contains_key(k) <==> has_key(t, k) by {
        if has_key(l, k) {
            let i = choose|i: int| 0 <= i < l.len() && #[trigger] l[i].key == k;
            assert(t[i].key == k);
        }
        if has_key(t, k) {
            let i = choose|i: int| 0 <= i < t.len() && #[trigger] t[i].key == k;
            assert(l[i].key == k);
        }
    }
    assert forall|i: int| 0 <= i < t.len() implies #[trigger] m[t[i].key] == t[i].val by {
        if i != j {
            assert(t[i] == l[i]);
            assert(l[i].key != l[j].key);
        }
    }
    lemma_map_of_ext(t, t, m);
}

/// Removing the pair at `j` removes its key from the map.
pub proof fn lemma_map_of_remove<V>(l: Seq<KV<u64, V>>, j: int)
    requires
        sorted(l),
        0 <= j < l.len(),
    ensures
        sorted(l.remove(j)),
        map_of(l.remove(j)) == map_of(l).remove(l[j].key),
        map_of(l).contains_key(l[j].key),
        map_of(l)[l[j].key] == l[j].val,
{
    let t = l.remove(j);
    let k0 = l[j].key;
    let m = map_of(l).remove(k0);
    lemma_map_of(l);
    lemma_sorted_remove(l, j);
    assert(has_key(l, k0)) by {
        assert(l[j].key == k0);
    }
    assert forall|k: u64| #[trigger] m.contains_key(k) <==> has_key(t, k) by {
        if has_key(l, k) && k != k0 {
            let i = choose|i: int| 0 <= i < l.len() && #[trigger] l[i].key == k;
            if i < j {
                assert(t[i].key == k);
            } else {
                assert(t[i - 1].key == k);
            }
        }
        if has_key(t, k) {
            let i = choose|i: int| 0 <= i < t.len() && #[trigger] t[i].key == k;
            if i < j {
                assert(l[i].key == k);
                assert(l[i].key < l[j].key);
            } else {
                assert(l[i + 1].key == k);
                assert(l[j].key < l[i + 1].key);
            }
        }
    }
    assert forall|i: int| 0 <= i < t.len() implies #[trigger] m[t[i].key] == t[i].val by {
        if i < j {
            assert(t[i] == l[i]);
            assert(l[i].key < l[j].key);
        } else {
            assert(t[i] == l[i + 1]);
            assert(l[j].key < l[i + 1].key);
        }
    }
    lemma_map_of_ext(t, t, m);
}

/// A sorted sequence stands for a finite map with one key per pair.
pub proof fn lemma_map_of_len<V>(l: Seq<KV<u64, V>>)
    requires
        sorted(l),
    ensures
        map_of(l).dom().finite(),
        map_of(l).len() == l.len(),
    decreases l.len(),
{
    if l.len() > 0 {
        let p = l.drop_last();
        assert(sorted(p));
        lemma_map_of_len(p);
        lemma_map_of(p);
        assert(!map_of(p).contains_key(l.last().key)) by {
            if has_key(p, l.last().key) {
                let i = choose|i: int| 0 <= i < p.len() && #[trigger] p[i].key == l.last().key;
                assert(l[i].key < l[l.len() - 1].key);
            }
        }
    } else {
        assert(map_of(l).dom() =~= Set::<u64>::empty());
    }
}

/// An ordered map from `u64` keys, kept as a 2-3 tree.
pub struct Two3Tree<V> {
    root: Two3Node<V>,
    height: Ghost<nat>,
}

/// The default 2-3 tree map.
pub type DefaultTwo3Map<V> = Two3Tree<V>;

impl<V> View for Two3Tree<V> {
    type V = Map<u64, V>;

    closed spec fn view(&self) -> Map<u64, V> {
        map_of(self.root.leaves())
    }
}

impl<V> Default for Two3Tree<V> {
    fn default() -> (r: Self)
        ensures
            r@ == Map::<u64, V>::empty(),
    {
        Self::new()
    }
}

impl<V> Two3Tree<V> {
    /// All leaves lie `height` levels below the root, inner nodes below the
    /// root hold two or three handles, a root above the leaves at least two,
    /// and the keys increase from left to right.
    #[verifier::type_invariant]
    closed spec fn inv(self) -> bool {
        &&& self.height@ >= 1
        &&& seq_wf(self.root.handles(), self.height@)
        &&& self.root.handles().len() <= 3
        &&& self.height@ >= 2 ==> self.root.handles().len() >= 2
        &&& sorted(self.root.leaves())
        &&& self.root.leaves().len() <= u64::MAX
    }

    /// The pairs of the map in key order.
    pub closed spec fn pairs(self) -> Seq<KV<u64, V>> {
        self.root.leaves()
    }

    /// Creates an empty map.
    pub fn new() -> (r: Self)
        ensures
            r@ == Map::<u64, V>::empty(),
    {
        let r = Two3Tree { root: Two3Node::new(), height: Ghost(1) };
        proof {
            assert(r.root.handles() =~= Seq::<Handle<V>>::empty());
            assert(r@ =~= Map::<u64, V>::empty());
        }
        r
    }

    /// Inserts `k -> v`, returning the value it replaces, if any.
    pub fn insert(&mut self, k: u64, v: V) -> (r: Option<V>)
        requires
            old(self)@.len() < u64::MAX,
        ensures
            final(self)@ == old(self)@.insert(k, v),
            r == old(self)@.get(k),
    {
        self.insert_with::<Two3TreeSearch>(k, v)
    }

    /// The value under `k`, if any.
    pub fn get(&self, k: u64) -> (r: Option<&V>)
        ensures
            r is Some <==> self@.contains_key(k),
            r matches Some(v) ==> *v == self@[k],
    {
        self.get_with::<Two3TreeSearch>(k)
    }

    /// A mutable reference to the value under `k`, if any. What is written
    /// through it becomes the value of `k`; the other keys keep theirs.
    pub fn get_mut(&mut self, k: u64) -> (r: Option<&mut V>)
        ensures
            r is Some <==> old(self)@.contains_key(k),
            r matches Some(v) ==> *v == old(self)@[k],
            final(self)@ == if r is Some {
                old(self)@.insert(k, *final(r->0))
            } else {
                old(self)@
            },
    {
        broadcast use lemma_map_of_update_value, lemma_sorted_update_value;

        proof {
            use_type_invariant(&*self);
            lemma_map_of(self.root.leaves());
        }
        let ghost l = self.root.leaves();
        let (r, Ghost(i)) = self.root.find_mut(k, Ghost(self.height@));
        proof {
            if r is Some {
                assert(map_of(l)[l[i].key] == l[i].val);
            }
        }
        r
    }

    /// Removes `k`, returning its value, if any.
    pub fn remove(&mut self, k: u64) -> (r: Option<V>)
        ensures
            final(self)@ == old(self)@.remove(k),
            r == old(self)@.get(k),
    {
        self.remove_with::<Two3TreeSearch>(k)
    }

    /// Inserts `k -> v`, locating keys in nodes with `S`.
    pub(crate) fn insert_with<S: KeyLocate>(&mut self, k: u64, v: V) -> (r: Option<V>)
        requires
            old(self)@.len() < u64::MAX,
        ensures
            final(self)@ == old(self)@.insert(k, v),
            r == old(self)@.get(k),
    {
        proof {
            use_type_invariant(&*self);
            lemma_map_of_len(self.root.leaves());
        }
        let mut t = Two3Tree::new();
        std::mem::swap(self, &mut t);
        let mut root = t.root;
        let ghost h = t.height@;
        let ghost l = root.leaves();
        let kv = KV::new(k, v);
        let res = root._insert::<S>(kv, 0, Ghost(h));
        let ghost nh: nat = if seq_wf(root.handles(), h) && 1 <= root.handles().len() <= 3 && (h >= 2
            ==> root.handles().len() >= 2) {
            h
        } else {
            h + 1
        };
        proof {
            lemma_map_of(l);
        }
        match res {
            InsertResult::Replaced(o) => {
                proof {
                    let j = choose|j: int|
                        0 <= j < l.len() && l[j] == o && root.leaves() == l.update(j, kv);
                    lemma_map_of_update(l, j, kv);
                }
                *self = Two3Tree { root, height: Ghost(nh) };
                Some(o.val)
            },
            InsertResult::Inserted => {
                proof {
                    let q = choose|q: int| 0 <= q <= l.len() && root.leaves() == l.insert(q, kv);
                    lemma_map_of_insert(l, q, kv);
                    assert(!map_of(l).contains_key(k));
                }
                *self = Two3Tree { root, height: Ghost(nh) };
                None
            },
            InsertResult::Split(_) => {
                proof {
                    assert(false);
                }
                *self = Two3Tree { root, height: Ghost(nh) };
                None
            },
        }
    }

    /// The value under `k`, locating keys in nodes with `S`.
    pub(crate) fn get_with<S: KeyLocate>(&self, k: u64) -> (r: Option<&V>)
        ensures
            r is Some <==> self@.contains_key(k),
            r matches Some(v) ==> *v == self@[k],
    {
        proof {
            use_type_invariant(self);
            lemma_map_of(self.root.leaves());
        }
        let r = self.root.find::<S>(k, Ghost(self.height@));
        proof {
            let l = self.root.leaves();
            if let Some(v) = r {
                let i = choose|i: int| 0 <= i < l.len() && l[i] == KV { key: k, val: *v };
                assert(map_of(l)[l[i].key] == l[i].val);
            }
        }
        r
    }

    /// Removes `k`, locating keys in nodes with `S`.
    pub(crate) fn remove_with<S: KeyLocate>(&mut self, k: u64) -> (r: Option<V>)
        ensures
            final(self)@ == old(self)@.remove(k),
            r == old(self)@.get(k),
    {
        proof {
            use_type_invariant(&*self);
        }
        let mut t = Two3Tree::new();
        std::mem::swap(self, &mut t);
        let mut root = t.root;
        let ghost h = t.height@;
        let ghost l = root.leaves();
        let ghost c = root.handles();
        let res = root._remove::<S>(k, 0, Ghost(h));
        let ghost nh: nat = if seq_wf(root.handles(), h) && root.handles().len() <= 3 && (h >= 2
            ==> root.handles().len() >= 2) {
            h
        } else {
            (h - 1) as nat
        };
        proof {
            lemma_map_of(l);
        }
        match res {
            RemoveResult::Removed(o) => {
                proof {
                    let j = choose|j: int| 0 <= j < l.len() && l[j] == o && root.leaves() == l.remove(j);
                    lemma_map_of_remove(l, j);
                }
                *self = Two3Tree { root, height: Ghost(nh) };
                Some(o.val)
            },
            _ => {
                proof {
                    assert(res is Noop);
                    assert(!map_of(l).contains_key(k));
                    assert(map_of(l).remove(k) =~= map_of(l));
                }
                *self = Two3Tree { root, height: Ghost(nh) };
                None
            },
        }
    }
}

/// A node handle of height `height` holds a node of handles of height
/// `height - 1`, two or three of them, and carries its annotation.
pub proof fn lemma_handle_node<V>(h: Handle<V>, height: nat)
    requires
        handle_wf(h, height),
        h is Node,
    ensures
        height >= 2,
        seq_wf(h->Node_0.handles(), (height - 1) as nat),
        handle_leaves(h) == h->Node_0.leaves(),
        h->Node_1 == ann_of(handle_leaves(h)),
        2 <= h->Node_0.handles().len() <= 3,
{
}

/// Handles of one height whose pairs fit the annotations' counter can be
/// searched.
pub proof fn lemma_searchable<V>(c: Seq<Handle<V>>, height: nat)
    requires
        seq_wf(c, height),
        seq_leaves(c).len() <= u64::MAX,
    ensures
        searchable(c),
{
}

/// Searchable handles have some height, and pairs that fit the counter.
pub proof fn lemma_searchable_wf<V>(c: Seq<Handle<V>>) -> (height: nat)
    requires
        searchable(c),
    ensures
        seq_wf(c, height),
        seq_leaves(c).len() <= u64::MAX,
{
    choose|height: nat| seq_wf(c, height) && seq_leaves(c).len() <= u64::MAX
}

/// The pairs of a node are those below its handles; no handles hold no
/// pairs; handles of one height are each of that height.
pub proof fn lemma_node_leaves<V>(n: Two3Node<V>)
    ensures
        n.leaves() == seq_leaves(n.handles()),
        seq_leaves(Seq::<Handle<V>>::empty()) == Seq::<KV<u64, V>>::empty(),
        forall|c: Seq<Handle<V>>, height: nat, j: int|
            #[trigger] seq_wf(c, height) && 0 <= j < c.len() ==> handle_wf(#[trigger] c[j], height),
{
    assert(seq_leaves(Seq::<Handle<V>>::empty()) =~= Seq::<KV<u64, V>>::empty());
}

/// Well-formed handles are not empty.
pub proof fn lemma_wf_not_empty<V>(c: Seq<Handle<V>>, height: nat, j: int)
    requires
        seq_wf(c, height),
        0 <= j < c.len(),
    ensures
        !(c[j] is Empty),
        c[j] is Leaf ==> handle_leaves(c[j]) == seq![c[j]->Leaf_0],
{
    assert(handle_wf(c[j], height));
}

impl<V> Two3Tree<V> {
    /// Height of the tree: the number of levels of handles.
    pub closed spec fn tree_height(self) -> nat {
        self.height@
    }

    /// The root node, with the shape every tree keeps through all its
    /// operations: its pairs in strictly increasing key order, all at depth
    /// `tree_height()`; every node below the root with two or three handles
    /// and an annotation that holds the maximum key and the count of its
    /// pairs; the root with at most three handles, and at least two when it
    /// holds nodes.
    pub fn tree_root(&self) -> (r: &Two3Node<V>)
        ensures
            r.leaves() == self.pairs(),
            self.tree_height() >= 1,
            seq_wf(r.handles(), self.tree_height()),
            r.handles().len() <= 3,
            self.tree_height() >= 2 ==> r.handles().len() >= 2,
            sorted(r.leaves()),
            r.leaves().len() <= u64::MAX,
            self@ == map_of(self.pairs()),
    {
        proof {
            use_type_invariant(self);
        }
        &self.root
    }
}

} // verus!
