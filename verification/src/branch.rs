//! Branches: paths of levels from the root of a 2-3 tree down to a pair,
//! found with the `First` search and advanced pair by pair. Iterating over
//! the pairs of a tree walks a branch.
use vstd::prelude::*;

use crate::map::KV;
use crate::search::{Method, SearchResult};
use crate::two3::{
    handle_leaves, lemma_handle_node, lemma_node_leaves, lemma_seq_leaves_split,
    lemma_wf_not_empty, seq_leaves, seq_wf, Handle, Two3Node, Two3Tree,
};
use crate::walk::{lemma_take_step, First};

verus! {

/// A level of a branch: a node and the offset of the handle the branch goes
/// through.
pub struct Level<'a, V> {
    ofs: usize,
    node: &'a Two3Node<V>,
}

impl<'a, V> Level<'a, V> {
    /// The offset of the handle the branch goes through.
    pub closed spec fn ofs_spec(self) -> nat {
        self.ofs as nat
    }

    /// The node of the level.
    pub closed spec fn node_spec(self) -> Two3Node<V> {
        *self.node
    }

    /// The offset of the handle the branch goes through.
    pub fn offset(&self) -> (r: usize)
        ensures
            r == self.ofs_spec(),
    {
        self.ofs
    }

    /// The node of the level.
    pub fn node(&self) -> (r: &'a Two3Node<V>)
        ensures
            *r == self.node_spec(),
    {
        self.node
    }
}

/// The number of pairs that lie left of the path through `levels`.
pub closed spec fn position<'a, V>(levels: Seq<Level<'a, V>>) -> nat
    decreases levels.len(),
{
    if levels.len() == 0 {
        0
    } else {
        position(levels.drop_last()) + seq_leaves(
            levels.last().node.handles().take(levels.last().ofs as int),
        ).len()
    }
}

/// `levels` is a path from `root`, a node whose handles have height
/// `height`: each level's handle leads to the next level's node, and the
/// last level's offset lies within its node.
pub closed spec fn path_ok<'a, V>(levels: Seq<Level<'a, V>>, root: Two3Node<V>, height: nat) -> bool {
    &&& 1 <= levels.len() <= height
    &&& *levels[0].node == root
    &&& forall|j: int|
        0 <= j < levels.len() ==> {
            &&& seq_wf((#[trigger] levels[j]).node.handles(), (height - j) as nat)
            &&& levels[j].ofs <= levels[j].node.handles().len()
        }
    &&& forall|j: int|
        1 <= j < levels.len() ==> {
            let up = #[trigger] levels[j - 1];
            &&& up.ofs < up.node.handles().len()
            &&& up.node.handles()[up.ofs as int] matches Handle::Node(n, _)
            &&& *n == *levels[j].node
        }
}

/// Along a path, the pairs of each level's node are a run of the root's
/// pairs, starting after those left of the path above it.
proof fn lemma_path_slice<'a, V>(levels: Seq<Level<'a, V>>, root: Two3Node<V>, height: nat, m: int)
    requires
        path_ok(levels, root, height),
        0 <= m < levels.len(),
    ensures
        position(levels.take(m)) + levels[m].node.leaves().len() <= root.leaves().len(),
        forall|k: int|
            0 <= k < levels[m].node.leaves().len() ==> root.leaves()[position(levels.take(m)) + k]
                == #[trigger] levels[m].node.leaves()[k],
    decreases m,
{
    if m == 0 {
        assert(levels.take(0) =~= Seq::<Level<'a, V>>::empty());
    } else {
        lemma_path_slice(levels, root, height, m - 1);
        let up = levels[m - 1];
        let c = up.node.handles();
        let h = (height - (m - 1)) as nat;
        assert(seq_wf(c, h));
        lemma_node_leaves(*up.node);
        lemma_seq_leaves_split(c, up.ofs as int);
        lemma_handle_node(c[up.ofs as int], h);
        assert(levels.take(m).drop_last() =~= levels.take(m - 1));
        assert(levels.take(m).last() == up);
        let p = position(levels.take(m - 1));
        let pre = seq_leaves(c.take(up.ofs as int));
        assert forall|k: int| 0 <= k < levels[m].node.leaves().len() implies root.leaves()[position(
            levels.take(m),
        ) + k] == #[trigger] levels[m].node.leaves()[k] by {
            assert(up.node.leaves()[pre.len() + k] == levels[m].node.leaves()[k]);
        }
    }
}

/// A path of levels from the root of a tree to a pair, or past the last one.
pub struct Branch<'a, V> {
    levels: Vec<Level<'a, V>>,
    height: Ghost<nat>,
}

impl<'a, V> Branch<'a, V> {
    /// The node the branch starts from.
    pub closed spec fn root(self) -> Two3Node<V> {
        *self.levels@[0].node
    }

    /// The branch is a path from its root.
    pub closed spec fn ok(self) -> bool {
        path_ok(self.levels@, self.root(), self.height@)
    }

    /// The number of pairs left of the branch.
    pub closed spec fn pos(self) -> nat {
        position(self.levels@)
    }

    /// The branch ends at a pair.
    pub closed spec fn at_leaf(self) -> bool {
        let last = self.levels@.last();
        &&& last.ofs < last.node.handles().len()
        &&& last.node.handles()[last.ofs as int] is Leaf
    }

    /// The levels of the branch, from the root down.
    pub closed spec fn levels_spec(self) -> Seq<Level<'a, V>> {
        self.levels@
    }

    /// The levels of the branch.
    pub fn levels(&self) -> (r: &[Level<'a, V>])
        ensures
            r@ == self.levels_spec(),
    {
        self.levels.as_slice()
    }

    /// A branch ending at a pair is at that pair's position among the root's
    /// pairs.
    proof fn lemma_leaf_position(self)
        requires
            self.ok(),
            self.at_leaf(),
        ensures
            self.pos() < self.root().leaves().len(),
            self.levels@.last().node.handles()[self.levels@.last().ofs as int] == Handle::Leaf(
                self.root().leaves()[self.pos() as int],
            ),
    {
        let levels = self.levels@;
        let m = levels.len() - 1;
        lemma_path_slice(levels, self.root(), self.height@, m);
        let last = levels[m];
        let c = last.node.handles();
        lemma_node_leaves(*last.node);
        lemma_seq_leaves_split(c, last.ofs as int);
        lemma_wf_not_empty(c, (self.height@ - m) as nat, last.ofs as int);
        assert(levels.drop_last() =~= levels.take(m));
        let pre = seq_leaves(c.take(last.ofs as int));
        assert(last.node.leaves()[pre.len() as int] == c[last.ofs as int]->Leaf_0);
    }

    /// Searches from the branch's position for the next pair with `First`:
    /// descends into nodes, and leaves a node whose handles are all passed
    /// by moving past it in the level above. Returns whether it found a
    /// pair; otherwise the branch is past the last pair.
    fn search(&mut self) -> (found: bool)
        requires
            old(self).ok(),
        ensures
            final(self).ok(),
            final(self).root() == old(self).root(),
            final(self).pos() == old(self).pos(),
            found ==> final(self).at_leaf(),
            !found ==> final(self).pos() == final(self).root().leaves().len(),
    {
        let ghost root = self.root();
        let ghost height = self.height@;
        let ghost p0 = self.pos();
        let ghost mut down = false;
        loop
            invariant
                path_ok(self.levels@, root, height),
                self.height@ == height,
                position(self.levels@) == p0,
                old(self).root() == root,
                old(self).pos() == p0,
                down ==> self.levels@.last().ofs == 0 && self.levels@.last().node.handles().len() >= 2,
            decreases (if down {
                0int
            } else {
                1int
            }),
                (if down {
                    height - self.levels@.len()
                } else {
                    self.levels@.len() as int
                }),
        {
            let ghost levels = self.levels@;
            let last = self.levels.len() - 1;
            let ofs = self.levels[last].ofs;
            let node = self.levels[last].node;
            let ghost c = node.handles();
            let ghost hl = (height - last) as nat;
            proof {
                assert(seq_wf(levels[last as int].node.handles(), hl));
                lemma_node_leaves(*node);
            }
            let mut first = First;
            let res = first.select(node, ofs);
            match res {
                SearchResult::Leaf(i) => {
                    proof {
                        if i > 0 {
                            lemma_wf_not_empty(c, hl, ofs as int);
                        }
                    }
                    return true;
                },
                SearchResult::Path(i) => {
                    proof {
                        if i > 0 {
                            lemma_wf_not_empty(c, hl, ofs as int);
                        }
                        lemma_handle_node(c[ofs as int], hl);
                    }
                    let child: &'a Two3Node<V> = match &node.children()[ofs] {
                        Handle::Node(n, _) => &**n,
                        _ => {
                            proof {
                                assert(false);
                            }
                            return false;
                        },
                    };
                    self.levels.push(Level { ofs: 0, node: child });
                    proof {
                        let nl = self.levels@;
                        assert(nl.drop_last() =~= levels);
                        assert(child.handles().take(0) =~= Seq::<Handle<V>>::empty());
                        lemma_node_leaves(*child);
                        assert(seq_leaves(child.handles().take(0)) =~= Seq::<KV<u64, V>>::empty());
                        assert forall|j: int| 0 <= j < nl.len() implies {
                            &&& seq_wf((#[trigger] nl[j]).node.handles(), (height - j) as nat)
                            &&& nl[j].ofs <= nl[j].node.handles().len()
                        } by {
                            if j < levels.len() {
                                assert(nl[j] == levels[j]);
                            }
                        }
                        assert forall|j: int| 1 <= j < nl.len() implies {
                            let up = #[trigger] nl[j - 1];
                            &&& up.ofs < up.node.handles().len()
                            &&& up.node.handles()[up.ofs as int] matches Handle::Node(n, _)
                            &&& *n == *nl[j].node
                        } by {
                            assert(nl[j - 1] == levels[j - 1]);
                            if j < levels.len() {
                                assert(nl[j] == levels[j]);
                            }
                        }
                        down = true;
                    }
                },
                SearchResult::Nothing => {
                    proof {
                        if ofs < c.len() {
                            lemma_wf_not_empty(c, hl, ofs as int);
                        }
                        assert(c.take(ofs as int) =~= c);
                    }
                    if self.levels.len() == 1 {
                        proof {
                            reveal_with_fuel(position, 2);
                            assert(levels.drop_last() =~= Seq::<Level<'a, V>>::empty());
                            assert(*levels[0].node == root);
                            assert(position(levels) == seq_leaves(c).len());
                        }
                        return false;
                    }
                    let _ = self.levels.pop();
                    let mut parent = self.levels.pop().unwrap();
                    let n = parent.node.children().len();
                    proof {
                        let up = levels[last - 1];
                        let hu = (height - (last - 1)) as nat;
                        assert(parent == up);
                        assert(seq_wf(up.node.handles(), hu));
                        lemma_node_leaves(*up.node);
                        lemma_take_step(up.node.handles(), up.ofs as int);
                        lemma_handle_node(up.node.handles()[up.ofs as int], hu);
                    }
                    parent.ofs = parent.ofs + 1;
                    self.levels.push(parent);
                    proof {
                        let nl = self.levels@;
                        let up = levels[last - 1];
                        assert(nl.drop_last() =~= levels.take(last - 1));
                        assert(levels.drop_last().drop_last() =~= levels.take(last - 1));
                        assert(levels.drop_last().last() == levels[last - 1]);
                        assert(nl.last() == Level { ofs: (up.ofs + 1) as usize, node: up.node });
                        assert(handle_leaves(up.node.handles()[up.ofs as int]) == seq_leaves(c));
                        assert(position(nl) == position(levels.take(last - 1)) + seq_leaves(
                            up.node.handles().take(up.ofs + 1),
                        ).len());
                        assert(position(levels.drop_last()) == position(levels.take(last - 1))
                            + seq_leaves(up.node.handles().take(up.ofs as int)).len());
                        assert forall|j: int| 0 <= j < nl.len() implies {
                            &&& seq_wf((#[trigger] nl[j]).node.handles(), (height - j) as nat)
                            &&& nl[j].ofs <= nl[j].node.handles().len()
                        } by {
                            if j < nl.len() - 1 {
                                assert(nl[j] == levels[j]);
                            }
                        }
                        assert forall|j: int| 1 <= j < nl.len() implies {
                            let up = #[trigger] nl[j - 1];
                            &&& up.ofs < up.node.handles().len()
                            &&& up.node.handles()[up.ofs as int] matches Handle::Node(n, _)
                            &&& *n == *nl[j].node
                        } by {
                            assert(nl[j - 1] == levels[j - 1]);
                            assert(nl[j].node == levels[j].node);
                        }
                    }
                },
            }
        }
    }

    /// The pair the branch ends at.
    pub fn leaf(&self) -> (r: &'a KV<u64, V>)
        requires
            self.ok(),
            self.at_leaf(),
        ensures
            *r == self.root().leaves()[self.pos() as int],
    {
        proof {
            self.lemma_leaf_position();
        }
        let last = self.levels.len() - 1;
        let ofs = self.levels[last].ofs;
        let node: &'a Two3Node<V> = self.levels[last].node;
        node.children()[ofs].leaf().unwrap()
    }

    /// Moves past the pair the branch ends at.
    fn advance(&mut self)
        requires
            old(self).ok(),
            old(self).at_leaf(),
        ensures
            final(self).ok(),
            final(self).root() == old(self).root(),
            final(self).pos() == old(self).pos() + 1,
    {
        let ghost levels = self.levels@;
        let ghost height = self.height@;
        proof {
            self.lemma_leaf_position();
        }
        let mut last = self.levels.pop().unwrap();
        let n = last.node.children().len();
        proof {
            let m = levels.len() - 1;
            let c = last.node.handles();
            assert(last == levels[m]);
            assert(seq_wf(c, (height - m) as nat));
            lemma_take_step(c, last.ofs as int);
            lemma_wf_not_empty(c, (height - m) as nat, last.ofs as int);
        }
        let ghost node = last.node;
        last.ofs = last.ofs + 1;
        self.levels.push(last);
        proof {
            let nl = self.levels@;
            assert(nl.drop_last() =~= levels.drop_last());
            assert(nl[nl.len() - 1].node == node);
            assert(levels[levels.len() - 1].node == node);
            assert forall|j: int| 0 <= j < nl.len() implies {
                &&& seq_wf((#[trigger] nl[j]).node.handles(), (height - j) as nat)
                &&& nl[j].ofs <= nl[j].node.handles().len()
            } by {
                if j < nl.len() - 1 {
                    assert(nl[j] == levels[j]);
                }
            }
            assert forall|j: int| 1 <= j < nl.len() implies {
                let up = #[trigger] nl[j - 1];
                &&& up.ofs < up.node.handles().len()
                &&& up.node.handles()[up.ofs as int] matches Handle::Node(n, _)
                &&& *n == *nl[j].node
            } by {
                assert(nl[j - 1] == levels[j - 1]);
                if j < nl.len() - 1 {
                    assert(nl[j] == levels[j]);
                }
                assert(nl[j].node == levels[j].node);
            }
        }
    }

    /// The branch to the first pair below `root`, a node whose handles have
    /// height `height`, if there is one.
    fn new(root: &'a Two3Node<V>, Ghost(height): Ghost<nat>) -> (r: Option<Self>)
        requires
            height >= 1,
            seq_wf(root.handles(), height),
        ensures
            r matches Some(b) ==> b.ok() && b.at_leaf() && b.root() == *root && b.pos() == 0,
            r is None ==> root.leaves().len() == 0,
    {
        let mut levels: Vec<Level<'a, V>> = Vec::new();
        levels.push(Level { ofs: 0, node: root });
        let mut b = Branch { levels, height: Ghost(height) };
        proof {
            let l = b.levels@;
            assert(l.drop_last() =~= Seq::<Level<'a, V>>::empty());
            assert(root.handles().take(0) =~= Seq::<Handle<V>>::empty());
            lemma_node_leaves(*root);
            assert(seq_leaves(root.handles().take(0)) =~= Seq::<KV<u64, V>>::empty());
            reveal_with_fuel(position, 2);
            assert(b.pos() == 0);
        }
        if b.search() {
            Some(b)
        } else {
            None
        }
    }
}

/// An iterator over the pairs of a tree, in key order.
pub enum LeafIter<'a, V> {
    /// Not started: the root and the height of its handles.
    Initial(&'a Two3Node<V>, Ghost<nat>),
    /// At the pair a branch ends at.
    Branch(Branch<'a, V>),
    /// Past the last pair.
    Exhausted,
}

impl<'a, V> LeafIter<'a, V> {
    /// The iterator is in a state it can go on from.
    pub closed spec fn valid(self) -> bool {
        match self {
            LeafIter::Initial(root, h) => h@ >= 1 && seq_wf(root.handles(), h@),
            LeafIter::Branch(b) => b.ok() && b.at_leaf(),
            LeafIter::Exhausted => true,
        }
    }

    /// The pairs the iterator is still to give.
    pub closed spec fn remaining(self) -> Seq<KV<u64, V>> {
        match self {
            LeafIter::Initial(root, _) => root.leaves(),
            LeafIter::Branch(b) => b.root().leaves().skip(b.pos() + 1int),
            LeafIter::Exhausted => Seq::empty(),
        }
    }

    /// Gives the next pair, if any.
    pub fn next(&mut self) -> (r: Option<&'a KV<u64, V>>)
        requires
            old(self).valid(),
        ensures
            final(self).valid(),
            old(self).remaining().len() == 0 ==> r is None && final(self).remaining().len() == 0,
            old(self).remaining().len() > 0 ==> {
                &&& r matches Some(kv) && *kv == old(self).remaining()[0]
                &&& final(self).remaining() == old(self).remaining().drop_first()
            },
    {
        let mut state = LeafIter::Exhausted;
        std::mem::swap(&mut state, self);
        match state {
            LeafIter::Initial(root, h) => {
                match Branch::new(root, h) {
                    Some(b) => {
                        let leaf = b.leaf();
                        proof {
                            b.lemma_leaf_position();
                            assert(b.root().leaves().skip(1) =~= root.leaves().drop_first());
                        }
                        *self = LeafIter::Branch(b);
                        Some(leaf)
                    },
                    None => None,
                }
            },
            LeafIter::Branch(mut b) => {
                let ghost all = b.root().leaves();
                let ghost p = b.pos();
                proof {
                    b.lemma_leaf_position();
                }
                b.advance();
                if b.search() {
                    let leaf = b.leaf();
                    proof {
                        b.lemma_leaf_position();
                        assert(all.skip(p + 2int) =~= all.skip(p + 1int).drop_first());
                    }
                    *self = LeafIter::Branch(b);
                    Some(leaf)
                } else {
                    proof {
                        assert(all.skip(p + 1int).len() == 0);
                    }
                    None
                }
            },
            LeafIter::Exhausted => None,
        }
    }
}

/// An iterator over the values of a tree, in key order.
pub struct ValIter<'a, V>(LeafIter<'a, V>);

impl<'a, V> ValIter<'a, V> {
    /// The iterator is in a state it can go on from.
    pub closed spec fn valid(self) -> bool {
        self.0.valid()
    }

    /// The pairs whose values the iterator is still to give.
    pub closed spec fn remaining(self) -> Seq<KV<u64, V>> {
        self.0.remaining()
    }

    /// Gives the next value, if any.
    pub fn next(&mut self) -> (r: Option<&'a V>)
        requires
            old(self).valid(),
        ensures
            final(self).valid(),
            old(self).remaining().len() == 0 ==> r is None && final(self).remaining().len() == 0,
            old(self).remaining().len() > 0 ==> {
                &&& r matches Some(v) && *v == old(self).remaining()[0].val
                &&& final(self).remaining() == old(self).remaining().drop_first()
            },
    {
        match self.0.next() {
            Some(kv) => Some(&kv.val),
            None => None,
        }
    }
}

/// An iterator over the keys of a tree, in increasing order.
pub struct KeyIter<'a, V>(LeafIter<'a, V>);

impl<'a, V> KeyIter<'a, V> {
    /// The iterator is in a state it can go on from.
    pub closed spec fn valid(self) -> bool {
        self.0.valid()
    }

    /// The pairs whose keys the iterator is still to give.
    pub closed spec fn remaining(self) -> Seq<KV<u64, V>> {
        self.0.remaining()
    }

    /// Gives the next key, if any.
    pub fn next(&mut self) -> (r: Option<&'a u64>)
        requires
            old(self).valid(),
        ensures
            final(self).valid(),
            old(self).remaining().len() == 0 ==> r is None && final(self).remaining().len() == 0,
            old(self).remaining().len() > 0 ==> {
                &&& r matches Some(k) && *k == old(self).remaining()[0].key
                &&& final(self).remaining() == old(self).remaining().drop_first()
            },
    {
        match self.0.next() {
            Some(kv) => Some(&kv.key),
            None => None,
        }
    }
}

impl<V> Two3Tree<V> {
    /// An iterator over the values, in key order.
    pub fn values(&self) -> (r: ValIter<'_, V>)
        ensures
            r.valid(),
            r.remaining() == self.pairs(),
    {
        ValIter(self.leaf_iter())
    }

    /// An iterator over the keys, in increasing order.
    pub fn keys(&self) -> (r: KeyIter<'_, V>)
        ensures
            r.valid(),
            r.remaining() == self.pairs(),
    {
        KeyIter(self.leaf_iter())
    }
}

impl<V> Two3Tree<V> {
    /// An iterator over the pairs, in key order.
    pub fn leaf_iter(&self) -> (r: LeafIter<'_, V>)
        ensures
            r.valid(),
            r.remaining() == self.pairs(),
    {
        let root = self.tree_root();
        LeafIter::Initial(root, Ghost(self.tree_height()))
    }
}

} // verus!
