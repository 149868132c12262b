//! Walks over 2-3 trees: the search for the `n`:th pair by the cardinality
//! annotations, the search for the first non-empty handle, and what they
//! give: the number of pairs, the `n`:th pair, and all pairs in order.
use vstd::prelude::*;

use crate::annotations::Count;
use crate::map::KV;
use crate::search::{Method, SearchResult};
use crate::two3::{
    lemma_node_leaves, lemma_searchable, lemma_searchable_wf, map_of, sorted,
    handle_leaves, lemma_handle_node, lemma_handle_nonempty, lemma_map_of, lemma_map_of_len,
    lemma_seq_leaves_concat, lemma_seq_leaves_single, lemma_seq_leaves_split, lemma_wf_not_empty,
    searchable, seq_leaves, seq_wf, Handle, Two3Node, Two3Tree,
};

verus! {

/// The pairs below the first `i + 1` handles are those below the first `i`
/// and those below handle `i`.
pub proof fn lemma_take_step<V>(c: Seq<Handle<V>>, i: int)
    requires
        0 <= i < c.len(),
    ensures
        seq_leaves(c.take(i + 1)) == seq_leaves(c.take(i)) + handle_leaves(c[i]),
{
    assert(c.take(i + 1) =~= c.take(i) + seq![c[i]]);
    lemma_seq_leaves_concat(c.take(i), seq![c[i]]);
    lemma_seq_leaves_single(c[i]);
}

/// A search for the `n`:th pair of a tree, in key order, guided by the
/// cardinality annotations.
pub struct Nth {
    n: u64,
}

impl Nth {
    /// Starts a search for the `n`:th pair.
    pub fn new(n: u64) -> (r: Self)
        ensures
            r.index() == n,
    {
        Nth { n }
    }

    /// The position searched for, counted within the node searched next.
    pub closed spec fn index(self) -> u64 {
        self.n
    }
}

impl<V> Method<Two3Node<V>> for Nth {
    open spec fn can_select(&self, compound: &Two3Node<V>, offset: usize) -> bool {
        searchable(compound.handles())
    }

    /// Passes over handles, counting their pairs, until the searched position
    /// falls within one: `Leaf` for a pair, `Path` for a node (with the
    /// position counted within it from then on), `Nothing` when the node
    /// holds fewer pairs.
    fn select(&mut self, compound: &Two3Node<V>, offset: usize) -> (r: SearchResult)
        ensures
            ({
                let c = compound.handles();
                let n = old(self).index();
                &&& r matches SearchResult::Leaf(i) ==> {
                    &&& i < c.len()
                    &&& c[i as int] is Leaf
                    &&& seq_leaves(c.take(i as int)).len() == n
                    &&& final(self).index() == 0
                }
                &&& r matches SearchResult::Path(i) ==> {
                    &&& i < c.len()
                    &&& c[i as int] is Node
                    &&& seq_leaves(c.take(i as int)).len() + final(self).index() == n
                    &&& final(self).index() < handle_leaves(c[i as int]).len()
                }
                &&& r is Nothing ==> n >= seq_leaves(c).len() && final(self).index() == n
                    - seq_leaves(c).len()
            }),
    {
        let ghost c = compound.handles();
        let ghost mut height: nat = 0;
        proof {
            height = lemma_searchable_wf(c);
            lemma_node_leaves(*compound);
        }
        let ghost n0 = self.n;
        let ch = compound.children();
        let len = ch.len();
        let mut i: usize = 0;
        proof {
            assert(c.take(0) =~= Seq::<Handle<V>>::empty());
            assert(seq_leaves(c.take(0)) =~= Seq::<KV<u64, V>>::empty());
        }
        while i < len
            invariant
                i <= len,
                len == c.len(),
                c == ch@,
                c == compound.handles(),
                n0 == old(self).index(),
                seq_wf(c, height),
                seq_leaves(c).len() <= u64::MAX,
                self.n + seq_leaves(c.take(i as int)).len() == n0,
            decreases len - i,
        {
            proof {
                lemma_node_leaves(*compound);
                lemma_take_step(c, i as int);
                lemma_seq_leaves_split(c, i as int);
                lemma_wf_not_empty(c, height, i as int);
                lemma_handle_nonempty(c[i as int], height);
                if c[i as int] is Node {
                    lemma_handle_node(c[i as int], height);
                }
            }
            match &ch[i] {
                Handle::Leaf(_) => {
                    if self.n == 0 {
                        proof {
                            assert(seq_leaves(c.take(i as int)).len() == n0);
                        }
                        return SearchResult::Leaf(i);
                    } else {
                        self.n = self.n - 1;
                    }
                },
                Handle::Node(_, ann) => {
                    let cnt = ann.count.0;
                    proof {
                        assert(handle_leaves(c[i as int]).len() <= seq_leaves(c).len());
                        assert(cnt == handle_leaves(c[i as int]).len());
                    }
                    if self.n >= cnt {
                        self.n = self.n - cnt;
                    } else {
                        return SearchResult::Path(i);
                    }
                },
                Handle::Empty => {},
            }
            i = i + 1;
        }
        proof {
            assert(c.take(len as int) =~= c);
        }
        SearchResult::Nothing
    }
}

/// A search for the first non-empty handle at or after an offset.
pub struct First;

impl<V> Method<Two3Node<V>> for First {
    open spec fn can_select(&self, compound: &Two3Node<V>, offset: usize) -> bool {
        offset <= compound.handles().len()
    }

    /// Picks the first non-empty handle from `offset` on, counted from
    /// `offset`: `Leaf` for a pair, `Path` for a node, `Nothing` when all are
    /// empty.
    fn select(&mut self, compound: &Two3Node<V>, offset: usize) -> (r: SearchResult)
        ensures
            ({
                let c = compound.handles();
                &&& r matches SearchResult::Leaf(i) ==> {
                    &&& offset + i < c.len()
                    &&& c[offset + i] is Leaf
                    &&& forall|j: int| offset <= j < offset + i ==> #[trigger] c[j] is Empty
                }
                &&& r matches SearchResult::Path(i) ==> {
                    &&& offset + i < c.len()
                    &&& c[offset + i] is Node
                    &&& forall|j: int| offset <= j < offset + i ==> #[trigger] c[j] is Empty
                }
                &&& r is Nothing ==> forall|j: int| offset <= j < c.len() ==> #[trigger] c[j] is Empty
            }),
    {
        let ch = compound.children();
        let len = ch.len();
        let mut i: usize = offset;
        while i < len
            invariant
                offset <= i <= len,
                len == ch@.len(),
                ch@ == compound.handles(),
                forall|j: int| offset <= j < i ==> #[trigger] ch@[j] is Empty,
            decreases len - i,
        {
            match &ch[i] {
                Handle::Leaf(_) => {
                    return SearchResult::Leaf(i - offset);
                },
                Handle::Node(..) => {
                    return SearchResult::Path(i - offset);
                },
                Handle::Empty => {},
            }
            i = i + 1;
        }
        SearchResult::Nothing
    }
}

impl<V> Two3Node<V> {
    /// Appends references to the pairs below this node, in order, to `out`,
    /// visiting the handles with `First`.
    fn collect<'a>(&'a self, out: &mut Vec<&'a KV<u64, V>>, Ghost(height): Ghost<nat>)
        requires
            seq_wf(self.handles(), height),
        ensures
            final(out)@.len() == old(out)@.len() + self.leaves().len(),
            forall|j: int| 0 <= j < old(out)@.len() ==> final(out)@[j] == old(out)@[j],
            forall|j: int|
                0 <= j < self.leaves().len() ==> *final(out)@[old(out)@.len() + j] == self.leaves()[j],
        decreases height,
    {
        let ghost c = self.handles();
        let ghost out0 = out@;
        proof {
            lemma_node_leaves(*self);
        }
        let ch = self.children();
        let len = ch.len();
        let mut offset: usize = 0;
        proof {
            assert(c.take(0) =~= Seq::<Handle<V>>::empty());
            assert(seq_leaves(c.take(0)) =~= Seq::<KV<u64, V>>::empty());
        }
        loop
            invariant
                offset <= len,
                len == c.len(),
                c == ch@,
                c == self.handles(),
                seq_wf(c, height),
                out@.len() == out0.len() + seq_leaves(c.take(offset as int)).len(),
                forall|j: int| 0 <= j < out0.len() ==> out@[j] == out0[j],
                forall|j: int|
                    0 <= j < seq_leaves(c.take(offset as int)).len() ==> *out@[out0.len() + j]
                        == seq_leaves(c.take(offset as int))[j],
            ensures
                offset == len,
                out@.len() == out0.len() + seq_leaves(c.take(offset as int)).len(),
                forall|j: int| 0 <= j < out0.len() ==> out@[j] == out0[j],
                forall|j: int|
                    0 <= j < seq_leaves(c.take(offset as int)).len() ==> *out@[out0.len() + j]
                        == seq_leaves(c.take(offset as int))[j],
            decreases len - offset,
        {
            let mut first = First;
            let res = first.select(self, offset);
            match res {
                SearchResult::Nothing => {
                    proof {
                        if offset < len {
                            lemma_wf_not_empty(c, height, offset as int);
                        }
                    }
                    break;
                },
                _ => {},
            }
            let step = match res {
                SearchResult::Leaf(i) => i,
                SearchResult::Path(i) => i,
                SearchResult::Nothing => 0,
            };
            proof {
                lemma_node_leaves(*self);
                lemma_wf_not_empty(c, height, offset as int);
                lemma_take_step(c, offset as int);
            }
            let ghost before = out@;
            let ghost pre = seq_leaves(c.take(offset as int));
            match &ch[offset] {
                Handle::Leaf(kv) => {
                    out.push(kv);
                    proof {
                        assert(handle_leaves(c[offset as int]) == seq![*kv]);
                    }
                },
                Handle::Node(n, _) => {
                    proof {
                        lemma_handle_node(c[offset as int], height);
                    }
                    n.collect(out, Ghost((height - 1) as nat));
                },
                Handle::Empty => {},
            }
            proof {
                let mid = handle_leaves(c[offset as int]);
                assert forall|j: int|
                    0 <= j < seq_leaves(c.take(offset + 1)).len() implies *out@[out0.len() + j]
                    == #[trigger] seq_leaves(c.take(offset + 1))[j] by {
                    if j < pre.len() {
                        assert(out@[out0.len() + j] == before[out0.len() + j]);
                    } else {
                        assert(seq_leaves(c.take(offset + 1))[j] == mid[j - pre.len()]);
                    }
                }
                assert forall|j: int| 0 <= j < out0.len() implies out@[j] == out0[j] by {
                    assert(out@[j] == before[j]);
                }
            }
            offset = offset + 1;
        }
        proof {
            assert(c.take(len as int) =~= c);
        }
    }
}

impl<V> Two3Tree<V> {
    /// Number of pairs in the map: the cardinality annotation of the root.
    pub fn count(&self) -> (r: u64)
        ensures
            r == self@.len(),
            r == self.pairs().len(),
            self@.dom().finite(),
    {
        let root = self.tree_root();
        proof {
            lemma_map_of_len(root.leaves());
            lemma_node_leaves(*root);
        }
        if root.children().len() == 0 {
            proof {
                assert(root.handles() =~= Seq::<Handle<V>>::empty());
                lemma_seq_leaves_concat(root.handles(), root.handles());
            }
            0
        } else {
            let ann = root.annotation(Ghost(self.tree_height()));
            ann.count.0
        }
    }

    /// The `i`:th pair in key order, if there are more than `i` pairs.
    pub fn nth(&self, i: u64) -> (r: Option<&KV<u64, V>>)
        ensures
            r is Some <==> i < self.pairs().len(),
            r matches Some(kv) ==> *kv == self.pairs()[i as int],
            r matches Some(kv) ==> self@.contains_key(kv.key) && self@[kv.key] == kv.val,
    {
        let root = self.tree_root();
        proof {
            lemma_map_of(root.leaves());
        }
        let ghost all = root.leaves();
        let mut search = Nth::new(i);
        let mut node: &Two3Node<V> = root;
        let ghost mut hh: nat = self.tree_height();
        loop
            invariant
                seq_wf(node.handles(), hh),
                node.leaves().len() <= u64::MAX,
                all == self.pairs(),
                sorted(all),
                self@ == map_of(all),
                (i < all.len()) == (search.index() < node.leaves().len()),
                search.index() < node.leaves().len() ==> node.leaves()[search.index() as int] == all[i as int],
            decreases hh,
        {
            let ghost c = node.handles();
            let ghost n0 = search.index();
            proof {
                lemma_node_leaves(*node);
                assert(searchable(c)) by {
                    lemma_searchable(c, hh);
                }
            }
            let res = search.select(node, 0);
            let ch = node.children();
            match res {
                SearchResult::Leaf(j) => {
                    proof {
                        lemma_seq_leaves_split(c, j as int);
                        lemma_handle_nonempty(c[j as int], hh);
                        lemma_wf_not_empty(c, hh, j as int);
                    }
                    match &ch[j] {
                        Handle::Leaf(kv) => {
                            proof {
                                assert(node.leaves()[n0 as int] == *kv);
                                lemma_map_of(all);
                                assert(all[i as int].key == kv.key);
                            }
                            return Some(kv);
                        },
                        _ => {
                            return None;
                        },
                    }
                },
                SearchResult::Path(j) => {
                    proof {
                        lemma_seq_leaves_split(c, j as int);
                        lemma_handle_node(c[j as int], hh);
                    }
                    match &ch[j] {
                        Handle::Node(n, _) => {
                            proof {
                                let pre = seq_leaves(c.take(j as int));
                                assert(node.leaves()[n0 as int] == n.leaves()[search.index() as int]);
                                hh = (hh - 1) as nat;
                            }
                            node = &**n;
                        },
                        _ => {
                            return None;
                        },
                    }
                },
                SearchResult::Nothing => {
                    return None;
                },
            }
        }
    }

    /// References to all pairs, in ascending key order.
    pub fn iter(&self) -> (r: Vec<&KV<u64, V>>)
        ensures
            r@.len() == self.pairs().len(),
            forall|j: int| 0 <= j < r@.len() ==> *r@[j] == self.pairs()[j],
            r@.len() == self@.len(),
            forall|j: int|
                0 <= j < r@.len() ==> self@.contains_key(r@[j].key) && self@[r@[j].key] == r@[j].val,
            forall|a: int, b: int| 0 <= a < b < r@.len() ==> r@[a].key < r@[b].key,
    {
        let root = self.tree_root();
        proof {
            lemma_map_of(root.leaves());
            lemma_map_of_len(root.leaves());
        }
        let mut out: Vec<&KV<u64, V>> = Vec::new();
        root.collect(&mut out, Ghost(self.tree_height()));
        proof {
            let l = root.leaves();
            assert forall|a: int, b: int| 0 <= a < b < out@.len() implies out@[a].key < out@[b].key by {
                assert(*out@[a] == l[a]);
                assert(*out@[b] == l[b]);
            }
            assert forall|j: int| 0 <= j < out@.len() implies self@.contains_key(out@[j].key)
                && self@[out@[j].key] == out@[j].val by {
                assert(*out@[j] == l[j]);
                assert(l[j].key == out@[j].key);
            }
        }
        out
    }
}


impl<V> Count for Two3Tree<V> {
    /// The number of pairs.
    fn count(&self) -> (r: u64)
        ensures
            r == self@.len(),
    {
        Two3Tree::count(self)
    }
}

} // verus!
