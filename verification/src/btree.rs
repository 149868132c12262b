//! B-trees: ordered maps from `u64` keys over the same balanced node layout
//! as the 2-3 tree, searched by comparing the key with each handle's
//! maximum-key annotation.
use vstd::prelude::*;

use crate::annotations::Count;
use crate::search::SearchResult;
use crate::two3::{ann_key, lemma_searchable_ann_keys, Handle, KeyLocate, Two3Node, Two3Tree};

verus! {

/// Search for a key in a B-tree node.
pub struct BTreeSearch {
    key: u64,
}

/// A search for `k` passes over handle `h`: it carries no annotation, or a
/// smaller key.
pub open spec fn passes<V>(h: Handle<V>, k: u64) -> bool {
    match ann_key(h) {
        Some(m) => m < k,
        None => true,
    }
}

impl BTreeSearch {
    /// Starts a search for `key`.
    pub fn new(key: u64) -> (r: Self)
        ensures
            r.key() == key,
    {
        BTreeSearch { key }
    }

    /// The key searched for.
    pub closed spec fn key(self) -> u64 {
        self.key
    }

    /// Picks the first handle whose annotation key is at least the searched
    /// key; when there is none, the last handle if it is a node.
    pub fn select<V>(&mut self, handles: &[Handle<V>]) -> (r: Option<usize>)
        ensures
            final(self).key() == old(self).key(),
            ({
                let h = handles@;
                let k = old(self).key();
                &&& r matches Some(i) ==> {
                    &&& i < h.len()
                    &&& forall|j: int| 0 <= j < i ==> passes(#[trigger] h[j], k)
                    &&& ((ann_key(h[i as int]) matches Some(m) && k <= m) || (i == h.len() - 1
                        && h[i as int] is Node && passes(h[i as int], k)))
                }
                &&& r is None ==> {
                    &&& forall|j: int| 0 <= j < h.len() ==> passes(#[trigger] h[j], k)
                    &&& (h.len() == 0 || !(h.last() is Node))
                }
            }),
    {
        let len = handles.len();
        let mut i: usize = 0;
        while i < len
            invariant
                i <= len,
                len == handles@.len(),
                forall|j: int| 0 <= j < i ==> passes(#[trigger] handles@[j], self.key),
            decreases len - i,
        {
            let m = match &handles[i] {
                Handle::Empty => None,
                Handle::Leaf(kv) => Some(kv.key),
                Handle::Node(_, a) => Some(a.key.0),
            };
            match m {
                Some(m) => {
                    if self.key <= m {
                        return Some(i);
                    }
                },
                None => {},
            }
            i = i + 1;
        }
        if len > 0 {
            match &handles[len - 1] {
                Handle::Node(..) => {
                    return Some(len - 1);
                },
                _ => {},
            }
        }
        None
    }
}

impl KeyLocate for BTreeSearch {
    /// Selects a handle with `select`; a selected pair with the key itself is
    /// a match.
    fn locate<V>(node: &Two3Node<V>, k: u64) -> (r: SearchResult) {
        proof {
            lemma_searchable_ann_keys(node.handles());
        }
        let handles = node.children();
        let mut search = BTreeSearch::new(k);
        match search.select(handles) {
            Some(i) => match &handles[i] {
                Handle::Leaf(kv) => {
                    if kv.key == k {
                        SearchResult::Leaf(i)
                    } else {
                        SearchResult::Path(i)
                    }
                },
                _ => SearchResult::Path(i),
            },
            None => SearchResult::Nothing,
        }
    }
}

/// An ordered map from `u64` keys, kept as a B-tree.
pub struct BTree<V> {
    tree: Two3Tree<V>,
}

impl<V> View for BTree<V> {
    type V = Map<u64, V>;

    closed spec fn view(&self) -> Map<u64, V> {
        self.tree@
    }
}

impl<V> Default for BTree<V> {
    fn default() -> (r: Self)
        ensures
            r@ == Map::<u64, V>::empty(),
    {
        Self::new()
    }
}

impl<V> BTree<V> {
    /// Creates an empty map.
    pub fn new() -> (r: Self)
        ensures
            r@ == Map::<u64, V>::empty(),
    {
        BTree { tree: Two3Tree::new() }
    }

    /// The tree that holds the map, with its shape (see `Two3Tree::tree_root`).
    pub fn tree(&self) -> (r: &Two3Tree<V>)
        ensures
            r@ == self@,
    {
        &self.tree
    }

    /// Inserts `k -> v`, returning the value it replaces, if any.
    pub fn insert(&mut self, k: u64, v: V) -> (r: Option<V>)
        requires
            old(self)@.len() < u64::MAX,
        ensures
            final(self)@ == old(self)@.insert(k, v),
            r == old(self)@.get(k),
    {
        self.tree.insert_with::<BTreeSearch>(k, v)
    }

    /// The value under `k`, if any.
    pub fn get(&self, k: u64) -> (r: Option<&V>)
        ensures
            r is Some <==> self@.contains_key(k),
            r matches Some(v) ==> *v == self@[k],
    {
        self.tree.get_with::<BTreeSearch>(k)
    }

    /// A mutable reference to the value under `k`, if any. What is written
    /// through it becomes the value of `k`; the other keys keep theirs.
    pub fn get_mut(&mut self, k: u64) -> (r: Option<&mut V>)
        ensures
            r is Some <==> old(self)@.contains_key(k),
            r matches Some(v) ==> *v == old(self)@[k],
            final(self)@ == if r is Some {
                old(self)@.insert(k, *final(r->0))
            } else {
                old(self)@
            },
    {
        self.tree.get_mut(k)
    }

    /// Removes `k`, returning its value, if any.
    pub fn remove(&mut self, k: u64) -> (r: Option<V>)
        ensures
            final(self)@ == old(self)@.remove(k),
            r == old(self)@.get(k),
    {
        self.tree.remove_with::<BTreeSearch>(k)
    }
}

impl<V> Count for BTree<V> {
    /// The number of pairs.
    fn count(&self) -> (r: u64)
        ensures
            r == self@.len(),
    {
        self.tree.count()
    }
}

} // verus!
