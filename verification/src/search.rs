//! Search methods: how a walk through a tree picks the slot to follow in a node.
use vstd::prelude::*;

verus! {

/// Result of searching through a node.
#[derive(Debug, Clone, Copy, PartialEq, Eq, Structural)]
pub enum SearchResult {
    /// Found an exact match at this slot.
    Leaf(usize),
    /// The search continues through this slot.
    Path(usize),
    /// Nothing found in this node.
    Nothing,
}

/// What a level of a branch found after a search step.
#[derive(Debug, Clone, Copy, PartialEq, Eq, Structural)]
pub enum Found {
    /// The level points at a leaf.
    Leaf,
    /// The level points at a path to follow.
    Path,
    /// Nothing found.
    Nothing,
}

/// A way of searching through the nodes of a tree of type `C`.
pub trait Method<C>: Sized {
    /// Whether `select` may be called on this node from `offset`.
    spec fn can_select(&self, compound: &C, offset: usize) -> bool;

    /// Selects among the slots of `compound`, counted from `offset`.
    fn select(&mut self, compound: &C, offset: usize) -> SearchResult
        requires
            old(self).can_select(compound, offset),
    ;
}

} // verus!
