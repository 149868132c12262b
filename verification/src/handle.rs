//! The kinds of slot a tree node holds.
use vstd::prelude::*;

verus! {

/// Represents the type of a handle: what a slot of a tree node holds.
#[derive(Debug, Clone, Copy, PartialEq, Eq, Structural)]
pub enum HandleType {
    /// Empty handle
    Empty,
    /// Leaf handle
    Leaf,
    /// Node handle
    Node,
}

} // verus!
