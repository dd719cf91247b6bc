use vstd::prelude::*;

verus! {

/// What the visitor asks of the walk after it has seen a node.
#[derive(Debug, Clone, Copy, PartialEq, Eq, Structural)]
pub enum TreeControl {
    /// Go on, and explore this node's children.
    Continue,
    /// Leave this node's children out, and go on with its siblings.
    Prune,
    /// Stop the whole walk: nothing else is visited.
    Break,
}

} // verus!
