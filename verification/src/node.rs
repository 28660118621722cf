use vstd::prelude::*;

verus! {

/// One record of the trie's node pool: a running count of the stored values
/// whose prefix reaches this node, and up to two children selected by the
/// next key bit (slot 0 for bit 0, slot 1 for bit 1), referenced by pool
/// index.
#[derive(Clone, Copy)]
pub struct Node {
    pub count: usize,
    pub children: [Option<usize>; 2],
}

impl Node {
    /// A fresh node: count zero and no children.
    pub fn new() -> (n: Node)
        ensures
            n.count == 0,
            n.children[0] is None,
            n.children[1] is None,
    {
        Node { count: 0, children: [None, None] }
    }
}

/// The child slot of `n` selected by bit `b` (`false` selects slot 0,
/// `true` selects slot 1).
pub open spec fn child_of(n: Node, b: bool) -> Option<usize> {
    if b {
        n.children[1]
    } else {
        n.children[0]
    }
}

} // verus!
