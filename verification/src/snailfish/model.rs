//! The tree of a snailfish number, its magnitude fold and its leaf sum.

use vstd::prelude::*;

verus! {

/// One node of a snailfish number: a leaf value, or a pair of two subtrees.
///
/// A whole snailfish number is just its root `Node`; children own their
/// subtrees, so no parent links or sharing are possible by construction.
#[derive(Debug, PartialEq, Eq)]
pub enum Node {
    Leaf(u64),
    Pair(Box<Node>, Box<Node>),
}

/// Which rewrite rule the scan of the reduction engine selected.
#[derive(Clone, Copy, Debug, PartialEq, Eq, Structural)]
pub enum Action {
    Explode,
    Split,
}

/// One step of a path from a root down into a tree.
#[derive(Clone, Copy, Debug, PartialEq, Eq, Structural)]
pub enum Side {
    Left,
    Right,
}

/// The magnitude of a tree: a leaf scores its own value, a pair scores
/// three times its left magnitude plus twice its right magnitude.
pub open spec fn spec_magnitude(t: Node) -> nat
    decreases t,
{
    match t {
        Node::Leaf(v) => v as nat,
        Node::Pair(l, r) => 3 * spec_magnitude(*l) + 2 * spec_magnitude(*r),
    }
}

/// The sum of all leaf values of a tree.  Reduction never increases this
/// sum, which bounds every intermediate leaf value.
pub open spec fn sum_leaves(t: Node) -> nat
    decreases t,
{
    match t {
        Node::Leaf(v) => v as nat,
        Node::Pair(l, r) => sum_leaves(*l) + sum_leaves(*r),
    }
}

/// A pair whose both children are leaves, holding values `l` and `r`.
pub open spec fn is_regular_pair(t: Node) -> bool {
    t matches Node::Pair(l, r) && *l is Leaf && *r is Leaf
}

impl Node {
    /// Join two subtrees into a pair node.
    pub fn new(left: Node, right: Node) -> (t: Node)
        ensures
            t == Node::Pair(Box::new(left), Box::new(right)),
    {
        Node::Pair(Box::new(left), Box::new(right))
    }

    /// The value of this node if it is a leaf.
    pub fn leaf(&self) -> (r: Option<u64>)
        ensures
            match r {
                Some(v) => *self == Node::Leaf(v),
                None => *self is Pair,
            },
    {
        match self {
            Node::Leaf(v) => Some(*v),
            Node::Pair(_, _) => None,
        }
    }

    /// The two leaf values of this node if it is a regular pair.
    pub fn regular_pair(&self) -> (r: Option<[u64; 2]>)
        ensures
            match r {
                Some(vs) => *self == Node::Pair(
                    Box::new(Node::Leaf(vs[0])),
                    Box::new(Node::Leaf(vs[1])),
                ),
                None => !is_regular_pair(*self),
            },
    {
        match self {
            Node::Pair(l, r) => match (l.leaf(), r.leaf()) {
                (Some(lv), Some(rv)) => Some([lv, rv]),
                _ => None,
            },
            Node::Leaf(_) => None,
        }
    }

    /// Increase the value of a leaf node in place.
    pub fn add_to_leaf(&mut self, add: u64)
        requires
            *old(self) is Leaf,
            old(self)->Leaf_0 + add <= u64::MAX,
        ensures
            *final(self) == Node::Leaf((old(self)->Leaf_0 + add) as u64),
    {
        match self {
            Node::Leaf(v) => {
                *v = *v + add;
            },
            Node::Pair(_, _) => {
                proof {
                    assert(false);
                }
            },
        }
    }

    /// A structurally equal copy with no shared nodes, for reusing one
    /// parsed number in several additions.
    pub fn deep_clone(&self) -> (r: Node)
        ensures
            r == *self,
        decreases *self,
    {
        match self {
            Node::Leaf(v) => Node::Leaf(*v),
            Node::Pair(l, r) => Node::Pair(Box::new(l.deep_clone()), Box::new(r.deep_clone())),
        }
    }
}

/// The magnitude of a tree (`3 * left + 2 * right`, a leaf counting itself).
pub fn magnitude(node: &Node) -> (m: u64)
    requires
        spec_magnitude(*node) <= u64::MAX,
    ensures
        m == spec_magnitude(*node),
    decreases *node,
{
    match node {
        Node::Leaf(v) => *v,
        Node::Pair(l, r) => 3 * magnitude(l) + 2 * magnitude(r),
    }
}

} // verus!
