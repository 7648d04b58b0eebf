//! Paths into a snailfish tree and the scans of the reduction engine.
//!
//! A path is a sequence of [`Side`] steps from the root.  The reduction
//! engine locates its rewrite targets as paths: the leftmost regular pair at
//! nesting depth at least four ([`explode_path`]), the leftmost leaf of value
//! ten or more ([`split_path`]), and the nearest leaf to the left or right of
//! a target in the overall left-to-right leaf ordering ([`left_leaf_path`],
//! [`right_leaf_path`]).

use vstd::prelude::*;

use crate::snailfish::model::{is_regular_pair, sum_leaves, Action, Node, Side};

verus! {

/// Whether `p` leads from the root of `t` to a node.
pub open spec fn has_node(t: Node, p: Seq<Side>) -> bool
    decreases p.len(),
{
    if p.len() == 0 {
        true
    } else {
        t matches Node::Pair(l, r) && has_node(
            if p.first() == Side::Left {
                *l
            } else {
                *r
            },
            p.drop_first(),
        )
    }
}

/// The node that `p` leads to.
pub open spec fn node_at(t: Node, p: Seq<Side>) -> Node
    recommends
        has_node(t, p),
    decreases p.len(),
{
    if p.len() == 0 {
        t
    } else {
        match t {
            Node::Leaf(_) => t,
            Node::Pair(l, r) => node_at(
                if p.first() == Side::Left {
                    *l
                } else {
                    *r
                },
                p.drop_first(),
            ),
        }
    }
}

/// `t` with the node that `p` leads to replaced by `sub`.
pub open spec fn replace_at(t: Node, p: Seq<Side>, sub: Node) -> Node
    recommends
        has_node(t, p),
    decreases p.len(),
{
    if p.len() == 0 {
        sub
    } else {
        match t {
            Node::Leaf(_) => t,
            Node::Pair(l, r) => if p.first() == Side::Left {
                Node::Pair(Box::new(replace_at(*l, p.drop_first(), sub)), r)
            } else {
                Node::Pair(l, Box::new(replace_at(*r, p.drop_first(), sub)))
            },
        }
    }
}

/// The value of a leaf node.
pub open spec fn leaf_val(t: Node) -> u64
    recommends
        t is Leaf,
{
    t->Leaf_0
}

/// `t` with the leaf that `p` leads to increased by `add`.
pub open spec fn add_at(t: Node, p: Seq<Side>, add: u64) -> Node
    recommends
        has_node(t, p),
        node_at(t, p) is Leaf,
        leaf_val(node_at(t, p)) + add <= u64::MAX,
{
    replace_at(t, p, Node::Leaf((leaf_val(node_at(t, p)) + add) as u64))
}

/// The path to the rightmost leaf of `t`.
pub open spec fn rightmost_path(t: Node) -> Seq<Side>
    decreases t,
{
    match t {
        Node::Leaf(_) => Seq::empty(),
        Node::Pair(_, r) => seq![Side::Right] + rightmost_path(*r),
    }
}

/// The path to the leftmost leaf of `t`.
pub open spec fn leftmost_path(t: Node) -> Seq<Side>
    decreases t,
{
    match t {
        Node::Leaf(_) => Seq::empty(),
        Node::Pair(l, _) => seq![Side::Left] + leftmost_path(*l),
    }
}

/// The path to the nearest leaf to the left of the node at `p`, in the
/// left-to-right leaf ordering of `t`: walk up to the first ancestor that the
/// node descends from through its right child, step into that ancestor's
/// left child, and follow the rightmost path down.  `None` when no leaf lies
/// to the left.
pub open spec fn left_leaf_path(t: Node, p: Seq<Side>) -> Option<Seq<Side>>
    recommends
        has_node(t, p),
    decreases p.len(),
{
    if p.len() == 0 {
        None
    } else if p.last() == Side::Left {
        left_leaf_path(t, p.drop_last())
    } else {
        let q = p.drop_last().push(Side::Left);
        Some(q + rightmost_path(node_at(t, q)))
    }
}

/// The mirror image of [`left_leaf_path`]: the nearest leaf to the right.
pub open spec fn right_leaf_path(t: Node, p: Seq<Side>) -> Option<Seq<Side>>
    recommends
        has_node(t, p),
    decreases p.len(),
{
    if p.len() == 0 {
        None
    } else if p.last() == Side::Right {
        right_leaf_path(t, p.drop_last())
    } else {
        let q = p.drop_last().push(Side::Right);
        Some(q + leftmost_path(node_at(t, q)))
    }
}

/// The path to the first regular pair, in left-to-right depth-first order,
/// that sits at least `fuel` pair-ancestors below this node.  Called with
/// fuel four at the root, this is the explode target: the leftmost regular
/// pair at nesting depth at least four.
pub open spec fn explode_path(t: Node, fuel: nat) -> Option<Seq<Side>>
    decreases t,
{
    match t {
        Node::Leaf(_) => None,
        Node::Pair(l, r) => if fuel == 0 && is_regular_pair(t) {
            Some(Seq::empty())
        } else {
            let sub_fuel = if fuel == 0 {
                0nat
            } else {
                (fuel - 1) as nat
            };
            match explode_path(*l, sub_fuel) {
                Some(p) => Some(seq![Side::Left] + p),
                None => match explode_path(*r, sub_fuel) {
                    Some(p) => Some(seq![Side::Right] + p),
                    None => None,
                },
            }
        },
    }
}

/// The path to the first leaf, in left-to-right order, whose value is ten or
/// more: the split target.
pub open spec fn split_path(t: Node) -> Option<Seq<Side>>
    decreases t,
{
    match t {
        Node::Leaf(v) => if v >= 10 {
            Some(Seq::empty())
        } else {
            None
        },
        Node::Pair(l, r) => match split_path(*l) {
            Some(p) => Some(seq![Side::Left] + p),
            None => match split_path(*r) {
                Some(p) => Some(seq![Side::Right] + p),
                None => None,
            },
        },
    }
}

/// A single-step path exists exactly at a pair, and reaches its child.
pub proof fn lemma_single_step(t: Node)
    ensures
        has_node(t, seq![Side::Left]) == t is Pair,
        has_node(t, seq![Side::Right]) == t is Pair,
        t is Pair ==> node_at(t, seq![Side::Left]) == *t->Pair_0,
        t is Pair ==> node_at(t, seq![Side::Right]) == *t->Pair_1,
{
    let e = Seq::<Side>::empty();
    assert(seq![Side::Left].first() == Side::Left);
    assert(seq![Side::Right].first() == Side::Right);
    assert(seq![Side::Left].drop_first() =~= e);
    assert(seq![Side::Right].drop_first() =~= e);
    match t {
        Node::Leaf(_) => {},
        Node::Pair(l, r) => {
            assert(has_node(*l, e));
            assert(has_node(*r, e));
            assert(node_at(*l, e) == *l);
            assert(node_at(*r, e) == *r);
        },
    }
}

/// Walking first `p` and then `q` is walking their concatenation.
pub proof fn lemma_node_at_concat(t: Node, p: Seq<Side>, q: Seq<Side>)
    requires
        has_node(t, p),
    ensures
        has_node(t, p + q) == has_node(node_at(t, p), q),
        has_node(node_at(t, p), q) ==> node_at(t, p + q) == node_at(node_at(t, p), q),
    decreases p.len(),
{
    if p.len() == 0 {
        assert(p + q =~= q);
    } else {
        let c = if p.first() == Side::Left {
            *t->Pair_0
        } else {
            *t->Pair_1
        };
        assert((p + q).first() == p.first());
        assert((p + q).drop_first() =~= p.drop_first() + q);
        lemma_node_at_concat(c, p.drop_first(), q);
    }
}

/// A prefix of a valid path is valid.
pub proof fn lemma_has_node_prefix(t: Node, p: Seq<Side>, n: int)
    requires
        has_node(t, p),
        0 <= n <= p.len(),
    ensures
        has_node(t, p.subrange(0, n)),
    decreases p.len(),
{
    if n == 0 {
        assert(p.subrange(0, 0) =~= Seq::<Side>::empty());
    } else {
        let c = if p.first() == Side::Left {
            *t->Pair_0
        } else {
            *t->Pair_1
        };
        assert(p.subrange(0, n).first() == p.first());
        assert(p.subrange(0, n).drop_first() =~= p.drop_first().subrange(0, n - 1));
        lemma_has_node_prefix(c, p.drop_first(), n - 1);
    }
}

/// The rightmost path of a tree leads to a leaf.
pub proof fn lemma_rightmost_path_leaf(t: Node)
    ensures
        has_node(t, rightmost_path(t)),
        node_at(t, rightmost_path(t)) is Leaf,
    decreases t,
{
    match t {
        Node::Leaf(_) => {},
        Node::Pair(_, r) => {
            let p = seq![Side::Right] + rightmost_path(*r);
            assert(p.first() == Side::Right);
            assert(p.drop_first() =~= rightmost_path(*r));
            lemma_rightmost_path_leaf(*r);
        },
    }
}

/// The leftmost path of a tree leads to a leaf.
pub proof fn lemma_leftmost_path_leaf(t: Node)
    ensures
        has_node(t, leftmost_path(t)),
        node_at(t, leftmost_path(t)) is Leaf,
    decreases t,
{
    match t {
        Node::Leaf(_) => {},
        Node::Pair(l, _) => {
            let p = seq![Side::Left] + leftmost_path(*l);
            assert(p.first() == Side::Left);
            assert(p.drop_first() =~= leftmost_path(*l));
            lemma_leftmost_path_leaf(*l);
        },
    }
}

/// When the left-neighbour path exists it leads to a leaf, and it branches
/// off `p` at some ancestor, going left where `p` goes right.
pub proof fn lemma_left_leaf_path_valid(t: Node, p: Seq<Side>)
    requires
        has_node(t, p),
    ensures
        left_leaf_path(t, p) matches Some(q) ==> {
            &&& has_node(t, q)
            &&& node_at(t, q) is Leaf
            &&& exists|i: int|
                0 <= i < p.len() && i < q.len() && q.subrange(0, i) == p.subrange(0, i) && q[i]
                    == Side::Left && p[i] == Side::Right
        },
    decreases p.len(),
{
    if p.len() == 0 {
    } else if p.last() == Side::Left {
        let pd = p.drop_last();
        lemma_has_node_prefix(t, p, p.len() - 1);
        assert(p.subrange(0, p.len() - 1) =~= pd);
        lemma_left_leaf_path_valid(t, pd);
        if left_leaf_path(t, pd) is Some {
            let q = left_leaf_path(t, pd)->Some_0;
            let i = choose|i: int|
                0 <= i < pd.len() && i < q.len() && q.subrange(0, i) == pd.subrange(0, i) && q[i]
                    == Side::Left && pd[i] == Side::Right;
            assert(p.subrange(0, i) =~= pd.subrange(0, i));
            assert(p[i] == pd[i]);
        }
    } else {
        let pd = p.drop_last();
        let q0 = pd.push(Side::Left);
        lemma_has_node_prefix(t, p, p.len() - 1);
        assert(p.subrange(0, p.len() - 1) =~= pd);
        // `p` itself shows that the node at `pd` is a pair, so its left
        // child exists as well.
        lemma_node_at_concat(t, pd, seq![Side::Right]);
        assert(p =~= pd + seq![Side::Right]);
        let anc = node_at(t, pd);
        lemma_single_step(anc);
        assert(has_node(anc, seq![Side::Right]));
        assert(anc is Pair);
        assert(has_node(anc, seq![Side::Left]));
        lemma_node_at_concat(t, pd, seq![Side::Left]);
        assert(q0 =~= pd + seq![Side::Left]);
        assert(has_node(t, q0));
        let down = node_at(t, q0);
        lemma_rightmost_path_leaf(down);
        lemma_node_at_concat(t, q0, rightmost_path(down));
        let q = q0 + rightmost_path(down);
        assert(has_node(t, q));
        assert(node_at(t, q) is Leaf);
        let i = pd.len() as int;
        assert(q.subrange(0, i) =~= p.subrange(0, i));
        assert(q[i] == Side::Left);
        assert(p[i] == Side::Right);
    }
}

/// The mirror image of [`lemma_left_leaf_path_valid`].
pub proof fn lemma_right_leaf_path_valid(t: Node, p: Seq<Side>)
    requires
        has_node(t, p),
    ensures
        right_leaf_path(t, p) matches Some(q) ==> {
            &&& has_node(t, q)
            &&& node_at(t, q) is Leaf
            &&& exists|i: int|
                0 <= i < p.len() && i < q.len() && q.subrange(0, i) == p.subrange(0, i) && q[i]
                    == Side::Right && p[i] == Side::Left
        },
    decreases p.len(),
{
    if p.len() == 0 {
    } else if p.last() == Side::Right {
        let pd = p.drop_last();
        lemma_has_node_prefix(t, p, p.len() - 1);
        assert(p.subrange(0, p.len() - 1) =~= pd);
        lemma_right_leaf_path_valid(t, pd);
        if right_leaf_path(t, pd) is Some {
            let q = right_leaf_path(t, pd)->Some_0;
            let i = choose|i: int|
                0 <= i < pd.len() && i < q.len() && q.subrange(0, i) == pd.subrange(0, i) && q[i]
                    == Side::Right && pd[i] == Side::Left;
            assert(p.subrange(0, i) =~= pd.subrange(0, i));
            assert(p[i] == pd[i]);
        }
    } else {
        let pd = p.drop_last();
        let q0 = pd.push(Side::Right);
        lemma_has_node_prefix(t, p, p.len() - 1);
        assert(p.subrange(0, p.len() - 1) =~= pd);
        lemma_node_at_concat(t, pd, seq![Side::Left]);
        assert(p =~= pd + seq![Side::Left]);
        let anc = node_at(t, pd);
        lemma_single_step(anc);
        assert(has_node(anc, seq![Side::Left]));
        assert(anc is Pair);
        assert(has_node(anc, seq![Side::Right]));
        lemma_node_at_concat(t, pd, seq![Side::Right]);
        assert(q0 =~= pd + seq![Side::Right]);
        assert(has_node(t, q0));
        let down = node_at(t, q0);
        lemma_leftmost_path_leaf(down);
        lemma_node_at_concat(t, q0, leftmost_path(down));
        let q = q0 + leftmost_path(down);
        assert(has_node(t, q));
        assert(node_at(t, q) is Leaf);
        let i = pd.len() as int;
        assert(q.subrange(0, i) =~= p.subrange(0, i));
        assert(q[i] == Side::Right);
        assert(p[i] == Side::Left);
    }
}

/// An explode target is a regular pair reached by its path.
pub proof fn lemma_explode_path_valid(t: Node, fuel: nat)
    ensures
        explode_path(t, fuel) matches Some(p) ==> has_node(t, p) && is_regular_pair(
            node_at(t, p),
        ),
    decreases t,
{
    match t {
        Node::Leaf(_) => {},
        Node::Pair(l, r) => {
            if fuel == 0 && is_regular_pair(t) {
            } else {
                let sub_fuel = if fuel == 0 {
                    0nat
                } else {
                    (fuel - 1) as nat
                };
                lemma_explode_path_valid(*l, sub_fuel);
                lemma_explode_path_valid(*r, sub_fuel);
                if explode_path(*l, sub_fuel) is Some {
                    let p = explode_path(*l, sub_fuel)->Some_0;
                    let q = seq![Side::Left] + p;
                    assert(q.first() == Side::Left);
                    assert(q.drop_first() =~= p);
                } else if explode_path(*r, sub_fuel) is Some {
                    let p = explode_path(*r, sub_fuel)->Some_0;
                    let q = seq![Side::Right] + p;
                    assert(q.first() == Side::Right);
                    assert(q.drop_first() =~= p);
                }
            }
        },
    }
}

/// A split target is a leaf of value at least ten reached by its path.
pub proof fn lemma_split_path_valid(t: Node)
    ensures
        split_path(t) matches Some(p) ==> has_node(t, p) && node_at(t, p) is Leaf && leaf_val(
            node_at(t, p),
        ) >= 10,
    decreases t,
{
    match t {
        Node::Leaf(_) => {},
        Node::Pair(l, r) => {
            lemma_split_path_valid(*l);
            lemma_split_path_valid(*r);
            if split_path(*l) is Some {
                let p = split_path(*l)->Some_0;
                let q = seq![Side::Left] + p;
                assert(q.first() == Side::Left);
                assert(q.drop_first() =~= p);
            } else if split_path(*r) is Some {
                let p = split_path(*r)->Some_0;
                let q = seq![Side::Right] + p;
                assert(q.first() == Side::Right);
                assert(q.drop_first() =~= p);
            }
        },
    }
}

/// `q` is an initial segment of `p`.
pub open spec fn is_prefix_of(q: Seq<Side>, p: Seq<Side>) -> bool {
    q.len() <= p.len() && forall|i: int| 0 <= i < q.len() ==> p[i] == q[i]
}

/// A valid path through a leaf ends at that leaf.
pub proof fn lemma_leaf_path_maximal(t: Node, q: Seq<Side>, p: Seq<Side>)
    requires
        has_node(t, p),
        has_node(t, q),
        node_at(t, q) is Leaf,
        is_prefix_of(q, p),
    ensures
        p == q,
    decreases q.len(),
{
    if q.len() == 0 {
        if p.len() > 0 {
            assert(node_at(t, q) == t);
            assert(false);
        } else {
            assert(p =~= q);
        }
    } else {
        assert(p.len() > 0);
        assert(p.first() == q.first());
        let c = if p.first() == Side::Left {
            *t->Pair_0
        } else {
            *t->Pair_1
        };
        assert(is_prefix_of(q.drop_first(), p.drop_first())) by {
            assert(forall|i: int| 0 <= i < q.len() - 1 ==> p.drop_first()[i] == p[i + 1]);
            assert(forall|i: int| 0 <= i < q.len() - 1 ==> q.drop_first()[i] == q[i + 1]);
        }
        lemma_leaf_path_maximal(c, q.drop_first(), p.drop_first());
        assert(p =~= q) by {
            assert(p.len() == q.len());
            assert forall|i: int| 0 <= i < p.len() implies p[i] == q[i] by {
                if i == 0 {
                    assert(p[0] == q[0]);
                } else {
                    assert(p[i] == p.drop_first()[i - 1]);
                    assert(q[i] == q.drop_first()[i - 1]);
                }
            }
        }
    }
}

/// Replacing the subtree at `q` does not disturb the node at a path `p` that
/// neither passes through `q` nor lies above it.
pub proof fn lemma_replace_at_other(t: Node, q: Seq<Side>, sub: Node, p: Seq<Side>)
    requires
        has_node(t, q),
        has_node(t, p),
        !is_prefix_of(q, p),
        !is_prefix_of(p, q),
    ensures
        has_node(replace_at(t, q, sub), p),
        node_at(replace_at(t, q, sub), p) == node_at(t, p),
    decreases q.len(),
{
    assert(q.len() > 0);
    assert(p.len() > 0);
    {
        let t2 = replace_at(t, q, sub);
        assert(t2 is Pair);
        if p.first() == q.first() {
            let c = if p.first() == Side::Left {
                *t->Pair_0
            } else {
                *t->Pair_1
            };
            assert(!is_prefix_of(q.drop_first(), p.drop_first())) by {
                if is_prefix_of(q.drop_first(), p.drop_first()) {
                    assert forall|i: int| 0 <= i < q.len() implies p[i] == q[i] by {
                        if i >= 1 {
                            assert(p.drop_first()[i - 1] == q.drop_first()[i - 1]);
                            assert(p[i] == p.drop_first()[i - 1]);
                            assert(q[i] == q.drop_first()[i - 1]);
                        }
                    }
                    assert(is_prefix_of(q, p));
                }
            }
            assert(!is_prefix_of(p.drop_first(), q.drop_first())) by {
                if is_prefix_of(p.drop_first(), q.drop_first()) {
                    assert forall|i: int| 0 <= i < p.len() implies q[i] == p[i] by {
                        if i >= 1 {
                            assert(q.drop_first()[i - 1] == p.drop_first()[i - 1]);
                            assert(p[i] == p.drop_first()[i - 1]);
                            assert(q[i] == q.drop_first()[i - 1]);
                        }
                    }
                    assert(is_prefix_of(p, q));
                }
            }
            lemma_replace_at_other(c, q.drop_first(), sub, p.drop_first());
            let c2 = if p.first() == Side::Left {
                *t2->Pair_0
            } else {
                *t2->Pair_1
            };
            assert(c2 == replace_at(c, q.drop_first(), sub));
        } else {
            let c = if p.first() == Side::Left {
                *t->Pair_0
            } else {
                *t->Pair_1
            };
            let c2 = if p.first() == Side::Left {
                *t2->Pair_0
            } else {
                *t2->Pair_1
            };
            assert(c2 == c);
        }
    }
}

/// Every leaf value is at most the leaf sum of its tree.
pub proof fn lemma_leaf_le_sum(t: Node, p: Seq<Side>)
    requires
        has_node(t, p),
        node_at(t, p) is Leaf,
    ensures
        leaf_val(node_at(t, p)) <= sum_leaves(t),
    decreases p.len(),
{
    if p.len() == 0 {
    } else {
        let c = if p.first() == Side::Left {
            *t->Pair_0
        } else {
            *t->Pair_1
        };
        lemma_leaf_le_sum(c, p.drop_first());
    }
}

/// Two distinct leaves together contribute at most the leaf sum of their
/// tree.
pub proof fn lemma_two_leaves_le_sum(t: Node, p: Seq<Side>, q: Seq<Side>)
    requires
        has_node(t, p),
        has_node(t, q),
        node_at(t, p) is Leaf,
        node_at(t, q) is Leaf,
        p != q,
    ensures
        leaf_val(node_at(t, p)) + leaf_val(node_at(t, q)) <= sum_leaves(t),
    decreases p.len(),
{
    if p.len() == 0 {
        assert(q.len() == 0 ==> p =~= q);
        assert(false);
    } else if q.len() == 0 {
        assert(false);
    } else {
        let l = *t->Pair_0;
        let r = *t->Pair_1;
        let cp = if p.first() == Side::Left {
            l
        } else {
            r
        };
        let cq = if q.first() == Side::Left {
            l
        } else {
            r
        };
        if p.first() == q.first() {
            assert(p.drop_first() != q.drop_first()) by {
                if p.drop_first() == q.drop_first() {
                    assert(p =~= q) by {
                        assert(p.drop_first().len() == p.len() - 1);
                        assert(q.drop_first().len() == q.len() - 1);
                        assert forall|i: int| 0 <= i < p.len() implies p[i] == q[i] by {
                            if i >= 1 {
                                assert(p[i] == p.drop_first()[i - 1]);
                                assert(q[i] == q.drop_first()[i - 1]);
                            }
                        }
                    }
                }
            }
            lemma_two_leaves_le_sum(cp, p.drop_first(), q.drop_first());
        } else {
            lemma_leaf_le_sum(cp, p.drop_first());
            lemma_leaf_le_sum(cq, q.drop_first());
        }
    }
}

/// How a replacement changes the leaf sum: the old subtree's sum leaves, the
/// new subtree's sum enters.
pub proof fn lemma_sum_replace(t: Node, p: Seq<Side>, sub: Node)
    requires
        has_node(t, p),
    ensures
        sum_leaves(replace_at(t, p, sub)) + sum_leaves(node_at(t, p)) == sum_leaves(t)
            + sum_leaves(sub),
    decreases p.len(),
{
    if p.len() == 0 {
    } else {
        let c = if p.first() == Side::Left {
            *t->Pair_0
        } else {
            *t->Pair_1
        };
        lemma_sum_replace(c, p.drop_first(), sub);
    }
}

/// Search this subtree for a regular pair at least `fuel` levels down,
/// left-to-right and depth-first; the path returned is the explode scan's
/// result for this subtree.
fn explode_action(node: &Node, fuel: u8) -> (r: Option<Vec<Side>>)
    ensures
        match r {
            Some(p) => explode_path(*node, fuel as nat) == Some(p@),
            None => explode_path(*node, fuel as nat) is None,
        },
    decreases *node,
{
    match node {
        Node::Leaf(_) => None,
        Node::Pair(l, r) => {
            if fuel == 0 && l.leaf().is_some() && r.leaf().is_some() {
                Some(Vec::new())
            } else {
                let sub_fuel = if fuel == 0 {
                    0
                } else {
                    fuel - 1
                };
                match explode_action(l, sub_fuel) {
                    Some(mut p) => {
                        p.insert(0, Side::Left);
                        proof {
                            assert(p@ =~= seq![Side::Left] + p@.drop_first());
                        }
                        Some(p)
                    },
                    None => match explode_action(r, sub_fuel) {
                        Some(mut p) => {
                            p.insert(0, Side::Right);
                            proof {
                                assert(p@ =~= seq![Side::Right] + p@.drop_first());
                            }
                            Some(p)
                        },
                        None => None,
                    },
                }
            }
        },
    }
}

/// Search this subtree for a leaf of value ten or more, left-to-right; the
/// path returned is the split scan's result for this subtree.
fn split_action(node: &Node) -> (r: Option<Vec<Side>>)
    ensures
        match r {
            Some(p) => split_path(*node) == Some(p@),
            None => split_path(*node) is None,
        },
    decreases *node,
{
    match node {
        Node::Leaf(v) => {
            if *v >= 10 {
                Some(Vec::new())
            } else {
                None
            }
        },
        Node::Pair(l, r) => {
            match split_action(l) {
                Some(mut p) => {
                    p.insert(0, Side::Left);
                    proof {
                        assert(p@ =~= seq![Side::Left] + p@.drop_first());
                    }
                    Some(p)
                },
                None => match split_action(r) {
                    Some(mut p) => {
                        p.insert(0, Side::Right);
                        proof {
                            assert(p@ =~= seq![Side::Right] + p@.drop_first());
                        }
                        Some(p)
                    },
                    None => None,
                },
            }
        },
    }
}

/// The scan of the reduction engine: the path of the highest-priority
/// applicable rewrite, exploding the leftmost regular pair at depth at least
/// four before splitting the leftmost leaf of value ten or more, or `None`
/// when the tree is fully reduced.
pub fn find_actionable(node: &Node) -> (r: Option<(Action, Vec<Side>)>)
    ensures
        match r {
            Some(ap) => match ap.0 {
                Action::Explode => explode_path(*node, 4) == Some(ap.1@),
                Action::Split => explode_path(*node, 4) is None && split_path(*node) == Some(
                    ap.1@,
                ),
            },
            None => explode_path(*node, 4) is None && split_path(*node) is None,
        },
{
    match explode_action(node, 4) {
        Some(p) => Some((Action::Explode, p)),
        None => match split_action(node) {
            Some(p) => Some((Action::Split, p)),
            None => None,
        },
    }
}

/// Follow a path down from `t`.
pub fn descend<'a>(t: &'a Node, p: &Vec<Side>) -> (r: &'a Node)
    requires
        has_node(*t, p@),
    ensures
        *r == node_at(*t, p@),
{
    let mut cur: &Node = t;
    let mut i: usize = 0;
    proof {
        assert(p@.skip(0) =~= p@);
    }
    while i < p.len()
        invariant
            i <= p@.len(),
            has_node(*cur, p@.skip(i as int)),
            node_at(*cur, p@.skip(i as int)) == node_at(*t, p@),
        decreases p@.len() - i,
    {
        proof {
            assert(p@.skip(i as int).first() == p@[i as int]);
            assert(p@.skip(i as int).drop_first() =~= p@.skip(i as int + 1));
        }
        match cur {
            Node::Pair(l, r) => {
                if p[i] == Side::Left {
                    cur = l;
                } else {
                    cur = r;
                }
            },
            Node::Leaf(_) => {
                proof {
                    assert(false);
                }
            },
        }
        i = i + 1;
    }
    proof {
        assert(p@.skip(p@.len() as int) =~= Seq::<Side>::empty());
    }
    cur
}

/// The path to the rightmost leaf below this node.
pub fn rightmost(node: &Node) -> (p: Vec<Side>)
    ensures
        p@ == rightmost_path(*node),
    decreases *node,
{
    match node {
        Node::Leaf(_) => Vec::new(),
        Node::Pair(_, r) => {
            let mut p = rightmost(r);
            p.insert(0, Side::Right);
            proof {
                assert(p@ =~= seq![Side::Right] + p@.drop_first());
            }
            p
        },
    }
}

/// The path to the leftmost leaf below this node.
pub fn leftmost(node: &Node) -> (p: Vec<Side>)
    ensures
        p@ == leftmost_path(*node),
    decreases *node,
{
    match node {
        Node::Leaf(_) => Vec::new(),
        Node::Pair(l, _) => {
            let mut p = leftmost(l);
            p.insert(0, Side::Left);
            proof {
                assert(p@ =~= seq![Side::Left] + p@.drop_first());
            }
            p
        },
    }
}

/// The path of the nearest leaf to the left of the node at `p`, or `None`
/// when that node is on the leftmost spine.
#[verifier::rlimit(60)]
pub fn first_left_leaf_of(t: &Node, p: &Vec<Side>) -> (r: Option<Vec<Side>>)
    requires
        has_node(*t, p@),
    ensures
        match r {
            Some(q) => left_leaf_path(*t, p@) == Some(q@),
            None => left_leaf_path(*t, p@) is None,
        },
{
    let mut k: usize = p.len();
    proof {
        assert(p@.subrange(0, p@.len() as int) =~= p@);
    }
    while k > 0 && p[k - 1] == Side::Left
        invariant
            k <= p@.len(),
            left_leaf_path(*t, p@.subrange(0, k as int)) == left_leaf_path(*t, p@),
        decreases k,
    {
        proof {
            let pk = p@.subrange(0, k as int);
            assert(pk.last() == Side::Left);
            assert(pk.drop_last() =~= p@.subrange(0, k as int - 1));
        }
        k = k - 1;
    }
    if k == 0 {
        proof {
            assert(p@.subrange(0, 0) =~= Seq::<Side>::empty());
        }
        return None;
    }
    let ghost pk = p@.subrange(0, k as int);
    let mut q: Vec<Side> = Vec::new();
    let mut j: usize = 0;
    while j < k - 1
        invariant
            j <= k - 1 < p@.len(),
            q@ == p@.subrange(0, j as int),
        decreases k - j,
    {
        q.push(p[j]);
        proof {
            assert(p@.subrange(0, j as int).push(p@[j as int]) =~= p@.subrange(0, j + 1 as int));
        }
        j = j + 1;
    }
    q.push(Side::Left);
    proof {
        assert(pk.last() == Side::Right);
        assert(pk.drop_last() =~= p@.subrange(0, k as int - 1));
        assert(q@ =~= pk.drop_last().push(Side::Left));
        lemma_has_node_prefix(*t, p@, k as int);
        lemma_has_node_prefix(*t, pk, k as int - 1);
        assert(pk.subrange(0, k as int - 1) =~= pk.drop_last());
        lemma_node_at_concat(*t, pk.drop_last(), seq![Side::Right]);
        assert(pk =~= pk.drop_last() + seq![Side::Right]);
        lemma_single_step(node_at(*t, pk.drop_last()));
        assert(node_at(*t, pk.drop_last()) is Pair);
        assert(has_node(node_at(*t, pk.drop_last()), seq![Side::Left]));
        lemma_node_at_concat(*t, pk.drop_last(), seq![Side::Left]);
        assert(q@ =~= pk.drop_last() + seq![Side::Left]);
        assert(has_node(*t, q@));
    }
    let sub = descend(t, &q);
    let mut tail = rightmost(sub);
    q.append(&mut tail);
    proof {
        assert(left_leaf_path(*t, pk) == Some(q@));
    }
    Some(q)
}

/// The path of the nearest leaf to the right of the node at `p`, or `None`
/// when that node is on the rightmost spine.
#[verifier::rlimit(60)]
pub fn first_right_leaf_of(t: &Node, p: &Vec<Side>) -> (r: Option<Vec<Side>>)
    requires
        has_node(*t, p@),
    ensures
        match r {
            Some(q) => right_leaf_path(*t, p@) == Some(q@),
            None => right_leaf_path(*t, p@) is None,
        },
{
    let mut k: usize = p.len();
    proof {
        assert(p@.subrange(0, p@.len() as int) =~= p@);
    }
    while k > 0 && p[k - 1] == Side::Right
        invariant
            k <= p@.len(),
            right_leaf_path(*t, p@.subrange(0, k as int)) == right_leaf_path(*t, p@),
        decreases k,
    {
        proof {
            let pk = p@.subrange(0, k as int);
            assert(pk.last() == Side::Right);
            assert(pk.drop_last() =~= p@.subrange(0, k as int - 1));
        }
        k = k - 1;
    }
    if k == 0 {
        proof {
            assert(p@.subrange(0, 0) =~= Seq::<Side>::empty());
        }
        return None;
    }
    let ghost pk = p@.subrange(0, k as int);
    let mut q: Vec<Side> = Vec::new();
    let mut j: usize = 0;
    while j < k - 1
        invariant
            j <= k - 1 < p@.len(),
            q@ == p@.subrange(0, j as int),
        decreases k - j,
    {
        q.push(p[j]);
        proof {
            assert(p@.subrange(0, j as int).push(p@[j as int]) =~= p@.subrange(0, j + 1 as int));
        }
        j = j + 1;
    }
    q.push(Side::Right);
    proof {
        assert(pk.last() == Side::Left);
        assert(pk.drop_last() =~= p@.subrange(0, k as int - 1));
        assert(q@ =~= pk.drop_last().push(Side::Right));
        lemma_has_node_prefix(*t, p@, k as int);
        lemma_has_node_prefix(*t, pk, k as int - 1);
        assert(pk.subrange(0, k as int - 1) =~= pk.drop_last());
        lemma_node_at_concat(*t, pk.drop_last(), seq![Side::Left]);
        assert(pk =~= pk.drop_last() + seq![Side::Left]);
        lemma_single_step(node_at(*t, pk.drop_last()));
        assert(node_at(*t, pk.drop_last()) is Pair);
        assert(has_node(node_at(*t, pk.drop_last()), seq![Side::Right]));
        lemma_node_at_concat(*t, pk.drop_last(), seq![Side::Right]);
        assert(q@ =~= pk.drop_last() + seq![Side::Right]);
        assert(has_node(*t, q@));
    }
    let sub = descend(t, &q);
    let mut tail = leftmost(sub);
    q.append(&mut tail);
    proof {
        assert(right_leaf_path(*t, pk) == Some(q@));
    }
    Some(q)
}

} // verus!
