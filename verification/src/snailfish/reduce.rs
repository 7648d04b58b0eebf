//! The reduction engine: the explode/split rewrite rules, the fixpoint loop,
//! and the reducing addition operator.
//!
//! One reduction step applies the highest-priority applicable rule: explode
//! the leftmost regular pair at depth at least four, else split the leftmost
//! leaf of value ten or more.  [`reduce`] repeats steps until neither rule
//! applies; [`reduces_to`] is the contract language for that fixpoint.

use vstd::prelude::*;

use crate::snailfish::model::{is_regular_pair, sum_leaves, Action, Node, Side};
use crate::snailfish::paths::{
    add_at, descend, explode_path, find_actionable, first_left_leaf_of, first_right_leaf_of,
    has_node, is_prefix_of, leaf_val, left_leaf_path, lemma_explode_path_valid,
    lemma_leaf_path_maximal, lemma_left_leaf_path_valid, lemma_node_at_concat,
    lemma_replace_at_other, lemma_right_leaf_path_valid, lemma_single_step, lemma_split_path_valid,
    lemma_sum_replace, lemma_two_leaves_le_sum, node_at, replace_at, right_leaf_path, split_path,
};

verus! {

/// The tree after exploding the regular pair at `p`: its left value joins
/// the nearest leaf to the left, its right value the nearest leaf to the
/// right, and the pair itself becomes a leaf of value zero.
pub open spec fn explode_at(t: Node, p: Seq<Side>) -> Node
    recommends
        has_node(t, p),
        is_regular_pair(node_at(t, p)),
{
    let lv = leaf_val(*node_at(t, p)->Pair_0);
    let rv = leaf_val(*node_at(t, p)->Pair_1);
    let t1 = match left_leaf_path(t, p) {
        Some(q) => add_at(t, q, lv),
        None => t,
    };
    let t2 = match right_leaf_path(t, p) {
        Some(q) => add_at(t1, q, rv),
        None => t1,
    };
    replace_at(t2, p, Node::Leaf(0))
}

/// The tree after splitting the leaf at `p`: the leaf of value `v` becomes a
/// pair of `v / 2` rounded down and `v / 2` rounded up.
pub open spec fn split_at(t: Node, p: Seq<Side>) -> Node
    recommends
        has_node(t, p),
        node_at(t, p) is Leaf,
{
    let v = leaf_val(node_at(t, p));
    replace_at(
        t,
        p,
        Node::Pair(
            Box::new(Node::Leaf((v / 2) as u64)),
            Box::new(Node::Leaf((v - v / 2) as u64)),
        ),
    )
}

/// One reduction step: explode takes priority over split, and within a rule
/// the leftmost qualifying node is rewritten.  `None` on a fully reduced
/// tree.
pub open spec fn step(t: Node) -> Option<Node> {
    match explode_path(t, 4) {
        Some(p) => Some(explode_at(t, p)),
        None => match split_path(t) {
            Some(p) => Some(split_at(t, p)),
            None => None,
        },
    }
}

/// A fully reduced tree: no regular pair at depth at least four and no leaf
/// of value ten or more.
pub open spec fn is_reduced(t: Node) -> bool {
    explode_path(t, 4) is None && split_path(t) is None
}

/// The tree after `n` reduction steps, stopping early at a fixpoint.
pub open spec fn run_steps(t: Node, n: nat) -> Node
    decreases n,
{
    if n == 0 || is_reduced(t) {
        t
    } else {
        run_steps(step(t)->Some_0, (n - 1) as nat)
    }
}

/// `r` is the fixpoint that the reduction engine reaches from `t`: fully
/// reduced, after finitely many steps.
pub open spec fn reduces_to(t: Node, r: Node) -> bool {
    is_reduced(r) && exists|n: nat| run_steps(t, n) == r
}

/// The reduced form of `t`, where one exists.
pub open spec fn reduced_of(t: Node) -> Node {
    choose|r: Node| reduces_to(t, r)
}

/// The reduction of `t` reaches a fixpoint in finitely many steps.
///
/// This holds of every tree (explode strictly shrinks the tree, and the
/// values that feed splits are halved faster than carries replenish them),
/// but the engine takes it as a hypothesis rather than proving it, exactly
/// replicating the rule order instead.  [`reduce`] turns the hypothesis into
/// a step bound for its loop.
pub open spec fn terminates(t: Node) -> bool {
    exists|n: nat| is_reduced(run_steps(t, n))
}

/// Running steps concatenates: `m + n` steps are `m` steps and then `n`.
pub proof fn lemma_run_steps_add(t: Node, m: nat, n: nat)
    ensures
        run_steps(t, m + n) == run_steps(run_steps(t, m), n),
    decreases m,
{
    if m == 0 {
    } else if is_reduced(t) {
        assert(run_steps(t, m + n) == t);
        assert(run_steps(t, n) == t);
    } else {
        lemma_run_steps_add(step(t)->Some_0, (m - 1) as nat, n);
        assert(m + n != 0 && (m + n - 1) as nat == (m - 1) as nat + n);
    }
}

/// A reduced tree is a fixpoint of the step relation.
pub proof fn lemma_reduced_fixpoint(t: Node, n: nat)
    requires
        is_reduced(t),
    ensures
        run_steps(t, n) == t,
{
}

/// The reduced form of a tree is unique: whatever number of steps the engine
/// takes, a fully reduced result from the same start is the same tree.
pub proof fn lemma_reduces_to_unique(t: Node, r1: Node, r2: Node)
    requires
        reduces_to(t, r1),
        reduces_to(t, r2),
    ensures
        r1 == r2,
{
    let n1 = choose|n: nat| run_steps(t, n) == r1;
    let n2 = choose|n: nat| run_steps(t, n) == r2;
    if n1 <= n2 {
        lemma_run_steps_add(t, n1, (n2 - n1) as nat);
        lemma_reduced_fixpoint(r1, (n2 - n1) as nat);
        assert(n1 + (n2 - n1) as nat == n2);
    } else {
        lemma_run_steps_add(t, n2, (n1 - n2) as nat);
        lemma_reduced_fixpoint(r2, (n1 - n2) as nat);
        assert(n2 + (n1 - n2) as nat == n1);
    }
}

/// Reduction is idempotent: reducing a tree that is already the reduced form
/// of some tree changes nothing, so reducing twice is reducing once.
pub proof fn lemma_reduce_idempotent(t: Node, r1: Node, r2: Node)
    requires
        reduces_to(t, r1),
        reduces_to(r1, r2),
    ensures
        r2 == r1,
{
    let n = choose|n: nat| run_steps(r1, n) == r2;
    lemma_reduced_fixpoint(r1, n);
}

/// A path that differs from `p` at index `i` leads outside the subtree of
/// `p` and of any immediate child of `p`.
proof fn lemma_diverging_paths(p: Seq<Side>, q: Seq<Side>, i: int, cs: Side)
    requires
        0 <= i < p.len(),
        i < q.len(),
        q[i] != p[i],
    ensures
        !is_prefix_of(q, p),
        !is_prefix_of(p, q),
        !is_prefix_of(q, p.push(cs)),
        !is_prefix_of(p.push(cs), q),
        q != p.push(cs),
{
    assert(p.push(cs)[i] == p[i]);
    if q == p.push(cs) {
        assert(q[i] == p.push(cs)[i]);
        assert(false);
    }
}

/// The left and right neighbour leaves of a target are distinct: each path
/// first diverges from the target path in its own direction.
proof fn lemma_neighbors_distinct(p: Seq<Side>, ql: Seq<Side>, qr: Seq<Side>, i: int, j: int)
    requires
        0 <= i < p.len(),
        i < ql.len(),
        ql.subrange(0, i) == p.subrange(0, i),
        ql[i] == Side::Left,
        p[i] == Side::Right,
        0 <= j < p.len(),
        j < qr.len(),
        qr.subrange(0, j) == p.subrange(0, j),
        qr[j] == Side::Right,
        p[j] == Side::Left,
    ensures
        ql != qr,
{
    if ql == qr {
        if i < j {
            assert(qr.subrange(0, j)[i] == qr[i]);
            assert(p.subrange(0, j)[i] == p[i]);
        } else if j < i {
            assert(ql.subrange(0, i)[j] == ql[j]);
            assert(p.subrange(0, i)[j] == p[j]);
        }
        assert(false);
    }
}

/// Increase the leaf at `p` (from position `i` on) by `add`, rebuilding the
/// spine above it.
fn with_leaf_added(t: Node, p: &Vec<Side>, i: usize, add: u64) -> (r: Node)
    requires
        i <= p@.len(),
        has_node(t, p@.skip(i as int)),
        node_at(t, p@.skip(i as int)) is Leaf,
        leaf_val(node_at(t, p@.skip(i as int))) + add <= u64::MAX,
    ensures
        r == add_at(t, p@.skip(i as int), add),
    decreases p@.len() - i,
{
    if i == p.len() {
        proof {
            assert(p@.skip(i as int) =~= Seq::<Side>::empty());
        }
        let mut n = t;
        n.add_to_leaf(add);
        n
    } else {
        proof {
            assert(p@.skip(i as int).first() == p@[i as int]);
            assert(p@.skip(i as int).drop_first() =~= p@.skip(i as int + 1));
        }
        match t {
            Node::Pair(l, r) => {
                if p[i] == Side::Left {
                    Node::Pair(Box::new(with_leaf_added(*l, p, i + 1, add)), r)
                } else {
                    Node::Pair(l, Box::new(with_leaf_added(*r, p, i + 1, add)))
                }
            },
            Node::Leaf(_) => {
                proof {
                    assert(false);
                }
                vstd::pervasive::unreached()
            },
        }
    }
}

/// Replace the node at `p` (from position `i` on) by `sub`, rebuilding the
/// spine above it.
fn with_replaced(t: Node, p: &Vec<Side>, i: usize, sub: Node) -> (r: Node)
    requires
        i <= p@.len(),
        has_node(t, p@.skip(i as int)),
    ensures
        r == replace_at(t, p@.skip(i as int), sub),
    decreases p@.len() - i,
{
    if i == p.len() {
        proof {
            assert(p@.skip(i as int) =~= Seq::<Side>::empty());
        }
        sub
    } else {
        proof {
            assert(p@.skip(i as int).first() == p@[i as int]);
            assert(p@.skip(i as int).drop_first() =~= p@.skip(i as int + 1));
        }
        match t {
            Node::Pair(l, r) => {
                if p[i] == Side::Left {
                    Node::Pair(Box::new(with_replaced(*l, p, i + 1, sub)), r)
                } else {
                    Node::Pair(l, Box::new(with_replaced(*r, p, i + 1, sub)))
                }
            },
            Node::Leaf(_) => {
                proof {
                    assert(false);
                }
                vstd::pervasive::unreached()
            },
        }
    }
}

/// Apply the explode rule at the target path `p`: the pair's left value is
/// added to the nearest leaf on its left, its right value to the nearest
/// leaf on its right, and the pair becomes a zero leaf.  The leaf sum never
/// grows, so no addition can overflow.
#[verifier::rlimit(100)]
pub fn apply_explode(t: Node, p: &Vec<Side>) -> (r: Node)
    requires
        explode_path(t, 4) == Some(p@),
        sum_leaves(t) <= u64::MAX,
    ensures
        r == explode_at(t, p@),
        sum_leaves(r) <= sum_leaves(t),
{
    proof {
        lemma_explode_path_valid(t, 4);
    }
    let target = descend(&t, p);
    let vs = match target.regular_pair() {
        Some(vs) => vs,
        None => {
            proof {
                assert(false);
            }
            vstd::pervasive::unreached()
        },
    };
    let lv = vs[0];
    let rv = vs[1];
    let ghost pl = p@.push(Side::Left);
    let ghost pr = p@.push(Side::Right);
    proof {
        lemma_single_step(*target);
        lemma_node_at_concat(t, p@, seq![Side::Left]);
        lemma_node_at_concat(t, p@, seq![Side::Right]);
        assert(pl =~= p@ + seq![Side::Left]);
        assert(pr =~= p@ + seq![Side::Right]);
        assert(node_at(t, pl) == Node::Leaf(lv));
        assert(node_at(t, pr) == Node::Leaf(rv));
        lemma_left_leaf_path_valid(t, p@);
        lemma_right_leaf_path_valid(t, p@);
    }
    let ql = first_left_leaf_of(&t, p);
    let qr = first_right_leaf_of(&t, p);
    let ghost t0 = t;
    let mut cur = t;
    if let Some(q) = &ql {
        proof {
            let i = choose|i: int|
                0 <= i < p@.len() && i < q@.len() && q@.subrange(0, i) == p@.subrange(0, i)
                    && q@[i] == Side::Left && p@[i] == Side::Right;
            lemma_diverging_paths(p@, q@, i, Side::Left);
            lemma_two_leaves_le_sum(t0, q@, pl);
            assert(q@.skip(0) =~= q@);
        }
        cur = with_leaf_added(cur, q, 0, lv);
        proof {
            lemma_sum_replace(t0, q@, Node::Leaf((leaf_val(node_at(t0, q@)) + lv) as u64));
        }
    }
    let ghost t1 = cur;
    if let Some(q2) = &qr {
        proof {
            let j = choose|j: int|
                0 <= j < p@.len() && j < q2@.len() && q2@.subrange(0, j) == p@.subrange(0, j)
                    && q2@[j] == Side::Right && p@[j] == Side::Left;
            lemma_diverging_paths(p@, q2@, j, Side::Right);
            lemma_two_leaves_le_sum(t0, q2@, pr);
            if ql is Some {
                let q = ql->Some_0;
                let i = choose|i: int|
                    0 <= i < p@.len() && i < q@.len() && q@.subrange(0, i) == p@.subrange(0, i)
                        && q@[i] == Side::Left && p@[i] == Side::Right;
                lemma_neighbors_distinct(p@, q@, q2@, i, j);
                assert(!is_prefix_of(q@, q2@)) by {
                    if is_prefix_of(q@, q2@) {
                        lemma_leaf_path_maximal(t0, q@, q2@);
                    }
                }
                assert(!is_prefix_of(q2@, q@)) by {
                    if is_prefix_of(q2@, q@) {
                        lemma_leaf_path_maximal(t0, q2@, q@);
                    }
                }
                lemma_replace_at_other(
                    t0,
                    q@,
                    Node::Leaf((leaf_val(node_at(t0, q@)) + lv) as u64),
                    q2@,
                );
            }
            assert(node_at(t1, q2@) == node_at(t0, q2@));
            assert(q2@.skip(0) =~= q2@);
        }
        cur = with_leaf_added(cur, q2, 0, rv);
        proof {
            lemma_sum_replace(t1, q2@, Node::Leaf((leaf_val(node_at(t1, q2@)) + rv) as u64));
        }
    }
    let ghost t2 = cur;
    proof {
        // The target pair is untouched by the neighbour additions, which
        // change leaves strictly outside its subtree.
        if ql is Some {
            let q = ql->Some_0;
            let i = choose|i: int|
                0 <= i < p@.len() && i < q@.len() && q@.subrange(0, i) == p@.subrange(0, i)
                    && q@[i] == Side::Left && p@[i] == Side::Right;
            lemma_diverging_paths(p@, q@, i, Side::Left);
            lemma_replace_at_other(
                t0,
                q@,
                Node::Leaf((leaf_val(node_at(t0, q@)) + lv) as u64),
                p@,
            );
        }
        if qr is Some {
            let q2 = qr->Some_0;
            let j = choose|j: int|
                0 <= j < p@.len() && j < q2@.len() && q2@.subrange(0, j) == p@.subrange(0, j)
                    && q2@[j] == Side::Right && p@[j] == Side::Left;
            lemma_diverging_paths(p@, q2@, j, Side::Right);
            lemma_replace_at_other(
                t1,
                q2@,
                Node::Leaf((leaf_val(node_at(t1, q2@)) + rv) as u64),
                p@,
            );
        }
        assert(has_node(t2, p@));
        assert(node_at(t2, p@) == *target);
        assert(p@.skip(0) =~= p@);
        lemma_sum_replace(t2, p@, Node::Leaf(0));
        assert(sum_leaves(Node::Leaf(lv)) == lv);
        assert(sum_leaves(Node::Leaf(rv)) == rv);
        assert(sum_leaves(Node::Leaf(0)) == 0);
        assert(sum_leaves(*target) == lv + rv);
    }
    let r = with_replaced(cur, p, 0, Node::Leaf(0));
    r
}

/// Apply the split rule at the target path `p`: the leaf of value `v`
/// becomes the pair of `v / 2` rounded down and up.  The leaf sum is
/// unchanged.
pub fn apply_split(t: Node, p: &Vec<Side>) -> (r: Node)
    requires
        split_path(t) == Some(p@),
    ensures
        r == split_at(t, p@),
        sum_leaves(r) == sum_leaves(t),
{
    proof {
        lemma_split_path_valid(t);
        assert(p@.skip(0) =~= p@);
    }
    let target = descend(&t, p);
    let v = match target.leaf() {
        Some(v) => v,
        None => {
            proof {
                assert(false);
            }
            vstd::pervasive::unreached()
        },
    };
    let half_down = v / 2;
    let half_up = v - half_down;
    let sub = Node::new(Node::Leaf(half_down), Node::Leaf(half_up));
    proof {
        lemma_sum_replace(t, p@, sub);
        assert(sum_leaves(Node::Leaf(half_down)) == half_down);
        assert(sum_leaves(Node::Leaf(half_up)) == half_up);
        assert(sum_leaves(sub) == half_down + half_up);
        assert(sum_leaves(Node::Leaf(v)) == v);
    }
    with_replaced(t, p, 0, sub)
}

/// Run the reduction engine to its fixpoint: repeatedly explode the leftmost
/// regular pair at depth at least four, else split the leftmost leaf of
/// value ten or more, until neither rule applies.
pub fn reduce(t: Node) -> (r: Node)
    requires
        sum_leaves(t) <= u64::MAX,
        terminates(t),
    ensures
        reduces_to(t, r),
        r == reduced_of(t),
        sum_leaves(r) <= sum_leaves(t),
        is_reduced(t) ==> r == t,
{
    let ghost t0 = t;
    let ghost n0 = choose|n: nat| is_reduced(run_steps(t, n));
    let ghost mut steps: nat = 0nat;
    let mut cur = t;
    loop
        invariant
            t0 == t,
            sum_leaves(cur) <= sum_leaves(t0),
            sum_leaves(t0) <= u64::MAX,
            run_steps(t0, steps) == cur,
            is_reduced(run_steps(t0, n0)),
            steps <= n0,
        decreases n0 - steps,
    {
        match find_actionable(&cur) {
            None => {
                proof {
                    assert(is_reduced(cur));
                    assert(reduces_to(t0, cur)) by {
                        assert(run_steps(t0, steps) == cur);
                    }
                    assert(reduces_to(t0, reduced_of(t0)));
                    lemma_reduces_to_unique(t0, cur, reduced_of(t0));
                    if is_reduced(t0) {
                        lemma_reduced_fixpoint(t0, steps);
                    }
                }
                return cur;
            },
            Some((action, p)) => {
                proof {
                    assert(!is_reduced(cur));
                    // A step is possible, so the fixpoint has not been
                    // reached yet and the step budget is not exhausted.
                    assert(steps < n0) by {
                        if steps == n0 {
                            assert(is_reduced(cur));
                        }
                    }
                }
                let ghost before = cur;
                match action {
                    Action::Explode => {
                        cur = apply_explode(cur, &p);
                    },
                    Action::Split => {
                        cur = apply_split(cur, &p);
                    },
                }
                proof {
                    assert(cur == step(before)->Some_0);
                    lemma_run_steps_add(t0, steps, 1nat);
                    assert(run_steps(step(before)->Some_0, 0nat) == step(before)->Some_0);
                    assert(run_steps(before, 1nat) == cur);
                    steps = steps + 1;
                }
            },
        }
    }
}

/// The addition operator: join the two trees under a new pair and run the
/// reduction engine on the result.  Both operands are consumed; a caller
/// that reuses a number must clone or re-parse it first.
pub fn add_two(a: Node, b: Node) -> (r: Node)
    requires
        sum_leaves(a) + sum_leaves(b) <= u64::MAX,
        terminates(Node::Pair(Box::new(a), Box::new(b))),
    ensures
        reduces_to(Node::Pair(Box::new(a), Box::new(b)), r),
        r == reduced_of(Node::Pair(Box::new(a), Box::new(b))),
        sum_leaves(r) <= sum_leaves(a) + sum_leaves(b),
{
    reduce(Node::new(a, b))
}

} // verus!
