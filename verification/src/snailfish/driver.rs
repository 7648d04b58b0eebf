//! Drivers over a list of snailfish numbers, one per input line: the left
//! fold of the addition operator, and the largest magnitude over all ordered
//! pairs of distinct lines.

use vstd::prelude::*;
use vstd::string::*;

use crate::snailfish::model::{spec_magnitude, sum_leaves, Node};
use crate::snailfish::reduce::{
    add_two, lemma_reduces_to_unique, reduced_of, reduces_to, terminates,
};
use crate::snailfish::text::{parse_tree, parses_to};

verus! {

/// The position of the first newline at or after `i`, or the length when
/// none follows.
pub open spec fn next_newline(s: Seq<char>, i: int) -> int
    recommends
        0 <= i <= s.len(),
    decreases s.len() - i,
{
    if i < 0 || i >= s.len() {
        i
    } else if s[i] == '\n' {
        i
    } else {
        next_newline(s, i + 1)
    }
}

/// The newline search stays between its start and the end of the string.
pub proof fn lemma_next_newline_bounds(s: Seq<char>, i: int)
    requires
        0 <= i <= s.len(),
    ensures
        i <= next_newline(s, i) <= s.len(),
    decreases s.len() - i,
{
    if i < s.len() && s[i] != '\n' {
        lemma_next_newline_bounds(s, i + 1);
    }
}

/// The lines of `s` from position `i` on: maximal newline-free pieces, the
/// separators dropped, with no empty piece after a trailing newline.
pub open spec fn lines_from(s: Seq<char>, i: int) -> Seq<Seq<char>>
    recommends
        0 <= i <= s.len(),
    decreases s.len() - i,
    via lines_from_decreases
{
    if i < 0 || i >= s.len() {
        Seq::empty()
    } else if next_newline(s, i) >= s.len() {
        seq![s.subrange(i, next_newline(s, i))]
    } else {
        seq![s.subrange(i, next_newline(s, i))] + lines_from(s, next_newline(s, i) + 1)
    }
}

#[via_fn]
proof fn lines_from_decreases(s: Seq<char>, i: int) {
    if 0 <= i < s.len() {
        lemma_next_newline_bounds(s, i);
    }
}

/// Split a string into its lines.
pub fn split_lines(s: &str) -> (r: Vec<String>)
    ensures
        r.deep_view() == lines_from(s@, 0),
{
    let n = s.unicode_len();
    let mut r: Vec<String> = Vec::new();
    let mut i: usize = 0;
    while i < n
        invariant
            n == s@.len(),
            i <= n,
            lines_from(s@, 0) == r.deep_view() + lines_from(s@, i as int),
        decreases n - i,
    {
        let ghost i0 = i as int;
        let mut j: usize = i;
        while j < n && s.get_char(j) != '\n'
            invariant
                n == s@.len(),
                i <= j <= n,
                next_newline(s@, i as int) == next_newline(s@, j as int),
            decreases n - j,
        {
            j = j + 1;
        }
        proof {
            assert(next_newline(s@, j as int) == j as int);
        }
        let piece = s.substring_char(i, j);
        r.push(String::from_str(piece));
        proof {
            assert(r.deep_view() =~= r.deep_view().subrange(0, r.deep_view().len() - 1) + seq![
                s@.subrange(i0, j as int),
            ]);
        }
        if j < n {
            proof {
                assert(lines_from(s@, i0) == seq![s@.subrange(i0, j as int)] + lines_from(
                    s@,
                    j as int + 1,
                ));
                assert(lines_from(s@, 0) =~= r.deep_view() + lines_from(s@, j as int + 1));
            }
            i = j + 1;
        } else {
            proof {
                assert(lines_from(s@, i0) =~= seq![s@.subrange(i0, j as int)]);
                assert(lines_from(s@, 0) =~= r.deep_view());
            }
            return r;
        }
    }
    proof {
        assert(lines_from(s@, i as int) =~= Seq::<Seq<char>>::empty());
        assert(lines_from(s@, 0) =~= r.deep_view());
    }
    r
}

/// Every line derives some tree of the grammar.
pub open spec fn all_lines_parse(ls: Seq<Seq<char>>) -> bool {
    forall|k: int| 0 <= k < ls.len() ==> exists|t: Node| parses_to(#[trigger] ls[k], t)
}

/// The tree that a line derives, where one exists; the grammar is
/// unambiguous, so it is the tree.
pub open spec fn tree_of(line: Seq<char>) -> Node {
    choose|t: Node| parses_to(line, t)
}

/// The left fold of snailfish addition over a list of trees: the first tree
/// as is, each further tree combined into the accumulator by a reducing
/// addition.  False for an empty list.
pub open spec fn folds_to(ts: Seq<Node>, r: Node) -> bool
    decreases ts.len(),
{
    if ts.len() == 0 {
        false
    } else if ts.len() == 1 {
        r == ts[0]
    } else {
        exists|p: Node|
            folds_to(ts.drop_last(), p) && #[trigger] reduces_to(
                Node::Pair(Box::new(p), Box::new(ts.last())),
                r,
            )
    }
}

/// The fold result is unique.
pub proof fn lemma_folds_unique(ts: Seq<Node>, r1: Node, r2: Node)
    requires
        folds_to(ts, r1),
        folds_to(ts, r2),
    ensures
        r1 == r2,
    decreases ts.len(),
{
    if ts.len() > 1 {
        let p1 = choose|p: Node|
            folds_to(ts.drop_last(), p) && #[trigger] reduces_to(
                Node::Pair(Box::new(p), Box::new(ts.last())),
                r1,
            );
        let p2 = choose|p: Node|
            folds_to(ts.drop_last(), p) && #[trigger] reduces_to(
                Node::Pair(Box::new(p), Box::new(ts.last())),
                r2,
            );
        lemma_folds_unique(ts.drop_last(), p1, p2);
        lemma_reduces_to_unique(Node::Pair(Box::new(p1), Box::new(ts.last())), r1, r2);
    }
}

/// A whole fold contains a fold of every nonempty prefix.
pub proof fn lemma_folds_prefix(ts: Seq<Node>, r: Node, k: int)
    requires
        folds_to(ts, r),
        1 <= k <= ts.len(),
    ensures
        exists|p: Node| #[trigger] folds_to(ts.subrange(0, k), p),
    decreases ts.len(),
{
    if k == ts.len() {
        assert(ts.subrange(0, k) =~= ts);
    } else {
        assert(ts.len() > 1);
        let p = choose|p: Node|
            folds_to(ts.drop_last(), p) && #[trigger] reduces_to(
                Node::Pair(Box::new(p), Box::new(ts.last())),
                r,
            );
        lemma_folds_prefix(ts.drop_last(), p, k);
        assert(ts.drop_last().subrange(0, k) =~= ts.subrange(0, k));
    }
}

/// The trees of a list of lines.
pub open spec fn trees_of(ls: Seq<Seq<char>>) -> Seq<Node> {
    ls.map_values(|l: Seq<char>| tree_of(l))
}

/// The total leaf sum of a list of trees.
pub open spec fn total_sum(ts: Seq<Node>) -> nat
    decreases ts.len(),
{
    if ts.len() == 0 {
        0
    } else {
        total_sum(ts.drop_last()) + sum_leaves(ts.last())
    }
}

/// The sum of a prefix is at most the total.
proof fn lemma_total_sum_prefix(ts: Seq<Node>, k: int)
    requires
        0 <= k <= ts.len(),
    ensures
        total_sum(ts.subrange(0, k)) <= total_sum(ts),
    decreases ts.len() - k,
{
    if k == ts.len() {
        assert(ts.subrange(0, k) =~= ts);
    } else {
        lemma_total_sum_prefix(ts, k + 1);
        assert(ts.subrange(0, k + 1).drop_last() =~= ts.subrange(0, k));
        assert(total_sum(ts.subrange(0, k + 1)) == total_sum(ts.subrange(0, k)) + sum_leaves(
            ts[k],
        ));
    }
}

/// Parse every line of `s` and left-fold the addition operator over the
/// resulting numbers.  `None` exactly when `s` has no lines; otherwise the
/// unique fold result.
///
/// The caller guarantees what would otherwise abort the computation:
/// every line matches the grammar, the fold's reductions reach their
/// fixpoints, and the combined leaf sum stays within the numeric range.
pub fn add_snail_fish_numbers(s: &str) -> (r: Option<Node>)
    requires
        all_lines_parse(lines_from(s@, 0)),
        total_sum(trees_of(lines_from(s@, 0))) <= u64::MAX,
        lines_from(s@, 0).len() > 0 ==> exists|f: Node| folds_to(trees_of(lines_from(s@, 0)), f),
    ensures
        match r {
            Some(t) => folds_to(trees_of(lines_from(s@, 0)), t),
            None => lines_from(s@, 0).len() == 0,
        },
{
    let ghost ls = lines_from(s@, 0);
    let ghost ts = trees_of(ls);
    let lines = split_lines(s);
    if lines.len() == 0 {
        return None;
    }
    let ghost f = choose|f: Node| folds_to(ts, f);
    let first = match parse_tree(lines[0].as_str()) {
        Ok(t) => t,
        Err(_) => {
            proof {
                assert(exists|t: Node| parses_to(ls[0], t));
            }
            vstd::pervasive::unreached()
        },
    };
    proof {
        assert(parses_to(ls[0], tree_of(ls[0])));
        assert(ts[0] == tree_of(ls[0]));
        assert(first == ts[0]);
        assert(folds_to(ts.subrange(0, 1), first)) by {
            assert(ts.subrange(0, 1).len() == 1);
            assert(ts.subrange(0, 1)[0] == ts[0]);
        }
        lemma_total_sum_prefix(ts, 1);
        assert(ts.subrange(0, 1).drop_last() =~= Seq::<Node>::empty());
        assert(total_sum(Seq::<Node>::empty()) == 0);
        assert(ts.subrange(0, 1).last() == ts[0]);
        assert(total_sum(ts.subrange(0, 1)) == sum_leaves(ts[0]));
    }
    let mut acc = first;
    let mut k: usize = 1;
    while k < lines.len()
        invariant
            lines.deep_view() == ls,
            ts == trees_of(ls),
            ts.len() == lines.len(),
            all_lines_parse(ls),
            total_sum(ts) <= u64::MAX,
            folds_to(ts, f),
            1 <= k <= lines.len(),
            folds_to(ts.subrange(0, k as int), acc),
            sum_leaves(acc) <= total_sum(ts.subrange(0, k as int)),
        decreases lines.len() - k,
    {
        let next = match parse_tree(lines[k].as_str()) {
            Ok(t) => t,
            Err(_) => {
                proof {
                    assert(lines[k as int].view() == ls[k as int]);
                    assert(exists|t: Node| parses_to(ls[k as int], t));
                }
                vstd::pervasive::unreached()
            },
        };
        proof {
            assert(lines[k as int].view() == ls[k as int]);
            assert(parses_to(ls[k as int], tree_of(ls[k as int])));
            assert(ts[k as int] == tree_of(ls[k as int]));
            assert(next == ts[k as int]);
            // The combined pair of this step occurs inside the full fold,
            // so its reduction terminates.
            lemma_folds_prefix(ts, f, k + 1);
            let pk = choose|p: Node| #[trigger] folds_to(ts.subrange(0, k + 1), p);
            let prev = choose|p: Node|
                folds_to(ts.subrange(0, k + 1).drop_last(), p) && #[trigger] reduces_to(
                    Node::Pair(Box::new(p), Box::new(ts.subrange(0, k + 1).last())),
                    pk,
                );
            assert(ts.subrange(0, k + 1).drop_last() =~= ts.subrange(0, k as int));
            assert(ts.subrange(0, k + 1).last() == ts[k as int]);
            lemma_folds_unique(ts.subrange(0, k as int), prev, acc);
            assert(reduces_to(Node::Pair(Box::new(acc), Box::new(next)), pk));
            assert(terminates(Node::Pair(Box::new(acc), Box::new(next))));
            // Leaf sums stay within range.
            lemma_total_sum_prefix(ts, k + 1);
            assert(total_sum(ts.subrange(0, k + 1)) == total_sum(ts.subrange(0, k as int))
                + sum_leaves(ts[k as int]));
        }
        acc = add_two(acc, next);
        proof {
            lemma_folds_prefix(ts, f, k + 1);
            let pk = choose|p: Node| #[trigger] folds_to(ts.subrange(0, k + 1), p);
            let prev = choose|p: Node|
                folds_to(ts.subrange(0, k + 1).drop_last(), p) && #[trigger] reduces_to(
                    Node::Pair(Box::new(p), Box::new(ts.subrange(0, k + 1).last())),
                    pk,
                );
            assert(ts.subrange(0, k + 1).drop_last() =~= ts.subrange(0, k as int));
        }
        k = k + 1;
    }
    proof {
        assert(ts.subrange(0, k as int) =~= ts);
    }
    Some(acc)
}

/// The magnitude of the reducing addition of the trees at two line indices.
pub open spec fn pair_mag(ts: Seq<Node>, i: int, j: int) -> nat {
    spec_magnitude(reduced_of(Node::Pair(Box::new(ts[i]), Box::new(ts[j]))))
}

/// Every ordered pair of two distinct lines can be combined: the leaf sums
/// fit, the reduction reaches a fixpoint, and the resulting magnitude fits.
pub open spec fn all_pairs_ok(ts: Seq<Node>) -> bool {
    forall|i: int, j: int|
        0 <= i < ts.len() && 0 <= j < ts.len() && i != j ==> {
            let pair = Node::Pair(Box::new(ts[i]), Box::new(ts[j]));
            &&& sum_leaves(ts[i]) + sum_leaves(ts[j]) <= u64::MAX
            &&& terminates(pair)
            &&& #[trigger] pair_mag(ts, i, j) <= u64::MAX
        }
}

/// The largest magnitude over all ordered pairs of two distinct lines of
/// `s`.  Order matters: the addition operator is not commutative in its
/// effect on the magnitude.
///
/// The caller guarantees what would otherwise abort the computation: at
/// least two lines, every line matching the grammar, and every pairwise
/// combination staying within the numeric range and reaching its fixpoint.
pub fn largest_magnitude_of_any_sum(s: &str) -> (r: u64)
    requires
        all_lines_parse(lines_from(s@, 0)),
        lines_from(s@, 0).len() >= 2,
        all_pairs_ok(trees_of(lines_from(s@, 0))),
    ensures
        exists|i: int, j: int|
            0 <= i < lines_from(s@, 0).len() && 0 <= j < lines_from(s@, 0).len() && i != j && r
                == pair_mag(trees_of(lines_from(s@, 0)), i, j),
        forall|i: int, j: int|
            0 <= i < lines_from(s@, 0).len() && 0 <= j < lines_from(s@, 0).len() && i != j
                ==> #[trigger] pair_mag(trees_of(lines_from(s@, 0)), i, j) <= r,
{
    let ghost ls = lines_from(s@, 0);
    let ghost ts = trees_of(ls);
    let lines = split_lines(s);
    let mut numbers: Vec<Node> = Vec::new();
    let mut k: usize = 0;
    while k < lines.len()
        invariant
            lines.deep_view() == ls,
            ts == trees_of(ls),
            ts.len() == lines.len(),
            all_lines_parse(ls),
            k <= lines.len(),
            numbers@.len() == k,
            forall|x: int| 0 <= x < k ==> numbers@[x] == ts[x],
        decreases lines.len() - k,
    {
        let t = match parse_tree(lines[k].as_str()) {
            Ok(t) => t,
            Err(_) => {
                proof {
                    assert(lines[k as int].view() == ls[k as int]);
                    assert(exists|t: Node| parses_to(ls[k as int], t));
                }
                vstd::pervasive::unreached()
            },
        };
        proof {
            assert(lines[k as int].view() == ls[k as int]);
            assert(parses_to(ls[k as int], tree_of(ls[k as int])));
            assert(ts[k as int] == tree_of(ls[k as int]));
        }
        numbers.push(t);
        k = k + 1;
    }
    let n = numbers.len();
    let mut best: u64 = 0;
    let ghost mut bi: int = 0;
    let ghost mut bj: int = 1;
    let mut started = false;
    let mut i: usize = 0;
    while i < n
        invariant
            ts == trees_of(ls),
            n == ts.len() >= 2,
            numbers@.len() == n,
            forall|x: int| 0 <= x < n ==> numbers@[x] == ts[x],
            all_pairs_ok(ts),
            i <= n,
            started ==> 0 <= bi < n && 0 <= bj < n && bi != bj && best == pair_mag(ts, bi, bj),
            !started ==> i as int == 0 && best == 0,
            forall|x: int, y: int|
                0 <= x < n && 0 <= y < n && x != y && (x < i as int || (x == i as int && y < 0))
                    ==> #[trigger] pair_mag(ts, x, y) <= best,
        decreases n - i,
    {
        let mut j: usize = 0;
        while j < n
            invariant
                ts == trees_of(ls),
                n == ts.len() >= 2,
                numbers@.len() == n,
                forall|x: int| 0 <= x < n ==> numbers@[x] == ts[x],
                all_pairs_ok(ts),
                i < n,
                j <= n,
                started ==> 0 <= bi < n && 0 <= bj < n && bi != bj && best == pair_mag(
                    ts,
                    bi,
                    bj,
                ),
                !started ==> best == 0 && (i as int == 0 && j <= 1),
                forall|x: int, y: int|
                    0 <= x < n && 0 <= y < n && x != y && (x < i as int || (x == i as int && y
                        < j as int)) ==> #[trigger] pair_mag(ts, x, y) <= best,
            decreases n - j,
        {
            if j != i {
                let a = numbers[i].deep_clone();
                let b = numbers[j].deep_clone();
                proof {
                    assert(pair_mag(ts, i as int, j as int) <= u64::MAX);
                }
                let combined = add_two(a, b);
                let ghost pair = Node::Pair(Box::new(ts[i as int]), Box::new(ts[j as int]));
                proof {
                    lemma_reduces_to_unique(pair, combined, reduced_of(pair));
                    assert(pair_mag(ts, i as int, j as int) == spec_magnitude(combined));
                    assert(pair_mag(ts, i as int, j as int) <= u64::MAX);
                }
                let m = crate::snailfish::model::magnitude(&combined);
                if !started || m > best {
                    best = m;
                    started = true;
                    proof {
                        bi = i as int;
                        bj = j as int;
                    }
                }
            }
            j = j + 1;
        }
        i = i + 1;
    }
    proof {
        assert(started) by {
            if !started {
                assert(false);
            }
        }
    }
    best
}

} // verus!
