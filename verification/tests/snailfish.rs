//! Tests for the snailfish-number engine: parsing, rendering, reduction,
//! addition, magnitude, and the line drivers.

use undersea::snailfish::driver::{add_snail_fish_numbers, largest_magnitude_of_any_sum};
use undersea::snailfish::model::{magnitude, Action, Node};
use undersea::snailfish::paths::find_actionable;
use undersea::snailfish::reduce::{add_two, apply_explode, apply_split, reduce};
use undersea::snailfish::text::parse_tree;

fn parsed(s: &str) -> Node {
    parse_tree(s).expect("test input matches the grammar")
}

fn reduce_check(input: &str, expected: &str) {
    let node = parsed(input);
    let reduced = reduce(node);
    assert_eq!(reduced.render(), expected);
}

#[test]
fn parsing() {
    let input = "[[[[1,3],[5,3]],[[1,3],[8,7]]],[[[4,9],[6,9]],[[8,2],[7,3]]]]";
    let node = parsed(input);
    assert_eq!(node.render(), input);
}

#[test]
fn node_magnitude() {
    let input = "[[[[8,7],[7,7]],[[8,6],[7,7]]],[[[0,7],[6,6]],[8,7]]]";
    let node = parsed(input);
    assert_eq!(3488, magnitude(&node));
}

#[test]
fn add_without_reduce() {
    let left = "[1,2]";
    let right = "[[3,4],5]";
    let nodel = parsed(left);
    let noder = parsed(right);
    let add = add_two(nodel, noder);
    let add_str = "[[1,2],[[3,4],5]]";
    assert_eq!(add.render(), add_str);
}

#[test]
fn explode() {
    reduce_check("[[[[[9,8],1],2],3],4]", "[[[[0,9],2],3],4]");
    reduce_check("[7,[6,[5,[4,[3,2]]]]]", "[7,[6,[5,[7,0]]]]");
    reduce_check("[[6,[5,[4,[3,2]]]],1]", "[[6,[5,[7,0]]],3]");
    reduce_check(
        "[[3,[2,[1,[7,3]]]],[6,[5,[4,[3,2]]]]]",
        "[[3,[2,[8,0]]],[9,[5,[7,0]]]]",
    );
}

#[test]
fn explode_and_split() {
    reduce_check(
        "[[[[[4,3],4],4],[7,[[8,4],9]]],[1,1]]",
        "[[[[0,7],4],[[7,8],[6,0]]],[8,1]]",
    );
}

#[test]
fn add_with_reduce() {
    let left = "[[[[4,3],4],4],[7,[[8,4],9]]]";
    let right = "[1,1]";
    let nodel = parsed(left);
    let noder = parsed(right);
    let add = add_two(nodel, noder);
    let add_str = "[[[[0,7],4],[[7,8],[6,0]]],[8,1]]";
    assert_eq!(add.render(), add_str);
}

#[test]
fn render_parse_roundtrip() {
    for s in [
        "0",
        "17",
        "[1,2]",
        "[[1,2],[[3,4],5]]",
        "[12,[345,6789]]",
        "[[[[1,3],[5,3]],[[1,3],[8,7]]],[[[4,9],[6,9]],[[8,2],[7,3]]]]",
    ] {
        assert_eq!(parsed(s).render(), s);
    }
}

#[test]
fn parse_accepts_leading_zeroes() {
    assert_eq!(parsed("01").render(), "1");
    assert_eq!(parsed("[007,2]").render(), "[7,2]");
}

#[test]
fn parse_rejects_malformed_input() {
    for s in [
        "",
        "[1,2",
        "[1 ,2]",
        "x",
        "[1,2]]",
        "[1;2]",
        "[,2]",
        "[1,]",
        "1]",
        "[[1,2]",
        "99999999999999999999999999",
    ] {
        assert!(parse_tree(s).is_err(), "{s} should not parse");
    }
}

#[test]
fn small_magnitudes() {
    assert_eq!(magnitude(&parsed("[9,1]")), 29);
    assert_eq!(magnitude(&parsed("[[1,2],[[3,4],5]]")), 143);
    assert_eq!(magnitude(&parsed("[[[[0,7],4],[[7,8],[6,0]]],[8,1]]")), 1384);
}

#[test]
fn reduce_is_idempotent_at_runtime() {
    for s in [
        "[[[[[4,3],4],4],[7,[[8,4],9]]],[1,1]]",
        "[[[[[9,8],1],2],3],4]",
        "[7,[6,[5,[4,[13,2]]]]]",
    ] {
        let once = reduce(parsed(s));
        let rendered = once.render();
        let twice = reduce(once);
        assert_eq!(twice.render(), rendered);
    }
}

#[test]
fn split_rounds_halves() {
    reduce_check("[11,0]", "[[5,6],0]");
    reduce_check("[10,0]", "[[5,5],0]");
}

const HOMEWORK: &str = "[[[0,[5,8]],[[1,7],[9,6]]],[[4,[1,2]],[[1,4],2]]]\n\
[[[5,[2,8]],4],[5,[[9,9],0]]]\n\
[6,[[[6,2],[5,6]],[[7,6],[4,7]]]]\n\
[[[6,[0,7]],[0,9]],[4,[9,[9,0]]]]\n\
[[[7,[6,4]],[3,[1,3]]],[[[5,5],1],9]]\n\
[[6,[[7,3],[3,2]]],[[[3,8],[5,7]],4]]\n\
[[[[5,4],[7,7]],8],[[8,3],8]]\n\
[[9,3],[[9,9],[6,[4,9]]]]\n\
[[2,[[7,7],7]],[[5,8],[[9,3],[0,2]]]]\n\
[[[[5,2],5],[8,[3,7]]],[[5,[7,5]],[4,4]]]";

#[test]
fn homework_sum() {
    let res = add_snail_fish_numbers(HOMEWORK).expect("homework has lines");
    assert_eq!(
        res.render(),
        "[[[[6,6],[7,6]],[[7,7],[7,0]]],[[[7,7],[7,7]],[[7,8],[9,9]]]]"
    );
    assert_eq!(4140, magnitude(&res));
}

#[test]
fn homework_largest_pair() {
    assert_eq!(3993, largest_magnitude_of_any_sum(HOMEWORK));
}

#[test]
fn add_snail_fish_numbers_empty_input() {
    assert!(add_snail_fish_numbers("").is_none());
}

#[test]
fn add_snail_fish_numbers_single_line() {
    let res = add_snail_fish_numbers("[1,2]").expect("one line");
    assert_eq!(res.render(), "[1,2]");
}

#[test]
fn deep_clone_is_equal() {
    let t = parsed("[[1,2],[[3,4],5]]");
    let c = t.deep_clone();
    assert_eq!(t, c);
}

#[test]
fn accessors_see_the_structure() {
    let t = parsed("[1,2]");
    assert_eq!(t.regular_pair(), Some([1, 2]));
    assert_eq!(t.leaf(), None);
    let leaf = parsed("7");
    assert_eq!(leaf.leaf(), Some(7));
    let mut leaf = leaf;
    leaf.add_to_leaf(4);
    assert_eq!(leaf.leaf(), Some(11));
}

#[test]
fn single_explode_step() {
    let node = parsed("[[[[[9,8],1],2],3],4]");
    let (action, path) = find_actionable(&node).expect("a pair sits at depth four");
    assert_eq!(action, Action::Explode);
    let stepped = apply_explode(node, &path);
    assert_eq!(stepped.render(), "[[[[0,9],2],3],4]");
}

#[test]
fn single_split_step() {
    let node = parsed("[11,1]");
    let (action, path) = find_actionable(&node).expect("a large leaf wants splitting");
    assert_eq!(action, Action::Split);
    let stepped = apply_split(node, &path);
    assert_eq!(stepped.render(), "[[5,6],1]");
}

#[test]
fn fully_reduced_tree_has_no_action() {
    let node = parsed("[[1,2],[[3,4],5]]");
    assert!(find_actionable(&node).is_none());
}
