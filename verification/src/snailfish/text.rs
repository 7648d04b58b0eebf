//! The textual notation of snailfish numbers: `[<left>,<right>]` recursively,
//! or a run of decimal digits.
//!
//! [`parses_to`] is the grammar, stated as a relation between a string and a
//! tree.  [`parse_tree`] returns the tree of a string exactly when one
//! exists, and [`Node::render`] writes a tree back.  The two directions
//! compose: rendering is a right inverse of parsing, and a rendered string
//! parses back to the very tree it came from
//! ([`lemma_parse_render_roundtrip`]).

use vstd::prelude::*;
use vstd::string::*;

use crate::snailfish::model::Node;

verus! {

/// A decimal digit character.
pub open spec fn is_digit_char(c: char) -> bool {
    ||| c == '0'
    ||| c == '1'
    ||| c == '2'
    ||| c == '3'
    ||| c == '4'
    ||| c == '5'
    ||| c == '6'
    ||| c == '7'
    ||| c == '8'
    ||| c == '9'
}

/// The numeric value of a digit character.
pub open spec fn digit_val(c: char) -> nat
    recommends
        is_digit_char(c),
{
    if c == '0' {
        0
    } else if c == '1' {
        1
    } else if c == '2' {
        2
    } else if c == '3' {
        3
    } else if c == '4' {
        4
    } else if c == '5' {
        5
    } else if c == '6' {
        6
    } else if c == '7' {
        7
    } else if c == '8' {
        8
    } else {
        9
    }
}

/// The digit character of a value below ten.
pub open spec fn digit_char(d: nat) -> char
    recommends
        d < 10,
{
    if d == 0 {
        '0'
    } else if d == 1 {
        '1'
    } else if d == 2 {
        '2'
    } else if d == 3 {
        '3'
    } else if d == 4 {
        '4'
    } else if d == 5 {
        '5'
    } else if d == 6 {
        '6'
    } else if d == 7 {
        '7'
    } else if d == 8 {
        '8'
    } else {
        '9'
    }
}

/// Every character of `s` is a decimal digit.
pub open spec fn all_digits(s: Seq<char>) -> bool {
    forall|i: int| 0 <= i < s.len() ==> is_digit_char(#[trigger] s[i])
}

/// The number that a digit string denotes, most significant digit first.
pub open spec fn digits_value(s: Seq<char>) -> nat
    recommends
        all_digits(s),
    decreases s.len(),
{
    if s.len() == 0 {
        0
    } else {
        digits_value(s.drop_last()) * 10 + digit_val(s.last())
    }
}

/// The canonical digit string of a number: no leading zeroes, `"0"` for zero.
pub open spec fn dec_digits(v: nat) -> Seq<char>
    decreases v,
{
    if v < 10 {
        seq![digit_char(v)]
    } else {
        dec_digits(v / 10) + seq![digit_char(v % 10)]
    }
}

/// The canonical text of a tree: a leaf renders as its decimal digits, a
/// pair as `[<left>,<right>]`.
pub open spec fn spec_render(t: Node) -> Seq<char>
    decreases t,
{
    match t {
        Node::Leaf(v) => dec_digits(v as nat),
        Node::Pair(l, r) => seq!['['] + spec_render(*l) + seq![','] + spec_render(*r)
            + seq![']'],
    }
}

/// The grammar `Num := Digit+ | "[" Num "," Num "]"`, as a relation: the
/// whole of `s` derives the tree `t`.  A leaf admits leading zeroes; a pair
/// splits at a comma with both parts deriving the children.
pub open spec fn parses_to(s: Seq<char>, t: Node) -> bool
    decreases t,
{
    match t {
        Node::Leaf(v) => s.len() > 0 && all_digits(s) && digits_value(s) == v,
        Node::Pair(l, r) => {
            &&& s.len() >= 5
            &&& s[0] == '['
            &&& s[s.len() - 1] == ']'
            &&& exists|m: int|
                1 <= m < s.len() - 1 && s[m] == ',' && parses_to(
                    #[trigger] s.subrange(1, m),
                    *l,
                ) && parses_to(s.subrange(m + 1, s.len() - 1), *r)
        },
    }
}

/// A derivable string is never empty.
pub proof fn lemma_parses_nonempty(s: Seq<char>, t: Node)
    requires
        parses_to(s, t),
    ensures
        s.len() > 0,
{
}

/// The canonical digit string of `v` consists of digits and denotes `v`.
pub proof fn lemma_dec_digits(v: nat)
    ensures
        dec_digits(v).len() > 0,
        all_digits(dec_digits(v)),
        digits_value(dec_digits(v)) == v,
    decreases v,
{
    if v < 10 {
        let s = seq![digit_char(v)];
        assert(s.drop_last() =~= Seq::<char>::empty());
        assert(digits_value(Seq::<char>::empty()) == 0);
        assert(digits_value(s) == digit_val(digit_char(v)));
    } else {
        lemma_dec_digits(v / 10);
        let s = dec_digits(v / 10) + seq![digit_char(v % 10)];
        assert(s.drop_last() =~= dec_digits(v / 10));
        assert(s.last() == digit_char(v % 10));
        assert(digit_val(digit_char(v % 10)) == v % 10);
        assert(forall|i: int|
            0 <= i < dec_digits(v / 10).len() ==> #[trigger] s[i] == dec_digits(v / 10)[i]);
    }
}

/// Rendering produces a string that derives the rendered tree.
#[verifier::rlimit(100)]
pub proof fn lemma_render_parses(t: Node)
    ensures
        parses_to(spec_render(t), t),
        spec_render(t).len() > 0,
    decreases t,
{
    match t {
        Node::Leaf(v) => {
            lemma_dec_digits(v as nat);
            assert(spec_render(t) == dec_digits(v as nat));
        },
        Node::Pair(l, r) => {
            lemma_render_parses(*l);
            lemma_render_parses(*r);
            let a = spec_render(*l);
            let b = spec_render(*r);
            let s = seq!['['] + a + seq![','] + b + seq![']'];
            let m = 1 + a.len() as int;
            assert(s.len() == a.len() + b.len() + 3);
            assert(s[0] == '[');
            assert(s[s.len() - 1] == ']');
            assert(s[m] == ',');
            assert(s.subrange(1, m) =~= a);
            assert(s.subrange(m + 1, s.len() - 1) =~= b);
            assert(1 <= m < s.len() - 1 && s[m] == ',' && parses_to(s.subrange(1, m), *l)
                && parses_to(s.subrange(m + 1, s.len() - 1), *r));
        },
    }
}

/// The grammar is unambiguous: two derivations that start at the same point
/// of one string, each ending before a non-digit where it derives a bare
/// number, cover the same text and build the same tree.
pub proof fn lemma_parse_unique(
    s: Seq<char>,
    u1: Seq<char>,
    t1: Node,
    v1: Seq<char>,
    u2: Seq<char>,
    t2: Node,
    v2: Seq<char>,
)
    requires
        parses_to(u1, t1),
        parses_to(u2, t2),
        s == u1 + v1,
        s == u2 + v2,
        t1 is Leaf ==> v1.len() == 0 || !is_digit_char(v1[0]),
        t2 is Leaf ==> v2.len() == 0 || !is_digit_char(v2[0]),
    ensures
        u1 == u2,
        t1 == t2,
    decreases t1,
{
    assert(u1.len() > 0);
    assert(u2.len() > 0);
    assert(forall|k: int| 0 <= k < u1.len() ==> s[k] == #[trigger] u1[k]);
    assert(forall|k: int| 0 <= k < u2.len() ==> s[k] == #[trigger] u2[k]);
    match t1 {
        Node::Leaf(a) => {
            match t2 {
                Node::Leaf(b) => {
                    if u1.len() < u2.len() {
                        assert(v1.len() > 0);
                        assert(v1[0] == s[u1.len() as int]);
                        assert(s[u1.len() as int] == u2[u1.len() as int]);
                        assert(is_digit_char(u2[u1.len() as int]));
                        assert(false);
                    }
                    if u2.len() < u1.len() {
                        assert(v2.len() > 0);
                        assert(v2[0] == s[u2.len() as int]);
                        assert(s[u2.len() as int] == u1[u2.len() as int]);
                        assert(is_digit_char(u1[u2.len() as int]));
                        assert(false);
                    }
                    assert(u1 =~= u2);
                    assert(a == b);
                },
                Node::Pair(_, _) => {
                    assert(is_digit_char(u1[0]));
                    assert(u1[0] == s[0] && u2[0] == s[0]);
                    assert(u2[0] == '[');
                    assert(false);
                },
            }
        },
        Node::Pair(l1, r1) => {
            match t2 {
                Node::Leaf(_) => {
                    assert(is_digit_char(u2[0]));
                    assert(u1[0] == s[0] && u2[0] == s[0]);
                    assert(u1[0] == '[');
                    assert(false);
                },
                Node::Pair(l2, r2) => {
                    assert(exists|m: int|
                        1 <= m < u1.len() - 1 && u1[m] == ',' && parses_to(
                            #[trigger] u1.subrange(1, m),
                            *l1,
                        ) && parses_to(u1.subrange(m + 1, u1.len() - 1), *r1));
                    let m1 = choose|m: int|
                        1 <= m < u1.len() - 1 && u1[m] == ',' && parses_to(
                            #[trigger] u1.subrange(1, m),
                            *l1,
                        ) && parses_to(u1.subrange(m + 1, u1.len() - 1), *r1);
                    assert(exists|m: int|
                        1 <= m < u2.len() - 1 && u2[m] == ',' && parses_to(
                            #[trigger] u2.subrange(1, m),
                            *l2,
                        ) && parses_to(u2.subrange(m + 1, u2.len() - 1), *r2));
                    let m2 = choose|m: int|
                        1 <= m < u2.len() - 1 && u2[m] == ',' && parses_to(
                            #[trigger] u2.subrange(1, m),
                            *l2,
                        ) && parses_to(u2.subrange(m + 1, u2.len() - 1), *r2);
                    let a1 = u1.subrange(1, m1);
                    let b1 = u1.subrange(m1 + 1, u1.len() - 1);
                    let a2 = u2.subrange(1, m2);
                    let b2 = u2.subrange(m2 + 1, u2.len() - 1);
                    let st = s.subrange(1, s.len() as int);
                    let w1 = st.subrange(a1.len() as int, st.len() as int);
                    let w2 = st.subrange(a2.len() as int, st.len() as int);
                    assert(st =~= a1 + w1);
                    assert(st =~= a2 + w2);
                    assert(w1[0] == s[m1] && s[m1] == u1[m1]);
                    assert(w2[0] == s[m2] && s[m2] == u2[m2]);
                    lemma_parses_nonempty(a1, *l1);
                    lemma_parses_nonempty(a2, *l2);
                    lemma_parse_unique(st, a1, *l1, w1, a2, *l2, w2);
                    assert(m1 == m2);
                    let sr = s.subrange(m1 + 1, s.len() as int);
                    let x1 = sr.subrange(b1.len() as int, sr.len() as int);
                    let x2 = sr.subrange(b2.len() as int, sr.len() as int);
                    assert(sr =~= b1 + x1);
                    assert(sr =~= b2 + x2);
                    assert(x1[0] == s[u1.len() - 1] && s[u1.len() - 1] == u1[u1.len() - 1]);
                    assert(x2[0] == s[u2.len() - 1] && s[u2.len() - 1] == u2[u2.len() - 1]);
                    lemma_parse_unique(sr, b1, *r1, x1, b2, *r2, x2);
                    assert(u1.len() == u2.len());
                    assert(u1 =~= u2);
                    assert(*l1 == *l2 && *r1 == *r2);
                    assert(t1 == t2);
                },
            }
        },
    }
}

/// Rendering then parsing is the identity, and parsing a rendered string
/// gives back its text: `render(parse(s)) == s` on every canonically
/// rendered string `s`.
pub proof fn lemma_parse_render_roundtrip(s: Seq<char>, t0: Node, t: Node)
    requires
        s == spec_render(t0),
        parses_to(s, t),
    ensures
        t == t0,
        spec_render(t) == s,
{
    lemma_render_parses(t0);
    assert(s =~= s + Seq::<char>::empty());
    lemma_parse_unique(s, s, t, Seq::empty(), s, t0, Seq::empty());
}

/// A longer digit string denotes at least as large a number.
proof fn lemma_digits_value_monotone(s: Seq<char>, i: int, j: int, k: int)
    requires
        0 <= i <= j <= k <= s.len(),
    ensures
        digits_value(s.subrange(i, k)) >= digits_value(s.subrange(i, j)),
    decreases k - j,
{
    if j < k {
        lemma_digits_value_monotone(s, i, j, k - 1);
        assert(s.subrange(i, k).drop_last() =~= s.subrange(i, k - 1));
    }
}

/// Failure of the textual parse: the input does not match the grammar or a
/// leaf value does not fit the numeric range.
#[derive(Clone, Copy, Debug, PartialEq, Eq, Structural)]
pub struct ParseError;

/// The digit character's value, or `None` for any other character.
fn digit_of(c: char) -> (r: Option<u64>)
    ensures
        match r {
            Some(d) => is_digit_char(c) && d == digit_val(c),
            None => !is_digit_char(c),
        },
{
    match c {
        '0' => Some(0),
        '1' => Some(1),
        '2' => Some(2),
        '3' => Some(3),
        '4' => Some(4),
        '5' => Some(5),
        '6' => Some(6),
        '7' => Some(7),
        '8' => Some(8),
        '9' => Some(9),
        _ => None,
    }
}

/// Scan the maximal digit run from `i` and return its value and end, or an
/// error when the value does not fit a `u64`.
fn parse_number(s: &str, i: usize, n: usize) -> (r: Result<(u64, usize), ParseError>)
    requires
        n == s@.len(),
        i < n,
        is_digit_char(s@[i as int]),
    ensures
        match r {
            Ok((v, j)) => {
                &&& i < j <= n
                &&& all_digits(s@.subrange(i as int, j as int))
                &&& digits_value(s@.subrange(i as int, j as int)) == v
                &&& (j == n || !is_digit_char(s@[j as int]))
            },
            Err(_) => forall|j2: int|
                i < j2 <= s@.len() && all_digits(#[trigger] s@.subrange(i as int, j2)) && (j2
                    == s@.len() || !is_digit_char(s@[j2])) ==> digits_value(
                    s@.subrange(i as int, j2),
                ) > u64::MAX,
        },
{
    let c0 = s.get_char(i);
    let d0 = match digit_of(c0) {
        Some(d) => d,
        None => {
            proof {
                assert(false);
            }
            vstd::pervasive::unreached()
        },
    };
    let mut val: u64 = d0;
    let mut j: usize = i + 1;
    proof {
        let first = s@.subrange(i as int, i + 1);
        assert(first.drop_last() =~= Seq::<char>::empty());
        assert(first.last() == s@[i as int]);
        assert(digits_value(Seq::<char>::empty()) == 0);
        assert(digits_value(first) == digit_val(s@[i as int]));
    }
    while j < n
        invariant
            n == s@.len(),
            i < j <= n,
            all_digits(s@.subrange(i as int, j as int)),
            digits_value(s@.subrange(i as int, j as int)) == val,
        ensures
            i < j <= n,
            all_digits(s@.subrange(i as int, j as int)),
            digits_value(s@.subrange(i as int, j as int)) == val,
            j == n || !is_digit_char(s@[j as int]),
        decreases n - j,
    {
        let c = s.get_char(j);
        let d = match digit_of(c) {
            Some(d) => d,
            None => {
                break;
            },
        };
        let ghost pre = s@.subrange(i as int, j as int);
        let ghost ext = s@.subrange(i as int, j + 1 as int);
        proof {
            assert(ext.drop_last() =~= pre);
            assert(ext.last() == s@[j as int]);
            assert(digits_value(ext) == val * 10 + digit_val(s@[j as int]));
        }
        let limit = u64::MAX / 10;
        if val > limit || (val == limit && d > u64::MAX % 10) {
            proof {
                assert(val * 10 + d > u64::MAX);
                assert(all_digits(ext));
                assert forall|j2: int|
                    i < j2 <= s@.len() && all_digits(#[trigger] s@.subrange(i as int, j2)) && (j2
                        == s@.len() || !is_digit_char(s@[j2])) implies digits_value(
                    s@.subrange(i as int, j2),
                ) > u64::MAX by {
                    if j2 <= j {
                        // The scan stopped inside the digit run, so `j2`
                        // would end the run at a digit.
                        assert(is_digit_char(s@[j2])) by {
                            if j2 < j {
                                assert(pre[j2 - i] == s@[j2]);
                            }
                        }
                        assert(false);
                    } else {
                        lemma_digits_value_monotone(s@, i as int, j + 1, j2);
                        assert(s@.subrange(i as int, j2).subrange(0, j + 1 - i) =~= ext);
                        lemma_digits_value_monotone(s@.subrange(i as int, j2), 0, j + 1 - i, j2 - i);
                        assert(s@.subrange(i as int, j2).subrange(0, j2 - i) =~= s@.subrange(
                            i as int,
                            j2,
                        ));
                    }
                }
            }
            return Err(ParseError);
        }
        val = val * 10 + d;
        j = j + 1;
    }
    Ok((val, j))
}

/// A derivation starting at `j` that could be the result of the leftmost
/// scan: a bare number must extend to the next non-digit.
pub open spec fn greedy_end(s: Seq<char>, j: int, t: Node) -> bool {
    t is Leaf ==> j == s.len() || !is_digit_char(s[j])
}

/// No derivation of the grammar starts at position `i` of `s`, up to the
/// greedy-number convention.
pub open spec fn no_parse_from(s: Seq<char>, i: int) -> bool {
    forall|j: int, t: Node|
        !(i <= j <= s.len() && #[trigger] parses_to(s.subrange(i, j), t) && greedy_end(s, j, t))
}

/// Recursive-descent parse of one number starting at `i`: its tree and end
/// position, or an error exactly when no derivation starts at `i`.
#[verifier::rlimit(100)]
fn parse_node(s: &str, i: usize, n: usize) -> (r: Result<(Node, usize), ParseError>)
    requires
        n == s@.len(),
        i <= n,
    ensures
        match r {
            Ok((t, j)) => {
                &&& i < j <= n
                &&& parses_to(s@.subrange(i as int, j as int), t)
                &&& greedy_end(s@, j as int, t)
            },
            Err(_) => no_parse_from(s@, i as int),
        },
    decreases n - i,
{
    if i >= n {
        proof {
            assert forall|j: int, t: Node|
                !(i <= j <= s@.len() && #[trigger] parses_to(s@.subrange(i as int, j), t)
                    && greedy_end(s@, j, t)) by {
                if i <= j <= s@.len() && parses_to(s@.subrange(i as int, j), t) {
                    lemma_parses_nonempty(s@.subrange(i as int, j), t);
                }
            }
        }
        return Err(ParseError);
    }
    let c = s.get_char(i);
    if digit_of(c).is_some() {
        match parse_number(s, i, n) {
            Ok((v, j)) => {
                proof {
                    assert(parses_to(s@.subrange(i as int, j as int), Node::Leaf(v)));
                }
                Ok((Node::Leaf(v), j))
            },
            Err(e) => {
                proof {
                    assert forall|j: int, t: Node|
                        !(i <= j <= s@.len() && #[trigger] parses_to(s@.subrange(i as int, j), t)
                            && greedy_end(s@, j, t)) by {
                        if i <= j <= s@.len() && parses_to(s@.subrange(i as int, j), t)
                            && greedy_end(s@, j, t) {
                            let u = s@.subrange(i as int, j);
                            lemma_parses_nonempty(u, t);
                            assert(u[0] == s@[i as int]);
                            match t {
                                Node::Leaf(v) => {
                                    assert(digits_value(u) == v && v <= u64::MAX);
                                    assert(u =~= s@.subrange(i as int, j));
                                    assert(digits_value(s@.subrange(i as int, j)) > u64::MAX);
                                    assert(false);
                                },
                                Node::Pair(_, _) => {
                                    assert(u[0] == '[');
                                    assert(false);
                                },
                            }
                        }
                    }
                }
                Err(e)
            },
        }
    } else if c == '[' {
        let left = match parse_node(s, i + 1, n) {
            Ok(ok) => ok,
            Err(e) => {
                proof {
                    lemma_no_parse_inside(s@, i as int, i + 1);
                }
                return Err(e);
            },
        };
        let (l, jl) = left;
        if jl >= n || s.get_char(jl) != ',' {
            proof {
                lemma_no_parse_missing_comma(s@, i as int, l, jl as int);
            }
            return Err(ParseError);
        }
        let right = match parse_node(s, jl + 1, n) {
            Ok(ok) => ok,
            Err(e) => {
                proof {
                    lemma_no_parse_right(s@, i as int, l, jl as int);
                }
                return Err(e);
            },
        };
        let (rt, jr) = right;
        if jr >= n || s.get_char(jr) != ']' {
            proof {
                lemma_no_parse_missing_close(s@, i as int, l, jl as int, rt, jr as int);
            }
            return Err(ParseError);
        }
        let t = Node::new(l, rt);
        proof {
            let u = s@.subrange(i as int, jr + 1 as int);
            let m = jl - i;
            assert(u[0] == s@[i as int]);
            assert(u[m as int] == s@[jl as int]);
            assert(u[u.len() - 1] == s@[jr as int]);
            assert(u.subrange(1, m as int) =~= s@.subrange(i + 1, jl as int));
            assert(u.subrange(m + 1 as int, u.len() - 1) =~= s@.subrange(jl + 1, jr as int));
            assert(1 <= m < u.len() - 1 && u[m as int] == ',' && parses_to(
                u.subrange(1, m as int),
                l,
            ) && parses_to(u.subrange(m + 1 as int, u.len() - 1), rt));
            assert(parses_to(u, t));
        }
        Ok((t, jr + 1))
    } else {
        proof {
            assert forall|j: int, t: Node|
                !(i <= j <= s@.len() && #[trigger] parses_to(s@.subrange(i as int, j), t)
                    && greedy_end(s@, j, t)) by {
                if i <= j <= s@.len() && parses_to(s@.subrange(i as int, j), t) {
                    let u = s@.subrange(i as int, j);
                    lemma_parses_nonempty(u, t);
                    assert(u[0] == s@[i as int]);
                    match t {
                        Node::Leaf(_) => {
                            assert(is_digit_char(u[0]));
                        },
                        Node::Pair(_, _) => {
                            assert(u[0] == '[');
                        },
                    }
                }
            }
        }
        Err(ParseError)
    }
}

/// When nothing derives from position `i + 1`, no pair derives from an
/// opening bracket at `i` (and nothing else can start with `[`).
proof fn lemma_no_parse_inside(s: Seq<char>, i: int, i1: int)
    requires
        0 <= i < s.len(),
        i1 == i + 1,
        s[i] == '[',
        no_parse_from(s, i1),
    ensures
        no_parse_from(s, i),
{
    assert forall|j: int, t: Node|
        !(i <= j <= s.len() && #[trigger] parses_to(s.subrange(i, j), t) && greedy_end(
            s,
            j,
            t,
        )) by {
        if i <= j <= s.len() && parses_to(s.subrange(i, j), t) && greedy_end(s, j, t) {
            let u = s.subrange(i, j);
            lemma_parses_nonempty(u, t);
            assert(u[0] == s[i]);
            match t {
                Node::Leaf(_) => {
                    assert(is_digit_char(u[0]));
                    assert(false);
                },
                Node::Pair(l, r) => {
                    assert(exists|m: int|
                        1 <= m < u.len() - 1 && u[m] == ',' && parses_to(
                            #[trigger] u.subrange(1, m),
                            *l,
                        ) && parses_to(u.subrange(m + 1, u.len() - 1), *r));
                    let m = choose|m: int|
                        1 <= m < u.len() - 1 && u[m] == ',' && parses_to(
                            #[trigger] u.subrange(1, m),
                            *l,
                        ) && parses_to(u.subrange(m + 1, u.len() - 1), *r);
                    let a = u.subrange(1, m);
                    assert(a =~= s.subrange(i + 1, i + m));
                    assert(s[i + m] == u[m]);
                    assert(parses_to(s.subrange(i + 1, i + m), *l));
                    assert(greedy_end(s, i + m, *l));
                    assert(false);
                },
            }
        }
    }
}

/// After a left part has been parsed greedily, any pair derivation from `i`
/// puts a comma right after it; if none is there, no derivation starts at
/// `i`.
proof fn lemma_no_parse_missing_comma(s: Seq<char>, i: int, l: Node, jl: int)
    requires
        0 <= i < s.len(),
        s[i] == '[',
        i + 1 < jl <= s.len(),
        parses_to(s.subrange(i + 1, jl), l),
        greedy_end(s, jl, l),
        jl == s.len() || s[jl] != ',',
    ensures
        no_parse_from(s, i),
{
    assert forall|j: int, t: Node|
        !(i <= j <= s.len() && #[trigger] parses_to(s.subrange(i, j), t) && greedy_end(
            s,
            j,
            t,
        )) by {
        if i <= j <= s.len() && parses_to(s.subrange(i, j), t) && greedy_end(s, j, t) {
            let u = s.subrange(i, j);
            lemma_parses_nonempty(u, t);
            assert(u[0] == s[i]);
            match t {
                Node::Leaf(_) => {
                    assert(is_digit_char(u[0]));
                    assert(false);
                },
                Node::Pair(l2, r2) => {
                    assert(exists|m: int|
                        1 <= m < u.len() - 1 && u[m] == ',' && parses_to(
                            #[trigger] u.subrange(1, m),
                            *l2,
                        ) && parses_to(u.subrange(m + 1, u.len() - 1), *r2));
                    let m = choose|m: int|
                        1 <= m < u.len() - 1 && u[m] == ',' && parses_to(
                            #[trigger] u.subrange(1, m),
                            *l2,
                        ) && parses_to(u.subrange(m + 1, u.len() - 1), *r2);
                    let a2 = u.subrange(1, m);
                    assert(a2 =~= s.subrange(i + 1, i + m));
                    assert(s[i + m] == u[m]);
                    // Align both left parts inside the suffix after `[`.
                    let st = s.subrange(i + 1, s.len() as int);
                    let u1 = s.subrange(i + 1, jl);
                    let w1 = st.subrange(u1.len() as int, st.len() as int);
                    let u2 = s.subrange(i + 1, i + m);
                    let w2 = st.subrange(u2.len() as int, st.len() as int);
                    assert(st =~= u1 + w1);
                    assert(st =~= u2 + w2);
                    assert(w1.len() == 0 || w1[0] == s[jl]);
                    assert(w2[0] == s[i + m]);
                    lemma_parse_unique(st, u1, l, w1, u2, *l2, w2);
                    assert(jl == i + m);
                    assert(false);
                },
            }
        }
    }
}

/// After `[ <left> ,`, if nothing derives from the position after the comma,
/// no derivation starts at `i`.
proof fn lemma_no_parse_right(s: Seq<char>, i: int, l: Node, jl: int)
    requires
        0 <= i < s.len(),
        s[i] == '[',
        i + 1 < jl < s.len(),
        parses_to(s.subrange(i + 1, jl), l),
        greedy_end(s, jl, l),
        s[jl] == ',',
        no_parse_from(s, jl + 1),
    ensures
        no_parse_from(s, i),
{
    assert forall|j: int, t: Node|
        !(i <= j <= s.len() && #[trigger] parses_to(s.subrange(i, j), t) && greedy_end(
            s,
            j,
            t,
        )) by {
        if i <= j <= s.len() && parses_to(s.subrange(i, j), t) && greedy_end(s, j, t) {
            let u = s.subrange(i, j);
            lemma_parses_nonempty(u, t);
            assert(u[0] == s[i]);
            match t {
                Node::Leaf(_) => {
                    assert(is_digit_char(u[0]));
                    assert(false);
                },
                Node::Pair(l2, r2) => {
                    assert(exists|m: int|
                        1 <= m < u.len() - 1 && u[m] == ',' && parses_to(
                            #[trigger] u.subrange(1, m),
                            *l2,
                        ) && parses_to(u.subrange(m + 1, u.len() - 1), *r2));
                    let m = choose|m: int|
                        1 <= m < u.len() - 1 && u[m] == ',' && parses_to(
                            #[trigger] u.subrange(1, m),
                            *l2,
                        ) && parses_to(u.subrange(m + 1, u.len() - 1), *r2);
                    let a2 = u.subrange(1, m);
                    assert(a2 =~= s.subrange(i + 1, i + m));
                    assert(s[i + m] == u[m]);
                    let st = s.subrange(i + 1, s.len() as int);
                    let u1 = s.subrange(i + 1, jl);
                    let w1 = st.subrange(u1.len() as int, st.len() as int);
                    let u2 = s.subrange(i + 1, i + m);
                    let w2 = st.subrange(u2.len() as int, st.len() as int);
                    assert(st =~= u1 + w1);
                    assert(st =~= u2 + w2);
                    assert(w1[0] == s[jl]);
                    assert(w2[0] == s[i + m]);
                    lemma_parse_unique(st, u1, l, w1, u2, *l2, w2);
                    assert(jl == i + m);
                    // The right part of the candidate derivation starts
                    // right after the comma, contradicting `no_parse_from`.
                    let b2 = u.subrange(m + 1, u.len() - 1);
                    assert(b2 =~= s.subrange(jl + 1, j - 1));
                    assert(s[j - 1] == u[u.len() - 1]);
                    assert(parses_to(s.subrange(jl + 1, j - 1), *r2));
                    assert(greedy_end(s, j - 1, *r2));
                    assert(false);
                },
            }
        }
    }
}

/// After `[ <left> , <right>`, any pair derivation from `i` closes with a
/// bracket right after the right part; if none is there, no derivation
/// starts at `i`.
proof fn lemma_no_parse_missing_close(s: Seq<char>, i: int, l: Node, jl: int, rt: Node, jr: int)
    requires
        0 <= i < s.len(),
        s[i] == '[',
        i + 1 < jl < s.len(),
        parses_to(s.subrange(i + 1, jl), l),
        greedy_end(s, jl, l),
        s[jl] == ',',
        jl + 1 < jr <= s.len(),
        parses_to(s.subrange(jl + 1, jr), rt),
        greedy_end(s, jr, rt),
        jr == s.len() || s[jr] != ']',
    ensures
        no_parse_from(s, i),
{
    assert forall|j: int, t: Node|
        !(i <= j <= s.len() && #[trigger] parses_to(s.subrange(i, j), t) && greedy_end(
            s,
            j,
            t,
        )) by {
        if i <= j <= s.len() && parses_to(s.subrange(i, j), t) && greedy_end(s, j, t) {
            let u = s.subrange(i, j);
            lemma_parses_nonempty(u, t);
            assert(u[0] == s[i]);
            match t {
                Node::Leaf(_) => {
                    assert(is_digit_char(u[0]));
                    assert(false);
                },
                Node::Pair(l2, r2) => {
                    assert(exists|m: int|
                        1 <= m < u.len() - 1 && u[m] == ',' && parses_to(
                            #[trigger] u.subrange(1, m),
                            *l2,
                        ) && parses_to(u.subrange(m + 1, u.len() - 1), *r2));
                    let m = choose|m: int|
                        1 <= m < u.len() - 1 && u[m] == ',' && parses_to(
                            #[trigger] u.subrange(1, m),
                            *l2,
                        ) && parses_to(u.subrange(m + 1, u.len() - 1), *r2);
                    let a2 = u.subrange(1, m);
                    assert(a2 =~= s.subrange(i + 1, i + m));
                    assert(s[i + m] == u[m]);
                    let st = s.subrange(i + 1, s.len() as int);
                    let u1 = s.subrange(i + 1, jl);
                    let w1 = st.subrange(u1.len() as int, st.len() as int);
                    let u2 = s.subrange(i + 1, i + m);
                    let w2 = st.subrange(u2.len() as int, st.len() as int);
                    assert(st =~= u1 + w1);
                    assert(st =~= u2 + w2);
                    assert(w1[0] == s[jl]);
                    assert(w2[0] == s[i + m]);
                    lemma_parse_unique(st, u1, l, w1, u2, *l2, w2);
                    assert(jl == i + m);
                    let b2 = u.subrange(m + 1, u.len() - 1);
                    assert(b2 =~= s.subrange(jl + 1, j - 1));
                    assert(s[j - 1] == u[u.len() - 1]);
                    // Align both right parts inside the suffix after the
                    // comma.
                    let sr = s.subrange(jl + 1, s.len() as int);
                    let y1 = s.subrange(jl + 1, jr);
                    let z1 = sr.subrange(y1.len() as int, sr.len() as int);
                    let y2 = s.subrange(jl + 1, j - 1);
                    let z2 = sr.subrange(y2.len() as int, sr.len() as int);
                    assert(sr =~= y1 + z1);
                    assert(sr =~= y2 + z2);
                    assert(z1.len() == 0 || z1[0] == s[jr]);
                    assert(z2[0] == s[j - 1]);
                    lemma_parse_unique(sr, y1, rt, z1, y2, *r2, z2);
                    assert(jr == j - 1);
                    assert(false);
                },
            }
        }
    }
}

/// Parse the bracketed textual notation into a tree.
///
/// Returns the unique tree whose derivation covers the whole input, and an
/// error exactly when the input matches no derivation: malformed brackets, a
/// missing comma, a non-digit where a number is expected, trailing input, or
/// a leaf value beyond the numeric range.  No partial tree is ever returned.
pub fn parse_tree(s: &str) -> (r: Result<Node, ParseError>)
    ensures
        match r {
            Ok(t) => parses_to(s@, t) && forall|t2: Node| parses_to(s@, t2) ==> t2 == t,
            Err(_) => forall|t: Node| !parses_to(s@, t),
        },
{
    let n = s.unicode_len();
    match parse_node(s, 0, n) {
        Err(e) => {
            proof {
                assert forall|t: Node| !parses_to(s@, t) by {
                    if parses_to(s@, t) {
                        assert(s@.subrange(0, s@.len() as int) =~= s@);
                        assert(greedy_end(s@, s@.len() as int, t));
                        assert(false);
                    }
                }
            }
            Err(e)
        },
        Ok((t, j)) => {
            if j == n {
                proof {
                    assert(s@.subrange(0, s@.len() as int) =~= s@);
                    assert forall|t2: Node| parses_to(s@, t2) implies t2 == t by {
                        assert(s@ =~= s@ + Seq::<char>::empty());
                        lemma_parse_unique(
                            s@,
                            s@,
                            t,
                            Seq::empty(),
                            s@,
                            t2,
                            Seq::empty(),
                        );
                    }
                }
                Ok(t)
            } else {
                proof {
                    assert forall|t2: Node| !parses_to(s@, t2) by {
                        if parses_to(s@, t2) {
                            let u1 = s@.subrange(0, j as int);
                            let v1 = s@.subrange(j as int, s@.len() as int);
                            assert(s@ =~= u1 + v1);
                            assert(s@ =~= s@ + Seq::<char>::empty());
                            assert(v1[0] == s@[j as int]);
                            lemma_parse_unique(s@, u1, t, v1, s@, t2, Seq::empty());
                            assert(u1.len() == s@.len());
                            assert(false);
                        }
                    }
                }
                Err(ParseError)
            }
        },
    }
}

/// Append the digit character of `d` to a string.
fn append_digit(s: &mut String, d: u64)
    requires
        d < 10,
    ensures
        final(s)@ == old(s)@ + seq![digit_char(d as nat)],
{
    match d {
        0 => {
            s.append("0");
            proof {
                reveal_strlit("0");
                assert(("0")@ =~= seq![digit_char(0)]);
            }
        },
        1 => {
            s.append("1");
            proof {
                reveal_strlit("1");
                assert(("1")@ =~= seq![digit_char(1)]);
            }
        },
        2 => {
            s.append("2");
            proof {
                reveal_strlit("2");
                assert(("2")@ =~= seq![digit_char(2)]);
            }
        },
        3 => {
            s.append("3");
            proof {
                reveal_strlit("3");
                assert(("3")@ =~= seq![digit_char(3)]);
            }
        },
        4 => {
            s.append("4");
            proof {
                reveal_strlit("4");
                assert(("4")@ =~= seq![digit_char(4)]);
            }
        },
        5 => {
            s.append("5");
            proof {
                reveal_strlit("5");
                assert(("5")@ =~= seq![digit_char(5)]);
            }
        },
        6 => {
            s.append("6");
            proof {
                reveal_strlit("6");
                assert(("6")@ =~= seq![digit_char(6)]);
            }
        },
        7 => {
            s.append("7");
            proof {
                reveal_strlit("7");
                assert(("7")@ =~= seq![digit_char(7)]);
            }
        },
        8 => {
            s.append("8");
            proof {
                reveal_strlit("8");
                assert(("8")@ =~= seq![digit_char(8)]);
            }
        },
        _ => {
            s.append("9");
            proof {
                reveal_strlit("9");
                assert(("9")@ =~= seq![digit_char(9)]);
            }
        },
    }
}

/// The canonical decimal text of a value.
fn render_u64(v: u64) -> (s: String)
    ensures
        s@ == dec_digits(v as nat),
    decreases v,
{
    if v < 10 {
        let mut s = String::new();
        append_digit(&mut s, v);
        proof {
            assert(Seq::<char>::empty() + seq![digit_char(v as nat)] =~= seq![
                digit_char(v as nat),
            ]);
        }
        s
    } else {
        let mut s = render_u64(v / 10);
        append_digit(&mut s, v % 10);
        s
    }
}

impl Node {
    /// The exact bracket notation of this tree: a pair as
    /// `[<left>,<right>]`, a leaf as decimal digits.
    pub fn render(&self) -> (s: String)
        ensures
            s@ == spec_render(*self),
        decreases *self,
    {
        match self {
            Node::Leaf(v) => render_u64(*v),
            Node::Pair(l, r) => {
                let mut s = String::from_str("[");
                let ls = l.render();
                s.append(ls.as_str());
                s.append(",");
                let rs = r.render();
                s.append(rs.as_str());
                s.append("]");
                proof {
                    reveal_strlit("[");
                    reveal_strlit(",");
                    reveal_strlit("]");
                    assert(("[")@ =~= seq!['[']);
                    assert((",")@ =~= seq![',']);
                    assert(("]")@ =~= seq![']']);
                    assert(s@ =~= seq!['['] + spec_render(**l) + seq![','] + spec_render(**r)
                        + seq![']']);
                }
                s
            },
        }
    }
}


} // verus!
