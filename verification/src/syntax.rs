//! Bracket-matching validation: scanning lines of brackets with a stack,
//! scoring the first illegal closer, and scoring the completion of the
//! unclosed rest.

use vstd::prelude::*;
use vstd::string::*;

use crate::snailfish::driver::{lines_from, split_lines};

verus! {

/// One bracket token.
#[derive(Clone, Copy, Debug, PartialEq, Eq, Structural)]
pub enum Token {
    OpenBraces,
    OpenBrackets,
    OpenParenthesis,
    OpenAngleBrackets,
    CloseBraces,
    CloseBrackets,
    CloseParenthesis,
    CloseAngleBrackets,
}

/// The token of a bracket character, if it is one.
pub open spec fn token_of(c: char) -> Option<Token> {
    if c == '{' {
        Some(Token::OpenBraces)
    } else if c == '[' {
        Some(Token::OpenBrackets)
    } else if c == '(' {
        Some(Token::OpenParenthesis)
    } else if c == '<' {
        Some(Token::OpenAngleBrackets)
    } else if c == '}' {
        Some(Token::CloseBraces)
    } else if c == ']' {
        Some(Token::CloseBrackets)
    } else if c == ')' {
        Some(Token::CloseParenthesis)
    } else if c == '>' {
        Some(Token::CloseAngleBrackets)
    } else {
        None
    }
}

/// An opening token.
pub open spec fn is_open_token(t: Token) -> bool {
    t == Token::OpenBraces || t == Token::OpenBrackets || t == Token::OpenParenthesis || t
        == Token::OpenAngleBrackets
}

/// The closer that matches an opener.
pub open spec fn close_of(t: Token) -> Token {
    if t == Token::OpenBraces {
        Token::CloseBraces
    } else if t == Token::OpenBrackets {
        Token::CloseBrackets
    } else if t == Token::OpenParenthesis {
        Token::CloseParenthesis
    } else {
        Token::CloseAngleBrackets
    }
}

/// The character of a token.
pub open spec fn char_of(t: Token) -> char {
    match t {
        Token::OpenBraces => '{',
        Token::OpenBrackets => '[',
        Token::OpenParenthesis => '(',
        Token::OpenAngleBrackets => '<',
        Token::CloseBraces => '}',
        Token::CloseBrackets => ']',
        Token::CloseParenthesis => ')',
        Token::CloseAngleBrackets => '>',
    }
}

/// Every character of the line is a bracket.
pub open spec fn all_brackets(s: Seq<char>) -> bool {
    forall|i: int| 0 <= i < s.len() ==> token_of(#[trigger] s[i]) is Some
}

/// The tokens of a line of bracket characters.
pub open spec fn tokens_of(s: Seq<char>) -> Seq<Token> {
    Seq::new(s.len(), |i: int| token_of(s[i])->Some_0)
}

/// The syntax checker's finding: what closer was expected (none when the
/// stack was empty), and what closer was found.
#[derive(Copy, Clone, Debug, PartialEq, Eq)]
pub struct SyntaxError {
    pub expected: Option<Token>,
    pub found: Token,
}

/// The error score of an illegal closer.
pub open spec fn points_of(t: Token) -> nat {
    if t == Token::CloseBraces {
        1197
    } else if t == Token::CloseBrackets {
        57
    } else if t == Token::CloseParenthesis {
        3
    } else if t == Token::CloseAngleBrackets {
        25137
    } else {
        0
    }
}

/// The stack scan from token `i` with the given stack of open brackets: the
/// first mismatched closer, or `None` for a legal (possibly incomplete)
/// line.
pub open spec fn scan(ts: Seq<Token>, i: int, stack: Seq<Token>) -> Option<SyntaxError>
    decreases ts.len() - i,
{
    if i < 0 || i >= ts.len() {
        None
    } else if is_open_token(ts[i]) {
        scan(ts, i + 1, stack.push(ts[i]))
    } else if stack.len() == 0 {
        Some(SyntaxError { expected: None, found: ts[i] })
    } else if close_of(stack.last()) == ts[i] {
        scan(ts, i + 1, stack.drop_last())
    } else {
        Some(SyntaxError { expected: Some(close_of(stack.last())), found: ts[i] })
    }
}

/// The stack of still-open brackets after scanning a legal line.
pub open spec fn final_stack(ts: Seq<Token>, i: int, stack: Seq<Token>) -> Seq<Token>
    decreases ts.len() - i,
{
    if i < 0 || i >= ts.len() {
        stack
    } else if is_open_token(ts[i]) {
        final_stack(ts, i + 1, stack.push(ts[i]))
    } else if stack.len() == 0 {
        stack
    } else if close_of(stack.last()) == ts[i] {
        final_stack(ts, i + 1, stack.drop_last())
    } else {
        stack
    }
}

/// The completion of an incomplete line: the matching closers of the open
/// stack, innermost first.
pub open spec fn completion_of(stack: Seq<Token>) -> Seq<char> {
    Seq::new(stack.len(), |i: int| char_of(close_of(stack[stack.len() - 1 - i])))
}

/// The completion score: each closer multiplies the total by five and adds
/// its own worth.
pub open spec fn comp_score(s: Seq<char>) -> nat
    decreases s.len(),
{
    if s.len() == 0 {
        0
    } else {
        comp_score(s.drop_last()) * 5 + comp_char_val(s.last())
    }
}

/// The completion worth of one closer character.
pub open spec fn comp_char_val(c: char) -> nat {
    if c == ')' {
        1
    } else if c == ']' {
        2
    } else if c == '}' {
        3
    } else if c == '>' {
        4
    } else {
        0
    }
}

impl Token {
    /// Whether this token opens a bracket pair.
    pub fn is_open(&self) -> (r: bool)
        ensures
            r == is_open_token(*self),
    {
        match self {
            Token::OpenBraces | Token::OpenBrackets | Token::OpenParenthesis
                | Token::OpenAngleBrackets => true,
            _ => false,
        }
    }

    /// The closer that matches this token, or an error for a closer.
    pub fn matching_close(&self) -> (r: Result<Token, ()>)
        ensures
            match r {
                Ok(c) => is_open_token(*self) && c == close_of(*self),
                Err(_) => !is_open_token(*self),
            },
    {
        match self {
            Token::OpenBraces => Ok(Token::CloseBraces),
            Token::OpenBrackets => Ok(Token::CloseBrackets),
            Token::OpenParenthesis => Ok(Token::CloseParenthesis),
            Token::OpenAngleBrackets => Ok(Token::CloseAngleBrackets),
            _ => Err(()),
        }
    }

    /// The tokens of a line of bracket characters.
    pub fn tokenize_line(s: &str) -> (r: Vec<Token>)
        requires
            all_brackets(s@),
        ensures
            r@ == tokens_of(s@),
    {
        let n = s.unicode_len();
        let mut r: Vec<Token> = Vec::new();
        let mut i: usize = 0;
        while i < n
            invariant
                n == s@.len(),
                all_brackets(s@),
                i <= n,
                r@.len() == i,
                forall|k: int| 0 <= k < i ==> r@[k] == tokens_of(s@)[k],
            decreases n - i,
        {
            let c = s.get_char(i);
            let t = match c {
                '{' => Token::OpenBraces,
                '[' => Token::OpenBrackets,
                '(' => Token::OpenParenthesis,
                '<' => Token::OpenAngleBrackets,
                '}' => Token::CloseBraces,
                ']' => Token::CloseBrackets,
                ')' => Token::CloseParenthesis,
                '>' => Token::CloseAngleBrackets,
                _ => {
                    proof {
                        assert(token_of(s@[i as int]) is Some);
                    }
                    vstd::pervasive::unreached()
                },
            };
            r.push(t);
            i = i + 1;
        }
        proof {
            assert(r@ =~= tokens_of(s@));
        }
        r
    }
}

impl SyntaxError {
    /// Record what was expected and what was found.
    pub fn new(expected: Option<Token>, found: Token) -> (e: Self)
        ensures
            e == (SyntaxError { expected, found }),
    {
        Self { expected, found }
    }

    /// The error score of the found closer.
    pub fn points(&self) -> (r: u64)
        requires
            !is_open_token(self.found),
        ensures
            r == points_of(self.found),
    {
        match self.found {
            Token::CloseBraces => 1197,
            Token::CloseBrackets => 57,
            Token::CloseParenthesis => 3,
            Token::CloseAngleBrackets => 25137,
            _ => {
                proof {
                    assert(false);
                }
                vstd::pervasive::unreached()
            },
        }
    }
}

/// The corrupted-line checker.
pub struct SyntaxChecker;

impl SyntaxChecker {
    /// Scan a line with a bracket stack and report the first mismatched
    /// closer, or `None` for a legal (possibly incomplete) line.
    pub fn check_line(s: &str) -> (r: Option<SyntaxError>)
        requires
            all_brackets(s@),
        ensures
            r == scan(tokens_of(s@), 0, Seq::empty()),
    {
        let tokens = Token::tokenize_line(s);
        let ghost ts = tokens_of(s@);
        let mut stack: Vec<Token> = Vec::new();
        let mut i: usize = 0;
        while i < tokens.len()
            invariant
                ts == tokens_of(s@),
                tokens@ == ts,
                i <= ts.len(),
                scan(ts, 0, Seq::empty()) == scan(ts, i as int, stack@),
                forall|j: int| 0 <= j < stack@.len() ==> is_open_token(#[trigger] stack@[j]),
            decreases ts.len() - i,
        {
            let t = tokens[i];
            if t.is_open() {
                stack.push(t);
            } else if stack.len() > 0 {
                let top = stack[stack.len() - 1];
                proof {
                    assert(stack@.last() == top);
                }
                match top.matching_close() {
                    Ok(matching) if matching == t => {
                        stack.pop();
                    },
                    Ok(matching) => {
                        proof {
                            assert(scan(ts, i as int, stack@) == Some(
                                SyntaxError { expected: Some(matching), found: ts[i as int] },
                            ));
                        }
                        return Some(SyntaxError::new(Some(matching), t));
                    },
                    Err(_) => {
                        proof {
                            assert(false);
                        }
                        return None;
                    },
                }
            } else {
                proof {
                    assert(scan(ts, i as int, stack@) == Some(
                        SyntaxError { expected: None, found: ts[i as int] },
                    ));
                }
                return Some(SyntaxError::new(None, t));
            }
            i = i + 1;
        }
        None
    }
}

/// The line completer.
pub struct AutoComplete;

impl AutoComplete {
    /// The closers that complete a legal but unfinished line, innermost
    /// first.
    pub fn check_line(s: &str) -> (r: String)
        requires
            all_brackets(s@),
            scan(tokens_of(s@), 0, Seq::empty()) is None,
        ensures
            r@ == completion_of(final_stack(tokens_of(s@), 0, Seq::empty())),
    {
        let tokens = Token::tokenize_line(s);
        let ghost ts = tokens_of(s@);
        let mut stack: Vec<Token> = Vec::new();
        let mut i: usize = 0;
        while i < tokens.len()
            invariant
                ts == tokens_of(s@),
                tokens@ == ts,
                i <= ts.len(),
                scan(ts, 0, Seq::empty()) is None,
                scan(ts, 0, Seq::empty()) == scan(ts, i as int, stack@),
                final_stack(ts, 0, Seq::empty()) == final_stack(ts, i as int, stack@),
                forall|j: int| 0 <= j < stack@.len() ==> is_open_token(#[trigger] stack@[j]),
            decreases ts.len() - i,
        {
            let t = tokens[i];
            if t.is_open() {
                stack.push(t);
            } else if stack.len() > 0 {
                let top = stack[stack.len() - 1];
                proof {
                    assert(stack@.last() == top);
                }
                match top.matching_close() {
                    Ok(matching) if matching == t => {
                        stack.pop();
                    },
                    _ => {
                        proof {
                            assert(scan(ts, i as int, stack@) == Some(
                                SyntaxError {
                                    expected: Some(close_of(stack@.last())),
                                    found: ts[i as int],
                                },
                            ));
                        }
                        vstd::pervasive::unreached()
                    },
                }
            } else {
                proof {
                    assert(scan(ts, i as int, stack@) == Some(
                        SyntaxError { expected: None, found: ts[i as int] },
                    ));
                }
                vstd::pervasive::unreached()
            }
            i = i + 1;
        }
        let ghost fstack = final_stack(ts, 0, Seq::empty());
        proof {
            assert(stack@ == fstack);
        }
        let mut out = String::new();
        let mut k: usize = stack.len();
        while k > 0
            invariant
                stack@ == fstack,
                forall|j: int| 0 <= j < fstack.len() ==> is_open_token(#[trigger] fstack[j]),
                k <= fstack.len(),
                out@.len() == fstack.len() - k,
                forall|j: int| 0 <= j < out@.len() ==> out@[j] == completion_of(fstack)[j],
            decreases k,
        {
            k = k - 1;
            let closer = match stack[k].matching_close() {
                Ok(c) => c,
                Err(_) => {
                    proof {
                        assert(is_open_token(fstack[k as int]));
                    }
                    vstd::pervasive::unreached()
                },
            };
            append_token_char(&mut out, closer);
            proof {
                assert(out@.last() == char_of(close_of(fstack[k as int])));
                assert(completion_of(fstack)[fstack.len() - 1 - k] == char_of(
                    close_of(fstack[k as int]),
                ));
            }
        }
        proof {
            assert(out@ =~= completion_of(fstack));
        }
        out
    }

    /// The completion score of a string of closers: each closer multiplies
    /// the running total by five and adds its own worth.
    pub fn completion_score(s: &str) -> (r: u64)
        requires
            comp_score(s@) <= u64::MAX,
        ensures
            r == comp_score(s@),
    {
        let n = s.unicode_len();
        let mut acc: u64 = 0;
        let mut i: usize = 0;
        while i < n
            invariant
                n == s@.len(),
                comp_score(s@) <= u64::MAX,
                i <= n,
                acc == comp_score(s@.subrange(0, i as int)),
            decreases n - i,
        {
            let c = s.get_char(i);
            let v: u64 = match c {
                ')' => 1,
                ']' => 2,
                '}' => 3,
                '>' => 4,
                _ => 0,
            };
            proof {
                assert(v == comp_char_val(s@[i as int]));
                lemma_comp_score_prefix_le(s@, i + 1);
                assert(s@.subrange(0, i + 1).drop_last() =~= s@.subrange(0, i as int));
                assert(s@.subrange(0, i + 1).last() == s@[i as int]);
            }
            acc = acc * 5 + v;
            i = i + 1;
        }
        proof {
            assert(s@.subrange(0, s@.len() as int) =~= s@);
        }
        acc
    }
}

/// A prefix never scores more than the whole string.
proof fn lemma_comp_score_prefix_le(s: Seq<char>, n: int)
    requires
        0 <= n <= s.len(),
    ensures
        comp_score(s.subrange(0, n)) <= comp_score(s),
    decreases s.len() - n,
{
    if n == s.len() {
        assert(s.subrange(0, n) =~= s);
    } else {
        lemma_comp_score_prefix_le(s, n + 1);
        assert(s.subrange(0, n + 1).drop_last() =~= s.subrange(0, n));
    }
}

/// Append the character of a token to a string.
fn append_token_char(s: &mut String, t: Token)
    ensures
        final(s)@ == old(s)@ + seq![char_of(t)],
{
    match t {
        Token::OpenBraces => {
            s.append("{");
            proof {
                reveal_strlit("{");
                assert(("{")@ =~= seq![char_of(Token::OpenBraces)]);
            }
        },
        Token::OpenBrackets => {
            s.append("[");
            proof {
                reveal_strlit("[");
                assert(("[")@ =~= seq![char_of(Token::OpenBrackets)]);
            }
        },
        Token::OpenParenthesis => {
            s.append("(");
            proof {
                reveal_strlit("(");
                assert(("(")@ =~= seq![char_of(Token::OpenParenthesis)]);
            }
        },
        Token::OpenAngleBrackets => {
            s.append("<");
            proof {
                reveal_strlit("<");
                assert(("<")@ =~= seq![char_of(Token::OpenAngleBrackets)]);
            }
        },
        Token::CloseBraces => {
            s.append("}");
            proof {
                reveal_strlit("}");
                assert(("}")@ =~= seq![char_of(Token::CloseBraces)]);
            }
        },
        Token::CloseBrackets => {
            s.append("]");
            proof {
                reveal_strlit("]");
                assert(("]")@ =~= seq![char_of(Token::CloseBrackets)]);
            }
        },
        Token::CloseParenthesis => {
            s.append(")");
            proof {
                reveal_strlit(")");
                assert((")")@ =~= seq![char_of(Token::CloseParenthesis)]);
            }
        },
        Token::CloseAngleBrackets => {
            s.append(">");
            proof {
                reveal_strlit(">");
                assert((">")@ =~= seq![char_of(Token::CloseAngleBrackets)]);
            }
        },
    }
}

/// Every line of the file consists of bracket characters.
pub open spec fn all_lines_brackets(ls: Seq<Seq<char>>) -> bool {
    forall|k: int| 0 <= k < ls.len() ==> all_brackets(#[trigger] ls[k])
}

/// The total error score of a list of lines: each corrupted line adds the
/// points of its first illegal closer.
pub open spec fn error_total(ls: Seq<Seq<char>>) -> nat
    decreases ls.len(),
{
    if ls.len() == 0 {
        0
    } else {
        error_total(ls.drop_last()) + match scan(tokens_of(ls.last()), 0, Seq::empty()) {
            Some(e) => points_of(e.found),
            None => 0,
        }
    }
}

/// An error-total prefix never exceeds the whole.
proof fn lemma_error_total_prefix_le(ls: Seq<Seq<char>>, n: int)
    requires
        0 <= n <= ls.len(),
    ensures
        error_total(ls.subrange(0, n)) <= error_total(ls),
    decreases ls.len() - n,
{
    if n == ls.len() {
        assert(ls.subrange(0, n) =~= ls);
    } else {
        lemma_error_total_prefix_le(ls, n + 1);
        assert(ls.subrange(0, n + 1).drop_last() =~= ls.subrange(0, n));
    }
}

/// Sum the error scores of the first illegal closers over all lines of a
/// file.
pub fn total_error_score(file: &str) -> (r: u64)
    requires
        all_lines_brackets(lines_from(file@, 0)),
        error_total(lines_from(file@, 0)) <= u64::MAX,
    ensures
        r == error_total(lines_from(file@, 0)),
{
    let ghost ls = lines_from(file@, 0);
    let lines = split_lines(file);
    let mut sum: u64 = 0;
    let mut k: usize = 0;
    while k < lines.len()
        invariant
            lines.deep_view() == ls,
            all_lines_brackets(ls),
            error_total(ls) <= u64::MAX,
            k <= lines@.len(),
            lines@.len() == ls.len(),
            sum == error_total(ls.subrange(0, k as int)),
        decreases lines@.len() - k,
    {
        proof {
            assert(lines@[k as int]@ == ls[k as int]);
            lemma_error_total_prefix_le(ls, k + 1);
            assert(ls.subrange(0, k + 1).drop_last() =~= ls.subrange(0, k as int));
            assert(ls.subrange(0, k + 1).last() == ls[k as int]);
        }
        match SyntaxChecker::check_line(lines[k].as_str()) {
            Some(e) => {
                proof {
                    lemma_scan_found_closer(tokens_of(ls[k as int]), 0, Seq::empty());
                }
                sum = sum + e.points();
            },
            None => {},
        }
        k = k + 1;
    }
    proof {
        assert(ls.subrange(0, ls.len() as int) =~= ls);
    }
    sum
}

/// The closer a scan reports was never an opener.
proof fn lemma_scan_found_closer(ts: Seq<Token>, i: int, stack: Seq<Token>)
    ensures
        scan(ts, i, stack) matches Some(e) ==> !is_open_token(e.found),
    decreases ts.len() - i,
{
    if 0 <= i < ts.len() {
        if is_open_token(ts[i]) {
            lemma_scan_found_closer(ts, i + 1, stack.push(ts[i]));
        } else if stack.len() != 0 && close_of(stack.last()) == ts[i] {
            lemma_scan_found_closer(ts, i + 1, stack.drop_last());
        }
    }
}

/// The completion score of one legal but unfinished line.
pub open spec fn line_comp_score(line: Seq<char>) -> nat {
    comp_score(completion_of(final_stack(tokens_of(line), 0, Seq::empty())))
}

/// Every legal line's completion score fits the numeric range.
pub open spec fn comp_scores_fit(ls: Seq<Seq<char>>) -> bool {
    forall|k: int|
        0 <= k < ls.len() && scan(tokens_of(#[trigger] ls[k]), 0, Seq::empty()) is None
            ==> line_comp_score(ls[k]) <= u64::MAX
}

/// The completion scores of the legal lines of a file, in file order.
pub open spec fn comp_scores(ls: Seq<Seq<char>>) -> Seq<u64>
    recommends
        comp_scores_fit(ls),
    decreases ls.len(),
{
    if ls.len() == 0 {
        Seq::empty()
    } else if scan(tokens_of(ls.last()), 0, Seq::empty()) is None {
        comp_scores(ls.drop_last()).push(line_comp_score(ls.last()) as u64)
    } else {
        comp_scores(ls.drop_last())
    }
}

/// The middle completion score: complete every legal line, sort the scores,
/// and take the one in the middle.  The winner is pinned by any ascending
/// arrangement of the same scores.
pub fn middle_completion_score(file: &str) -> (r: u64)
    requires
        all_lines_brackets(lines_from(file@, 0)),
        comp_scores(lines_from(file@, 0)).len() >= 1,
        comp_scores_fit(lines_from(file@, 0)),
    ensures
        exists|ss: Seq<u64>|
            {
                &&& #[trigger] ss.to_multiset() == comp_scores(lines_from(file@, 0)).to_multiset()
                &&& (forall|i: int, j: int|
                    0 <= i <= j < ss.len() ==> #[trigger] ss[i] <= #[trigger] ss[j])
                &&& ss.len() == comp_scores(lines_from(file@, 0)).len()
                &&& r == ss[(ss.len() / 2) as int]
            },
{
    let ghost ls = lines_from(file@, 0);
    let lines = split_lines(file);
    let mut scores: Vec<u64> = Vec::new();
    let mut k: usize = 0;
    while k < lines.len()
        invariant
            lines.deep_view() == ls,
            all_lines_brackets(ls),
            comp_scores_fit(ls),
            k <= lines@.len(),
            lines@.len() == ls.len(),
            scores@ == comp_scores(ls.subrange(0, k as int)),
        decreases lines@.len() - k,
    {
        proof {
            assert(lines@[k as int]@ == ls[k as int]);
            assert(ls.subrange(0, k + 1).drop_last() =~= ls.subrange(0, k as int));
            assert(ls.subrange(0, k + 1).last() == ls[k as int]);
            lemma_comp_scores_prefix(ls, k + 1);
        }
        match SyntaxChecker::check_line(lines[k].as_str()) {
            None => {
                let completion = AutoComplete::check_line(lines[k].as_str());
                proof {
                    assert(completion@ == completion_of(
                        final_stack(tokens_of(ls[k as int]), 0, Seq::empty()),
                    ));
                    assert(line_comp_score(ls[k as int]) <= u64::MAX);
                }
                let score = AutoComplete::completion_score(completion.as_str());
                scores.push(score);
                proof {
                    assert(scores@ =~= comp_scores(ls.subrange(0, k + 1)));
                }
            },
            Some(_) => {
                proof {
                    assert(scores@ =~= comp_scores(ls.subrange(0, k + 1)));
                }
            },
        }
        k = k + 1;
    }
    proof {
        assert(ls.subrange(0, ls.len() as int) =~= ls);
    }
    let sorted = sorted_scores(scores);
    let r = sorted[sorted.len() / 2];
    proof {
        let ss = sorted@;
        assert(ss.to_multiset() == comp_scores(ls).to_multiset());
        assert(r == ss[(ss.len() / 2) as int]);
    }
    r
}

/// The prefix scores are a prefix of the whole file's scores.
proof fn lemma_comp_scores_prefix(ls: Seq<Seq<char>>, n: int)
    requires
        0 <= n <= ls.len(),
    ensures
        comp_scores(ls.subrange(0, n)).len() <= comp_scores(ls).len(),
        forall|k: int|
            0 <= k < comp_scores(ls.subrange(0, n)).len() ==> #[trigger] comp_scores(
                ls.subrange(0, n),
            )[k] == comp_scores(ls)[k],
    decreases ls.len() - n,
{
    if n == ls.len() {
        assert(ls.subrange(0, n) =~= ls);
    } else {
        lemma_comp_scores_prefix(ls, n + 1);
        assert(ls.subrange(0, n + 1).drop_last() =~= ls.subrange(0, n));
        assert(ls.subrange(0, n + 1).last() == ls[n]);
        assert forall|k: int|
            0 <= k < comp_scores(ls.subrange(0, n)).len() implies #[trigger] comp_scores(
            ls.subrange(0, n),
        )[k] == comp_scores(ls)[k] by {
            assert(comp_scores(ls.subrange(0, n))[k] == comp_scores(ls.subrange(0, n + 1))[k]);
        }
    }
}

/// Relies on `itertools::Itertools::sorted`: the items of the iterator in a
/// new vector, in ascending order.
#[verifier::external_body]
fn sorted_scores(v: Vec<u64>) -> (r: Vec<u64>)
    ensures
        r@.len() == v@.len(),
        r@.to_multiset() == v@.to_multiset(),
        forall|i: int, j: int| 0 <= i <= j < r@.len() ==> #[trigger] r@[i] <= #[trigger] r@[j],
{
    itertools::Itertools::sorted(v.into_iter()).collect()
}

} // verus!
