//! Seven-segment constraint solving: deduce which value each scrambled
//! wire letter stands for, then read the four-digit outputs.
//!
//! Each of the seven segments carries a fixed label value; a digit is the
//! set of label values of its lit segments.  Three letters are pinned by how
//! often they occur across the ten patterns, and the rest are solved one at
//! a time from the patterns of unique length, dividing the known labels out
//! of the pattern's label product.

use vstd::prelude::*;
use vstd::string::*;

use crate::snailfish::text::{digit_char, digits_value};

verus! {

/// One display being decoded: for each wire letter `a` through `g`, the
/// segment label it has been solved to, if any.
pub struct SegmentDisplay {
    pub uniq: [Option<u64>; 7],
}

/// A wire letter.
pub open spec fn is_seg_char(c: char) -> bool {
    ||| c == 'a'
    ||| c == 'b'
    ||| c == 'c'
    ||| c == 'd'
    ||| c == 'e'
    ||| c == 'f'
    ||| c == 'g'
}

/// The slot of a wire letter, seven for any other character.
pub open spec fn letter_idx(c: char) -> int {
    if c == 'a' {
        0
    } else if c == 'b' {
        1
    } else if c == 'c' {
        2
    } else if c == 'd' {
        3
    } else if c == 'e' {
        4
    } else if c == 'f' {
        5
    } else if c == 'g' {
        6
    } else {
        7
    }
}

/// The wire letter of a slot.
pub open spec fn letter_char(i: int) -> char {
    if i == 0 {
        'a'
    } else if i == 1 {
        'b'
    } else if i == 2 {
        'c'
    } else if i == 3 {
        'd'
    } else if i == 4 {
        'e'
    } else if i == 5 {
        'f'
    } else {
        'g'
    }
}

/// How often `c` occurs in `s`.
pub open spec fn count_char(s: Seq<char>, c: char) -> int
    decreases s.len(),
{
    if s.len() == 0 {
        0
    } else {
        count_char(s.drop_last(), c) + if s.last() == c {
            1int
        } else {
            0int
        }
    }
}

/// The label pinned by an occurrence count: the segments occurring four,
/// six and nine times across the ten digit patterns carry the labels seven,
/// eight and four.
pub open spec fn occ_assign(n: int) -> Option<u64> {
    if n == 4 {
        Some(7u64)
    } else if n == 6 {
        Some(8u64)
    } else if n == 9 {
        Some(4u64)
    } else {
        None
    }
}

/// The solved labels after the occurrence-counting pass.
pub open spec fn initial_uniq(s: Seq<char>) -> Seq<Option<u64>> {
    Seq::new(7, |i: int| occ_assign(count_char(s, letter_char(i))))
}

/// The position of the first space at or after `i`, or the length when none
/// follows.
pub open spec fn next_space(s: Seq<char>, i: int) -> int
    recommends
        0 <= i <= s.len(),
    decreases s.len() - i,
{
    if i < 0 || i >= s.len() {
        i
    } else if s[i] == ' ' {
        i
    } else {
        next_space(s, i + 1)
    }
}

/// The space search stays between its start and the end of the string.
pub proof fn lemma_next_space_bounds(s: Seq<char>, i: int)
    requires
        0 <= i <= s.len(),
    ensures
        i <= next_space(s, i) <= s.len(),
    decreases s.len() - i,
{
    if i < s.len() && s[i] != ' ' {
        lemma_next_space_bounds(s, i + 1);
    }
}

/// The start of the first word of length `l` at or after `i`, scanning
/// space-separated words.
pub open spec fn first_word_from(s: Seq<char>, i: int, l: int) -> Option<int>
    recommends
        0 <= i <= s.len(),
    decreases s.len() - i,
    via first_word_from_decreases
{
    if i < 0 || i >= s.len() {
        None
    } else if s[i] == ' ' {
        first_word_from(s, i + 1, l)
    } else if next_space(s, i) - i == l {
        Some(i)
    } else {
        first_word_from(s, next_space(s, i), l)
    }
}

#[via_fn]
proof fn first_word_from_decreases(s: Seq<char>, i: int, l: int) {
    if 0 <= i < s.len() && s[i] != ' ' {
        lemma_next_space_bounds(s, i + 1);
        assert(next_space(s, i) == next_space(s, i + 1));
    }
}

/// The value left of `val` after dividing out the known labels of the first
/// `k` letters of `w`.
pub open spec fn div_known(u: Seq<Option<u64>>, w: Seq<char>, val: nat, k: int) -> nat
    decreases k,
{
    if k <= 0 {
        val
    } else {
        let d = div_known(u, w, val, k - 1);
        match u[letter_idx(w[k - 1])] {
            Some(v) => d / (v as nat),
            None => d,
        }
    }
}

/// The first letter of `w`, from position `k` on, whose label is still
/// unknown; the length of `w` when every label is known.
pub open spec fn first_unknown(u: Seq<Option<u64>>, w: Seq<char>, k: int) -> int
    decreases w.len() - k,
{
    if k < 0 || k >= w.len() {
        w.len() as int
    } else if u[letter_idx(w[k])] is None {
        k
    } else {
        first_unknown(u, w, k + 1)
    }
}

/// One solving pass may run on `u` and `w`: every letter is a wire letter,
/// every known label among them is nonzero, and some letter is unknown.
pub open spec fn solve_ok(u: Seq<Option<u64>>, w: Seq<char>) -> bool {
    &&& u.len() == 7
    &&& forall|j: int| 0 <= j < w.len() ==> is_seg_char(#[trigger] w[j])
    &&& forall|j: int|
        0 <= j < w.len() ==> (#[trigger] u[letter_idx(w[j])] matches Some(v) ==> v >= 1)
    &&& first_unknown(u, w, 0) < w.len()
}

/// The labels after one solving pass: the pattern value with all known
/// labels divided out is assigned to the first unknown letter.
pub open spec fn solve_spec(u: Seq<Option<u64>>, w: Seq<char>, val: nat) -> Seq<Option<u64>> {
    u.update(
        letter_idx(w[first_unknown(u, w, 0)]),
        Some(div_known(u, w, val, w.len() as int) as u64),
    )
}

/// The word of length `l` that a solving stage uses.
pub open spec fn word_of(s: Seq<char>, l: int) -> Seq<char> {
    let i = first_word_from(s, 0, l)->Some_0;
    s.subrange(i, i + l)
}

/// The solved labels after the occurrence pass and the first `step` of the
/// four solving stages, which use the patterns of length two, three, four
/// and seven with the label products of the digits one, seven, four and
/// eight.
pub open spec fn deduce_state(s: Seq<char>, step: int) -> Seq<Option<u64>>
    decreases step,
{
    if step <= 0 {
        initial_uniq(s)
    } else if step == 1 {
        solve_spec(deduce_state(s, 0), word_of(s, 2), 12)
    } else if step == 2 {
        solve_spec(deduce_state(s, 1), word_of(s, 3), 24)
    } else if step == 3 {
        solve_spec(deduce_state(s, 2), word_of(s, 4), 576)
    } else {
        solve_spec(deduce_state(s, 3), word_of(s, 7), 40320)
    }
}

/// The deduction runs to completion on `s`: only wire letters and spaces,
/// the four unique-length patterns present, and every solving stage
/// applicable.
pub open spec fn deduce_ok(s: Seq<char>) -> bool {
    &&& forall|i: int| 0 <= i < s.len() ==> is_seg_char(#[trigger] s[i]) || s[i] == ' '
    &&& first_word_from(s, 0, 2) is Some
    &&& first_word_from(s, 0, 3) is Some
    &&& first_word_from(s, 0, 4) is Some
    &&& first_word_from(s, 0, 7) is Some
    &&& solve_ok(deduce_state(s, 0), word_of(s, 2))
    &&& solve_ok(deduce_state(s, 1), word_of(s, 3))
    &&& solve_ok(deduce_state(s, 2), word_of(s, 4))
    &&& solve_ok(deduce_state(s, 3), word_of(s, 7))
}

/// The set of labels of a word's letters, as one bit per label value.
pub open spec fn word_mask(u: Seq<Option<u64>>, w: Seq<char>, k: int) -> u32
    decreases k,
{
    if k <= 0 {
        0
    } else {
        word_mask(u, w, k - 1) | match u[letter_idx(w[k - 1])] {
            Some(v) => if v <= 31 {
                (1u32 << (v as u32))
            } else {
                0u32
            },
            None => 0u32,
        }
    }
}

/// The digit shown by a set of segment labels, if it is one of the ten.
pub open spec fn digit_of_mask(m: u32) -> Option<nat> {
    if m == 24 {
        Some(1nat)
    } else if m == 236 {
        Some(2nat)
    } else if m == 124 {
        Some(3nat)
    } else if m == 344 {
        Some(4nat)
    } else if m == 372 {
        Some(5nat)
    } else if m == 500 {
        Some(6nat)
    } else if m == 28 {
        Some(7nat)
    } else if m == 508 {
        Some(8nat)
    } else if m == 380 {
        Some(9nat)
    } else if m == 444 {
        Some(0nat)
    } else {
        None
    }
}

/// The digits of the space-separated words of `s` from position `i` on,
/// under the solved labels `u`.
pub open spec fn sig_from(u: Seq<Option<u64>>, s: Seq<char>, i: int) -> Seq<char>
    recommends
        0 <= i <= s.len(),
    decreases s.len() - i,
    via sig_from_decreases
{
    if i < 0 || i >= s.len() {
        Seq::empty()
    } else if s[i] == ' ' {
        sig_from(u, s, i + 1)
    } else {
        let j = next_space(s, i);
        seq![digit_char(digit_of_mask(word_mask(u, s.subrange(i, j), j - i))->Some_0)] + sig_from(
            u,
            s,
            j,
        )
    }
}

#[via_fn]
proof fn sig_from_decreases(u: Seq<Option<u64>>, s: Seq<char>, i: int) {
    if 0 <= i < s.len() && s[i] != ' ' {
        lemma_next_space_bounds(s, i + 1);
        assert(next_space(s, i) == next_space(s, i + 1));
    }
}

/// Every word of `s` reads as a digit under `u`: letters and spaces only,
/// all labels known, small enough to be set bits, and each word's label set
/// among the ten digits.
pub open spec fn sig_ok(u: Seq<Option<u64>>, s: Seq<char>, i: int) -> bool
    recommends
        0 <= i <= s.len(),
    decreases s.len() - i,
    via sig_ok_decreases
{
    if i < 0 || i >= s.len() {
        true
    } else if s[i] == ' ' {
        sig_ok(u, s, i + 1)
    } else {
        let j = next_space(s, i);
        let w = s.subrange(i, j);
        &&& forall|k: int| 0 <= k < w.len() ==> is_seg_char(#[trigger] w[k])
        &&& forall|k: int|
            0 <= k < w.len() ==> (#[trigger] u[letter_idx(w[k])] matches Some(v) && v <= 31)
        &&& digit_of_mask(word_mask(u, w, w.len() as int)) is Some
        &&& sig_ok(u, s, j)
    }
}

#[via_fn]
proof fn sig_ok_decreases(u: Seq<Option<u64>>, s: Seq<char>, i: int) {
    if 0 <= i < s.len() && s[i] != ' ' {
        lemma_next_space_bounds(s, i + 1);
        assert(next_space(s, i) == next_space(s, i + 1));
    }
}

impl SegmentDisplay {
    /// Deduce the label of every wire letter from the ten space-separated
    /// digit patterns: pin three letters by their occurrence counts, then
    /// solve the remaining four from the patterns of unique length.
    pub fn deduce_from(patterns: &str) -> (disp: SegmentDisplay)
        requires
            deduce_ok(patterns@),
        ensures
            disp.uniq@ == deduce_state(patterns@, 4),
    {
        let n = patterns.unicode_len();
        let mut counts: [u64; 7] = [0, 0, 0, 0, 0, 0, 0];
        let mut i: usize = 0;
        while i < n
            invariant
                n == patterns@.len(),
                i <= n,
                forall|d: int|
                    0 <= d < 7 ==> #[trigger] counts@[d] == count_char(
                        patterns@.subrange(0, i as int),
                        letter_char(d),
                    ),
                forall|d: int| 0 <= d < 7 ==> #[trigger] counts@[d] <= i,
            decreases n - i,
        {
            let c = patterns.get_char(i);
            let ghost pre = counts@;
            let slot = match c {
                'a' => 0usize,
                'b' => 1,
                'c' => 2,
                'd' => 3,
                'e' => 4,
                'f' => 5,
                'g' => 6,
                _ => 7,
            };
            if slot < 7 {
                counts[slot] = counts[slot] + 1;
            }
            proof {
                assert forall|d: int|
                    0 <= d < 7 implies #[trigger] counts@[d] == count_char(
                    patterns@.subrange(0, i + 1),
                    letter_char(d),
                ) by {
                    assert(patterns@.subrange(0, i + 1).drop_last() =~= patterns@.subrange(
                        0,
                        i as int,
                    ));
                    assert(patterns@.subrange(0, i + 1).last() == patterns@[i as int]);
                    if slot < 7 {
                        assert(counts@ =~= pre.update(slot as int, (pre[slot as int] + 1) as u64));
                    }
                }
            }
            i = i + 1;
        }
        proof {
            assert(patterns@.subrange(0, patterns@.len() as int) =~= patterns@);
        }
        let mut uniq: [Option<u64>; 7] = [None, None, None, None, None, None, None];
        let mut d: usize = 0;
        while d < 7
            invariant
                forall|k: int| 0 <= k < 7 ==> #[trigger] counts@[k] == count_char(
                    patterns@,
                    letter_char(k),
                ),
                d <= 7,
                forall|k: int| 0 <= k < d ==> #[trigger] uniq@[k] == initial_uniq(patterns@)[k],
            decreases 7 - d,
        {
            let c = counts[d];
            uniq[d] = if c == 4 {
                Some(7)
            } else if c == 6 {
                Some(8)
            } else if c == 9 {
                Some(4)
            } else {
                None
            };
            d = d + 1;
        }
        proof {
            assert(uniq@ =~= initial_uniq(patterns@));
        }
        let mut disp = SegmentDisplay { uniq };
        let one = find_word(patterns, 2);
        disp.solve_single_unknown(one, 3 * 4);
        let seven = find_word(patterns, 3);
        disp.solve_single_unknown(seven, 2 * 3 * 4);
        let four = find_word(patterns, 4);
        disp.solve_single_unknown(four, 8 * 6 * 3 * 4);
        let eight = find_word(patterns, 7);
        disp.solve_single_unknown(eight, 8 * 2 * 3 * 7 * 6 * 4 * 5);
        disp
    }

    /// Solve the one unknown letter of a pattern: divide every known label
    /// out of the pattern's label product and assign what is left.
    pub fn solve_single_unknown(&mut self, pattern: &str, pattern_val: u64)
        requires
            solve_ok(old(self).uniq@, pattern@),
        ensures
            final(self).uniq@ == solve_spec(old(self).uniq@, pattern@, pattern_val as nat),
    {
        let ghost u0 = self.uniq@;
        let ghost w = pattern@;
        let n = pattern.unicode_len();
        let mut unknown_val = pattern_val;
        let mut k: usize = 0;
        while k < n
            invariant
                solve_ok(u0, w),
                u0 == self.uniq@,
                u0 == old(self).uniq@,
                n == w.len(),
                w == pattern@,
                k <= n,
                unknown_val == div_known(u0, w, pattern_val as nat, k as int),
            decreases n - k,
        {
            let c = pattern.get_char(k);
            let slot = letter_slot(c);
            proof {
                assert(is_seg_char(w[k as int]));
                assert(slot == letter_idx(w[k as int]));
                assert(u0[letter_idx(w[k as int])] matches Some(v) ==> v >= 1);
            }
            match self.uniq[slot] {
                Some(v) => {
                    unknown_val = unknown_val / v;
                },
                None => {},
            }
            k = k + 1;
        }
        let mut j: usize = 0;
        while j < n
            invariant
                solve_ok(u0, w),
                u0 == self.uniq@,
                u0 == old(self).uniq@,
                n == w.len(),
                w == pattern@,
                j <= n,
                unknown_val == div_known(u0, w, pattern_val as nat, n as int),
                first_unknown(u0, w, 0) == first_unknown(u0, w, j as int),
            decreases n - j,
        {
            let c = pattern.get_char(j);
            let slot = letter_slot(c);
            proof {
                assert(is_seg_char(w[j as int]));
                assert(slot == letter_idx(w[j as int]));
            }
            if self.uniq[slot].is_none() {
                proof {
                    assert(first_unknown(u0, w, j as int) == j);
                }
                let ghost pre = self.uniq@;
                self.uniq[slot] = Some(unknown_val);
                proof {
                    assert(self.uniq@ =~= pre.update(slot as int, Some(unknown_val)));
                    assert(self.uniq@ =~= solve_spec(u0, w, pattern_val as nat));
                }
                return ;
            }
            j = j + 1;
        }
        proof {
            assert(first_unknown(u0, w, 0) >= n);
            assert(false);
        }
    }

    /// Read a space-separated list of signal patterns as the digits they
    /// show under the solved labels.
    pub fn signal(&self, signal: &str) -> (r: String)
        requires
            sig_ok(self.uniq@, signal@, 0),
        ensures
            r@ == sig_from(self.uniq@, signal@, 0),
    {
        let ghost u = self.uniq@;
        let ghost s = signal@;
        let n = signal.unicode_len();
        let mut out = String::new();
        let mut i: usize = 0;
        while i < n
            invariant
                u == self.uniq@,
                s == signal@,
                n == s.len(),
                i <= n,
                sig_ok(u, s, i as int),
                sig_from(u, s, 0) == out@ + sig_from(u, s, i as int),
            decreases n - i,
        {
            let c = signal.get_char(i);
            if c == ' ' {
                i = i + 1;
                continue ;
            }
            let mut j: usize = i;
            while j < n && signal.get_char(j) != ' '
                invariant
                    s == signal@,
                    n == s.len(),
                    i <= j <= n,
                    next_space(s, i as int) == next_space(s, j as int),
                decreases n - j,
            {
                j = j + 1;
            }
            proof {
                assert(next_space(s, j as int) == j as int);
            }
            let ghost w = s.subrange(i as int, j as int);
            let mut mask: u32 = 0;
            let mut k: usize = i;
            while k < j
                invariant
                    u == self.uniq@,
                    s == signal@,
                    n == s.len(),
                    i <= k <= j <= n,
                    w == s.subrange(i as int, j as int),
                    forall|x: int| 0 <= x < w.len() ==> is_seg_char(#[trigger] w[x]),
                    forall|x: int|
                        0 <= x < w.len() ==> (#[trigger] u[letter_idx(w[x])] matches Some(v) && v
                            <= 31),
                    mask == word_mask(u, w, k - i as int),
                decreases j - k,
            {
                let c2 = signal.get_char(k);
                let slot = letter_slot(c2);
                proof {
                    assert(w[k - i as int] == s[k as int]);
                    assert(is_seg_char(w[k - i as int]));
                    assert(slot == letter_idx(w[k - i as int]));
                    assert(u[letter_idx(w[k - i as int])] matches Some(v) && v <= 31);
                }
                match self.uniq[slot] {
                    Some(v) => {
                        mask = mask | (1u32 << (v as u32));
                    },
                    None => {
                        proof {
                            assert(false);
                        }
                    },
                }
                k = k + 1;
            }
            proof {
                assert(w.len() == j - i as int);
                assert(mask == word_mask(u, w, w.len() as int));
                assert(digit_of_mask(mask) is Some);
            }
            let digit: u64 = if mask == 24 {
                1
            } else if mask == 236 {
                2
            } else if mask == 124 {
                3
            } else if mask == 344 {
                4
            } else if mask == 372 {
                5
            } else if mask == 500 {
                6
            } else if mask == 28 {
                7
            } else if mask == 508 {
                8
            } else if mask == 380 {
                9
            } else {
                0
            };
            proof {
                assert(digit == digit_of_mask(mask)->Some_0);
            }
            append_digit_char(&mut out, digit);
            proof {
                assert(sig_from(u, s, i as int) == seq![
                    digit_char(digit_of_mask(word_mask(u, w, w.len() as int))->Some_0),
                ] + sig_from(u, s, j as int));
                assert(sig_from(u, s, 0) =~= out@ + sig_from(u, s, j as int));
            }
            i = j;
        }
        proof {
            assert(sig_from(u, s, i as int) =~= Seq::<char>::empty());
            assert(sig_from(u, s, 0) =~= out@);
        }
        out
    }
}

/// The slot of a wire letter, seven for any other character.
fn letter_slot(c: char) -> (r: usize)
    ensures
        r == letter_idx(c),
        r <= 7,
{
    match c {
        'a' => 0,
        'b' => 1,
        'c' => 2,
        'd' => 3,
        'e' => 4,
        'f' => 5,
        'g' => 6,
        _ => 7,
    }
}

/// Append the character of a decimal digit.
fn append_digit_char(s: &mut String, d: u64)
    requires
        d < 10,
    ensures
        final(s)@ == old(s)@ + seq![digit_char(d as nat)],
{
    match d {
        0 => {
            s.append("0");
            proof {
                reveal_strlit("0");
                assert(("0")@ =~= seq![digit_char(0)]);
            }
        },
        1 => {
            s.append("1");
            proof {
                reveal_strlit("1");
                assert(("1")@ =~= seq![digit_char(1)]);
            }
        },
        2 => {
            s.append("2");
            proof {
                reveal_strlit("2");
                assert(("2")@ =~= seq![digit_char(2)]);
            }
        },
        3 => {
            s.append("3");
            proof {
                reveal_strlit("3");
                assert(("3")@ =~= seq![digit_char(3)]);
            }
        },
        4 => {
            s.append("4");
            proof {
                reveal_strlit("4");
                assert(("4")@ =~= seq![digit_char(4)]);
            }
        },
        5 => {
            s.append("5");
            proof {
                reveal_strlit("5");
                assert(("5")@ =~= seq![digit_char(5)]);
            }
        },
        6 => {
            s.append("6");
            proof {
                reveal_strlit("6");
                assert(("6")@ =~= seq![digit_char(6)]);
            }
        },
        7 => {
            s.append("7");
            proof {
                reveal_strlit("7");
                assert(("7")@ =~= seq![digit_char(7)]);
            }
        },
        8 => {
            s.append("8");
            proof {
                reveal_strlit("8");
                assert(("8")@ =~= seq![digit_char(8)]);
            }
        },
        _ => {
            s.append("9");
            proof {
                reveal_strlit("9");
                assert(("9")@ =~= seq![digit_char(9)]);
            }
        },
    }
}

/// The first space-separated word of length `l`.
fn find_word<'a>(s: &'a str, l: usize) -> (r: &'a str)
    requires
        first_word_from(s@, 0, l as int) is Some,
    ensures
        ({
            let i = first_word_from(s@, 0, l as int)->Some_0;
            r@ == s@.subrange(i, i + l)
        }),
{
    let n = s.unicode_len();
    let mut i: usize = 0;
    while i < n
        invariant
            n == s@.len(),
            i <= n,
            first_word_from(s@, 0, l as int) == first_word_from(s@, i as int, l as int),
        decreases n - i,
    {
        let c = s.get_char(i);
        if c == ' ' {
            i = i + 1;
            continue ;
        }
        let mut j: usize = i;
        while j < n && s.get_char(j) != ' '
            invariant
                n == s@.len(),
                i <= j <= n,
                next_space(s@, i as int) == next_space(s@, j as int),
            decreases n - j,
        {
            j = j + 1;
        }
        proof {
            assert(next_space(s@, j as int) == j as int);
        }
        if j - i == l {
            return s.substring_char(i, j);
        }
        i = j;
    }
    proof {
        assert(first_word_from(s@, i as int, l as int) is None);
        assert(false);
    }
    vstd::pervasive::unreached()
}

/// The sum of the four-digit outputs of a list of entries, each the ten
/// patterns and the output patterns of one display.
pub fn output_sum(input: &Vec<(String, String)>) -> (r: u64)
    requires
        forall|e: int|
            0 <= e < input@.len() ==> {
                let pats = #[trigger] input@[e].0@;
                let sig = input@[e].1@;
                &&& deduce_ok(pats)
                &&& sig_ok(deduce_state(pats, 4), sig, 0)
            },
        entries_total(input@, input@.len() as int) <= u64::MAX,
    ensures
        r == entries_total(input@, input@.len() as int),
{
    let mut sum: u64 = 0;
    let mut e: usize = 0;
    while e < input.len()
        invariant
            forall|x: int|
                0 <= x < input@.len() ==> {
                    let pats = #[trigger] input@[x].0@;
                    let sig = input@[x].1@;
                    &&& deduce_ok(pats)
                    &&& sig_ok(deduce_state(pats, 4), sig, 0)
                },
            entries_total(input@, input@.len() as int) <= u64::MAX,
            e <= input@.len(),
            sum == entries_total(input@, e as int),
        decreases input@.len() - e,
    {
        proof {
            lemma_entries_total_le(input@, e + 1, input@.len() as int);
        }
        let disp = SegmentDisplay::deduce_from(input[e].0.as_str());
        let digits = disp.signal(input[e].1.as_str());
        let value = digits_to_value(digits.as_str());
        sum = sum + value;
        e = e + 1;
    }
    sum
}

/// The decimal value of one entry's displayed digits.
pub open spec fn entry_value(e: (String, String)) -> nat {
    digits_value(sig_from(deduce_state(e.0@, 4), e.1@, 0))
}

/// The sum of the first `n` entries' values.
pub open spec fn entries_total(es: Seq<(String, String)>, n: int) -> nat
    decreases n,
{
    if n <= 0 {
        0
    } else {
        entries_total(es, n - 1) + entry_value(es[n - 1])
    }
}

/// A prefix total never exceeds a longer one.
proof fn lemma_entries_total_le(es: Seq<(String, String)>, k: int, n: int)
    requires
        0 <= k <= n,
    ensures
        entries_total(es, k) <= entries_total(es, n),
    decreases n - k,
{
    if k < n {
        lemma_entries_total_le(es, k + 1, n);
    }
}

/// The number that a string of decimal digits denotes.
fn digits_to_value(s: &str) -> (r: u64)
    requires
        digits_value(s@) <= u64::MAX,
    ensures
        r == digits_value(s@),
{
    let n = s.unicode_len();
    let mut val: u64 = 0;
    let mut i: usize = 0;
    while i < n
        invariant
            n == s@.len(),
            digits_value(s@) <= u64::MAX,
            i <= n,
            val == digits_value(s@.subrange(0, i as int)),
        decreases n - i,
    {
        let c = s.get_char(i);
        let d: u64 = match c {
            '0' => 0,
            '1' => 1,
            '2' => 2,
            '3' => 3,
            '4' => 4,
            '5' => 5,
            '6' => 6,
            '7' => 7,
            '8' => 8,
            '9' => 9,
            _ => 9,
        };
        proof {
            assert(d == crate::snailfish::text::digit_val(s@[i as int]));
            lemma_digits_prefix_le(s@, i + 1);
            assert(s@.subrange(0, i + 1).drop_last() =~= s@.subrange(0, i as int));
            assert(s@.subrange(0, i + 1).last() == s@[i as int]);
        }
        val = val * 10 + d;
        i = i + 1;
    }
    proof {
        assert(s@.subrange(0, s@.len() as int) =~= s@);
    }
    val
}

/// A digit-string prefix never denotes more than the whole.
proof fn lemma_digits_prefix_le(s: Seq<char>, n: int)
    requires
        0 <= n <= s.len(),
    ensures
        digits_value(s.subrange(0, n)) <= digits_value(s),
    decreases s.len() - n,
{
    if n == s.len() {
        assert(s.subrange(0, n) =~= s);
    } else {
        lemma_digits_prefix_le(s, n + 1);
        assert(s.subrange(0, n + 1).drop_last() =~= s.subrange(0, n));
    }
}

/// How many of the displayed digits over all entries are a one, four, seven
/// or eight, the digits of unique segment count.
pub fn count_easy_digits(input: &Vec<(String, String)>) -> (r: u64)
    requires
        forall|e: int|
            0 <= e < input@.len() ==> {
                let pats = #[trigger] input@[e].0@;
                let sig = input@[e].1@;
                &&& deduce_ok(pats)
                &&& sig_ok(deduce_state(pats, 4), sig, 0)
            },
        easy_total(input@, input@.len() as int) <= u64::MAX,
    ensures
        r == easy_total(input@, input@.len() as int),
{
    let mut count: u64 = 0;
    let mut e: usize = 0;
    while e < input.len()
        invariant
            forall|x: int|
                0 <= x < input@.len() ==> {
                    let pats = #[trigger] input@[x].0@;
                    let sig = input@[x].1@;
                    &&& deduce_ok(pats)
                    &&& sig_ok(deduce_state(pats, 4), sig, 0)
                },
            easy_total(input@, input@.len() as int) <= u64::MAX,
            e <= input@.len(),
            count == easy_total(input@, e as int),
        decreases input@.len() - e,
    {
        proof {
            lemma_easy_total_le(input@, e + 1, input@.len() as int);
            lemma_easy_total_nonneg(input@, e as int);
        }
        let disp = SegmentDisplay::deduce_from(input[e].0.as_str());
        let digits = disp.signal(input[e].1.as_str());
        let c = count_easy_chars(digits.as_str());
        count = count + c;
        e = e + 1;
    }
    count
}

/// Prefix easy-digit totals never exceed longer ones.
proof fn lemma_easy_total_le(es: Seq<(String, String)>, k: int, n: int)
    requires
        0 <= k <= n,
    ensures
        easy_total(es, k) <= easy_total(es, n),
    decreases n - k,
{
    if k < n {
        lemma_easy_total_le(es, k + 1, n);
        let s = sig_from(deduce_state(es[k].0@, 4), es[k].1@, 0);
        lemma_easy_count_le(s, s.len() as int);
    }
}

/// Easy-digit totals are never negative.
proof fn lemma_easy_total_nonneg(es: Seq<(String, String)>, n: int)
    ensures
        easy_total(es, n) >= 0,
    decreases n,
{
    if n > 0 {
        lemma_easy_total_nonneg(es, n - 1);
        let s = sig_from(deduce_state(es[n - 1].0@, 4), es[n - 1].1@, 0);
        lemma_easy_count_le(s, s.len() as int);
    }
}

/// A digit whose pattern length is unique: one, four, seven or eight.
pub open spec fn is_easy_digit(c: char) -> bool {
    c == '1' || c == '4' || c == '7' || c == '8'
}

/// How many of the first `n` characters are easy digits.
pub open spec fn easy_count(s: Seq<char>, n: int) -> int
    decreases n,
{
    if n <= 0 {
        0
    } else {
        easy_count(s, n - 1) + if is_easy_digit(s[n - 1]) {
            1int
        } else {
            0int
        }
    }
}

/// The easy-digit count over the first `n` entries.
pub open spec fn easy_total(es: Seq<(String, String)>, n: int) -> int
    decreases n,
{
    if n <= 0 {
        0
    } else {
        easy_total(es, n - 1) + easy_count(
            sig_from(deduce_state(es[n - 1].0@, 4), es[n - 1].1@, 0),
            sig_from(deduce_state(es[n - 1].0@, 4), es[n - 1].1@, 0).len() as int,
        )
    }
}

/// Easy-digit counts are bounded by the string length.
proof fn lemma_easy_count_le(s: Seq<char>, n: int)
    requires
        0 <= n <= s.len(),
    ensures
        0 <= easy_count(s, n) <= n,
    decreases n,
{
    if n > 0 {
        lemma_easy_count_le(s, n - 1);
    }
}

/// Count the easy digits of one displayed string.
fn count_easy_chars(s: &str) -> (r: u64)
    ensures
        r == easy_count(s@, s@.len() as int),
        r <= s@.len(),
{
    let n = s.unicode_len();
    let mut count: u64 = 0;
    let mut i: usize = 0;
    while i < n
        invariant
            n == s@.len(),
            i <= n,
            count == easy_count(s@, i as int),
            count <= i,
        decreases n - i,
    {
        let c = s.get_char(i);
        if c == '1' || c == '4' || c == '7' || c == '8' {
            count = count + 1;
        }
        i = i + 1;
    }
    count
}

} // verus!
