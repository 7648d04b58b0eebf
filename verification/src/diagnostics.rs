//! Bit-frequency diagnostics: majority bits over a report of equal-width
//! binary records, and the iterated majority/minority filter ratings.

use vstd::prelude::*;
use vstd::string::*;

verus! {

/// The number a big-endian bit string denotes.
pub open spec fn bits_value(s: Seq<bool>) -> nat
    decreases s.len(),
{
    if s.len() == 0 {
        0
    } else {
        bits_value(s.drop_last()) * 2 + if s.last() {
            1nat
        } else {
            0nat
        }
    }
}

/// A prefix never denotes more than the whole string.
proof fn lemma_bits_value_prefix_le(s: Seq<bool>, n: int)
    requires
        0 <= n <= s.len(),
    ensures
        bits_value(s.subrange(0, n)) <= bits_value(s),
    decreases s.len() - n,
{
    if n == s.len() {
        assert(s.subrange(0, n) =~= s);
    } else {
        lemma_bits_value_prefix_le(s, n + 1);
        assert(s.subrange(0, n + 1).drop_last() =~= s.subrange(0, n));
    }
}

/// A big-endian binary record.
#[derive(Debug, PartialEq, Eq)]
pub struct BitVec {
    pub bits: Vec<bool>,
}

impl BitVec {
    /// The number of bits in the record.
    pub fn width(&self) -> (r: usize)
        ensures
            r == self.bits@.len(),
    {
        self.bits.len()
    }

    /// The number this record denotes.
    pub fn to_decimal(&self) -> (r: u64)
        requires
            bits_value(self.bits@) <= u64::MAX,
        ensures
            r == bits_value(self.bits@),
    {
        let mut val: u64 = 0;
        let mut i: usize = 0;
        while i < self.bits.len()
            invariant
                bits_value(self.bits@) <= u64::MAX,
                i <= self.bits@.len(),
                val == bits_value(self.bits@.subrange(0, i as int)),
            decreases self.bits@.len() - i,
        {
            proof {
                lemma_bits_value_prefix_le(self.bits@, i + 1);
                assert(self.bits@.subrange(0, i + 1).drop_last() =~= self.bits@.subrange(
                    0,
                    i as int,
                ));
                assert(self.bits@.subrange(0, i + 1).last() == self.bits@[i as int]);
            }
            val = val * 2 + if self.bits[i] {
                1
            } else {
                0
            };
            i = i + 1;
        }
        proof {
            assert(self.bits@.subrange(0, self.bits@.len() as int) =~= self.bits@);
        }
        val
    }

    /// Read a record from a string of `0` and `1` characters.
    pub fn from_str(s: &str) -> (r: BitVec)
        requires
            forall|i: int| 0 <= i < s@.len() ==> s@[i] == '0' || s@[i] == '1',
        ensures
            r.bits@.len() == s@.len(),
            forall|i: int| 0 <= i < s@.len() ==> r.bits@[i] == (s@[i] == '1'),
    {
        let n = s.unicode_len();
        let mut bits: Vec<bool> = Vec::new();
        let mut i: usize = 0;
        while i < n
            invariant
                n == s@.len(),
                i <= n,
                bits@.len() == i,
                forall|k: int| 0 <= k < i ==> bits@[k] == (s@[k] == '1'),
            decreases n - i,
        {
            let c = s.get_char(i);
            bits.push(c == '1');
            i = i + 1;
        }
        BitVec { bits }
    }

    /// The record with every bit flipped.
    pub fn invert(&self) -> (r: BitVec)
        ensures
            r.bits@.len() == self.bits@.len(),
            forall|i: int| 0 <= i < self.bits@.len() ==> r.bits@[i] == !self.bits@[i],
    {
        let mut bits: Vec<bool> = Vec::new();
        let mut i: usize = 0;
        while i < self.bits.len()
            invariant
                i <= self.bits@.len(),
                bits@.len() == i,
                forall|k: int| 0 <= k < i ==> bits@[k] == !self.bits@[k],
            decreases self.bits@.len() - i,
        {
            bits.push(!self.bits[i]);
            i = i + 1;
        }
        BitVec { bits }
    }

    /// The record as a string of `0` and `1` characters.
    pub fn to_string(&self) -> (r: String)
        ensures
            r@.len() == self.bits@.len(),
            forall|i: int|
                0 <= i < self.bits@.len() ==> r@[i] == (if self.bits@[i] {
                    '1'
                } else {
                    '0'
                }),
    {
        let mut r = String::new();
        let mut i: usize = 0;
        while i < self.bits.len()
            invariant
                i <= self.bits@.len(),
                r@.len() == i,
                forall|k: int|
                    0 <= k < i ==> r@[k] == (if self.bits@[k] {
                        '1'
                    } else {
                        '0'
                    }),
            decreases self.bits@.len() - i,
        {
            if self.bits[i] {
                r.append("1");
            } else {
                r.append("0");
            }
            proof {
                reveal_strlit("0");
                reveal_strlit("1");
            }
            i = i + 1;
        }
        r
    }
}

/// The bit views of a report's records.
pub open spec fn views_of(ds: Seq<BitVec>) -> Seq<Seq<bool>> {
    ds.map_values(|b: BitVec| b.bits@)
}

/// How many of the first `n` records have bit `i` set.
pub open spec fn col_ones(ds: Seq<Seq<bool>>, i: int, n: int) -> int
    decreases n,
{
    if n <= 0 {
        0
    } else {
        col_ones(ds, i, n - 1) + if ds[n - 1][i] {
            1int
        } else {
            0int
        }
    }
}

/// Every record has width `w`.
pub open spec fn uniform_width(ds: Seq<Seq<bool>>, w: int) -> bool {
    forall|k: int| 0 <= k < ds.len() ==> #[trigger] ds[k].len() == w
}

/// The strict-majority bit of column `i`.
pub open spec fn majority_bit(ds: Seq<Seq<bool>>, i: int) -> bool {
    2 * col_ones(ds, i, ds.len() as int) > ds.len()
}

/// The record whose every bit is the strict majority of its column over the
/// report: the gamma rate.
pub fn calculate_gamma_rate(diagnostics: &Vec<BitVec>) -> (r: BitVec)
    requires
        diagnostics@.len() > 0,
        uniform_width(views_of(diagnostics@), diagnostics@[0].bits@.len() as int),
    ensures
        r.bits@.len() == diagnostics@[0].bits@.len(),
        forall|i: int|
            0 <= i < r.bits@.len() ==> r.bits@[i] == majority_bit(views_of(diagnostics@), i),
{
    let width = diagnostics[0].width();
    let mut bits: Vec<bool> = Vec::new();
    let mut i: usize = 0;
    while i < width
        invariant
            diagnostics@.len() > 0,
            uniform_width(views_of(diagnostics@), width as int),
            width == diagnostics@[0].bits@.len(),
            i <= width,
            bits@.len() == i,
            forall|k: int| 0 <= k < i ==> bits@[k] == majority_bit(views_of(diagnostics@), k),
        decreases width - i,
    {
        let ones = column_ones(diagnostics, i);
        let n = diagnostics.len() as u64;
        bits.push(ones > n - ones);
        proof {
            assert((ones > n - ones) == majority_bit(views_of(diagnostics@), i as int));
        }
        i = i + 1;
    }
    BitVec { bits }
}

/// Count the set bits of one column.
fn column_ones(diagnostics: &Vec<BitVec>, i: usize) -> (r: u64)
    requires
        uniform_width(views_of(diagnostics@), diagnostics@[0].bits@.len() as int),
        diagnostics@.len() > 0,
        i < diagnostics@[0].bits@.len(),
    ensures
        r == col_ones(views_of(diagnostics@), i as int, diagnostics@.len() as int),
        r <= diagnostics@.len(),
{
    let n = diagnostics.len();
    let mut count: u64 = 0;
    let mut k: usize = 0;
    while k < n
        invariant
            n == diagnostics@.len(),
            uniform_width(views_of(diagnostics@), diagnostics@[0].bits@.len() as int),
            diagnostics@.len() > 0,
            i < diagnostics@[0].bits@.len(),
            k <= n,
            count == col_ones(views_of(diagnostics@), i as int, k as int),
            count <= k,
        decreases n - k,
    {
        proof {
            assert(views_of(diagnostics@)[k as int] == diagnostics@[k as int].bits@);
            assert(views_of(diagnostics@)[k as int].len() == diagnostics@[0].bits@.len());
        }
        if diagnostics[k].bits[i] {
            count = count + 1;
        }
        k = k + 1;
    }
    count
}

/// The records of `ds` whose bit `pos` equals `sel`, in order.
pub open spec fn keep_matching(ds: Seq<Seq<bool>>, pos: int, sel: bool) -> Seq<Seq<bool>>
    decreases ds.len(),
{
    if ds.len() == 0 {
        Seq::empty()
    } else if ds.last()[pos] == sel {
        keep_matching(ds.drop_last(), pos, sel).push(ds.last())
    } else {
        keep_matching(ds.drop_last(), pos, sel)
    }
}

/// The bit value the rating filter keeps at column `pos`: the most common
/// bit (ties to set) for the oxygen reading, the least common (ties to
/// clear) otherwise.
pub open spec fn select_bit(ds: Seq<Seq<bool>>, most_common: bool, pos: int) -> bool {
    if most_common {
        2 * col_ones(ds, pos, ds.len() as int) >= ds.len()
    } else {
        2 * col_ones(ds, pos, ds.len() as int) < ds.len()
    }
}

/// Keep only the records whose bit `bit_pos` carries the selected value.
pub fn filter_records(diagnostics: &mut Vec<BitVec>, most_common: bool, bit_pos: usize)
    requires
        old(diagnostics)@.len() > 0,
        uniform_width(views_of(old(diagnostics)@), old(diagnostics)@[0].bits@.len() as int),
        bit_pos < old(diagnostics)@[0].bits@.len(),
    ensures
        views_of(final(diagnostics)@) == keep_matching(
            views_of(old(diagnostics)@),
            bit_pos as int,
            select_bit(views_of(old(diagnostics)@), most_common, bit_pos as int),
        ),
{
    let ones = column_ones(diagnostics, bit_pos);
    let n = diagnostics.len() as u64;
    let sel = if most_common {
        ones >= n - ones
    } else {
        ones < n - ones
    };
    let ghost dvs = views_of(diagnostics@);
    proof {
        assert(sel == select_bit(dvs, most_common, bit_pos as int));
    }
    let ghost w0 = diagnostics@[0].bits@.len() as int;
    let mut src: Vec<BitVec> = Vec::new();
    std::mem::swap(diagnostics, &mut src);
    let mut kept: Vec<BitVec> = Vec::new();
    let mut k: usize = 0;
    let n2 = src.len();
    while k < n2
        invariant
            n2 == src@.len(),
            dvs == views_of(src@),
            uniform_width(dvs, w0),
            bit_pos < w0,
            k <= src@.len(),
            views_of(kept@) == keep_matching(
                views_of(src@.subrange(0, k as int)),
                bit_pos as int,
                sel,
            ),
        decreases n2 - k,
    {
        let ghost pre = views_of(src@.subrange(0, k as int));
        proof {
            assert(views_of(src@.subrange(0, k + 1)).drop_last() =~= pre);
            assert(views_of(src@.subrange(0, k + 1)).last() == src@[k as int].bits@);
            assert(dvs[k as int] == src@[k as int].bits@);
            assert(dvs[k as int].len() == w0);
        }
        let record = BitVec { bits: copy_bits(&src[k].bits) };
        if record.bits[bit_pos] == sel {
            kept.push(record);
            proof {
                assert(views_of(kept@) =~= views_of(kept@.drop_last()).push(src@[k as int].bits@));
                assert(views_of(kept@.drop_last()) =~= keep_matching(pre, bit_pos as int, sel));
            }
        }
        proof {
            assert(views_of(kept@) =~= keep_matching(
                views_of(src@.subrange(0, k + 1)),
                bit_pos as int,
                sel,
            ));
        }
        k = k + 1;
    }
    proof {
        assert(src@.subrange(0, src@.len() as int) =~= src@);
        assert(views_of(src@.subrange(0, src@.len() as int)) =~= views_of(src@));
    }
    *diagnostics = kept;
}

/// Duplicate a bit vector.
fn copy_bits(bits: &Vec<bool>) -> (r: Vec<bool>)
    ensures
        r@ == bits@,
{
    let mut r: Vec<bool> = Vec::new();
    let mut i: usize = 0;
    while i < bits.len()
        invariant
            i <= bits@.len(),
            r@ == bits@.subrange(0, i as int),
        decreases bits@.len() - i,
    {
        r.push(bits[i]);
        proof {
            assert(bits@.subrange(0, i as int).push(bits@[i as int]) =~= bits@.subrange(0, i + 1));
        }
        i = i + 1;
    }
    proof {
        assert(bits@.subrange(0, bits@.len() as int) =~= bits@);
    }
    r
}

/// The records left after `n` rounds of the rating filter, stopping early
/// once a single record remains.
pub open spec fn rating_after(ds: Seq<Seq<bool>>, most_common: bool, n: int) -> Seq<Seq<bool>>
    decreases n,
{
    if n <= 0 {
        ds
    } else {
        let prev = rating_after(ds, most_common, n - 1);
        if prev.len() == 1 {
            prev
        } else {
            keep_matching(prev, n - 1, select_bit(prev, most_common, n - 1))
        }
    }
}

/// The filter keeps a subsequence, so widths are preserved.
proof fn lemma_keep_matching_width(ds: Seq<Seq<bool>>, pos: int, sel: bool, w: int)
    requires
        uniform_width(ds, w),
    ensures
        uniform_width(keep_matching(ds, pos, sel), w),
        keep_matching(ds, pos, sel).len() <= ds.len(),
    decreases ds.len(),
{
    if ds.len() > 0 {
        assert(uniform_width(ds.drop_last(), w)) by {
            assert(forall|k: int|
                0 <= k < ds.len() - 1 ==> #[trigger] ds.drop_last()[k] == ds[k]);
        }
        lemma_keep_matching_width(ds.drop_last(), pos, sel, w);
    }
}

/// Widths survive any number of rating rounds.
proof fn lemma_rating_after_width(ds: Seq<Seq<bool>>, most_common: bool, n: int, w: int)
    requires
        uniform_width(ds, w),
        n >= 0,
    ensures
        uniform_width(rating_after(ds, most_common, n), w),
        rating_after(ds, most_common, n).len() <= ds.len(),
    decreases n,
{
    if n > 0 {
        lemma_rating_after_width(ds, most_common, n - 1, w);
        let prev = rating_after(ds, most_common, n - 1);
        if prev.len() != 1 {
            lemma_keep_matching_width(prev, n - 1, select_bit(prev, most_common, n - 1), w);
        }
    }
}

/// Run the rating filter over every column, stopping once a single record
/// remains, and return that record.  The caller guarantees that the filter
/// never empties the report, which would leave no record to return.
pub fn get_rating_value(diagnostics: &Vec<BitVec>, o2: bool) -> (r: BitVec)
    requires
        diagnostics@.len() > 0,
        uniform_width(views_of(diagnostics@), diagnostics@[0].bits@.len() as int),
        forall|n: int|
            0 <= n <= diagnostics@[0].bits@.len() ==> #[trigger] rating_after(
                views_of(diagnostics@),
                o2,
                n,
            ).len() >= 1,
    ensures
        r.bits@ == rating_after(
            views_of(diagnostics@),
            o2,
            diagnostics@[0].bits@.len() as int,
        )[0],
{
    let width = diagnostics[0].width();
    let ghost w = width as int;
    let ghost ds0 = views_of(diagnostics@);
    let mut dr: Vec<BitVec> = Vec::new();
    let n0 = diagnostics.len();
    let mut k: usize = 0;
    while k < n0
        invariant
            n0 == diagnostics@.len(),
            k <= diagnostics@.len(),
            views_of(dr@) == views_of(diagnostics@).subrange(0, k as int),
        decreases n0 - k,
    {
        let record = BitVec { bits: copy_bits(&diagnostics[k].bits) };
        let ghost prev = dr@;
        dr.push(record);
        proof {
            assert(views_of(prev).len() == prev.len());
            assert(prev.len() == k);
            assert forall|j: int|
                0 <= j < k + 1 implies views_of(dr@)[j] == views_of(diagnostics@).subrange(
                0,
                k + 1,
            )[j] by {
                if j < k {
                    assert(dr@[j] == prev[j]);
                    assert(views_of(prev)[j] == views_of(diagnostics@).subrange(0, k as int)[j]);
                } else {
                    assert(dr@[j].bits@ == diagnostics@[j].bits@);
                }
            }
            assert(views_of(dr@) =~= views_of(diagnostics@).subrange(0, k + 1));
        }
        k = k + 1;
    }
    proof {
        assert(views_of(diagnostics@).subrange(0, diagnostics@.len() as int) =~= views_of(
            diagnostics@,
        ));
        assert(rating_after(ds0, o2, 0) == ds0);
    }
    let mut i: usize = 0;
    while i < width
        invariant
            w == width as int,
            ds0 == views_of(dr@) || true,
            ds0.len() > 0,
            uniform_width(ds0, w),
            forall|n: int| 0 <= n <= w ==> #[trigger] rating_after(ds0, o2, n).len() >= 1,
            i <= width,
            views_of(dr@) == rating_after(ds0, o2, i as int),
            dr@.len() == views_of(dr@).len(),
        decreases width - i,
    {
        proof {
            lemma_rating_after_width(ds0, o2, i as int, w);
        }
        if dr.len() != 1 {
            proof {
                assert(dr@.len() > 0);
                assert(views_of(dr@)[0] == dr@[0].bits@);
                assert(dr@[0].bits@.len() == w);
                assert(uniform_width(views_of(dr@), dr@[0].bits@.len() as int));
                assert(i < dr@[0].bits@.len());
            }
            filter_records(&mut dr, o2, i);
        }
        proof {
            assert(rating_after(ds0, o2, i + 1).len() >= 1);
        }
        i = i + 1;
    }
    proof {
        lemma_rating_after_width(ds0, o2, w, w);
        assert(dr@.len() >= 1);
        assert(views_of(dr@)[0] == dr@[0].bits@);
    }
    let out = BitVec { bits: copy_bits(&dr[0].bits) };
    out
}

} // verus!
