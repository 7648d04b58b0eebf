//! Binary-search-free alignment cost minimisation: the cheapest meeting
//! position for a line of crabs, under linear and triangular fuel costs.

use vstd::prelude::*;

verus! {

/// The distance between two positions.
pub open spec fn dist(a: int, b: int) -> int {
    if a < b {
        b - a
    } else {
        a - b
    }
}

/// The fuel for `n` steps under the triangular cost: `1 + 2 + ... + n`.
pub open spec fn tri(n: int) -> int {
    n * (n + 1) / 2
}

/// The total linear fuel to bring every crab to `pos`.
pub open spec fn fuel_linear(ps: Seq<u64>, pos: int) -> int
    decreases ps.len(),
{
    if ps.len() == 0 {
        0
    } else {
        fuel_linear(ps.drop_last(), pos) + dist(ps.last() as int, pos)
    }
}

/// The total triangular fuel to bring every crab to `pos`.
pub open spec fn fuel_triangular(ps: Seq<u64>, pos: int) -> int
    decreases ps.len(),
{
    if ps.len() == 0 {
        0
    } else {
        fuel_triangular(ps.drop_last(), pos) + tri(dist(ps.last() as int, pos))
    }
}

/// Positions and the candidate range stay small enough that no total fuel
/// can overflow.
pub open spec fn positions_small(ps: Seq<u64>) -> bool {
    ps.len() <= 0xFFFF_FFFF && forall|i: int| 0 <= i < ps.len() ==> #[trigger] ps[i] <= 0xFFFF
}

/// The minimum of the listed positions.
pub open spec fn min_position(ps: Seq<u64>) -> int
    decreases ps.len(),
{
    if ps.len() <= 1 {
        ps[0] as int
    } else if (ps.last() as int) < min_position(ps.drop_last()) {
        ps.last() as int
    } else {
        min_position(ps.drop_last())
    }
}

/// The maximum of the listed positions.
pub open spec fn max_position(ps: Seq<u64>) -> int
    decreases ps.len(),
{
    if ps.len() <= 1 {
        ps[0] as int
    } else if (ps.last() as int) > max_position(ps.drop_last()) {
        ps.last() as int
    } else {
        max_position(ps.drop_last())
    }
}

/// The linear fuel spent if all crabs meet at `pos`.
fn linear_cost(positions: &Vec<u64>, pos: u64) -> (r: u64)
    requires
        positions_small(positions@),
        pos <= 0xFFFF,
    ensures
        r == fuel_linear(positions@, pos as int),
        r <= 0xFFFF_FFFF * 0xFFFF,
{
    let mut sum: u64 = 0;
    let mut i: usize = 0;
    while i < positions.len()
        invariant
            positions_small(positions@),
            pos <= 0xFFFF,
            i <= positions@.len(),
            sum == fuel_linear(positions@.subrange(0, i as int), pos as int),
            sum <= i * 0xFFFF,
        decreases positions@.len() - i,
    {
        let p = positions[i];
        let d = if p < pos {
            pos - p
        } else {
            p - pos
        };
        sum = sum + d;
        proof {
            assert(positions@.subrange(0, i + 1).drop_last() =~= positions@.subrange(0, i as int));
            assert(positions@.subrange(0, i + 1).last() == positions@[i as int]);
        }
        i = i + 1;
    }
    proof {
        assert(positions@.subrange(0, positions@.len() as int) =~= positions@);
    }
    sum
}

/// The triangular fuel spent if all crabs meet at `pos`.
fn triangular_cost(positions: &Vec<u64>, pos: u64) -> (r: u64)
    requires
        positions_small(positions@),
        pos <= 0xFFFF,
    ensures
        r == fuel_triangular(positions@, pos as int),
        r <= 0xFFFF_FFFF * 0x7FFF_8000,
{
    let mut sum: u64 = 0;
    let mut i: usize = 0;
    while i < positions.len()
        invariant
            positions_small(positions@),
            pos <= 0xFFFF,
            i <= positions@.len(),
            sum == fuel_triangular(positions@.subrange(0, i as int), pos as int),
            sum <= i * 0x7FFF_8000,
        decreases positions@.len() - i,
    {
        let p = positions[i];
        let d = if p < pos {
            pos - p
        } else {
            p - pos
        };
        proof {
            assert(d <= 0xFFFF);
            assert(d * (d + 1) <= 0xFFFF * 0x1_0000) by (nonlinear_arith)
                requires
                    d <= 0xFFFF,
            ;
        }
        let steps = d * (d + 1) / 2;
        proof {
            assert(steps == tri(d as int));
            assert(steps <= 0x7FFF_8000);
            assert(positions@.subrange(0, i + 1).drop_last() =~= positions@.subrange(0, i as int));
            assert(positions@.subrange(0, i + 1).last() == positions@[i as int]);
        }
        sum = sum + steps;
        i = i + 1;
    }
    proof {
        assert(positions@.subrange(0, positions@.len() as int) =~= positions@);
    }
    sum
}

/// The smallest and largest listed positions.
fn position_range(positions: &Vec<u64>) -> (r: (u64, u64))
    requires
        positions@.len() > 0,
    ensures
        r.0 == min_position(positions@),
        r.1 == max_position(positions@),
    decreases positions@.len(),
{
    let mut least = positions[0];
    let mut highest = positions[0];
    let mut i: usize = 1;
    proof {
        assert(min_position(positions@.subrange(0, 1)) == positions@[0]);
        assert(max_position(positions@.subrange(0, 1)) == positions@[0]);
    }
    while i < positions.len()
        invariant
            1 <= i <= positions@.len(),
            least == min_position(positions@.subrange(0, i as int)),
            highest == max_position(positions@.subrange(0, i as int)),
        decreases positions@.len() - i,
    {
        let p = positions[i];
        proof {
            assert(positions@.subrange(0, i + 1).drop_last() =~= positions@.subrange(0, i as int));
            assert(positions@.subrange(0, i + 1).last() == positions@[i as int]);
            assert(positions@.subrange(0, i + 1).len() > 1);
        }
        if p < least {
            least = p;
        }
        if p > highest {
            highest = p;
        }
        i = i + 1;
    }
    proof {
        assert(positions@.subrange(0, positions@.len() as int) =~= positions@);
    }
    (least, highest)
}

/// The position between the least and highest crab with the smallest linear
/// fuel total, ties going to the leftmost, with that total.
pub fn best_alignment(positions: &Vec<u64>) -> (r: (u64, u64))
    requires
        positions@.len() > 0,
        positions_small(positions@),
    ensures
        min_position(positions@) <= r.0 <= max_position(positions@),
        r.1 == fuel_linear(positions@, r.0 as int),
        forall|pos: int|
            min_position(positions@) <= pos <= max_position(positions@) ==> r.1 <= #[trigger]
            fuel_linear(positions@, pos),
        forall|pos: int|
            min_position(positions@) <= pos < r.0 ==> r.1 < #[trigger] fuel_linear(
                positions@,
                pos,
            ),
{
    let (least, highest) = position_range(positions);
    proof {
        lemma_position_in_range(positions@, 0);
        lemma_range_small(positions@);
    }
    let mut best_pos = least;
    let mut best = linear_cost(positions, least);
    let mut pos = least;
    while pos < highest
        invariant
            positions@.len() > 0,
            positions_small(positions@),
            min_position(positions@) == least,
            max_position(positions@) == highest,
            least <= 0xFFFF,
            highest <= 0xFFFF,
            least <= pos <= highest,
            least <= best_pos <= pos,
            best == fuel_linear(positions@, best_pos as int),
            forall|q: int|
                least <= q <= pos ==> best <= #[trigger] fuel_linear(positions@, q),
            forall|q: int|
                least <= q < best_pos ==> best < #[trigger] fuel_linear(positions@, q),
        decreases highest - pos,
    {
        pos = pos + 1;
        let cost = linear_cost(positions, pos);
        if cost < best {
            best = cost;
            best_pos = pos;
        }
    }
    (best_pos, best)
}

/// The position between the least and highest crab with the smallest
/// triangular fuel total, ties going to the leftmost, with that total.
pub fn best_alignment_v2(positions: &Vec<u64>) -> (r: (u64, u64))
    requires
        positions@.len() > 0,
        positions_small(positions@),
    ensures
        min_position(positions@) <= r.0 <= max_position(positions@),
        r.1 == fuel_triangular(positions@, r.0 as int),
        forall|pos: int|
            min_position(positions@) <= pos <= max_position(positions@) ==> r.1 <= #[trigger]
            fuel_triangular(positions@, pos),
        forall|pos: int|
            min_position(positions@) <= pos < r.0 ==> r.1 < #[trigger] fuel_triangular(
                positions@,
                pos,
            ),
{
    let (least, highest) = position_range(positions);
    proof {
        lemma_position_in_range(positions@, 0);
        lemma_range_small(positions@);
    }
    let mut best_pos = least;
    let mut best = triangular_cost(positions, least);
    let mut pos = least;
    while pos < highest
        invariant
            positions@.len() > 0,
            positions_small(positions@),
            min_position(positions@) == least,
            max_position(positions@) == highest,
            least <= 0xFFFF,
            highest <= 0xFFFF,
            least <= pos <= highest,
            least <= best_pos <= pos,
            best == fuel_triangular(positions@, best_pos as int),
            forall|q: int|
                least <= q <= pos ==> best <= #[trigger] fuel_triangular(positions@, q),
            forall|q: int|
                least <= q < best_pos ==> best < #[trigger] fuel_triangular(positions@, q),
        decreases highest - pos,
    {
        pos = pos + 1;
        let cost = triangular_cost(positions, pos);
        if cost < best {
            best = cost;
            best_pos = pos;
        }
    }
    (best_pos, best)
}

/// On a small position list the minimum and maximum stay small.
proof fn lemma_range_small(ps: Seq<u64>)
    requires
        ps.len() > 0,
        positions_small(ps),
    ensures
        0 <= min_position(ps) <= 0xFFFF,
        0 <= max_position(ps) <= 0xFFFF,
    decreases ps.len(),
{
    if ps.len() == 1 {
        assert(ps[0] <= 0xFFFF);
    } else {
        assert(positions_small(ps.drop_last())) by {
            assert(forall|i: int|
                0 <= i < ps.len() - 1 ==> #[trigger] ps.drop_last()[i] == ps[i]);
        }
        lemma_range_small(ps.drop_last());
        assert(ps.last() <= 0xFFFF) by {
            assert(ps[ps.len() - 1] <= 0xFFFF);
        }
    }
}

/// Every listed position lies between the minimum and the maximum.
proof fn lemma_position_in_range(ps: Seq<u64>, i: int)
    requires
        0 <= i < ps.len(),
    ensures
        min_position(ps) <= ps[i] <= max_position(ps),
    decreases ps.len(),
{
    if ps.len() > 1 {
        if i < ps.len() - 1 {
            lemma_position_in_range(ps.drop_last(), i);
        }
    }
}

} // verus!
