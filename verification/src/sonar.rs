//! Depth-window scanning: counting increases between consecutive sonar
//! readings, plain and smoothed over three-reading windows.

use vstd::prelude::*;

verus! {

/// Number of positions `i` in `1..n` with `s[i - 1] < s[i]`.
pub open spec fn count_depth_increases(s: Seq<u64>, n: int) -> int
    decreases n,
{
    if n <= 1 {
        0
    } else {
        count_depth_increases(s, n - 1) + if s[n - 2] < s[n - 1] {
            1int
        } else {
            0int
        }
    }
}

/// Sum of the three readings starting at index `i`.
pub open spec fn window3(s: Seq<u64>, i: int) -> int {
    s[i] + s[i + 1] + s[i + 2]
}

/// Number of positions `i` in `3..n` whose three-reading window sums to more
/// than the window one position earlier.
pub open spec fn count_window_increases(s: Seq<u64>, n: int) -> int
    decreases n,
{
    if n <= 3 {
        0
    } else {
        count_window_increases(s, n - 1) + if window3(s, n - 4) < window3(s, n - 3) {
            1int
        } else {
            0int
        }
    }
}

/// How many readings are larger than the reading just before them.
pub fn larger_measurements(depths: &Vec<u64>) -> (count: usize)
    ensures
        count == count_depth_increases(depths@, depths@.len() as int),
{
    let mut count: usize = 0;
    let mut i: usize = 1;
    if depths.len() == 0 {
        return 0;
    }
    while i < depths.len()
        invariant
            1 <= i <= depths@.len(),
            count == count_depth_increases(depths@, i as int),
            count < i,
        decreases depths@.len() - i,
    {
        if depths[i - 1] < depths[i] {
            count = count + 1;
        }
        i = i + 1;
    }
    count
}

/// How many three-reading window sums are larger than the previous window
/// sum.  Two consecutive windows share their middle readings, so the sums
/// compare exactly as the readings three positions apart do.
pub fn larger_measurements3(depths: &Vec<u64>) -> (count: usize)
    ensures
        count == count_window_increases(depths@, depths@.len() as int),
{
    let mut count: usize = 0;
    let mut i: usize = 3;
    if depths.len() < 3 {
        return 0;
    }
    while i < depths.len()
        invariant
            3 <= i <= depths@.len(),
            count == count_window_increases(depths@, i as int),
            count < i,
        decreases depths@.len() - i,
    {
        if depths[i - 3] < depths[i] {
            count = count + 1;
        }
        i = i + 1;
    }
    count
}

} // verus!
