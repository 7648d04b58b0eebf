//! Exponential population modelling: a school of fish counted by spawn
//! timer, stepped one day at a time.

use vstd::prelude::*;

verus! {

/// A school of fish: index is the spawn timer, value the number of fish
/// with that timer.
#[derive(Clone, Copy, Debug, PartialEq, Eq)]
pub struct Fish {
    pub timers: [u64; 9],
}

/// The timer counts as unbounded integers.
pub open spec fn timer_counts(f: Fish) -> Seq<int> {
    f.timers@.map_values(|x: u64| x as int)
}

/// One day: every timer moves down one slot, the fish at zero respawn at
/// six and each spawns a new fish at eight.
pub open spec fn next_day(t: Seq<int>) -> Seq<int>
    recommends
        t.len() == 9,
{
    seq![t[1], t[2], t[3], t[4], t[5], t[6], t[7] + t[0], t[8], t[0]]
}

/// The school after `n` days.
pub open spec fn evolve(t: Seq<int>, n: nat) -> Seq<int>
    decreases n,
{
    if n == 0 {
        t
    } else {
        next_day(evolve(t, (n - 1) as nat))
    }
}

/// All counts stay within the numeric range for `n` days.
pub open spec fn evolve_fits(t: Seq<int>, n: nat) -> bool
    decreases n,
{
    if n == 0 {
        true
    } else {
        evolve_fits(t, (n - 1) as nat) && evolve(t, (n - 1) as nat)[7] + evolve(
            t,
            (n - 1) as nat,
        )[0] <= u64::MAX
    }
}

/// The total number of fish.
pub open spec fn population(t: Seq<int>) -> int
    recommends
        t.len() == 9,
{
    t[0] + t[1] + t[2] + t[3] + t[4] + t[5] + t[6] + t[7] + t[8]
}

/// How many of the listed timers equal `d`.
pub open spec fn count_timer(ts: Seq<u8>, d: u8) -> int
    decreases ts.len(),
{
    if ts.len() == 0 {
        0
    } else {
        count_timer(ts.drop_last(), d) + if ts.last() == d {
            1int
        } else {
            0int
        }
    }
}

impl Fish {
    /// Tally a list of individual spawn timers into a school.
    pub fn from_timers(ts: &Vec<u8>) -> (f: Fish)
        requires
            forall|i: int| 0 <= i < ts@.len() ==> ts@[i] <= 8,
            ts@.len() <= u64::MAX,
        ensures
            forall|d: u8| 0 <= d <= 8 ==> timer_counts(f)[d as int] == count_timer(ts@, d),
    {
        let mut timers: [u64; 9] = [0, 0, 0, 0, 0, 0, 0, 0, 0];
        let mut i: usize = 0;
        while i < ts.len()
            invariant
                forall|k: int| 0 <= k < ts@.len() ==> ts@[k] <= 8,
                ts@.len() <= u64::MAX,
                i <= ts@.len(),
                forall|d: u8|
                    0 <= d <= 8 ==> timers@.map_values(|x: u64| x as int)[d as int] == count_timer(
                        ts@.subrange(0, i as int),
                        d,
                    ),
                forall|d: int| 0 <= d < 9 ==> timers@[d] <= i,
            decreases ts@.len() - i,
        {
            let t = ts[i];
            let ghost tim0 = timers@;
            timers[t as usize] = timers[t as usize] + 1;
            proof {
                assert(timers@ =~= tim0.update(t as int, (tim0[t as int] + 1) as u64));
                assert forall|d: u8|
                    #![trigger count_timer(ts@.subrange(0, i + 1), d)]
                    0 <= d <= 8 implies timers@.map_values(|x: u64| x as int)[d as int]
                    == count_timer(ts@.subrange(0, i + 1), d) by {
                    assert(ts@.subrange(0, i + 1).drop_last() =~= ts@.subrange(0, i as int));
                    assert(ts@.subrange(0, i + 1).last() == ts@[i as int]);
                    assert(tim0.map_values(|x: u64| x as int)[d as int] == count_timer(
                        ts@.subrange(0, i as int),
                        d,
                    ));
                    if d == t {
                        assert(timers@[d as int] == tim0[d as int] + 1);
                    } else {
                        assert(timers@[d as int] == tim0[d as int]);
                    }
                }
            }
            i = i + 1;
        }
        proof {
            assert(ts@.subrange(0, ts@.len() as int) =~= ts@);
        }
        Fish { timers }
    }

    /// Step the school one day forward.
    pub fn next(&mut self)
        requires
            old(self).timers@[7] + old(self).timers@[0] <= u64::MAX,
        ensures
            timer_counts(*final(self)) == next_day(timer_counts(*old(self))),
    {
        let t = self.timers;
        self.timers = [t[1], t[2], t[3], t[4], t[5], t[6], t[7] + t[0], t[8], t[0]];
        proof {
            assert(timer_counts(*self) =~= next_day(timer_counts(*old(self))));
        }
    }

    /// Step the school `n` days forward.
    pub fn next_n(&mut self, n: u64)
        requires
            evolve_fits(timer_counts(*old(self)), n as nat),
        ensures
            timer_counts(*final(self)) == evolve(timer_counts(*old(self)), n as nat),
    {
        let ghost t0 = timer_counts(*old(self));
        let mut k: u64 = 0;
        while k < n
            invariant
                evolve_fits(t0, n as nat),
                k <= n,
                timer_counts(*self) == evolve(t0, k as nat),
            decreases n - k,
        {
            proof {
                lemma_evolve_fits_prefix(t0, k as nat + 1, n as nat);
            }
            self.next();
            k = k + 1;
        }
    }

    /// The total number of fish in the school.
    pub fn count(&self) -> (r: u64)
        requires
            population(timer_counts(*self)) <= u64::MAX,
        ensures
            r == population(timer_counts(*self)),
    {
        let t = &self.timers;
        t[0] + t[1] + t[2] + t[3] + t[4] + t[5] + t[6] + t[7] + t[8]
    }
}

/// If the counts fit for `n` days they fit for any earlier day.
proof fn lemma_evolve_fits_prefix(t: Seq<int>, k: nat, n: nat)
    requires
        k <= n,
        evolve_fits(t, n),
    ensures
        evolve_fits(t, k),
    decreases n - k,
{
    if k < n {
        lemma_evolve_fits_prefix(t, k, (n - 1) as nat);
    }
}

} // verus!
