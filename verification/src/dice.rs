//! The dice game: pawns race around a ten-space board, first under a
//! deterministic die, then counting every universe of a three-way quantum
//! die.

use std::collections::HashMap;

use vstd::prelude::*;

verus! {

/// A die the game can roll.  Any face bound below a thousand keeps the game
/// arithmetic small.
pub trait Die {
    /// Roll once.
    fn roll(&mut self) -> (r: u64)
        ensures
            1 <= r <= 1000,
    ;

    /// Roll three times.
    fn roll_thrice(&mut self) -> (r: [u64; 3])
        ensures
            forall|i: int| 0 <= i < 3 ==> 1 <= #[trigger] r[i] <= 1000,
    ;

    /// How many times this die has been rolled.
    fn rolls(&self) -> (r: u64);
}

/// A die that rolls `start`, `start + 1`, ... in order, wrapping back to
/// `start` after `wrap_back_after`.
#[derive(Clone, Copy, Debug)]
pub struct DeterministicDie {
    start: u64,
    wrap_back_after: u64,
    current: u64,
    rolls: u64,
}

impl DeterministicDie {
    #[verifier::type_invariant]
    spec fn wf(self) -> bool {
        1 <= self.start <= self.wrap_back_after <= 1000 && self.start - 1 <= self.current
            <= self.wrap_back_after
    }

    /// A fresh die over the faces `start ..= wrap_back_after`.
    pub fn new(start: u64, wrap_back_after: u64) -> (d: Self)
        requires
            1 <= start <= wrap_back_after <= 1000,
    {
        Self { start, wrap_back_after, current: start - 1, rolls: 0 }
    }
}

impl Die for DeterministicDie {
    fn roll(&mut self) -> (r: u64) {
        proof {
            use_type_invariant(&*self);
        }
        self.current = self.start + (self.current + 1 - self.start) % (self.wrap_back_after + 1
            - self.start);
        if self.rolls < u64::MAX {
            self.rolls = self.rolls + 1;
        }
        self.current
    }

    fn roll_thrice(&mut self) -> (r: [u64; 3]) {
        [self.roll(), self.roll(), self.roll()]
    }

    fn rolls(&self) -> (r: u64) {
        self.rolls
    }
}

/// A pawn: its accumulated score and its board space, one through ten.
#[derive(Clone, Copy, Debug, PartialEq, Eq, Hash, Structural)]
pub struct Pawn {
    pub score: u64,
    pub pos: u64,
}

/// Where a pawn lands after moving `times` spaces from `pos` on the
/// circular ten-space board.
pub open spec fn forward_pos(pos: int, times: int) -> int {
    1 + (pos + times - 1) % 10
}

impl Pawn {
    /// A pawn at its starting space with no score.
    pub fn new(start: u64) -> (p: Pawn)
        ensures
            p == (Pawn { score: 0, pos: start }),
    {
        Self { score: 0, pos: start }
    }

    /// Move forward around the board and score the space landed on.
    pub fn forward(&mut self, times: u64)
        requires
            1 <= old(self).pos,
            old(self).pos + times <= u64::MAX,
            old(self).score + 10 <= u64::MAX,
        ensures
            final(self).pos == forward_pos(old(self).pos as int, times as int),
            1 <= final(self).pos <= 10,
            final(self).score == old(self).score + final(self).pos,
    {
        self.pos = 1 + (self.pos + times - 1) % 10;
        self.score = self.score + self.pos;
    }
}

/// Play the deterministic game: the pawns alternate, each moving by three
/// rolls, until a score reaches a thousand.  Returns the winning and the
/// losing pawn's final states, in that order; which exact states those are
/// depends on the die.
pub fn game<D: Die>(p1: &mut Pawn, p2: &mut Pawn, die: &mut D) -> (r: (Pawn, Pawn))
    requires
        1 <= old(p1).pos <= 10,
        1 <= old(p2).pos <= 10,
        old(p1).score <= 1000,
        old(p2).score <= 1000,
    ensures
        r.0.score >= 1000,
        old(p1).score < 1000 && old(p2).score < 1000 ==> r.1.score < 1000,
        r == if final(p1).score >= 1000 {
            (*final(p1), *final(p2))
        } else {
            (*final(p2), *final(p1))
        },
        1 <= final(p1).pos <= 10 && 1 <= final(p2).pos <= 10,
        final(p1).score <= 1009 && final(p2).score <= 1009,
{
    if p1.score < 1000 && p2.score < 1000 {
        loop
            invariant_except_break
                p1.score < 1000,
                p2.score < 1000,
            invariant
                1 <= p1.pos <= 10,
                1 <= p2.pos <= 10,
            ensures
                1 <= p1.pos <= 10,
                1 <= p2.pos <= 10,
                (p1.score >= 1000 && p1.score <= 1009 && p2.score < 1000) || (p2.score >= 1000
                    && p2.score <= 1009 && p1.score < 1000),
            decreases 2000 - p1.score - if p2.score >= 1000 {
                1000int
            } else {
                p2.score as int
            },
        {
            let rolls1 = die.roll_thrice();
            let times1 = rolls1[0] + rolls1[1] + rolls1[2];
            p1.forward(times1);
            if p1.score >= 1000 {
                break ;
            }
            let rolls2 = die.roll_thrice();
            let times2 = rolls2[0] + rolls2[1] + rolls2[2];
            p2.forward(times2);
            if p2.score >= 1000 {
                break ;
            }
        }
    }
    if p1.score >= 1000 {
        (*p1, *p2)
    } else {
        (*p2, *p1)
    }
}

/// The win counts of both players over every universe of the quantum game:
/// the mover splits into the twenty-seven outcomes of three three-sided
/// rolls, and a score of twenty-one wins.  The seven distinct roll sums
/// weigh their branches by how many of the twenty-seven outcomes give them.
pub open spec fn dirac_wins(p1: Pawn, p2: Pawn, p1_turn: bool) -> (nat, nat)
    recommends
        1 <= p1.pos <= 10,
        1 <= p2.pos <= 10,
    decreases (if p1.score >= 21 {
        0int
    } else {
        21 - p1.score
    }) + (if p2.score >= 21 {
        0int
    } else {
        21 - p2.score
    }),
{
    if p1.score >= 21 {
        (1, 0)
    } else if p2.score >= 21 {
        (0, 1)
    } else if p1_turn {
        let b3 = dirac_wins(pawn_after(p1, 3), p2, false);
        let b4 = dirac_wins(pawn_after(p1, 4), p2, false);
        let b5 = dirac_wins(pawn_after(p1, 5), p2, false);
        let b6 = dirac_wins(pawn_after(p1, 6), p2, false);
        let b7 = dirac_wins(pawn_after(p1, 7), p2, false);
        let b8 = dirac_wins(pawn_after(p1, 8), p2, false);
        let b9 = dirac_wins(pawn_after(p1, 9), p2, false);
        (
            b3.0 + 3 * b4.0 + 6 * b5.0 + 7 * b6.0 + 6 * b7.0 + 3 * b8.0 + b9.0,
            b3.1 + 3 * b4.1 + 6 * b5.1 + 7 * b6.1 + 6 * b7.1 + 3 * b8.1 + b9.1,
        )
    } else {
        let b3 = dirac_wins(p1, pawn_after(p2, 3), true);
        let b4 = dirac_wins(p1, pawn_after(p2, 4), true);
        let b5 = dirac_wins(p1, pawn_after(p2, 5), true);
        let b6 = dirac_wins(p1, pawn_after(p2, 6), true);
        let b7 = dirac_wins(p1, pawn_after(p2, 7), true);
        let b8 = dirac_wins(p1, pawn_after(p2, 8), true);
        let b9 = dirac_wins(p1, pawn_after(p2, 9), true);
        (
            b3.0 + 3 * b4.0 + 6 * b5.0 + 7 * b6.0 + 6 * b7.0 + 3 * b8.0 + b9.0,
            b3.1 + 3 * b4.1 + 6 * b5.1 + 7 * b6.1 + 6 * b7.1 + 3 * b8.1 + b9.1,
        )
    }
}

/// A pawn after one quantum move, assuming its score is still below
/// twenty-one.
pub open spec fn pawn_after(p: Pawn, times: int) -> Pawn
    recommends
        1 <= p.pos <= 10,
        p.score < 21,
{
    Pawn {
        pos: forward_pos(p.pos as int, times) as u64,
        score: (p.score + forward_pos(p.pos as int, times)) as u64,
    }
}

/// A memoisable game state: pawn spaces one through ten, scores at most
/// thirty.
pub open spec fn dirac_state_ok(p1: Pawn, p2: Pawn) -> bool {
    1 <= p1.pos <= 10 && 1 <= p2.pos <= 10 && p1.score <= 30 && p2.score <= 30
}

/// A number that determines the whole game state.
pub open spec fn state_key(p1: Pawn, p2: Pawn, p1_turn: bool) -> int {
    p1.pos + 256 * p2.pos + 65536 * p1.score + 16777216 * p2.score + 4294967296 * (if p1_turn {
        1int
    } else {
        0int
    })
}

/// Distinct states have distinct keys.
proof fn lemma_state_key_injective(q1: Pawn, q2: Pawn, qt: bool, p1: Pawn, p2: Pawn, pt: bool)
    requires
        dirac_state_ok(q1, q2),
        dirac_state_ok(p1, p2),
        state_key(q1, q2, qt) == state_key(p1, p2, pt),
    ensures
        q1 == p1 && q2 == p2 && qt == pt,
{
    assert(q1.pos == p1.pos && q2.pos == p2.pos && q1.score == p1.score && q2.score == p2.score
        && qt == pt) by (nonlinear_arith)
        requires
            dirac_state_ok(q1, q2),
            dirac_state_ok(p1, p2),
            state_key(q1, q2, qt) == state_key(p1, p2, pt),
    ;
}

/// The memo table maps state keys to the win counts of their states.
pub open spec fn cache_ok(m: Map<u64, [u64; 2]>) -> bool {
    forall|k: u64|
        #[trigger] m.contains_key(k) ==> exists|q1: Pawn, q2: Pawn, qt: bool|
            {
                &&& dirac_state_ok(q1, q2)
                &&& k == #[trigger] state_key(q1, q2, qt)
                &&& m[k][0] == dirac_wins(q1, q2, qt).0
                &&& m[k][1] == dirac_wins(q1, q2, qt).1
            }
}

/// One memoised evaluation of the quantum game.
#[verifier::rlimit(100)]
fn play(p1: Pawn, p2: Pawn, p1_turn: bool, cache: &mut HashMap<u64, [u64; 2]>) -> (r: [u64; 2])
    requires
        dirac_state_ok(p1, p2),
        cache_ok(old(cache)@),
        dirac_wins(p1, p2, p1_turn).0 + dirac_wins(p1, p2, p1_turn).1 <= u64::MAX,
    ensures
        cache_ok(final(cache)@),
        r[0] == dirac_wins(p1, p2, p1_turn).0,
        r[1] == dirac_wins(p1, p2, p1_turn).1,
    decreases (if p1.score >= 21 {
        0int
    } else {
        21 - p1.score
    }) + (if p2.score >= 21 {
        0int
    } else {
        21 - p2.score
    }),
{
    let key: u64 = p1.pos + 256 * p2.pos + 65536 * p1.score + 16777216 * p2.score + if p1_turn {
        4294967296
    } else {
        0
    };
    proof {
        assert(key == state_key(p1, p2, p1_turn));
    }
    if let Some(out) = cache.get(&key) {
        proof {
            let (q1, q2, qt) = choose|q1: Pawn, q2: Pawn, qt: bool|
                {
                    &&& dirac_state_ok(q1, q2)
                    &&& key == #[trigger] state_key(q1, q2, qt)
                    &&& cache@[key][0] == dirac_wins(q1, q2, qt).0
                    &&& cache@[key][1] == dirac_wins(q1, q2, qt).1
                };
            lemma_state_key_injective(q1, q2, qt, p1, p2, p1_turn);
        }
        return *out;
    }
    let res: [u64; 2] = if p1.score >= 21 {
        [1, 0]
    } else if p2.score >= 21 {
        [0, 1]
    } else {
        let ghost total = dirac_wins(p1, p2, p1_turn);
        // Walk the seven distinct roll sums, weighing each branch by its
        // number of universes.
        let mut w0: u64 = 0;
        let mut w1: u64 = 0;
        let mut idx: usize = 0;
        while idx < 7
            invariant
                dirac_state_ok(p1, p2),
                p1.score < 21,
                p2.score < 21,
                cache_ok(cache@),
                total == dirac_wins(p1, p2, p1_turn),
                total.0 + total.1 <= u64::MAX,
                idx <= 7,
                w0 == partial_wins(p1, p2, p1_turn, idx as int).0,
                w1 == partial_wins(p1, p2, p1_turn, idx as int).1,
            decreases 7 - idx,
        {
            proof {
                lemma_partial_wins_le(p1, p2, p1_turn, idx as int + 1);
                lemma_partial_wins_le(p1, p2, p1_turn, idx as int);
                lemma_branch_le(p1, p2, p1_turn, idx as int);
            }
            let t: u64 = 3 + (idx as u64);
            let sub = if p1_turn {
                let mut m1 = p1;
                m1.forward(t);
                play(m1, p2, false, cache)
            } else {
                let mut m2 = p2;
                m2.forward(t);
                play(p1, m2, true, cache)
            };
            proof {
                if p1_turn {
                    assert(sub[0] == branch_wins(p1, p2, p1_turn, idx as int).0);
                } else {
                    assert(sub[0] == branch_wins(p1, p2, p1_turn, idx as int).0);
                }
            }
            let mult: u64 = [1u64, 3, 6, 7, 6, 3, 1][idx];
            proof {
                assert(mult == branch_mult(idx as int));
            }
            w0 = w0 + mult * sub[0];
            w1 = w1 + mult * sub[1];
            idx = idx + 1;
        }
        [w0, w1]
    };
    proof {
        assert(res[0] == dirac_wins(p1, p2, p1_turn).0 && res[1] == dirac_wins(
            p1,
            p2,
            p1_turn,
        ).1) by {
            if p1.score < 21 && p2.score < 21 {
                lemma_partial_wins_full(p1, p2, p1_turn);
            }
        }
    }
    let ghost pre_cache = cache@;
    cache.insert(key, res);
    proof {
        assert(cache_ok(pre_cache));
        assert forall|k: u64| #[trigger] cache@.contains_key(k) implies exists|
            q1: Pawn,
            q2: Pawn,
            qt: bool,
        |
            {
                &&& dirac_state_ok(q1, q2)
                &&& k == #[trigger] state_key(q1, q2, qt)
                &&& cache@[k][0] == dirac_wins(q1, q2, qt).0
                &&& cache@[k][1] == dirac_wins(q1, q2, qt).1
            } by {
            if k == key {
                assert(dirac_state_ok(p1, p2) && k == state_key(p1, p2, p1_turn) && cache@[k][0]
                    == dirac_wins(p1, p2, p1_turn).0 && cache@[k][1] == dirac_wins(
                    p1,
                    p2,
                    p1_turn,
                ).1);
            } else {
                assert(pre_cache.contains_key(k) && cache@[k] == pre_cache[k]);
            }
        }
    }
    res
}

/// The first `n` of the seven weighted branches of one quantum move.
pub open spec fn partial_wins(p1: Pawn, p2: Pawn, p1_turn: bool, n: int) -> (nat, nat)
    recommends
        p1.score < 21,
        p2.score < 21,
        0 <= n <= 7,
    decreases n,
{
    if n <= 0 {
        (0, 0)
    } else {
        let prev = partial_wins(p1, p2, p1_turn, n - 1);
        let b = branch_wins(p1, p2, p1_turn, n - 1);
        let m = branch_mult(n - 1);
        ((prev.0 + m * b.0) as nat, (prev.1 + m * b.1) as nat)
    }
}

/// The outcome of the branch where the mover advances by `3 + i`.
pub open spec fn branch_wins(p1: Pawn, p2: Pawn, p1_turn: bool, i: int) -> (nat, nat) {
    if p1_turn {
        dirac_wins(pawn_after(p1, 3 + i), p2, false)
    } else {
        dirac_wins(p1, pawn_after(p2, 3 + i), true)
    }
}

/// How many of the twenty-seven universes roll a sum of `3 + i`.
pub open spec fn branch_mult(i: int) -> nat {
    if i == 0 || i == 6 {
        1
    } else if i == 1 || i == 5 {
        3
    } else if i == 2 || i == 4 {
        6
    } else {
        7
    }
}

/// The seven weighted branches together are the state's win counts.
proof fn lemma_partial_wins_full(p1: Pawn, p2: Pawn, p1_turn: bool)
    requires
        p1.score < 21,
        p2.score < 21,
    ensures
        partial_wins(p1, p2, p1_turn, 7) == dirac_wins(p1, p2, p1_turn),
{
    reveal_with_fuel(partial_wins, 8);
}

/// Partial weighted sums never exceed the state's win counts.
proof fn lemma_partial_wins_le(p1: Pawn, p2: Pawn, p1_turn: bool, n: int)
    requires
        p1.score < 21,
        p2.score < 21,
        0 <= n <= 7,
    ensures
        partial_wins(p1, p2, p1_turn, n).0 <= dirac_wins(p1, p2, p1_turn).0,
        partial_wins(p1, p2, p1_turn, n).1 <= dirac_wins(p1, p2, p1_turn).1,
    decreases 7 - n,
{
    if n == 7 {
        lemma_partial_wins_full(p1, p2, p1_turn);
    } else {
        lemma_partial_wins_le(p1, p2, p1_turn, n + 1);
    }
}

/// Each single branch fits under the state's win counts.
proof fn lemma_branch_le(p1: Pawn, p2: Pawn, p1_turn: bool, i: int)
    requires
        p1.score < 21,
        p2.score < 21,
        0 <= i < 7,
    ensures
        branch_wins(p1, p2, p1_turn, i).0 <= dirac_wins(p1, p2, p1_turn).0,
        branch_wins(p1, p2, p1_turn, i).1 <= dirac_wins(p1, p2, p1_turn).1,
        branch_mult(i) * branch_wins(p1, p2, p1_turn, i).0 + partial_wins(p1, p2, p1_turn, i).0
            <= dirac_wins(p1, p2, p1_turn).0,
        branch_mult(i) * branch_wins(p1, p2, p1_turn, i).1 + partial_wins(p1, p2, p1_turn, i).1
            <= dirac_wins(p1, p2, p1_turn).1,
{
    lemma_partial_wins_le(p1, p2, p1_turn, i + 1);
    assert(partial_wins(p1, p2, p1_turn, i + 1).0 == partial_wins(p1, p2, p1_turn, i).0
        + branch_mult(i) * branch_wins(p1, p2, p1_turn, i).0);
    assert(partial_wins(p1, p2, p1_turn, i + 1).1 == partial_wins(p1, p2, p1_turn, i).1
        + branch_mult(i) * branch_wins(p1, p2, p1_turn, i).1);
    assert(branch_mult(i) >= 1);
    assert(branch_mult(i) * branch_wins(p1, p2, p1_turn, i).0 >= branch_wins(
        p1,
        p2,
        p1_turn,
        i,
    ).0) by (nonlinear_arith)
        requires
            branch_mult(i) >= 1,
    ;
    assert(branch_mult(i) * branch_wins(p1, p2, p1_turn, i).1 >= branch_wins(
        p1,
        p2,
        p1_turn,
        i,
    ).1) by (nonlinear_arith)
        requires
            branch_mult(i) >= 1,
    ;
}

/// Count the universes each player wins from the given start, the first
/// player moving first.
pub fn dirac_game(p1: Pawn, p2: Pawn) -> (r: [u64; 2])
    requires
        dirac_state_ok(p1, p2),
        dirac_wins(p1, p2, true).0 + dirac_wins(p1, p2, true).1 <= u64::MAX,
    ensures
        r[0] == dirac_wins(p1, p2, true).0,
        r[1] == dirac_wins(p1, p2, true).1,
{
    let mut cache: HashMap<u64, [u64; 2]> = HashMap::new();
    play(p1, p2, true, &mut cache)
}

} // verus!
