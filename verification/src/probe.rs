//! Projectile simulation: a probe launched with an initial velocity towards
//! a rectangular target area, stepped under drag and gravity until it hits
//! or overshoots.

use vstd::math::abs;
use vstd::prelude::*;

verus! {

/// Bound on every coordinate this module handles; keeps all the arithmetic
/// of a flight far away from the integer limits.
pub const COORD_BOUND: i64 = 0x10_0000;

/// The state of a probe in flight.
#[derive(Clone, Copy, Debug, PartialEq, Eq)]
pub struct Probe {
    pub velocity: (i64, i64),
    pub position: (i64, i64),
}

/// A probe state as unbounded integers: x, y, horizontal and vertical
/// velocity.
pub open spec fn model(p: Probe) -> (int, int, int, int) {
    (p.position.0 as int, p.position.1 as int, p.velocity.0 as int, p.velocity.1 as int)
}

/// Drag pulls the horizontal velocity one step towards zero.
pub open spec fn drag(vx: int) -> int {
    if vx > 0 {
        vx - 1
    } else if vx < 0 {
        vx + 1
    } else {
        0
    }
}

/// One simulation step: the velocity moves the position, drag and gravity
/// change the velocity.
pub open spec fn step_state(s: (int, int, int, int)) -> (int, int, int, int) {
    (s.0 + s.2, s.1 + s.3, drag(s.2), s.3 - 1)
}

/// The probe state after `n` steps.
pub open spec fn flight(s: (int, int, int, int), n: nat) -> (int, int, int, int)
    decreases n,
{
    if n == 0 {
        s
    } else {
        step_state(flight(s, (n - 1) as nat))
    }
}

/// The highest y coordinate over the first `n` steps.
pub open spec fn peak_y(s: (int, int, int, int), n: nat) -> int
    decreases n,
{
    if n == 0 {
        s.1
    } else {
        let prev = peak_y(s, (n - 1) as nat);
        if flight(s, n).1 > prev {
            flight(s, n).1
        } else {
            prev
        }
    }
}

/// The heuristic flight-continues check: still short of the far target edge
/// and above the lower target edge.
pub open spec fn can_hit(s: (int, int, int, int), tx: (int, int), ty: (int, int)) -> bool {
    s.0 < tx.1 && s.1 > ty.0
}

/// The probe is inside the target area.
pub open spec fn in_target(s: (int, int, int, int), tx: (int, int), ty: (int, int)) -> bool {
    tx.0 <= s.0 <= tx.1 && ty.0 <= s.1 <= ty.1
}

impl Probe {
    /// A probe about to be launched.
    pub fn new(initial_velocity: (i64, i64), start_pos: (i64, i64)) -> (p: Probe)
        ensures
            p == (Probe { velocity: initial_velocity, position: start_pos }),
    {
        Probe { velocity: initial_velocity, position: start_pos }
    }

    /// Advance the probe one step: the velocity moves the position, drag
    /// pulls the horizontal velocity towards zero, gravity lowers the
    /// vertical velocity.
    pub fn step(&mut self)
        requires
            i64::MIN < old(self).position.0 + old(self).velocity.0 < i64::MAX,
            i64::MIN < old(self).position.1 + old(self).velocity.1 < i64::MAX,
            i64::MIN < old(self).velocity.1,
        ensures
            model(*final(self)) == step_state(model(*old(self))),
    {
        self.position = (self.position.0 + self.velocity.0, self.position.1 + self.velocity.1);
        self.velocity.1 = self.velocity.1 - 1;
        self.velocity.0 = if self.velocity.0 == 0 {
            0
        } else if self.velocity.0 > 0 {
            self.velocity.0 - 1
        } else {
            self.velocity.0 + 1
        };
    }

    /// Whether the flight can still reach the target: short of its far edge
    /// and above its bottom edge.
    pub fn can_probably_hit(&self, target_x: (i64, i64), target_y: (i64, i64)) -> (r: bool)
        ensures
            r == can_hit(model(*self), (target_x.0 as int, target_x.1 as int), (
                target_y.0 as int,
                target_y.1 as int,
            )),
    {
        self.position.0 < target_x.1 && self.position.1 > target_y.0
    }

    /// Whether the probe is inside the target area.
    pub fn hits(&self, target_x: (i64, i64), target_y: (i64, i64)) -> (r: bool)
        ensures
            r == in_target(model(*self), (target_x.0 as int, target_x.1 as int), (
                target_y.0 as int,
                target_y.1 as int,
            )),
    {
        target_x.0 <= self.position.0 && self.position.0 <= target_x.1 && target_y.0
            <= self.position.1 && self.position.1 <= target_y.1
    }
}

/// A launcher aimed at one rectangular target area, each range given as its
/// two inclusive ends.
pub struct Launcher {
    pub target_x: (i64, i64),
    pub target_y: (i64, i64),
}

/// All coordinates of a launch are within [`COORD_BOUND`].
pub open spec fn launch_bounded(l: Launcher, p: Probe) -> bool {
    &&& -0x10_0000 <= l.target_x.0 <= 0x10_0000
    &&& -0x10_0000 <= l.target_x.1 <= 0x10_0000
    &&& -0x10_0000 <= l.target_y.0 <= 0x10_0000
    &&& -0x10_0000 <= l.target_y.1 <= 0x10_0000
    &&& -0x10_0000 <= p.position.0 <= 0x10_0000
    &&& -0x10_0000 <= p.position.1 <= 0x10_0000
    &&& -0x10_0000 <= p.velocity.0 <= 0x10_0000
    &&& -0x10_0000 <= p.velocity.1 <= 0x10_0000
}

impl Launcher {
    /// Fly the probe until it hits the target or the heuristic gives up.
    /// Returns the highest height seen up to the hit, or `None` when the
    /// flight was cut off at step `n` without having hit; the probe is left
    /// at its final state.
    pub fn launch(&self, probe: &mut Probe) -> (r: Option<i64>)
        requires
            launch_bounded(*self, *old(probe)),
        ensures
            ({
                let s0 = model(*old(probe));
                let tx = (self.target_x.0 as int, self.target_x.1 as int);
                let ty = (self.target_y.0 as int, self.target_y.1 as int);
                match r {
                    Some(h) => exists|n: nat|
                        {
                            &&& n >= 1
                            &&& #[trigger] in_target(flight(s0, n), tx, ty)
                            &&& model(*final(probe)) == flight(s0, n)
                            &&& h == peak_y(s0, n)
                            &&& forall|k: nat|
                                1 <= k < n ==> !in_target(#[trigger] flight(s0, k), tx, ty)
                            &&& forall|k: nat| k < n ==> can_hit(#[trigger] flight(s0, k), tx, ty)
                        },
                    None => exists|n: nat|
                        {
                            &&& !can_hit(#[trigger] flight(s0, n), tx, ty)
                            &&& model(*final(probe)) == flight(s0, n)
                            &&& forall|k: nat|
                                1 <= k <= n ==> !in_target(#[trigger] flight(s0, k), tx, ty)
                            &&& forall|k: nat| k < n ==> can_hit(#[trigger] flight(s0, k), tx, ty)
                        },
                }
            }),
    {
        let ghost s0 = model(*probe);
        let ghost tx = (self.target_x.0 as int, self.target_x.1 as int);
        let ghost ty = (self.target_y.0 as int, self.target_y.1 as int);
        let mut highest_y = probe.position.1;
        let ghost mut n: nat = 0nat;
        proof {
            if s0.3 < 0 {
                assert(((-s0.3 - 1) * (-s0.3)) / 2 <= (0x10_0000 - 1) * 0x10_0000 / 2)
                    by (nonlinear_arith)
                    requires
                        -0x10_0000 <= s0.3 < 0,
                ;
            }
        }
        while probe.can_probably_hit(self.target_x, self.target_y)
            invariant
                s0 == model(*old(probe)),
                -0x10_0000 <= tx.0 <= 0x10_0000,
                -0x10_0000 <= tx.1 <= 0x10_0000,
                -0x10_0000 <= ty.0 <= 0x10_0000,
                -0x10_0000 <= ty.1 <= 0x10_0000,
                -0x10_0000 <= s0.0 <= 0x10_0000,
                -0x10_0000 <= s0.1 <= 0x10_0000,
                -0x10_0000 <= s0.2 <= 0x10_0000,
                -0x10_0000 <= s0.3 <= 0x10_0000,
                tx == (self.target_x.0 as int, self.target_x.1 as int),
                ty == (self.target_y.0 as int, self.target_y.1 as int),
                model(*probe) == flight(s0, n),
                highest_y == peak_y(s0, n),
                forall|k: nat| 1 <= k <= n ==> !in_target(#[trigger] flight(s0, k), tx, ty),
                forall|k: nat| k < n ==> can_hit(#[trigger] flight(s0, k), tx, ty),
                -0x10_0000 <= probe.velocity.0 <= 0x10_0000,
                probe.velocity.1 <= 0x10_0000,
                probe.velocity.1 >= -0x40_0001,
                probe.position.0 - s0.0 <= (0x10_0000 - abs(probe.velocity.0 as int)) * 0x10_0000,
                s0.0 - probe.position.0 <= (0x10_0000 - abs(probe.velocity.0 as int)) * 0x10_0000,
                probe.velocity.1 >= 0 ==> probe.position.1 <= s0.1 + (0x10_0000
                    - probe.velocity.1) * 0x10_0000,
                probe.position.1 <= 0x100_1000_0001,
                probe.velocity.1 < 0 ==> probe.position.1 <= 0x100_1000_0001 - ((-probe.velocity.1
                    - 1) * (-probe.velocity.1)) / 2,
            decreases (if probe.velocity.1 >= 0 {
                probe.velocity.1 + 1
            } else {
                0
            }), (if probe.position.1 >= ty.0 {
                probe.position.1 - ty.0
            } else {
                0
            }),
        {
            let ghost pre = model(*probe);
            proof {
                // The vertical fall keeps pace with the triangular bound, so
                // the velocity cannot have sunk far below the target while
                // the position is still above it.
                if pre.3 < 0 {
                    assert(pre.1 <= 0x100_1000_0001 - ((-pre.3 - 1) * (-pre.3)) / 2);
                    if -pre.3 >= 0x40_0000 {
                        assert(((-pre.3 - 1) * (-pre.3)) / 2 >= (0x40_0000 - 1) * 0x40_0000 / 2)
                            by (nonlinear_arith)
                            requires
                                -pre.3 >= 0x40_0000,
                        ;
                        assert(false);
                    }
                }
            }
            probe.step();
            proof {
                n = n + 1;
                assert(model(*probe) == flight(s0, n));
                // Horizontal drift: one step eats one unit of the remaining
                // drag budget.
                if pre.2 != 0 {
                    assert(abs(probe.velocity.0 as int) == abs(pre.2) - 1);
                }
                // Vertical bounds through the two phases of the flight.
                if pre.3 >= 0 {
                    assert(probe.position.1 == pre.1 + pre.3);
                    assert(pre.1 <= s0.1 + (0x10_0000 - pre.3) * 0x10_0000);
                }
                if pre.3 < 0 {
                    let u = -pre.3;
                    assert((u - 1) * u + 2 * u == u * (u + 1)) by (nonlinear_arith);
                    assert(((u - 1) * u + 2 * u) / 2 == (u - 1) * u / 2 + u);
                    assert(u * (u + 1) / 2 == (u - 1) * u / 2 + u);
                    assert(pre.1 <= 0x100_1000_0001 - ((u - 1) * u) / 2);
                    assert(probe.position.1 == pre.1 - u);
                    assert(probe.position.1 <= 0x100_1000_0001 - (u * (u + 1)) / 2);
                    assert(-(probe.velocity.1 as int) == u + 1);
                    assert((-probe.velocity.1 - 1) * (-probe.velocity.1) == u * (u + 1));
                }
            }
            if probe.position.1 > highest_y {
                highest_y = probe.position.1;
            }
            proof {
                assert(highest_y == peak_y(s0, n));
            }
            proof {
                if probe.velocity.1 < 0 {
                    if pre.3 > 0 {
                        assert(probe.velocity.1 >= 0);
                    } else if pre.3 == 0 {
                        assert(probe.velocity.1 == -1);
                        assert((-probe.velocity.1 - 1) * (-probe.velocity.1) == 0);
                        assert(probe.position.1 <= 0x100_1000_0001);
                    }
                    assert(probe.position.1 <= 0x100_1000_0001 - ((-probe.velocity.1 - 1) * (
                    -probe.velocity.1)) / 2);
                }
            }
            if probe.hits(self.target_x, self.target_y) {
                proof {
                    assert(in_target(flight(s0, n), tx, ty));
                }
                return Some(highest_y);
            }
        }
        None
    }
}

} // verus!
