//! Tests for the probe launcher and the dice game.

use undersea::dice::{dirac_game, game, DeterministicDie, Die, Pawn};
use undersea::probe::{Launcher, Probe};

#[test]
fn part1_17() {
    let launcher = Launcher { target_x: (20, 30), target_y: (-10, -5) };

    let mut highest_ys = Vec::new();

    for vx in 1..30 {
        for vy in -10..30 {
            let mut probe = Probe::new((vx, vy), (0, 0));
            if let Some(hy) = launcher.launch(&mut probe) {
                highest_ys.push(hy);
            }
        }
    }

    assert_eq!(highest_ys.iter().max(), Some(&45));
}

#[test]
fn probe_step_applies_drag_and_gravity() {
    let mut probe = Probe::new((3, 2), (0, 0));
    probe.step();
    assert_eq!(probe.position, (3, 2));
    assert_eq!(probe.velocity, (2, 1));
    probe.step();
    assert_eq!(probe.position, (5, 3));
    assert_eq!(probe.velocity, (1, 0));
}

#[test]
fn pawn() {
    let mut pawn = Pawn::new(7);
    pawn.forward(5);
    assert_eq!(pawn.score, 2);
    assert_eq!(pawn.pos, 2);
}

#[test]
fn deterministic_die() {
    let mut die = DeterministicDie::new(1, 10);
    assert_eq!(die.roll_thrice(), [1, 2, 3]);
    assert_eq!(die.roll_thrice(), [4, 5, 6]);
    assert_eq!(die.roll_thrice(), [7, 8, 9]);
    assert_eq!(die.roll_thrice(), [10, 1, 2]);
}

#[test]
fn part1() {
    let mut die = DeterministicDie::new(1, 100);
    let mut pawn1 = Pawn::new(4);
    let mut pawn2 = Pawn::new(8);
    let (won, lost) = game(&mut pawn1, &mut pawn2, &mut die);
    assert_eq!(won.score, 1000);
    assert_eq!(lost.score, 745);
    assert_eq!(die.rolls(), 993);
}

#[test]
fn part2() {
    let [p1_wins, p2_wins] = dirac_game(Pawn::new(4), Pawn::new(8));
    assert_eq!(p1_wins, 444356092776315);
    assert_eq!(p2_wins, 341960390180808);
}
