//! Verified solvers for a set of small text-puzzle computations.
//!
//! The centrepiece is the snailfish-number engine in [`snailfish`]: a parser
//! for the bracketed-pair notation, the explode/split reduction fixpoint, and
//! the magnitude fold, each with a full functional contract.  The remaining
//! modules verify the independent single-shot solvers that accompany it.

pub mod crabs;
pub mod diagnostics;
pub mod dice;
pub mod lanternfish;
pub mod packets;
pub mod probe;
pub mod segments;
pub mod snailfish;
pub mod sonar;
pub mod submarine;
pub mod syntax;
