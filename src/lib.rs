//! Dice-pool resolution for a tabletop mechanic: pool sizing, skill bonuses,
//! the pairing reduction of a pool to one outcome, and the Monte Carlo
//! estimate of how often an outcome meets a difficulty.
//!
//! Outcomes and difficulties are counted in half points: an outcome of
//! `8.5` is `17`, a difficulty of `5` is `10`.
use vstd::prelude::*;

pub mod dice;
pub mod estimate;
pub mod outcome;
pub mod pool;

verus! {

/// The values of a sequence of `u32`, as mathematical integers.
pub open spec fn ints(s: Seq<u32>) -> Seq<int> {
    s.map_values(|v: u32| v as int)
}

} // verus!
