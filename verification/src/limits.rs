//! The constants of the toppling rule and the limits of the engine.

use vstd::prelude::*;

verus! {

/// A cell holding this many grains or more topples.
pub const TOPPLE_AMOUNT: u32 = 4;

/// Width of the rim of rows and columns that never topples.
pub const MARGIN: usize = 1;

/// Rows in one band.
pub const BAND_H: usize = 3;

/// Largest side of a grid that the engine works on: with it the number of
/// cells, and every count of cells, fits a machine word of any width.
pub const MAX_SIDE: usize = 32766;

/// Largest number of sweeps that the engine runs: the toppling counters are
/// 32 bits wide and a cell may topple in every sweep.
pub const MAX_ITERATIONS: usize = 0xffff_ffff;

} // verus!
