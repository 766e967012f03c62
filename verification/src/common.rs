//! The values that go into the engine and come out of it.

use vstd::prelude::*;

verus! {

/// A cell of the initial configuration: a position and the grains on it.
#[derive(Clone, Copy, PartialEq, Eq, Debug, Structural)]
pub struct InitialCell {
    pub x: usize,
    pub y: usize,
    pub value: u32,
}

/// The stabilised grid with its statistics.
#[derive(Debug)]
pub struct FractalResult {
    /// The configuration that the engine was given.
    pub initial_configuration: Vec<InitialCell>,
    /// Grains on each cell of the final grid, row by row.
    pub sand_data: Vec<u8>,
    /// Number of times each cell toppled.
    pub count_data: Vec<u32>,
    /// Side of the final grid.
    pub side_length: usize,
    /// Topplings in all sweeps together.
    pub total_redistributions: i64,
    /// Number of sweeps.
    pub total_iterations: usize,
}

/// Why the engine gave up.
#[derive(Clone, Copy, PartialEq, Eq, Debug, Structural)]
pub enum ComputeError {
    /// The pile needs a grid wider than the engine allocates.
    GridTooLarge,
    /// The pile was not stable after the last sweep that the counters allow.
    TooManyIterations,
}

/// Whether two configurations hold the same cells in the same order.
pub fn same_configuration(a: &[InitialCell], b: &[InitialCell]) -> (same: bool)
    ensures
        same == (a@ == b@),
{
    if a.len() != b.len() {
        return false;
    }
    let n = a.len();
    let mut i: usize = 0;
    while i < n
        invariant
            n == a@.len(),
            n == b@.len(),
            i <= n,
            forall|k: int| 0 <= k < i ==> a@[k] == b@[k],
        decreases n - i,
    {
        if a[i] != b[i] {
            return false;
        }
        i = i + 1;
    }
    assert(a@ =~= b@);
    true
}

} // verus!
