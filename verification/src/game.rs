//! A game session: a grid ready for a driving loop to play on.

use vstd::prelude::*;

use crate::grid::{empties, pow2_grid, vals_bounded, Grid};

verus! {

/// One game in progress.
pub struct Game {
    pub grid: Grid,
}

impl Game {
    /// Start a game on a freshly spawned grid: every cell holds 0 or 2, and
    /// exactly three cells are occupied.
    pub fn new() -> (g: Game)
        ensures
            g.grid.wf(),
            vals_bounded(g.grid@),
            pow2_grid(g.grid@),
            forall|i: int, j: int|
                0 <= i < 4 && 0 <= j < 4 ==> (#[trigger] g.grid@[i][j]) == 0 || g.grid@[i][j] == 2,
            empties(g.grid@).len() == 13,
    {
        Game { grid: Grid::new() }
    }
}

} // verus!
