//! The board: owner of the live generation.
use vstd::prelude::*;
use crate::engine::{is_next_generation, next_generation};
use crate::grid::Grid;

verus! {

/// Holds exactly one live generation and replaces it, whole, on each tick.
pub struct Board {
    grid: Grid,
}

impl Board {
    /// The live generation.
    pub closed spec fn held(&self) -> Grid {
        self.grid
    }

    pub open spec fn wf(&self) -> bool {
        self.held().wf()
    }

    /// A board seeded with `grid`.
    pub fn new(grid: Grid) -> (r: Board)
        requires
            grid.wf(),
        ensures
            r.wf(),
            r.held() == grid,
    {
        Board { grid }
    }

    /// One tick: the live generation is replaced by the one that follows it.
    pub fn advance(&mut self)
        requires
            old(self).wf(),
        ensures
            final(self).wf(),
            is_next_generation(old(self).held(), final(self).held()),
    {
        let next = next_generation(&self.grid);
        self.grid = next;
    }

    /// The live generation, for reading.
    pub fn current(&self) -> (r: &Grid)
        ensures
            *r == self.held(),
    {
        &self.grid
    }
}

} // verus!
