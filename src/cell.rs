use vstd::prelude::*;

verus! {

/// Whether a position of the grid is occupied.
#[derive(Clone, Copy, Debug, PartialEq, Eq, Structural)]
pub enum CellState {
    Alive,
    Dead,
}

/// One position of a generation: its state and its flat row-major index.
#[derive(Clone, Copy, Debug, PartialEq, Eq, Structural)]
pub struct Cell {
    pub state: CellState,
    pub index: usize,
}

impl CellState {
    pub fn is_alive(&self) -> (r: bool)
        ensures
            r == (*self == CellState::Alive),
    {
        match self {
            CellState::Alive => true,
            CellState::Dead => false,
        }
    }
}

impl Cell {
    pub fn is_alive(&self) -> (r: bool)
        ensures
            r == (self.state == CellState::Alive),
    {
        self.state.is_alive()
    }
}

} // verus!
