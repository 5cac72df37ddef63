//! Random initial generations.
use vstd::prelude::*;
use crate::cell::CellState;
use crate::grid::Grid;

verus! {

/// Relies on `rand::random::<bool>`, drawn from the thread-local generator.
/// Nothing is promised of the value.
#[verifier::external_body]
fn coin() -> bool {
    rand::random::<bool>()
}

/// A generation of side `size` whose cells are each alive or dead at random,
/// independently; `None` where `size * size` exceeds `usize::MAX`.
pub fn random_grid(size: usize) -> (r: Option<Grid>)
    ensures
        r is Some <==> size * size <= usize::MAX,
        r matches Some(g) ==> g.wf() && g.side() == size,
{
    match size.checked_mul(size) {
        None => None,
        Some(n) => {
            let mut states: Vec<CellState> = Vec::new();
            let mut i: usize = 0;
            while i < n
                invariant
                    i <= n,
                    states@.len() == i,
                decreases n - i,
            {
                if coin() {
                    states.push(CellState::Dead);
                } else {
                    states.push(CellState::Alive);
                }
                i = i + 1;
            }
            Some(Grid::from_states(size, states))
        },
    }
}

} // verus!
