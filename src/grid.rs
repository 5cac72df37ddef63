//! One generation: a row-major sequence of cells with its side length.
use vstd::prelude::*;
use crate::cell::{Cell, CellState};

verus! {

/// A square generation of side `size`, held as `size * size` cells in
/// row-major order; the cell at position `i` has index `i`.
pub struct Grid {
    size: usize,
    cells: Vec<Cell>,
}

impl View for Grid {
    type V = Seq<Cell>;

    closed spec fn view(&self) -> Seq<Cell> {
        self.cells@
    }
}

/// The cells of a generation whose states are `states`, each with its own
/// index.
pub open spec fn cells_of(states: Seq<CellState>) -> Seq<Cell> {
    Seq::new(states.len(), |i: int| Cell { state: states[i], index: i as usize })
}

impl Grid {
    /// The side length.
    pub closed spec fn side(&self) -> nat {
        self.size as nat
    }

    /// `size * size` cells, each carrying its own position as index.
    pub open spec fn wf(&self) -> bool {
        &&& self@.len() == self.side() * self.side()
        &&& forall|i: int| 0 <= i < self@.len() ==> (#[trigger] self@[i]).index == i
    }

    /// A generation of side `size` with the given states in row-major order;
    /// `None` where there are not exactly `size * size` of them.
    pub fn new(size: usize, states: Vec<CellState>) -> (r: Option<Grid>)
        ensures
            r is Some <==> states@.len() == size * size,
            r matches Some(g) ==> g.wf() && g.side() == size && g@ == cells_of(states@),
    {
        let count = states.len();
        match size.checked_mul(size) {
            Some(n) if n == count => Some(Grid::from_states(size, states)),
            _ => None,
        }
    }

    /// A generation of side `size` with the given states in row-major order,
    /// of which there are `size * size`.
    pub(crate) fn from_states(size: usize, states: Vec<CellState>) -> (r: Grid)
        requires
            states@.len() == size * size,
        ensures
            r.wf(),
            r.side() == size,
            r@ == cells_of(states@),
    {
        let n = states.len();
        let mut cells: Vec<Cell> = Vec::new();
        let mut i: usize = 0;
        while i < n
            invariant
                n == states@.len(),
                i <= n,
                cells@ == cells_of(states@).subrange(0, i as int),
            decreases n - i,
        {
            cells.push(Cell { state: states[i], index: i });
            i = i + 1;
            proof {
                assert(cells@ =~= cells_of(states@).subrange(0, i as int));
            }
        }
        proof {
            assert(cells@ =~= cells_of(states@));
        }
        Grid { size, cells }
    }

    /// The side length.
    pub fn size(&self) -> (r: usize)
        ensures
            r == self.side(),
    {
        self.size
    }

    /// The number of cells.
    pub fn len(&self) -> (r: usize)
        ensures
            r == self@.len(),
    {
        self.cells.len()
    }

    /// The cells in row-major order.
    pub fn cells(&self) -> (r: &Vec<Cell>)
        ensures
            r@ == self@,
    {
        &self.cells
    }

    /// The state of the cell at `index`.
    pub fn state_at(&self, index: usize) -> (r: CellState)
        requires
            index < self@.len(),
        ensures
            r == self@[index as int].state,
    {
        self.cells[index].state
    }

    /// The cells of row `row`, left to right.
    pub fn row_cells(&self, row: usize) -> (r: Vec<Cell>)
        requires
            self.wf(),
            row < self.side(),
        ensures
            r@ == self@.subrange(row * self.side(), (row + 1) * self.side()),
    {
        let size = self.size;
        let n = self.cells.len();
        proof {
            assert((row + 1) * size <= size * size) by (nonlinear_arith)
                requires
                    row < size,
            ;
            assert((row + 1) * size == row * size + size) by (nonlinear_arith);
        }
        let start = row * size;
        let mut out: Vec<Cell> = Vec::new();
        let mut k: usize = 0;
        while k < size
            invariant
                self.wf(),
                size == self.side(),
                start == row * size,
                start + size <= n,
                n == self@.len(),
                k <= size,
                out@ == self@.subrange(start as int, start + k),
            decreases size - k,
        {
            out.push(self.cells[start + k]);
            k = k + 1;
            proof {
                assert(out@ =~= self@.subrange(start as int, start + k));
            }
        }
        out
    }
}

} // verus!
