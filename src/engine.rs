//! The Life rule, applied to every cell of a generation at once.
use vstd::prelude::*;
use crate::cell::{Cell, CellState};
use crate::geometry::{
    col_of,
    is_neighbor,
    keep_offset,
    lemma_coords,
    lemma_flat,
    lemma_neighbor_list,
    neighbor_list,
    neighbors_of,
    row_of,
};
use crate::grid::Grid;

verus! {

/// How many of the cells at the flat indices `s` are alive in `g`.
pub open spec fn count_alive(g: Seq<Cell>, s: Seq<int>) -> nat
    decreases s.len(),
{
    if s.len() == 0 {
        0
    } else {
        count_alive(g, s.drop_last()) + if g[s.last()].state == CellState::Alive {
            1nat
        } else {
            0nat
        }
    }
}

/// How many neighbors of the cell at `i` are alive in `g`, a generation of
/// side `size`.
pub open spec fn alive_count(g: Seq<Cell>, i: int, size: int) -> nat {
    count_alive(g, neighbor_list(i, size))
}

/// The Life rule: a live cell stays alive with two or three live neighbors;
/// a dead cell comes alive with exactly three; every other cell is dead next.
pub open spec fn rule(state: CellState, alive: int) -> CellState {
    match state {
        CellState::Alive => if alive == 2 || alive == 3 {
            CellState::Alive
        } else {
            CellState::Dead
        },
        CellState::Dead => if alive == 3 {
            CellState::Alive
        } else {
            CellState::Dead
        },
    }
}

/// The generation after `g`, a generation of side `size`: each cell keeps its
/// index and takes the state that the rule gives from `g` alone.
pub open spec fn next_gen(g: Seq<Cell>, size: int) -> Seq<Cell> {
    Seq::new(
        g.len(),
        |i: int| Cell { state: rule(g[i].state, alive_count(g, i, size) as int), index: g[i].index },
    )
}

/// `r` is the generation that follows `g`.
pub open spec fn is_next_generation(g: Grid, r: Grid) -> bool {
    &&& r.wf()
    &&& r.side() == g.side()
    &&& r@ == next_gen(g@, g.side() as int)
}

/// The state that a cell in `state` with `alive` live neighbors has in the
/// next generation.
pub fn next_state(state: CellState, alive: usize) -> (r: CellState)
    ensures
        r == rule(state, alive as int),
{
    match state {
        CellState::Alive => if alive == 2 || alive == 3 {
            CellState::Alive
        } else {
            CellState::Dead
        },
        CellState::Dead => if alive == 3 {
            CellState::Alive
        } else {
            CellState::Dead
        },
    }
}

/// How many neighbors of the cell at `index` are alive in `grid`.
pub fn alive_neighbors(grid: &Grid, index: usize) -> (r: usize)
    requires
        grid.wf(),
        index < grid@.len(),
    ensures
        r == alive_count(grid@, index as int, grid.side() as int),
        r == live_neighbors(grid@, index as int, grid.side() as int).len(),
        r <= 8,
{
    let size = grid.size();
    let n = grid.len();
    let cells = grid.cells();
    let ns = neighbors_of(index, size);
    let ghost l = neighbor_list(index as int, size as int);
    proof {
        lemma_neighbor_list(index as int, size as int);
        lemma_alive_count_is_live_neighbors(grid@, index as int, size as int);
    }
    let mut count: usize = 0;
    let mut k: usize = 0;
    while k < ns.len()
        invariant
            cells@ == grid@,
            ns@.len() == l.len(),
            l.len() <= 8,
            forall|m: int| 0 <= m < ns@.len() ==> ns@[m] as int == l[m],
            cells@.len() == size * size,
            forall|m: int|
                0 <= m < l.len() ==> is_neighbor(index as int, #[trigger] l[m], size as int),
            k <= ns@.len(),
            count == count_alive(grid@, l.subrange(0, k as int)),
            count <= k,
        decreases ns@.len() - k,
    {
        let j = ns[k];
        proof {
            assert(is_neighbor(index as int, l[k as int], size as int));
        }
        if cells[j].is_alive() {
            count = count + 1;
        }
        k = k + 1;
        proof {
            assert(l.subrange(0, k as int).drop_last() =~= l.subrange(0, k - 1));
        }
    }
    proof {
        assert(l.subrange(0, k as int) =~= l);
    }
    count
}

/// The generation that follows `grid`: a new grid of the same side in which
/// every cell keeps its index and takes the state that the rule gives from
/// its live neighbors in `grid`. `grid` itself is left as it was.
pub fn next_generation(grid: &Grid) -> (r: Grid)
    requires
        grid.wf(),
    ensures
        is_next_generation(*grid, r),
        r@.len() == grid@.len(),
{
    let n = grid.len();
    let mut states: Vec<CellState> = Vec::new();
    let mut i: usize = 0;
    while i < n
        invariant
            grid.wf(),
            n == grid@.len(),
            i <= n,
            states@.len() == i,
            forall|m: int| 0 <= m < i ==> #[trigger] states@[m] == next_gen(grid@, grid.side() as int)[m].state,
        decreases n - i,
    {
        let alive = alive_neighbors(grid, i);
        states.push(next_state(grid.state_at(i), alive));
        i = i + 1;
    }
    let r = Grid::from_states(grid.size(), states);
    proof {
        assert(r@ =~= next_gen(grid@, grid.side() as int));
    }
    r
}

/// The live cells of `g` among the flat indices `s`.
pub open spec fn live_among(g: Seq<Cell>, s: Seq<int>) -> Set<int> {
    Set::new(|j: int| s.contains(j) && g[j].state == CellState::Alive)
}

/// The live neighbors of the cell at `i` in `g`, a generation of side `size`.
pub open spec fn live_neighbors(g: Seq<Cell>, i: int, size: int) -> Set<int> {
    Set::new(|j: int| is_neighbor(i, j, size) && g[j].state == CellState::Alive)
}

/// Counting along a list without repeats gives the size of the set counted.
proof fn lemma_count_as_set(g: Seq<Cell>, s: Seq<int>)
    requires
        s.no_duplicates(),
    ensures
        live_among(g, s).finite(),
        count_alive(g, s) == live_among(g, s).len(),
    decreases s.len(),
{
    if s.len() == 0 {
        assert(live_among(g, s) =~= Set::empty());
    } else {
        let p = s.drop_last();
        let x = s.last();
        assert(s =~= p.push(x));
        assert(p.no_duplicates()) by {
            assert forall|a: int, b: int| 0 <= a < p.len() && 0 <= b < p.len() && a != b implies p[a]
                != p[b] by {
                assert(s[a] != s[b]);
            }
        }
        lemma_count_as_set(g, p);
        assert(!p.contains(x)) by {
            if p.contains(x) {
                let k = choose|k: int| 0 <= k < p.len() && p[k] == x;
                assert(s[k] == s[s.len() - 1]);
            }
        }
        assert forall|j: int| s.contains(j) <==> (p.contains(j) || j == x) by {
            if s.contains(j) {
                let k = choose|k: int| 0 <= k < s.len() && s[k] == j;
                if k < s.len() - 1 {
                    assert(p[k] == j);
                }
            }
            if p.contains(j) {
                let k = choose|k: int| 0 <= k < p.len() && p[k] == j;
                assert(s[k] == j);
            }
            if j == x {
                assert(s[s.len() - 1] == j);
            }
        }
        if g[x].state == CellState::Alive {
            assert(live_among(g, s) =~= live_among(g, p).insert(x));
        } else {
            assert(live_among(g, s) =~= live_among(g, p));
        }
    }
}

/// The live-neighbor count is the number of distinct live neighbors.
pub proof fn lemma_alive_count_is_live_neighbors(g: Seq<Cell>, i: int, size: int)
    requires
        0 <= size,
        0 <= i < size * size,
    ensures
        live_neighbors(g, i, size).finite(),
        alive_count(g, i, size) == live_neighbors(g, i, size).len(),
{
    lemma_neighbor_list(i, size);
    let l = neighbor_list(i, size);
    lemma_count_as_set(g, l);
    assert forall|j: int| l.contains(j) <==> is_neighbor(i, j, size) by {
        if l.contains(j) {
            let k = choose|k: int| 0 <= k < l.len() && l[k] == j;
            assert(is_neighbor(i, l[k], size));
        }
    }
    assert(live_among(g, l) =~= live_neighbors(g, i, size));
}

/// The generation `k` ticks after `g`.
pub open spec fn after(g: Seq<Cell>, size: int, k: nat) -> Seq<Cell>
    decreases k,
{
    if k == 0 {
        g
    } else {
        next_gen(after(g, size, (k - 1) as nat), size)
    }
}

/// Determinism: two generations that both follow the same grid are equal,
/// cell for cell and in side.
pub proof fn lemma_next_generation_deterministic(g: Grid, a: Grid, b: Grid)
    requires
        g.wf(),
        is_next_generation(g, a),
        is_next_generation(g, b),
    ensures
        a@ == b@,
        a.side() == b.side(),
{
}

/// No index outside `g` counts; where none of the cells at `s` is alive, the
/// count is zero.
proof fn lemma_count_none_alive(g: Seq<Cell>, s: Seq<int>)
    requires
        forall|k: int| 0 <= k < s.len() ==> g[#[trigger] s[k]].state != CellState::Alive,
    ensures
        count_alive(g, s) == 0,
    decreases s.len(),
{
    if s.len() > 0 {
        lemma_count_none_alive(g, s.drop_last());
    }
}

/// Death by isolation: a cell none of whose neighbors is alive is dead in the
/// next generation.
pub proof fn lemma_isolated_cell_dies(g: Grid, i: int)
    requires
        g.wf(),
        0 <= i < g@.len(),
        forall|j: int| is_neighbor(i, j, g.side() as int) ==> (#[trigger] g@[j]).state == CellState::Dead,
    ensures
        next_gen(g@, g.side() as int)[i].state == CellState::Dead,
{
    let n = g.side() as int;
    lemma_neighbor_list(i, n);
    let l = neighbor_list(i, n);
    assert forall|k: int| 0 <= k < l.len() implies g@[#[trigger] l[k]].state != CellState::Alive by {
        assert(is_neighbor(i, l[k], n));
    }
    lemma_count_none_alive(g@, l);
}

/// Birth rule: a dead cell comes alive exactly when three of its neighbors
/// are; with two or four live neighbors it stays dead.
pub proof fn lemma_birth(g: Grid, i: int)
    requires
        g.wf(),
        0 <= i < g@.len(),
        g@[i].state == CellState::Dead,
    ensures
        ({
            let live = live_neighbors(g@, i, g.side() as int).len();
            let next = next_gen(g@, g.side() as int)[i].state;
            &&& next == CellState::Alive <==> live == 3
            &&& live == 2 ==> next == CellState::Dead
            &&& live == 4 ==> next == CellState::Dead
        }),
{
    lemma_alive_count_is_live_neighbors(g@, i, g.side() as int);
}

/// `k` lies in the 2x2 block whose top-left cell is at row `r0`, column `c0`.
pub open spec fn in_block(k: int, size: int, r0: int, c0: int) -> bool {
    &&& r0 <= row_of(k, size) <= r0 + 1
    &&& c0 <= col_of(k, size) <= c0 + 1
}

/// The live cells of `g` are exactly those of the 2x2 block at `(r0, c0)`.
pub open spec fn is_lone_block(g: Seq<Cell>, size: int, r0: int, c0: int) -> bool {
    &&& 0 <= r0 && r0 + 1 < size
    &&& 0 <= c0 && c0 + 1 < size
    &&& forall|k: int|
        0 <= k < g.len() ==> ((#[trigger] g[k]).state == CellState::Alive <==> in_block(
            k,
            size,
            r0,
            c0,
        ))
}

/// Whether the cell at offset `(dr, dc)` from `i` lies in the grid and is
/// alive.
spec fn offset_alive(g: Seq<Cell>, i: int, size: int, dr: int, dc: int) -> nat {
    let r = row_of(i, size) + dr;
    let c = col_of(i, size) + dc;
    if 0 <= r < size && 0 <= c < size && g[r * size + c].state == CellState::Alive {
        1
    } else {
        0
    }
}

proof fn lemma_count_keep_offset(g: Seq<Cell>, s: Seq<int>, i: int, size: int, dr: int, dc: int)
    ensures
        count_alive(g, keep_offset(s, i, size, dr, dc)) == count_alive(g, s) + offset_alive(
            g,
            i,
            size,
            dr,
            dc,
        ),
{
    let r = row_of(i, size) + dr;
    let c = col_of(i, size) + dc;
    if 0 <= r < size && 0 <= c < size {
        assert(keep_offset(s, i, size, dr, dc).drop_last() =~= s);
    }
}

/// The live neighbors of `i`, counted offset by offset.
proof fn lemma_alive_count_offsets(g: Seq<Cell>, i: int, size: int)
    ensures
        alive_count(g, i, size) == offset_alive(g, i, size, -1, -1) + offset_alive(g, i, size, -1, 0)
            + offset_alive(g, i, size, -1, 1) + offset_alive(g, i, size, 0, -1) + offset_alive(
            g,
            i,
            size,
            0,
            1,
        ) + offset_alive(g, i, size, 1, -1) + offset_alive(g, i, size, 1, 0) + offset_alive(
            g,
            i,
            size,
            1,
            1,
        ),
{
    let s0 = Seq::<int>::empty();
    let s1 = keep_offset(s0, i, size, -1, -1);
    let s2 = keep_offset(s1, i, size, -1, 0);
    let s3 = keep_offset(s2, i, size, -1, 1);
    let s4 = keep_offset(s3, i, size, 0, -1);
    let s5 = keep_offset(s4, i, size, 0, 1);
    let s6 = keep_offset(s5, i, size, 1, -1);
    let s7 = keep_offset(s6, i, size, 1, 0);
    lemma_count_keep_offset(g, s0, i, size, -1, -1);
    lemma_count_keep_offset(g, s1, i, size, -1, 0);
    lemma_count_keep_offset(g, s2, i, size, -1, 1);
    lemma_count_keep_offset(g, s3, i, size, 0, -1);
    lemma_count_keep_offset(g, s4, i, size, 0, 1);
    lemma_count_keep_offset(g, s5, i, size, 1, -1);
    lemma_count_keep_offset(g, s6, i, size, 1, 0);
    lemma_count_keep_offset(g, s7, i, size, 1, 1);
}

/// In a lone block, an offset counts exactly where it lands in the block.
proof fn lemma_block_offset(g: Seq<Cell>, i: int, size: int, r0: int, c0: int, dr: int, dc: int)
    requires
        0 <= size,
        g.len() == size * size,
        0 <= i < size * size,
        is_lone_block(g, size, r0, c0),
    ensures
        offset_alive(g, i, size, dr, dc) == if r0 <= row_of(i, size) + dr <= r0 + 1 && c0 <= col_of(
            i,
            size,
        ) + dc <= c0 + 1 {
            1nat
        } else {
            0nat
        },
{
    lemma_coords(i, size);
    let r = row_of(i, size) + dr;
    let c = col_of(i, size) + dc;
    if 0 <= r < size && 0 <= c < size {
        lemma_flat(r, c, size);
        assert(g[r * size + c].state == CellState::Alive <==> in_block(r * size + c, size, r0, c0));
    }
}

/// A lone 2x2 block is a still life: the next generation is the same.
proof fn lemma_block_step(g: Seq<Cell>, size: int, r0: int, c0: int)
    requires
        0 <= size,
        g.len() == size * size,
        is_lone_block(g, size, r0, c0),
    ensures
        next_gen(g, size) == g,
{
    assert forall|i: int| 0 <= i < g.len() implies #[trigger] next_gen(g, size)[i] == g[i] by {
        lemma_coords(i, size);
        lemma_alive_count_offsets(g, i, size);
        lemma_block_offset(g, i, size, r0, c0, -1, -1);
        lemma_block_offset(g, i, size, r0, c0, -1, 0);
        lemma_block_offset(g, i, size, r0, c0, -1, 1);
        lemma_block_offset(g, i, size, r0, c0, 0, -1);
        lemma_block_offset(g, i, size, r0, c0, 0, 1);
        lemma_block_offset(g, i, size, r0, c0, 1, -1);
        lemma_block_offset(g, i, size, r0, c0, 1, 0);
        lemma_block_offset(g, i, size, r0, c0, 1, 1);
        assert(g[i].state == CellState::Alive <==> in_block(i, size, r0, c0));
    }
    assert(next_gen(g, size) =~= g);
}

/// Stasis of a block: a grid whose only live cells form a 2x2 block is the
/// same after any number of generations.
pub proof fn lemma_block_is_still(g: Grid, r0: int, c0: int, k: nat)
    requires
        g.wf(),
        is_lone_block(g@, g.side() as int, r0, c0),
    ensures
        after(g@, g.side() as int, k) == g@,
    decreases k,
{
    if k > 0 {
        lemma_block_is_still(g, r0, c0, (k - 1) as nat);
        lemma_block_step(g@, g.side() as int, r0, c0);
    }
}

} // verus!
