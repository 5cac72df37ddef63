use life::board::Board;
use life::cell::{Cell, CellState};
use life::engine::{alive_neighbors, next_generation, next_state};
use life::geometry::neighbors_of;
use life::grid::Grid;
use life::render::{painted_row, render_row};
use life::seed::random_grid;

fn grid_with_alive(size: usize, alive: &[usize]) -> Grid {
    let mut states = vec![CellState::Dead; size * size];
    for &i in alive {
        states[i] = CellState::Alive;
    }
    Grid::new(size, states).unwrap()
}

fn alive_indices(grid: &Grid) -> Vec<usize> {
    grid.cells()
        .iter()
        .filter(|c| c.state == CellState::Alive)
        .map(|c| c.index)
        .collect()
}

fn sorted(mut v: Vec<usize>) -> Vec<usize> {
    v.sort();
    v
}

#[test]
fn corner_has_three_neighbors() {
    assert_eq!(neighbors_of(0, 3), vec![1, 3, 4]);
    assert_eq!(sorted(neighbors_of(2, 3)), vec![1, 4, 5]);
    assert_eq!(sorted(neighbors_of(6, 3)), vec![3, 4, 7]);
    assert_eq!(sorted(neighbors_of(8, 3)), vec![4, 5, 7]);
}

#[test]
fn edge_has_five_neighbors() {
    assert_eq!(sorted(neighbors_of(1, 3)), vec![0, 2, 3, 4, 5]);
    assert_eq!(sorted(neighbors_of(3, 3)), vec![0, 1, 4, 6, 7]);
    assert_eq!(sorted(neighbors_of(5, 3)), vec![1, 2, 4, 7, 8]);
    assert_eq!(sorted(neighbors_of(7, 3)), vec![3, 4, 5, 6, 8]);
}

#[test]
fn interior_has_eight_neighbors() {
    assert_eq!(neighbors_of(4, 3), vec![0, 1, 2, 3, 5, 6, 7, 8]);
    assert_eq!(sorted(neighbors_of(5, 4)), vec![0, 1, 2, 4, 6, 8, 9, 10]);
}

#[test]
fn neighbor_counts_over_whole_grids() {
    for size in 2..8usize {
        for i in 0..size * size {
            let ns = neighbors_of(i, size);
            let (r, c) = (i / size, i % size);
            let rb = r == 0 || r == size - 1;
            let cb = c == 0 || c == size - 1;
            let expected = if rb && cb { 3 } else if rb || cb { 5 } else { 8 };
            assert_eq!(ns.len(), expected);
            assert!(!ns.contains(&i));
            assert!(ns.iter().all(|&j| j < size * size));
        }
    }
}

#[test]
fn single_cell_grid_has_no_neighbors() {
    assert!(neighbors_of(0, 1).is_empty());
}

#[test]
fn last_column_does_not_wrap() {
    for size in [1usize, 3, 4, 10] {
        for row in 0..size {
            let i = row * size + size - 1;
            assert!(!neighbors_of(i, size).contains(&(i + 1)));
        }
    }
    assert_eq!(sorted(neighbors_of(9, 10)), vec![8, 18, 19]);
    assert_eq!(sorted(neighbors_of(19, 10)), vec![8, 9, 18, 28, 29]);
}

#[test]
fn side_two_lists_the_diagonal_below() {
    assert_eq!(sorted(neighbors_of(1, 2)), vec![0, 2, 3]);
}

#[test]
fn first_column_does_not_wrap_back() {
    let ns = neighbors_of(10, 10);
    assert!(!ns.contains(&9));
    assert_eq!(sorted(ns), vec![0, 1, 11, 20, 21]);
}

#[test]
fn rule_table() {
    for n in 0..=8usize {
        let alive = if n == 2 || n == 3 { CellState::Alive } else { CellState::Dead };
        assert_eq!(next_state(CellState::Alive, n), alive);
        let dead = if n == 3 { CellState::Alive } else { CellState::Dead };
        assert_eq!(next_state(CellState::Dead, n), dead);
    }
}

#[test]
fn new_rejects_wrong_length() {
    assert!(Grid::new(3, vec![CellState::Dead; 8]).is_none());
    assert!(Grid::new(3, vec![CellState::Dead; 10]).is_none());
    assert!(Grid::new(0, vec![CellState::Dead]).is_none());
    assert!(Grid::new(usize::MAX, vec![]).is_none());
}

#[test]
fn new_numbers_the_cells() {
    let g = Grid::new(2, vec![CellState::Alive, CellState::Dead, CellState::Dead, CellState::Alive]).unwrap();
    assert_eq!(g.size(), 2);
    assert_eq!(g.len(), 4);
    assert_eq!(
        g.cells(),
        &vec![
            Cell { state: CellState::Alive, index: 0 },
            Cell { state: CellState::Dead, index: 1 },
            Cell { state: CellState::Dead, index: 2 },
            Cell { state: CellState::Alive, index: 3 },
        ]
    );
    assert_eq!(g.state_at(3), CellState::Alive);
    assert_eq!(g.row_cells(1), vec![Cell { state: CellState::Dead, index: 2 }, Cell { state: CellState::Alive, index: 3 }]);
}

#[test]
fn empty_grid_stays_empty() {
    let g = Grid::new(0, vec![]).unwrap();
    let next = next_generation(&g);
    assert_eq!(next.len(), 0);
    assert_eq!(next.size(), 0);
}

#[test]
fn counts_live_neighbors() {
    let g = grid_with_alive(3, &[0, 1, 2, 4]);
    assert_eq!(alive_neighbors(&g, 4), 3);
    assert_eq!(alive_neighbors(&g, 0), 2);
    assert_eq!(alive_neighbors(&g, 7), 1);
    assert_eq!(alive_neighbors(&g, 3), 3);
}

#[test]
fn block_is_still() {
    let g = grid_with_alive(4, &[5, 6, 9, 10]);
    let mut board = Board::new(g);
    for _ in 0..5 {
        board.advance();
        assert_eq!(alive_indices(board.current()), vec![5, 6, 9, 10]);
    }
    let g = grid_with_alive(6, &[14, 15, 20, 21]);
    let next = next_generation(&g);
    assert_eq!(next.cells(), g.cells());
}

#[test]
fn block_in_corner_is_still() {
    let g = grid_with_alive(5, &[0, 1, 5, 6]);
    let next = next_generation(&next_generation(&g));
    assert_eq!(alive_indices(&next), vec![0, 1, 5, 6]);
}

#[test]
fn isolated_cell_dies() {
    let g = grid_with_alive(5, &[12]);
    let next = next_generation(&g);
    assert_eq!(next.state_at(12), CellState::Dead);
    assert!(alive_indices(&next).is_empty());
    let g = grid_with_alive(3, &[0]);
    assert!(alive_indices(&next_generation(&g)).is_empty());
}

#[test]
fn birth_with_three() {
    let g = grid_with_alive(5, &[6, 8, 16]);
    assert_eq!(g.state_at(12), CellState::Dead);
    assert_eq!(next_generation(&g).state_at(12), CellState::Alive);
}

#[test]
fn no_birth_with_two_or_four() {
    let g = grid_with_alive(5, &[6, 8]);
    assert_eq!(next_generation(&g).state_at(12), CellState::Dead);
    let g = grid_with_alive(5, &[6, 8, 16, 18]);
    assert_eq!(next_generation(&g).state_at(12), CellState::Dead);
}

#[test]
fn blinker_oscillates() {
    let g = grid_with_alive(5, &[11, 12, 13]);
    let next = next_generation(&g);
    assert_eq!(alive_indices(&next), vec![7, 12, 17]);
    let back = next_generation(&next);
    assert_eq!(alive_indices(&back), vec![11, 12, 13]);
}

#[test]
fn overcrowded_cell_dies() {
    let g = grid_with_alive(3, &[0, 1, 2, 3, 4]);
    let next = next_generation(&g);
    assert_eq!(next.state_at(4), CellState::Dead);
    assert_eq!(next.state_at(1), CellState::Dead);
    assert_eq!(next.state_at(0), CellState::Alive);
}

#[test]
fn next_generation_keeps_size_and_indices() {
    for size in 0..7usize {
        let alive: Vec<usize> = (0..size * size).filter(|i| i % 3 == 0).collect();
        let g = grid_with_alive(size, &alive);
        let next = next_generation(&g);
        assert_eq!(next.len(), g.len());
        assert_eq!(next.size(), size);
        for (i, c) in next.cells().iter().enumerate() {
            assert_eq!(c.index, i);
        }
    }
}

#[test]
fn next_generation_is_deterministic() {
    let g = grid_with_alive(6, &[0, 3, 7, 8, 9, 14, 20, 21, 22, 30, 35]);
    let a = next_generation(&g);
    let b = next_generation(&g);
    assert_eq!(a.cells(), b.cells());
    assert_eq!(alive_indices(&g), vec![0, 3, 7, 8, 9, 14, 20, 21, 22, 30, 35]);
}

#[test]
fn board_advance_matches_next_generation() {
    let g = grid_with_alive(5, &[1, 7, 10, 11, 12]);
    let expected = next_generation(&g);
    let mut board = Board::new(g);
    board.advance();
    assert_eq!(board.current().cells(), expected.cells());
}

#[test]
fn glider_moves() {
    let g = grid_with_alive(6, &[1, 8, 12, 13, 14]);
    let mut board = Board::new(g);
    for _ in 0..4 {
        board.advance();
    }
    assert_eq!(alive_indices(board.current()), vec![8, 15, 19, 20, 21]);
}

#[test]
fn random_grid_has_the_right_shape() {
    let g = random_grid(7).unwrap();
    assert_eq!(g.size(), 7);
    assert_eq!(g.len(), 49);
    for (i, c) in g.cells().iter().enumerate() {
        assert_eq!(c.index, i);
    }
    assert!(random_grid(usize::MAX).is_none());
    assert_eq!(random_grid(0).unwrap().len(), 0);
}

#[test]
fn render_row_text() {
    let g = grid_with_alive(3, &[0, 2]);
    assert_eq!(render_row(&g.row_cells(0), "#", "."), "[#, ., #]");
    assert_eq!(render_row(&g.row_cells(1), "#", "."), "[., ., .]");
    assert_eq!(render_row(&[], "#", "."), "[]");
    assert_eq!(render_row(&g.row_cells(0)[..1], "alive", "dead"), "[alive]");
}

#[test]
fn painted_row_colours_each_cell() {
    colored::control::set_override(true);
    let g = grid_with_alive(2, &[0]);
    assert_eq!(painted_row(&g.row_cells(0)), "[\x1b[32mO\x1b[0m, \x1b[31mO\x1b[0m]");
    colored::control::set_override(false);
    assert_eq!(painted_row(&g.row_cells(0)), "[O, O]");
}
