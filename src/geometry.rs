//! Which flat indices of a square grid neighbor a given one.
//!
//! A cell at flat index `i` of a grid of side `size` sits at row `i / size`
//! and column `i % size`. Its neighbors are the up to eight cells whose row
//! and column each differ from its own by at most one; the grid does not
//! wrap, so cells on an edge or in a corner have fewer.
use vstd::prelude::*;
use vstd::arithmetic::div_mod::{
    lemma_fundamental_div_mod,
    lemma_fundamental_div_mod_converse,
    lemma_mod_pos_bound,
};

verus! {

pub open spec fn row_of(i: int, size: int) -> int {
    i / size
}

pub open spec fn col_of(i: int, size: int) -> int {
    i % size
}

/// `j` is a neighbor of `i`: a different cell of the grid within one row and
/// one column of it.
pub open spec fn is_neighbor(i: int, j: int, size: int) -> bool {
    &&& 0 <= j < size * size
    &&& j != i
    &&& -1 <= row_of(j, size) - row_of(i, size) <= 1
    &&& -1 <= col_of(j, size) - col_of(i, size) <= 1
}

/// A row (or column) number lies on the first or last line of the grid.
pub open spec fn on_border(k: int, size: int) -> bool {
    k == 0 || k == size - 1
}

/// How many neighbors a cell has in a grid of side two or more: three in a
/// corner, five elsewhere on an edge, eight inside.
pub open spec fn border_neighbor_count(i: int, size: int) -> int {
    let rb = on_border(row_of(i, size), size);
    let cb = on_border(col_of(i, size), size);
    if rb && cb {
        3
    } else if rb || cb {
        5
    } else {
        8
    }
}

/// `s` extended by the cell at offset `(dr, dc)` from `i`, if that lies
/// inside the grid.
pub open spec fn keep_offset(s: Seq<int>, i: int, size: int, dr: int, dc: int) -> Seq<int> {
    let r = row_of(i, size) + dr;
    let c = col_of(i, size) + dc;
    if 0 <= r < size && 0 <= c < size {
        s.push(r * size + c)
    } else {
        s
    }
}

/// The neighbors of `i`, in row-major order of the offsets.
pub open spec fn neighbor_list(i: int, size: int) -> Seq<int> {
    let s0 = Seq::<int>::empty();
    let s1 = keep_offset(s0, i, size, -1, -1);
    let s2 = keep_offset(s1, i, size, -1, 0);
    let s3 = keep_offset(s2, i, size, -1, 1);
    let s4 = keep_offset(s3, i, size, 0, -1);
    let s5 = keep_offset(s4, i, size, 0, 1);
    let s6 = keep_offset(s5, i, size, 1, -1);
    let s7 = keep_offset(s6, i, size, 1, 0);
    keep_offset(s7, i, size, 1, 1)
}

/// Row and column give back the flat index, and a cell of the grid has both
/// inside the grid.
pub proof fn lemma_coords(i: int, size: int)
    requires
        0 <= size,
        0 <= i < size * size,
    ensures
        size > 0,
        row_of(i, size) * size + col_of(i, size) == i,
        0 <= row_of(i, size) < size,
        0 <= col_of(i, size) < size,
{
    assert(size > 0) by (nonlinear_arith)
        requires
            0 <= size,
            0 <= i < size * size,
    ;
    lemma_fundamental_div_mod(i, size);
    lemma_mod_pos_bound(i, size);
    let r = i / size;
    let c = i % size;
    assert(r * size == size * r) by (nonlinear_arith);
    assert(0 <= c < size);
    assert(0 <= r < size) by (nonlinear_arith)
        requires
            r * size + c == i,
            0 <= c < size,
            0 <= i < size * size,
    ;
}

/// The flat index of a position inside the grid lies in the grid and gives
/// back that position.
pub proof fn lemma_flat(r: int, c: int, size: int)
    requires
        0 <= r < size,
        0 <= c < size,
    ensures
        0 <= r * size + c < size * size,
        row_of(r * size + c, size) == r,
        col_of(r * size + c, size) == c,
{
    lemma_fundamental_div_mod_converse(r * size + c, size, r, c);
    assert(0 <= r * size + c < size * size) by (nonlinear_arith)
        requires
            0 <= r < size,
            0 <= c < size,
    ;
}

/// Keeping an offset keeps what was there and adds its cell when inside.
proof fn lemma_keep_offset(s: Seq<int>, i: int, size: int, dr: int, dc: int)
    ensures
        forall|x: int| s.contains(x) ==> #[trigger] keep_offset(s, i, size, dr, dc).contains(x),
        ({
            let r = row_of(i, size) + dr;
            let c = col_of(i, size) + dc;
            0 <= r < size && 0 <= c < size ==> keep_offset(s, i, size, dr, dc).contains(
                r * size + c,
            )
        }),
{
    let r = row_of(i, size) + dr;
    let c = col_of(i, size) + dc;
    if 0 <= r < size && 0 <= c < size {
        let t = s.push(r * size + c);
        assert(t[s.len() as int] == r * size + c);
        assert forall|x: int| s.contains(x) implies #[trigger] t.contains(x) by {
            let k = choose|k: int| 0 <= k < s.len() && s[k] == x;
            assert(t[k] == x);
        }
    }
}

/// Facts on the flat index of every in-grid position of the window round
/// `(r, c)`.
proof fn lemma_window(r: int, c: int, size: int)
    requires
        0 <= r < size,
        0 <= c < size,
    ensures
        forall|dr: int, dc: int|
            -1 <= dr <= 1 && -1 <= dc <= 1 && 0 <= r + dr < size && 0 <= c + dc < size ==> {
                let k = #[trigger] ((r + dr) * size + (c + dc));
                &&& 0 <= k < size * size
                &&& row_of(k, size) == r + dr
                &&& col_of(k, size) == c + dc
            },
{
    assert forall|dr: int, dc: int|
        -1 <= dr <= 1 && -1 <= dc <= 1 && 0 <= r + dr < size && 0 <= c + dc
            < size implies {
        let k = #[trigger] ((r + dr) * size + (c + dc));
        &&& 0 <= k < size * size
        &&& row_of(k, size) == r + dr
        &&& col_of(k, size) == c + dc
    } by {
        lemma_flat(r + dr, c + dc, size);
    }
}

/// The list holds exactly the neighbors of `i`, each once; in a grid of side
/// two or more, three of them in a corner, five elsewhere on an edge and
/// eight inside.
pub proof fn lemma_neighbor_list(i: int, size: int)
    requires
        0 <= size,
        0 <= i < size * size,
    ensures
        neighbor_list(i, size).no_duplicates(),
        forall|k: int|
            0 <= k < neighbor_list(i, size).len() ==> is_neighbor(
                i,
                #[trigger] neighbor_list(i, size)[k],
                size,
            ),
        forall|j: int| is_neighbor(i, j, size) ==> #[trigger] neighbor_list(i, size).contains(j),
        size >= 2 ==> neighbor_list(i, size).len() == border_neighbor_count(i, size),
{
    lemma_coords(i, size);
    let r = row_of(i, size);
    let c = col_of(i, size);
    lemma_window(r, c, size);
    let l = neighbor_list(i, size);
    assert((r - 1) * size + (c - 1) == ((r + -1) * size + (c + -1)));
    assert((r - 1) * size + c == ((r + -1) * size + (c + 0)));
    assert((r - 1) * size + (c + 1) == ((r + -1) * size + (c + 1)));
    assert(r * size + (c - 1) == ((r + 0) * size + (c + -1)));
    assert(r * size + (c + 1) == ((r + 0) * size + (c + 1)));
    assert((r + 1) * size + (c - 1) == ((r + 1) * size + (c + -1)));
    assert((r + 1) * size + c == ((r + 1) * size + (c + 0)));
    assert((r + 1) * size + (c + 1) == ((r + 1) * size + (c + 1)));
    assert(i == ((r + 0) * size + (c + 0)));
    let s0 = Seq::<int>::empty();
    let s1 = keep_offset(s0, i, size, -1, -1);
    let s2 = keep_offset(s1, i, size, -1, 0);
    let s3 = keep_offset(s2, i, size, -1, 1);
    let s4 = keep_offset(s3, i, size, 0, -1);
    let s5 = keep_offset(s4, i, size, 0, 1);
    let s6 = keep_offset(s5, i, size, 1, -1);
    let s7 = keep_offset(s6, i, size, 1, 0);
    lemma_keep_offset(s0, i, size, -1, -1);
    lemma_keep_offset(s1, i, size, -1, 0);
    lemma_keep_offset(s2, i, size, -1, 1);
    lemma_keep_offset(s3, i, size, 0, -1);
    lemma_keep_offset(s4, i, size, 0, 1);
    lemma_keep_offset(s5, i, size, 1, -1);
    lemma_keep_offset(s6, i, size, 1, 0);
    lemma_keep_offset(s7, i, size, 1, 1);
    assert forall|j: int| is_neighbor(i, j, size) implies #[trigger] l.contains(j) by {
        lemma_coords(j, size);
        let rj = row_of(j, size);
        let cj = col_of(j, size);
        assert(j == (r + (rj - r)) * size + (c + (cj - c)));
    }
}

/// The flat indices of the neighbors of `index` in a grid of side `size`,
/// in row-major order: each neighbor once, nothing outside the grid, never
/// `index` itself, and nothing from the other end of a neighboring row.
pub fn neighbors_of(index: usize, size: usize) -> (r: Vec<usize>)
    requires
        index < size * size <= usize::MAX,
    ensures
        r@.len() == neighbor_list(index as int, size as int).len(),
        forall|k: int| 0 <= k < r@.len() ==> r@[k] as int == neighbor_list(index as int, size as int)[k],
        r@.no_duplicates(),
        forall|k: int| 0 <= k < r@.len() ==> is_neighbor(index as int, #[trigger] r@[k] as int, size as int),
        forall|j: usize| is_neighbor(index as int, j as int, size as int) ==> #[trigger] r@.contains(j),
        !r@.contains(index),
        size >= 2 ==> r@.len() == border_neighbor_count(index as int, size as int),
{
    proof {
        lemma_coords(index as int, size as int);
        lemma_neighbor_list(index as int, size as int);
        lemma_window(index as int / size as int, index as int % size as int, size as int);
    }
    let row = index / size;
    let col = index % size;
    let up = row > 0;
    let down = row + 1 < size;
    let left = col > 0;
    let right = col + 1 < size;
    let ghost i = index as int;
    let ghost n = size as int;
    let ghost (r, c) = (row as int, col as int);
    proof {
        assert((r - 1) * n + (c - 1) == ((r + -1) * n + (c + -1)));
        assert((r - 1) * n + c == ((r + -1) * n + (c + 0)));
        assert((r - 1) * n + (c + 1) == ((r + -1) * n + (c + 1)));
        assert(r * n + (c - 1) == ((r + 0) * n + (c + -1)));
        assert(r * n + (c + 1) == ((r + 0) * n + (c + 1)));
        assert((r + 1) * n + (c - 1) == ((r + 1) * n + (c + -1)));
        assert((r + 1) * n + c == ((r + 1) * n + (c + 0)));
        assert((r + 1) * n + (c + 1) == ((r + 1) * n + (c + 1)));
    }
    let mut v: Vec<usize> = Vec::new();
    if up && left {
        v.push((row - 1) * size + (col - 1));
    }
    if up {
        v.push((row - 1) * size + col);
    }
    if up && right {
        v.push((row - 1) * size + (col + 1));
    }
    if left {
        v.push(row * size + (col - 1));
    }
    if right {
        v.push(row * size + (col + 1));
    }
    if down && left {
        v.push((row + 1) * size + (col - 1));
    }
    if down {
        v.push((row + 1) * size + col);
    }
    if down && right {
        v.push((row + 1) * size + (col + 1));
    }
    proof {
        let l = neighbor_list(i, n);
        assert(v@.len() == l.len());
        assert forall|k: int| 0 <= k < v@.len() implies v@[k] as int == l[k] by {}
        assert forall|a: int, b: int| 0 <= a < b < v@.len() implies v@[a] != v@[b] by {
            assert(l[a] != l[b]);
        }
        assert forall|j: usize| is_neighbor(i, j as int, n) implies #[trigger] v@.contains(j) by {
            assert(l.contains(j as int));
            let k = choose|k: int| 0 <= k < l.len() && l[k] == j as int;
            assert(v@[k] == j);
        }
        if v@.contains(index) {
            let k = choose|k: int| 0 <= k < v@.len() && v@[k] == index;
            assert(is_neighbor(i, l[k], n));
        }
    }
    v
}

/// The set of neighbors of `i`.
pub open spec fn neighbor_set(i: int, size: int) -> Set<int> {
    Set::new(|j: int| is_neighbor(i, j, size))
}

/// Neighbor count bounds: in a grid of side two or more, a corner cell has
/// three neighbors, another cell on an edge five and an inner cell eight;
/// no cell is its own neighbor.
pub proof fn lemma_neighbor_count(i: int, size: int)
    requires
        2 <= size,
        0 <= i < size * size,
    ensures
        neighbor_set(i, size).finite(),
        neighbor_set(i, size).len() == border_neighbor_count(i, size),
        !neighbor_set(i, size).contains(i),
{
    lemma_neighbor_list(i, size);
    let l = neighbor_list(i, size);
    assert forall|j: int| l.contains(j) <==> is_neighbor(i, j, size) by {
        if l.contains(j) {
            let k = choose|k: int| 0 <= k < l.len() && l[k] == j;
            assert(is_neighbor(i, l[k], size));
        }
    }
    assert(l.to_set() =~= neighbor_set(i, size));
    l.unique_seq_to_set();
}

/// No wraparound: the cell just after the last one of a row (the first of
/// the next row) is never a neighbor of it, in a grid of any side but two.
/// (With side two that cell is the diagonal neighbor below, and rightly
/// listed.)
pub proof fn lemma_no_wraparound(i: int, size: int)
    requires
        0 <= size,
        size != 2,
        0 <= i < size * size,
        col_of(i, size) == size - 1,
    ensures
        !is_neighbor(i, i + 1, size),
        !neighbor_list(i, size).contains(i + 1),
{
    lemma_coords(i, size);
    lemma_neighbor_list(i, size);
    let r = row_of(i, size);
    if 0 <= i + 1 < size * size {
        assert(i + 1 == (r + 1) * size + 0) by (nonlinear_arith)
            requires
                i == r * size + (size - 1),
        ;
        lemma_fundamental_div_mod_converse(i + 1, size, r + 1, 0);
    }
    if neighbor_list(i, size).contains(i + 1) {
        let k = choose|k: int|
            0 <= k < neighbor_list(i, size).len() && neighbor_list(i, size)[k] == i + 1;
        assert(is_neighbor(i, neighbor_list(i, size)[k], size));
    }
}

} // verus!
