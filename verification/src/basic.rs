//! Plain backtracking without any bookkeeping: every empty cell in
//! row-major order, every digit from 1 to 9, each checked against the
//! cell's row, column and box. It is slow, and it is here to compare the
//! tracked search with.

use vstd::prelude::*;
use crate::rules::{
    box_at, box_has, col_has, col_of, extends, is_free, is_grid, lemma_cell_of, lemma_cell_split,
    no_conflict, peers, row_has, row_of, solvable, solves,
};

verus! {

/// `new` is a way of filling `old` from cell `pos` on: it keeps what `old`
/// holds, leaves the cells before `pos` as they are, fills every cell from
/// `pos` on, and no digit that it adds stands twice in a row, a column or a
/// box.
pub open spec fn fills_from(old_grid: Seq<u8>, new_grid: Seq<u8>, pos: int) -> bool {
    &&& is_grid(new_grid)
    &&& extends(new_grid, old_grid)
    &&& forall|i: int| 0 <= i < pos && i < 81 ==> #[trigger] new_grid[i] == old_grid[i]
    &&& forall|i: int| pos <= i < 81 ==> #[trigger] new_grid[i] != 0
    &&& forall|i: int, j: int|
        0 <= i < 81 && 0 <= j < 81 && peers(i, j) && old_grid[i] == 0 && new_grid[i] != 0
            ==> #[trigger] new_grid[i] != #[trigger] new_grid[j]
}

/// `a` is `b`, or comes before `b` in the order in which the digits are
/// tried: in the first cell in which they differ, `a` holds the smaller
/// digit.
pub open spec fn not_after(a: Seq<u8>, b: Seq<u8>) -> bool {
    a == b || exists|i: int|
        0 <= i < 81 && #[trigger] a[i] < b[i] && forall|j: int| 0 <= j < i ==> #[trigger] a[j] == b[j]
}

/// `old` can be filled from cell `pos` on.
pub open spec fn fillable_from(old_grid: Seq<u8>, pos: int) -> bool {
    exists|new_grid: Seq<u8>| fills_from(old_grid, new_grid, pos)
}

/// Filling a grid without conflict from its first cell on is solving it.
pub proof fn lemma_fill_is_solve(old_grid: Seq<u8>, new_grid: Seq<u8>)
    requires
        is_grid(old_grid),
        no_conflict(old_grid),
    ensures
        fills_from(old_grid, new_grid, 0) <==> solves(new_grid, old_grid),
{
    if fills_from(old_grid, new_grid, 0) {
        assert forall|i: int, j: int|
            0 <= i < 81 && 0 <= j < 81 && peers(i, j) && new_grid[i] != 0 implies #[trigger] new_grid[i]
            != #[trigger] new_grid[j] by {
            assert(new_grid[j] != 0);
            if old_grid[i] != 0 && old_grid[j] != 0 {
                assert(new_grid[i] == old_grid[i] && new_grid[j] == old_grid[j]);
                assert(old_grid[i] != old_grid[j]);
            } else if old_grid[i] == 0 {
            } else {
                assert(peers(j, i));
                assert(new_grid[j] != new_grid[i]);
            }
        }
    }
    if solves(new_grid, old_grid) {
        assert forall|i: int, j: int|
            0 <= i < 81 && 0 <= j < 81 && peers(i, j) && old_grid[i] == 0 && new_grid[i] != 0 implies #[trigger] new_grid[i]
            != #[trigger] new_grid[j] by {}
    }
}

/// A grid without conflict can be filled from its first cell on exactly
/// where it has a solution: plain backtracking succeeds on the puzzles on
/// which the tracked search does.
pub proof fn lemma_fillable_is_solvable(g: Seq<u8>)
    requires
        is_grid(g),
        no_conflict(g),
    ensures
        fillable_from(g, 0) <==> solvable(g),
{
    if fillable_from(g, 0) {
        let filled = choose|new_grid: Seq<u8>| fills_from(g, new_grid, 0);
        lemma_fill_is_solve(g, filled);
        assert(solves(filled, g));
    }
    if solvable(g) {
        let sol = choose|sol: Seq<u8>| solves(sol, g);
        lemma_fill_is_solve(g, sol);
        assert(fills_from(g, sol, 0));
    }
}

/// A grid that is filled from some cell on holds, in an empty cell there, a
/// digit that is free for the cell, and is a way of filling the grid with
/// that digit placed.
pub proof fn lemma_fill_digit_is_free(old_grid: Seq<u8>, new_grid: Seq<u8>, pos: int)
    requires
        is_grid(old_grid),
        0 <= pos < 81,
        old_grid[pos] == 0,
        fills_from(old_grid, new_grid, pos),
    ensures
        1 <= new_grid[pos] <= 9,
        is_free(old_grid, pos, new_grid[pos]),
        fills_from(old_grid.update(pos, new_grid[pos]), new_grid, pos + 1),
{
    let d = new_grid[pos];
    assert(new_grid[pos] != 0);
    assert forall|j: int| 0 <= j < 81 && #[trigger] old_grid[j] == d implies !peers(pos, j) by {
        assert(new_grid[j] == old_grid[j]);
        if peers(pos, j) {
            assert(new_grid[pos] != new_grid[j]);
        }
    }
    let placed = old_grid.update(pos, d);
    assert forall|i: int| 0 <= i < 81 && placed[i] != 0 implies #[trigger] new_grid[i]
        == placed[i] by {
        if i != pos {
            assert(old_grid[i] == placed[i]);
        }
    }
    assert forall|i: int| 0 <= i < pos + 1 && i < 81 implies #[trigger] new_grid[i]
        == placed[i] by {}
}

/// A way of filling a grid with a free digit placed in an empty cell is a
/// way of filling the grid from that cell on.
pub proof fn lemma_fill_with_digit(old_grid: Seq<u8>, new_grid: Seq<u8>, pos: int, d: u8)
    requires
        is_grid(old_grid),
        0 <= pos < 81,
        old_grid[pos] == 0,
        1 <= d <= 9,
        is_free(old_grid, pos, d),
        fills_from(old_grid.update(pos, d), new_grid, pos + 1),
    ensures
        fills_from(old_grid, new_grid, pos),
{
    let placed = old_grid.update(pos, d);
    assert(placed[pos] == d);
    assert(new_grid[pos] == d);
    assert forall|i: int| 0 <= i < 81 && old_grid[i] != 0 implies #[trigger] new_grid[i]
        == old_grid[i] by {
        assert(placed[i] == old_grid[i]);
    }
    assert forall|i: int| 0 <= i < pos && i < 81 implies #[trigger] new_grid[i] == old_grid[i] by {
        assert(placed[i] == old_grid[i]);
    }
    assert forall|i: int, j: int|
        0 <= i < 81 && 0 <= j < 81 && peers(i, j) && old_grid[i] == 0 && new_grid[i] != 0 implies #[trigger] new_grid[i]
        != #[trigger] new_grid[j] by {
        if i != pos {
            assert(placed[i] == 0);
        } else if placed[j] == 0 {
            if new_grid[j] != 0 {
                assert(peers(j, i));
                assert(new_grid[j] != new_grid[i]);
            }
        } else {
            assert(new_grid[j] == placed[j]);
            assert(old_grid[j] == placed[j]);
            if old_grid[j] == d {
                assert(row_has(old_grid, row_of(pos), d) || col_has(old_grid, col_of(pos), d)
                    || box_has(old_grid, box_at(pos), d));
            }
        }
    }
}

/// The first way of filling a grid with digit `d` placed in the empty cell
/// `pos` is the first way of filling the grid from that cell on, where no
/// smaller digit can be placed there.
pub proof fn lemma_first_fill(old_grid: Seq<u8>, new_grid: Seq<u8>, pos: int, d: u8)
    requires
        is_grid(old_grid),
        0 <= pos < 81,
        old_grid[pos] == 0,
        fills_from(old_grid, new_grid, pos),
        new_grid[pos] == d,
        forall|other: Seq<u8>| #[trigger]
            fills_from(old_grid.update(pos, d), other, pos + 1) ==> not_after(new_grid, other),
        forall|q: u8|
            1 <= q < d && is_free(old_grid, pos, q) ==> !fillable_from(
                #[trigger] old_grid.update(pos, q),
                pos + 1,
            ),
    ensures
        forall|other: Seq<u8>| #[trigger]
            fills_from(old_grid, other, pos) ==> not_after(new_grid, other),
{
    assert forall|other: Seq<u8>| #[trigger] fills_from(old_grid, other, pos) implies not_after(
        new_grid,
        other,
    ) by {
        let q = other[pos];
        lemma_fill_digit_is_free(old_grid, other, pos);
        assert(fillable_from(old_grid.update(pos, q), pos + 1));
        if q > d {
            assert(new_grid[pos] < other[pos]);
            assert forall|j: int| 0 <= j < pos implies #[trigger] new_grid[j] == other[j] by {
                assert(new_grid[j] == old_grid[j] && other[j] == old_grid[j]);
            }
        }
    }
}

/// Check to see if the given value can be placed at the given row and
/// column inside the grid: there is no matching value in the same row,
/// column or box.
pub fn is_valid(grid: [u8; 81], row: usize, col: usize, value: u8) -> (valid: bool)
    requires
        row < 9,
        col < 9,
    ensures
        valid == is_free(grid@, row * 9 + col, value),
{
    let ghost cell = (row * 9 + col) as int;
    proof {
        lemma_cell_of(row as int, col as int);
    }
    let mut v: usize = 0;
    while v < 9
        invariant
            row < 9,
            cell == row * 9 + col,
            row_of(cell) == row,
            v <= 9,
            forall|i: int|
                0 <= i < 81 && row_of(i) == row && col_of(i) < v ==> #[trigger] grid@[i] != value,
        decreases 9 - v,
    {
        proof {
            lemma_cell_of(row as int, v as int);
        }
        if value == grid[row * 9 + v] {
            assert(grid@[row * 9 + v] == value);
            assert(row_has(grid@, row as int, value));
            return false;
        }
        assert forall|i: int| 0 <= i < 81 && row_of(i) == row && col_of(i) < v + 1 implies #[trigger] grid@[i]
            != value by {
            lemma_cell_split(i);
        }
        v += 1;
    }
    assert forall|i: int| 0 <= i < 81 && row_of(i) == row implies #[trigger] grid@[i] != value by {
        lemma_cell_split(i);
    }

    let mut v: usize = 0;
    while v < 9
        invariant
            col < 9,
            cell == row * 9 + col,
            col_of(cell) == col,
            v <= 9,
            forall|i: int|
                0 <= i < 81 && col_of(i) == col && row_of(i) < v ==> #[trigger] grid@[i] != value,
        decreases 9 - v,
    {
        proof {
            lemma_cell_of(v as int, col as int);
        }
        if value == grid[v * 9 + col] {
            assert(grid@[v * 9 + col] == value);
            assert(col_has(grid@, col as int, value));
            return false;
        }
        assert forall|i: int| 0 <= i < 81 && col_of(i) == col && row_of(i) < v + 1 implies #[trigger] grid@[i]
            != value by {
            lemma_cell_split(i);
        }
        v += 1;
    }
    assert forall|i: int| 0 <= i < 81 && col_of(i) == col implies #[trigger] grid@[i] != value by {
        lemma_cell_split(i);
    }

    let box_start_col = col / 3 * 3;
    let box_end_col = col / 3 * 3 + 3;
    let box_start_row = row / 3 * 3;
    let box_end_row = row / 3 * 3 + 3;
    let ghost b = box_at(cell);
    let mut r = box_start_row;
    while r < box_end_row
        invariant
            row < 9,
            col < 9,
            b == (row / 3) * 3 + col / 3,
            cell == row * 9 + col,
            box_at(cell) == b,
            box_start_row == row / 3 * 3,
            box_end_row == box_start_row + 3,
            box_start_col == col / 3 * 3,
            box_end_col == box_start_col + 3,
            box_start_row <= r <= box_end_row,
            forall|i: int|
                0 <= i < 81 && box_at(i) == b && row_of(i) < r ==> #[trigger] grid@[i] != value,
        decreases box_end_row - r,
    {
        let mut c = box_start_col;
        while c < box_end_col
            invariant
                row < 9,
                col < 9,
                b == (row / 3) * 3 + col / 3,
                cell == row * 9 + col,
                box_at(cell) == b,
            cell == row * 9 + col,
            box_at(cell) == b,
                box_start_row == row / 3 * 3,
                box_end_row == box_start_row + 3,
                box_start_col == col / 3 * 3,
                box_end_col == box_start_col + 3,
                box_start_row <= r < box_end_row,
                box_start_col <= c <= box_end_col,
                forall|i: int|
                    0 <= i < 81 && box_at(i) == b && (row_of(i) < r || (row_of(i) == r && col_of(i)
                        < c)) ==> #[trigger] grid@[i] != value,
            decreases box_end_col - c,
        {
            proof {
                lemma_cell_of(r as int, c as int);
            }
            if value == grid[r * 9 + c] {
                assert(grid@[r * 9 + c] == value);
                assert(box_has(grid@, b, value));
                return false;
            }
            assert forall|i: int|
                0 <= i < 81 && box_at(i) == b && (row_of(i) < r || (row_of(i) == r && col_of(i) < c
                    + 1)) implies #[trigger] grid@[i] != value by {
                lemma_cell_split(i);
            }
            c += 1;
        }
        assert forall|i: int| 0 <= i < 81 && box_at(i) == b && row_of(i) < r + 1 implies #[trigger] grid@[i]
            != value by {
            lemma_cell_split(i);
        }
        r += 1;
    }
    assert forall|i: int| 0 <= i < 81 && box_at(i) == b implies #[trigger] grid@[i] != value by {
        lemma_cell_split(i);
    }
    true
}

/// Attempt to fill the grid from the cell in `row` and `col` on, by
/// recursion with backtracking. On success every cell from there on is
/// filled, no digit that was added stands twice in a row, a column or a
/// box, and of all such ways of filling the grid this is the first: the one
/// with the smallest digit in the first cell where two of them differ. On
/// failure there is no such way of filling the grid, and the grid is as it
/// was.
pub fn solve(grid: &mut [u8; 81], row: usize, col: usize) -> (found: bool)
    requires
        is_grid(old(grid)@),
        row <= 9,
        col <= 9,
    ensures
        found ==> fills_from(old(grid)@, final(grid)@, row * 9 + col),
        found ==> forall|other: Seq<u8>| #[trigger]
            fills_from(old(grid)@, other, row * 9 + col) ==> not_after(final(grid)@, other),
        !found ==> !fillable_from(old(grid)@, row * 9 + col),
        !found ==> final(grid)@ == old(grid)@,
    decreases 9 - row, 9 - col,
{
    let ghost g = grid@;
    let ghost pos = (row * 9 + col) as int;
    if row == 9 {
        proof {
            assert forall|other: Seq<u8>| #[trigger] fills_from(g, other, pos) implies not_after(
                g,
                other,
            ) by {
                assert(other =~= g);
            }
        }
        true
    } else if col == 9 {
        solve(grid, row + 1, 0)
    } else if grid[row * 9 + col] != 0 {
        let found = solve(grid, row, col + 1);
        proof {
            if found {
                assert(grid@[pos] == g[pos]);
                assert forall|other: Seq<u8>| #[trigger]
                    fills_from(g, other, pos) implies not_after(grid@, other) by {
                    assert(other[pos] == g[pos]);
                    assert(fills_from(g, other, pos + 1));
                }
            } else {
                assert forall|new_grid: Seq<u8>| !fills_from(g, new_grid, pos) by {
                    if fills_from(g, new_grid, pos) {
                        assert(new_grid[pos] == g[pos]);
                        assert(fills_from(g, new_grid, pos + 1));
                    }
                }
            }
        }
        found
    } else {
        let mut p: u8 = 1;
        while p <= 9
            invariant
                row < 9,
                col < 9,
                pos == row * 9 + col,
                1 <= p <= 10,
                grid@ == g,
                g == old(grid)@,
                is_grid(g),
                g[pos] == 0,
                forall|q: u8|
                    1 <= q < p && is_free(g, pos, q) ==> !fillable_from(
                        #[trigger] g.update(pos, q),
                        pos + 1,
                    ),
            decreases 10 - p,
        {
            if is_valid(*grid, row, col, p) {
                grid[row * 9 + col] = p;
                assert(grid@ == g.update(pos, p));
                if solve(grid, row, col + 1) {
                    proof {
                        lemma_fill_with_digit(g, grid@, pos, p);
                        lemma_first_fill(g, grid@, pos, p);
                    }
                    return true;
                }
                grid[row * 9 + col] = 0;
                assert(grid@ =~= g);
            }
            p += 1;
        }
        proof {
            assert forall|new_grid: Seq<u8>| !fills_from(g, new_grid, pos) by {
                if fills_from(g, new_grid, pos) {
                    lemma_fill_digit_is_free(g, new_grid, pos);
                    assert(fillable_from(g.update(pos, new_grid[pos]), pos + 1));
                }
            }
        }
        false
    }
}

} // verus!
