//! What a grid is and when it is solved, stated over plain sequences of
//! cell values in row-major order.

use vstd::prelude::*;

verus! {

/// The row of the cell with linear index `i`.
pub open spec fn row_of(i: int) -> int {
    i / 9
}

/// The column of the cell with linear index `i`.
pub open spec fn col_of(i: int) -> int {
    i % 9
}

/// The box that holds the cell in `row` and `col`.
pub open spec fn box_of(row: int, col: int) -> int {
    (row / 3) * 3 + col / 3
}

/// The box of the cell with linear index `i`.
pub open spec fn box_at(i: int) -> int {
    box_of(row_of(i), col_of(i))
}

/// 81 cells, each empty (0) or a digit from 1 to 9.
pub open spec fn is_grid(g: Seq<u8>) -> bool {
    &&& g.len() == 81
    &&& forall|i: int| 0 <= i < 81 ==> #[trigger] g[i] <= 9
}

/// Two different cells that share a row, a column or a box.
pub open spec fn peers(i: int, j: int) -> bool {
    &&& i != j
    &&& (row_of(i) == row_of(j) || col_of(i) == col_of(j) || box_at(i) == box_at(j))
}

/// No digit stands twice in a row, a column or a box.
pub open spec fn no_conflict(g: Seq<u8>) -> bool {
    forall|i: int, j: int|
        0 <= i < 81 && 0 <= j < 81 && peers(i, j) && g[i] != 0 ==> #[trigger] g[i] != #[trigger] g[j]
}

/// No cell is empty.
pub open spec fn is_complete(g: Seq<u8>) -> bool {
    forall|i: int| 0 <= i < 81 ==> #[trigger] g[i] != 0
}

/// A full grid in which no digit stands twice in a row, a column or a box.
pub open spec fn is_solution(g: Seq<u8>) -> bool {
    &&& is_grid(g)
    &&& is_complete(g)
    &&& no_conflict(g)
}

/// `sol` keeps every digit that `g` holds.
pub open spec fn extends(sol: Seq<u8>, g: Seq<u8>) -> bool {
    forall|i: int| 0 <= i < 81 && g[i] != 0 ==> #[trigger] sol[i] == g[i]
}

/// `sol` is a solution of the puzzle `g`.
pub open spec fn solves(sol: Seq<u8>, g: Seq<u8>) -> bool {
    &&& is_solution(sol)
    &&& extends(sol, g)
}

/// The puzzle `g` has a solution.
pub open spec fn solvable(g: Seq<u8>) -> bool {
    exists|sol: Seq<u8>| solves(sol, g)
}

/// Digit `d` stands somewhere in row `row` of `g`.
pub open spec fn row_has(g: Seq<u8>, row: int, d: u8) -> bool {
    exists|i: int| 0 <= i < 81 && row_of(i) == row && #[trigger] g[i] == d
}

/// Digit `d` stands somewhere in column `col` of `g`.
pub open spec fn col_has(g: Seq<u8>, col: int, d: u8) -> bool {
    exists|i: int| 0 <= i < 81 && col_of(i) == col && #[trigger] g[i] == d
}

/// Digit `d` stands somewhere in box `b` of `g`.
pub open spec fn box_has(g: Seq<u8>, b: int, d: u8) -> bool {
    exists|i: int| 0 <= i < 81 && box_at(i) == b && #[trigger] g[i] == d
}

/// Digit `d` stands in neither the row, the column nor the box of cell `i`.
pub open spec fn is_free(g: Seq<u8>, i: int, d: u8) -> bool {
    &&& !row_has(g, row_of(i), d)
    &&& !col_has(g, col_of(i), d)
    &&& !box_has(g, box_at(i), d)
}

/// The cell in `row` and `col` has the linear index `row * 9 + col`.
pub proof fn lemma_cell_of(row: int, col: int)
    requires
        0 <= row < 9,
        0 <= col < 9,
    ensures
        0 <= row * 9 + col < 81,
        row_of(row * 9 + col) == row,
        col_of(row * 9 + col) == col,
        box_at(row * 9 + col) == box_of(row, col),
{
}

/// A linear index splits into its row and its column.
pub proof fn lemma_cell_split(i: int)
    requires
        0 <= i < 81,
    ensures
        0 <= row_of(i) < 9,
        0 <= col_of(i) < 9,
        i == row_of(i) * 9 + col_of(i),
        0 <= box_at(i) < 9,
{
}

/// A grid with a conflict has no solution: whatever extends it keeps the
/// two equal digits.
pub proof fn lemma_conflict_unsolvable(g: Seq<u8>)
    requires
        !no_conflict(g),
    ensures
        !solvable(g),
{
    let (i, j) = choose|i: int, j: int|
        0 <= i < 81 && 0 <= j < 81 && peers(i, j) && g[i] != 0 && #[trigger] g[i] == #[trigger] g[j];
    assert forall|sol: Seq<u8>| !solves(sol, g) by {
        if solves(sol, g) {
            assert(sol[i] == g[i]);
            assert(sol[j] == g[j]);
        }
    }
}

/// A solution solves itself, and is the only solution of itself.
pub proof fn lemma_solution_is_fixed(g: Seq<u8>, sol: Seq<u8>)
    requires
        is_solution(g),
        solves(sol, g),
    ensures
        solves(g, g),
        sol == g,
{
    assert forall|i: int| 0 <= i < 81 implies sol[i] == g[i] by {
        assert(g[i] != 0);
    }
    assert(sol =~= g);
}

/// Placing a free digit in an empty cell of a grid without conflict gives a
/// grid without conflict.
pub proof fn lemma_place_keeps_no_conflict(g: Seq<u8>, i: int, d: u8)
    requires
        is_grid(g),
        no_conflict(g),
        0 <= i < 81,
        g[i] == 0,
        1 <= d <= 9,
        is_free(g, i, d),
    ensures
        is_grid(g.update(i, d)),
        no_conflict(g.update(i, d)),
{
    let h = g.update(i, d);
    assert forall|a: int, b: int|
        0 <= a < 81 && 0 <= b < 81 && peers(a, b) && h[a] != 0 implies #[trigger] h[a]
        != #[trigger] h[b] by {
        if a == i {
            if h[b] == d {
                assert(g[b] == d);
            }
        } else if b == i {
            if h[a] == d {
                assert(g[a] == d);
            }
        } else {
            assert(g[a] != g[b]);
        }
    }
}

/// A solution of `g` holds, in an empty cell of `g`, a digit that is free
/// there in `g`.
pub proof fn lemma_solution_digit_is_free(g: Seq<u8>, sol: Seq<u8>, i: int)
    requires
        is_grid(g),
        solves(sol, g),
        0 <= i < 81,
        g[i] == 0,
    ensures
        1 <= sol[i] <= 9,
        is_free(g, i, sol[i]),
        solves(sol, g.update(i, sol[i])),
{
    let d = sol[i];
    assert(sol[i] != 0);
    assert forall|j: int| 0 <= j < 81 && #[trigger] g[j] == d implies !peers(i, j) && i != j by {
        assert(sol[j] == g[j]);
        if peers(i, j) {
            assert(sol[i] != sol[j]);
        }
    }
    let h = g.update(i, d);
    assert forall|j: int| 0 <= j < 81 && h[j] != 0 implies #[trigger] sol[j] == h[j] by {
        if j != i {
            assert(g[j] == h[j]);
        }
    }
}

/// What placing a digit in an empty cell does to the digits that a row, a
/// column or a box holds: the digit is added to the cell's own three units,
/// and nothing else changes.
pub proof fn lemma_place_has(g: Seq<u8>, i: int, d: u8, u: int, e: u8)
    requires
        g.len() == 81,
        0 <= i < 81,
        g[i] == 0,
        1 <= e <= 9,
    ensures
        row_has(g.update(i, d), u, e) == (row_has(g, u, e) || (u == row_of(i) && e == d)),
        col_has(g.update(i, d), u, e) == (col_has(g, u, e) || (u == col_of(i) && e == d)),
        box_has(g.update(i, d), u, e) == (box_has(g, u, e) || (u == box_at(i) && e == d)),
{
    let h = g.update(i, d);
    if row_has(g, u, e) {
        let j = choose|j: int| 0 <= j < 81 && row_of(j) == u && #[trigger] g[j] == e;
        assert(h[j] == e);
    }
    if col_has(g, u, e) {
        let j = choose|j: int| 0 <= j < 81 && col_of(j) == u && #[trigger] g[j] == e;
        assert(h[j] == e);
    }
    if box_has(g, u, e) {
        let j = choose|j: int| 0 <= j < 81 && box_at(j) == u && #[trigger] g[j] == e;
        assert(h[j] == e);
    }
    if e == d {
        assert(h[i] == e);
    }
    if row_has(h, u, e) {
        let j = choose|j: int| 0 <= j < 81 && row_of(j) == u && #[trigger] h[j] == e;
        if j != i {
            assert(g[j] == e);
        }
    }
    if col_has(h, u, e) {
        let j = choose|j: int| 0 <= j < 81 && col_of(j) == u && #[trigger] h[j] == e;
        if j != i {
            assert(g[j] == e);
        }
    }
    if box_has(h, u, e) {
        let j = choose|j: int| 0 <= j < 81 && box_at(j) == u && #[trigger] h[j] == e;
        if j != i {
            assert(g[j] == e);
        }
    }
}

/// The linear index of the `k`-th cell of box `b`.
pub open spec fn box_cell(b: int, k: int) -> int {
    ((b / 3) * 3 + k / 3) * 9 + (b % 3) * 3 + k % 3
}

/// `n` different values from 1 to `n` are all the values from 1 to `n`.
pub proof fn lemma_all_values_occur(s: Seq<u8>, d: u8)
    requires
        forall|i: int| 0 <= i < s.len() ==> 1 <= #[trigger] s[i] <= s.len(),
        forall|i: int, j: int| 0 <= i < j < s.len() ==> #[trigger] s[i] != #[trigger] s[j],
        1 <= d <= s.len(),
    ensures
        exists|i: int| 0 <= i < s.len() && #[trigger] s[i] == d,
    decreases s.len(),
{
    let n = s.len() as int;
    if exists|p: int| 0 <= p < n && #[trigger] s[p] == n {
        let p = choose|p: int| 0 <= p < n && #[trigger] s[p] == n;
        if d != n {
            let t = s.remove(p);
            assert forall|i: int| 0 <= i < t.len() implies 1 <= #[trigger] t[i] <= t.len() by {
                let k = if i < p { i } else { i + 1 };
                assert(t[i] == s[k]);
                if k < p {
                    assert(s[k] != s[p]);
                } else {
                    assert(s[p] != s[k]);
                }
            }
            assert forall|i: int, j: int| 0 <= i < j < t.len() implies #[trigger] t[i]
                != #[trigger] t[j] by {
                let a = if i < p { i } else { i + 1 };
                let b = if j < p { j } else { j + 1 };
                assert(t[i] == s[a] && t[j] == s[b]);
            }
            lemma_all_values_occur(t, d);
            let i = choose|i: int| 0 <= i < t.len() && #[trigger] t[i] == d;
            let k = if i < p { i } else { i + 1 };
            assert(s[k] == d);
        }
    } else {
        let t = s.drop_last();
        let e = s[n - 1];
        assert forall|i: int| 0 <= i < t.len() implies 1 <= #[trigger] t[i] <= t.len() by {
            assert(t[i] == s[i]);
        }
        assert forall|i: int, j: int| 0 <= i < j < t.len() implies #[trigger] t[i]
            != #[trigger] t[j] by {
            assert(t[i] == s[i] && t[j] == s[j]);
        }
        assert(1 <= e <= n - 1);
        lemma_all_values_occur(t, e);
        let i = choose|i: int| 0 <= i < t.len() && #[trigger] t[i] == e;
        assert(s[i] == t[i]);
        assert(s[i] != s[n - 1]);
    }
}

/// The nine cells of a box lie in the grid and in that box, and are nine
/// different cells.
pub proof fn lemma_box_cells(b: int, i: int, j: int)
    requires
        0 <= b < 9,
        0 <= i < 9,
        0 <= j < 9,
    ensures
        0 <= box_cell(b, i) < 81,
        box_at(box_cell(b, i)) == b,
        i != j ==> box_cell(b, i) != box_cell(b, j),
{
    let br = b / 3;
    let bc = b % 3;
    let ir = i / 3;
    let ic = i % 3;
    let jr = j / 3;
    let jc = j % 3;
    assert(box_cell(b, i) == (br * 3 + ir) * 9 + (bc * 3 + ic));
    assert(box_cell(b, j) == (br * 3 + jr) * 9 + (bc * 3 + jc));
    assert(0 <= bc * 3 + ic < 9);
    assert(0 <= br * 3 + ir < 9);
    assert(row_of(box_cell(b, i)) == br * 3 + ir);
    assert(col_of(box_cell(b, i)) == bc * 3 + ic);
}

/// Every row of a solution holds every digit from 1 to 9.
pub proof fn lemma_row_is_permutation(g: Seq<u8>, u: int, d: u8)
    requires
        is_solution(g),
        0 <= u < 9,
        1 <= d <= 9,
    ensures
        row_has(g, u, d),
{
    let row = Seq::new(9, |k: int| g[u * 9 + k]);
    assert forall|i: int, j: int| 0 <= i < j < 9 implies #[trigger] row[i] != #[trigger] row[j] by {
        assert(peers(u * 9 + i, u * 9 + j));
        assert(g[u * 9 + i] != g[u * 9 + j]);
    }
    assert forall|i: int| 0 <= i < 9 implies 1 <= #[trigger] row[i] <= 9 by {
        assert(g[u * 9 + i] != 0 && g[u * 9 + i] <= 9);
    }
    lemma_all_values_occur(row, d);
    let k = choose|k: int| 0 <= k < 9 && #[trigger] row[k] == d;
    assert(row_of(u * 9 + k) == u && g[u * 9 + k] == d);
}

/// Every column of a solution holds every digit from 1 to 9.
pub proof fn lemma_col_is_permutation(g: Seq<u8>, u: int, d: u8)
    requires
        is_solution(g),
        0 <= u < 9,
        1 <= d <= 9,
    ensures
        col_has(g, u, d),
{
    let col = Seq::new(9, |k: int| g[k * 9 + u]);
    assert forall|i: int, j: int| 0 <= i < j < 9 implies #[trigger] col[i] != #[trigger] col[j] by {
        assert(peers(i * 9 + u, j * 9 + u));
        assert(g[i * 9 + u] != g[j * 9 + u]);
    }
    assert forall|i: int| 0 <= i < 9 implies 1 <= #[trigger] col[i] <= 9 by {
        assert(g[i * 9 + u] != 0 && g[i * 9 + u] <= 9);
    }
    lemma_all_values_occur(col, d);
    let k = choose|k: int| 0 <= k < 9 && #[trigger] col[k] == d;
    assert(col_of(k * 9 + u) == u && g[k * 9 + u] == d);
}

/// Every box of a solution holds every digit from 1 to 9.
pub proof fn lemma_box_is_permutation(g: Seq<u8>, u: int, d: u8)
    requires
        is_solution(g),
        0 <= u < 9,
        1 <= d <= 9,
    ensures
        box_has(g, u, d),
{
    let bx = Seq::new(9, |k: int| g[box_cell(u, k)]);
    assert forall|i: int, j: int| 0 <= i < j < 9 implies #[trigger] bx[i] != #[trigger] bx[j] by {
        lemma_box_cells(u, i, j);
        lemma_box_cells(u, j, i);
        let a = box_cell(u, i);
        let b = box_cell(u, j);
        assert(peers(a, b));
        assert(g[a] != g[b]);
    }
    assert forall|i: int| 0 <= i < 9 implies 1 <= #[trigger] bx[i] <= 9 by {
        lemma_box_cells(u, i, i);
        let a = box_cell(u, i);
        assert(g[a] != 0 && g[a] <= 9);
    }
    lemma_all_values_occur(bx, d);
    let k = choose|k: int| 0 <= k < 9 && #[trigger] bx[k] == d;
    lemma_box_cells(u, k, k);
    let a = box_cell(u, k);
    assert(box_at(a) == u && g[a] == d);
}

/// Every row, every column and every box of a solution is a permutation of
/// the digits from 1 to 9: it holds every digit, and holds it once.
pub proof fn lemma_units_are_permutations(g: Seq<u8>, u: int, d: u8)
    requires
        is_solution(g),
        0 <= u < 9,
        1 <= d <= 9,
    ensures
        row_has(g, u, d),
        col_has(g, u, d),
        box_has(g, u, d),
        forall|i: int, j: int|
            0 <= i < 81 && 0 <= j < 81 && row_of(i) == u && row_of(j) == u && #[trigger] g[i] == d
                && #[trigger] g[j] == d ==> i == j,
        forall|i: int, j: int|
            0 <= i < 81 && 0 <= j < 81 && col_of(i) == u && col_of(j) == u && #[trigger] g[i] == d
                && #[trigger] g[j] == d ==> i == j,
        forall|i: int, j: int|
            0 <= i < 81 && 0 <= j < 81 && box_at(i) == u && box_at(j) == u && #[trigger] g[i] == d
                && #[trigger] g[j] == d ==> i == j,
{
    lemma_row_is_permutation(g, u, d);
    lemma_col_is_permutation(g, u, d);
    lemma_box_is_permutation(g, u, d);
    assert forall|i: int, j: int|
        0 <= i < 81 && 0 <= j < 81 && (row_of(i) == row_of(j) || col_of(i) == col_of(j) || box_at(i)
            == box_at(j)) && #[trigger] g[i] == d && #[trigger] g[j] == d implies i == j by {
        if i != j {
            assert(peers(i, j));
            assert(g[i] != g[j]);
        }
    }
}

/// The first `n` cells of `g`, the others empty.
pub open spec fn prefix(g: Seq<u8>, n: int) -> Seq<u8> {
    Seq::new(81, |i: int| if i < n { g[i] } else { 0u8 })
}

/// A cell that holds a digit which is not free among the cells before it is
/// in conflict with one of them.
pub proof fn lemma_prefix_conflict(g: Seq<u8>, n: int)
    requires
        is_grid(g),
        0 <= n < 81,
        g[n] != 0,
        !is_free(prefix(g, n), n, g[n]),
    ensures
        !no_conflict(g),
{
    let p = prefix(g, n);
    let d = g[n];
    if row_has(p, row_of(n), d) {
        let j = choose|j: int| 0 <= j < 81 && row_of(j) == row_of(n) && #[trigger] p[j] == d;
        assert(g[j] == g[n] && peers(j, n));
    } else if col_has(p, col_of(n), d) {
        let j = choose|j: int| 0 <= j < 81 && col_of(j) == col_of(n) && #[trigger] p[j] == d;
        assert(g[j] == g[n] && peers(j, n));
    } else {
        let j = choose|j: int| 0 <= j < 81 && box_at(j) == box_at(n) && #[trigger] p[j] == d;
        assert(g[j] == g[n] && peers(j, n));
    }
}

} // verus!
