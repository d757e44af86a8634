//! The state of the search as plain values: the worklist of open cells, the
//! three arrays of masks, and what holds of them between two steps.

use vstd::prelude::*;
use crate::bits::{digit_bit, has_digit, is_digit, is_mask, lemma_intersection, lemma_toggle};
use crate::rules::{
    box_at, box_has, box_of, col_has, col_of, extends, is_free, is_grid, is_solution,
    lemma_place_has, lemma_place_keeps_no_conflict, lemma_solution_digit_is_free, no_conflict,
    row_has, row_of, solvable, solves,
};

verus! {


/// An open cell on the worklist: its row, its column and its box.
pub type TodoEntry = (usize, usize, usize);

/// The entry names a cell of the grid together with that cell's box.
pub open spec fn entry_ok(e: TodoEntry) -> bool {
    &&& e.0 < 9
    &&& e.1 < 9
    &&& e.2 == box_of(e.0 as int, e.1 as int)
}

/// The linear index of the entry's cell.
pub open spec fn entry_cell(e: TodoEntry) -> int {
    e.0 * 9 + e.1
}

/// The worklist entry of the cell with linear index `i`.
pub open spec fn entry_of(i: int) -> TodoEntry {
    (row_of(i) as usize, col_of(i) as usize, box_at(i) as usize)
}

/// The empty cells among the first `n` cells of `g`, in row-major order.
pub open spec fn open_cells(g: Seq<u8>, n: int) -> Seq<TodoEntry>
    decreases n,
{
    if n <= 0 {
        Seq::empty()
    } else if g[n - 1] == 0 {
        open_cells(g, n - 1).push(entry_of(n - 1))
    } else {
        open_cells(g, n - 1)
    }
}

/// Cell `i` is on the worklist at position `from` or later.
pub open spec fn is_open(todo: Seq<TodoEntry>, from: int, i: int) -> bool {
    exists|j: int| from <= j < todo.len() && entry_cell(#[trigger] todo[j]) == i
}

/// The three mask arrays say exactly which digits each row, column and box
/// of `g` still lacks.
pub open spec fn tracks(rows: Seq<u16>, cols: Seq<u16>, boxes: Seq<u16>, g: Seq<u8>) -> bool {
    &&& rows.len() == 9
    &&& cols.len() == 9
    &&& boxes.len() == 9
    &&& forall|u: int| 0 <= u < 9 ==> is_mask(#[trigger] rows[u])
    &&& forall|u: int| 0 <= u < 9 ==> is_mask(#[trigger] cols[u])
    &&& forall|u: int| 0 <= u < 9 ==> is_mask(#[trigger] boxes[u])
    &&& forall|u: int, d: u8|
        0 <= u < 9 && is_digit(d) ==> #[trigger] has_digit(rows[u], d) == !row_has(g, u, d)
    &&& forall|u: int, d: u8|
        0 <= u < 9 && is_digit(d) ==> #[trigger] has_digit(cols[u], d) == !col_has(g, u, d)
    &&& forall|u: int, d: u8|
        0 <= u < 9 && is_digit(d) ==> #[trigger] has_digit(boxes[u], d) == !box_has(g, u, d)
}

/// Committing digit `d` to the empty cell `i`, where it is free, and
/// flipping its bit in the cell's three masks keeps the masks in step with
/// the grid.
pub proof fn lemma_commit_tracks(
    rows: Seq<u16>,
    cols: Seq<u16>,
    boxes: Seq<u16>,
    g: Seq<u8>,
    i: int,
    d: u8,
)
    requires
        tracks(rows, cols, boxes, g),
        g.len() == 81,
        0 <= i < 81,
        g[i] == 0,
        is_digit(d),
        is_free(g, i, d),
    ensures
        tracks(
            rows.update(row_of(i), rows[row_of(i)] ^ digit_bit(d)),
            cols.update(col_of(i), cols[col_of(i)] ^ digit_bit(d)),
            boxes.update(box_at(i), boxes[box_at(i)] ^ digit_bit(d)),
            g.update(i, d),
        ),
{
    let r = row_of(i);
    let c = col_of(i);
    let b = box_at(i);
    let rows2 = rows.update(r, rows[r] ^ digit_bit(d));
    let cols2 = cols.update(c, cols[c] ^ digit_bit(d));
    let boxes2 = boxes.update(b, boxes[b] ^ digit_bit(d));
    let h = g.update(i, d);
    lemma_toggle(rows[r], d, d);
    lemma_toggle(cols[c], d, d);
    lemma_toggle(boxes[b], d, d);
    assert forall|u: int, e: u8| 0 <= u < 9 && is_digit(e) implies #[trigger] has_digit(
        rows2[u],
        e,
    ) == !row_has(h, u, e) by {
        lemma_place_has(g, i, d, u, e);
        lemma_toggle(rows[r], d, e);
        assert(has_digit(rows[u], e) == !row_has(g, u, e));
    }
    assert forall|u: int, e: u8| 0 <= u < 9 && is_digit(e) implies #[trigger] has_digit(
        cols2[u],
        e,
    ) == !col_has(h, u, e) by {
        lemma_place_has(g, i, d, u, e);
        lemma_toggle(cols[c], d, e);
        assert(has_digit(cols[u], e) == !col_has(g, u, e));
    }
    assert forall|u: int, e: u8| 0 <= u < 9 && is_digit(e) implies #[trigger] has_digit(
        boxes2[u],
        e,
    ) == !box_has(h, u, e) by {
        lemma_place_has(g, i, d, u, e);
        lemma_toggle(boxes[b], d, e);
        assert(has_digit(boxes[u], e) == !box_has(g, u, e));
    }
    assert forall|u: int| 0 <= u < 9 implies is_mask(#[trigger] rows2[u]) by {
        assert(is_mask(rows[u]));
    }
    assert forall|u: int| 0 <= u < 9 implies is_mask(#[trigger] cols2[u]) by {
        assert(is_mask(cols[u]));
    }
    assert forall|u: int| 0 <= u < 9 implies is_mask(#[trigger] boxes2[u]) by {
        assert(is_mask(boxes[u]));
    }
}

/// Where the masks are in step with the grid, the intersection of a cell's
/// three masks holds exactly the digits that are free for the cell.
pub proof fn lemma_mask_is_free(
    rows: Seq<u16>,
    cols: Seq<u16>,
    boxes: Seq<u16>,
    g: Seq<u8>,
    i: int,
    d: u8,
)
    requires
        tracks(rows, cols, boxes, g),
        0 <= i < 81,
        is_digit(d),
    ensures
        has_digit(rows[row_of(i)] & cols[col_of(i)] & boxes[box_at(i)], d) == is_free(g, i, d),
        is_mask(rows[row_of(i)] & cols[col_of(i)] & boxes[box_at(i)]),
{
    let r = row_of(i);
    let c = col_of(i);
    let b = box_at(i);
    lemma_intersection(rows[r], cols[c], boxes[b], d);
    assert(is_mask(rows[r]));
    assert(has_digit(rows[r], d) == !row_has(g, r, d));
    assert(has_digit(cols[c], d) == !col_has(g, c, d));
    assert(has_digit(boxes[b], d) == !box_has(g, b, d));
}

/// Every worklist entry names a cell and its box, and no cell is named
/// twice.
pub open spec fn todo_ok(todo: Seq<TodoEntry>) -> bool {
    &&& forall|j: int| 0 <= j < todo.len() ==> entry_ok(#[trigger] todo[j])
    &&& forall|j: int, k: int|
        0 <= j < k < todo.len() ==> entry_cell(#[trigger] todo[j]) != entry_cell(
            #[trigger] todo[k],
        )
}

/// The state between two steps of the search, when the first `index`
/// worklist entries have a committed digit: the grid `g` of the committed
/// digits has no conflict, its empty cells are exactly the cells of the
/// worklist from `index` on, and the masks are in step with it.
pub open spec fn search_inv(
    g: Seq<u8>,
    rows: Seq<u16>,
    cols: Seq<u16>,
    boxes: Seq<u16>,
    todo: Seq<TodoEntry>,
    index: int,
) -> bool {
    &&& 0 <= index <= todo.len()
    &&& is_grid(g)
    &&& todo_ok(todo)
    &&& forall|j: int| index <= j < todo.len() ==> g[entry_cell(#[trigger] todo[j])] == 0
    &&& forall|i: int| 0 <= i < 81 && #[trigger] g[i] == 0 ==> is_open(todo, index, i)
    &&& no_conflict(g)
    &&& tracks(rows, cols, boxes, g)
}

/// The worklist with the entries at `a` and `b` exchanged.
pub open spec fn swapped(todo: Seq<TodoEntry>, a: int, b: int) -> Seq<TodoEntry> {
    todo.update(a, todo[b]).update(b, todo[a])
}

/// Exchanging two entries that are still open keeps the state of the search.
pub proof fn lemma_swap_keeps_inv(
    g: Seq<u8>,
    rows: Seq<u16>,
    cols: Seq<u16>,
    boxes: Seq<u16>,
    todo: Seq<TodoEntry>,
    index: int,
    best: int,
)
    requires
        search_inv(g, rows, cols, boxes, todo, index),
        index <= best < todo.len(),
    ensures
        search_inv(g, rows, cols, boxes, swapped(todo, index, best), index),
{
    let todo2 = swapped(todo, index, best);
    assert forall|j: int| 0 <= j < todo2.len() implies entry_ok(#[trigger] todo2[j]) by {
        assert(entry_ok(todo[j]) && entry_ok(todo[index]) && entry_ok(todo[best]));
    }
    let src = |j: int| if j == index { best } else if j == best { index } else { j };
    assert forall|j: int| 0 <= j < todo2.len() implies #[trigger] todo2[j] == todo[src(j)] by {}
    assert forall|j: int, k: int| 0 <= j < k < todo2.len() implies entry_cell(
        #[trigger] todo2[j],
    ) != entry_cell(#[trigger] todo2[k]) by {
        let a = src(j);
        let b = src(k);
        assert(todo2[j] == todo[a] && todo2[k] == todo[b]);
        if a < b {
            assert(entry_cell(todo[a]) != entry_cell(todo[b]));
        } else {
            assert(entry_cell(todo[b]) != entry_cell(todo[a]));
        }
    }
    assert forall|j: int| index <= j < todo2.len() implies g[entry_cell(#[trigger] todo2[j])]
        == 0 by {
        assert(todo2[j] == todo[src(j)]);
    }
    assert forall|i: int| 0 <= i < 81 && #[trigger] g[i] == 0 implies is_open(todo2, index, i) by {
        let j = choose|j: int| index <= j < todo.len() && entry_cell(#[trigger] todo[j]) == i;
        assert(todo2[src(j)] == todo[j]);
    }
}

/// Committing a free digit to the cell of the worklist entry at `index`
/// leads to the state for `index + 1`. Where that entry is the last, the
/// grid is then a solution.
pub proof fn lemma_commit_keeps_inv(
    g: Seq<u8>,
    rows: Seq<u16>,
    cols: Seq<u16>,
    boxes: Seq<u16>,
    todo: Seq<TodoEntry>,
    index: int,
    d: u8,
)
    requires
        search_inv(g, rows, cols, boxes, todo, index),
        index < todo.len(),
        is_digit(d),
        is_free(g, entry_cell(todo[index]), d),
    ensures
        search_inv(
            g.update(entry_cell(todo[index]), d),
            rows.update(todo[index].0 as int, rows[todo[index].0 as int] ^ digit_bit(d)),
            cols.update(todo[index].1 as int, cols[todo[index].1 as int] ^ digit_bit(d)),
            boxes.update(todo[index].2 as int, boxes[todo[index].2 as int] ^ digit_bit(d)),
            todo,
            index + 1,
        ),
        extends(g.update(entry_cell(todo[index]), d), g),
        index + 1 == todo.len() ==> is_solution(g.update(entry_cell(todo[index]), d)),
{
    let e = todo[index];
    let i = entry_cell(e);
    let h = g.update(i, d);
    assert(entry_ok(e));
    assert(row_of(i) == e.0 && col_of(i) == e.1 && box_at(i) == e.2);
    assert(g[i] == 0);
    lemma_place_keeps_no_conflict(g, i, d);
    lemma_commit_tracks(rows, cols, boxes, g, i, d);
    assert forall|j: int| index + 1 <= j < todo.len() implies h[entry_cell(#[trigger] todo[j])]
        == 0 by {
        assert(entry_cell(todo[index]) != entry_cell(todo[j]));
    }
    assert forall|k: int| 0 <= k < 81 && #[trigger] h[k] == 0 implies is_open(
        todo,
        index + 1,
        k,
    ) by {
        assert(g[k] == 0);
        let j = choose|j: int| index <= j < todo.len() && entry_cell(#[trigger] todo[j]) == k;
        assert(j != index);
    }
    assert forall|k: int| 0 <= k < 81 && g[k] != 0 implies #[trigger] h[k] == g[k] by {}
    if index + 1 == todo.len() {
        assert forall|k: int| 0 <= k < 81 implies #[trigger] h[k] != 0 by {
            if h[k] == 0 {
                assert(is_open(todo, index + 1, k));
            }
        }
    }
}

/// Taking back the digit of the worklist entry at `index`, after the search
/// from `index + 1` has reordered the worklist behind it, leads back to the
/// state for `index`.
pub proof fn lemma_rollback_keeps_inv(
    g: Seq<u8>,
    rows: Seq<u16>,
    cols: Seq<u16>,
    boxes: Seq<u16>,
    todo: Seq<TodoEntry>,
    index: int,
    d: u8,
    h: Seq<u8>,
    rows2: Seq<u16>,
    cols2: Seq<u16>,
    boxes2: Seq<u16>,
    todo2: Seq<TodoEntry>,
)
    requires
        search_inv(g, rows, cols, boxes, todo, index),
        index < todo.len(),
        is_digit(d),
        h == g.update(entry_cell(todo[index]), d),
        search_inv(h, rows2, cols2, boxes2, todo2, index + 1),
        todo2.len() == todo.len(),
        todo2[index] == todo[index],
    ensures
        search_inv(g, rows, cols, boxes, todo2, index),
{
    let i = entry_cell(todo[index]);
    assert(g[i] == 0);
    assert forall|j: int| index <= j < todo2.len() implies g[entry_cell(#[trigger] todo2[j])]
        == 0 by {
        if j > index {
            assert(h[entry_cell(todo2[j])] == 0);
        }
    }
    assert forall|k: int| 0 <= k < 81 && #[trigger] g[k] == 0 implies is_open(todo2, index, k) by {
        if k == i {
            assert(entry_cell(todo2[index]) == k);
        } else {
            assert(h[k] == 0);
            let j = choose|j: int|
                index + 1 <= j < todo2.len() && entry_cell(#[trigger] todo2[j]) == k;
            assert(entry_cell(todo2[j]) == k);
        }
    }
}

/// Where no free digit of an empty cell leads to a solution, the grid has
/// none.
pub proof fn lemma_exhausted(g: Seq<u8>, i: int)
    requires
        is_grid(g),
        0 <= i < 81,
        g[i] == 0,
        forall|d: u8| is_digit(d) && is_free(g, i, d) ==> !solvable(#[trigger] g.update(i, d)),
    ensures
        !solvable(g),
{
    assert forall|sol: Seq<u8>| !solves(sol, g) by {
        if solves(sol, g) {
            lemma_solution_digit_is_free(g, sol, i);
            assert(solves(sol, g.update(i, sol[i])));
            assert(solvable(g.update(i, sol[i])));
        }
    }
}

} // verus!
