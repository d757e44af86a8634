//! What the search returns, as a function of the grid and the worklist: the
//! ordering takes the first entry with the fewest free digits, and the free
//! digits of that entry are tried from the smallest up.

use vstd::prelude::*;
use crate::bits::{has_digit, is_digit, is_mask, lemma_same_digits, popcount};
use crate::rules::{box_at, col_of, is_complete, is_free, no_conflict, row_of};
use crate::state::{
    entry_cell, entry_ok, lemma_mask_is_free, open_cells, swapped, tracks, TodoEntry,
};

verus! {

/// Why a board has no solution.
#[derive(Clone, Copy, Debug, PartialEq, Eq)]
pub enum SolveError {
    /// The given digits already break a row, a column or a box.
    InvalidInput,
    /// The given digits are consistent, but no way of filling the empty
    /// cells is.
    NoSolution,
}

/// `m` is the mask of the digits that are free for cell `i` of `g`.
pub open spec fn is_candidate_mask(g: Seq<u8>, i: int, m: u16) -> bool {
    &&& is_mask(m)
    &&& forall|d: u8| is_digit(d) ==> has_digit(m, d) == is_free(g, i, d)
}

/// The mask of the digits that are free for cell `i` of `g`.
pub open spec fn candidates(g: Seq<u8>, i: int) -> u16 {
    choose|m: u16| is_candidate_mask(g, i, m)
}

/// The number of digits that are free for the cell of entry `e` in `g`.
pub open spec fn free_count(g: Seq<u8>, e: TodoEntry) -> nat {
    popcount(candidates(g, entry_cell(e)))
}

/// `best` is the position that the ordering picks in `todo` from `start`
/// on: the first entry with at most one free digit, or else the first entry
/// with the fewest free digits. Past the end of the worklist it is `start`.
pub open spec fn is_best_of(g: Seq<u8>, todo: Seq<TodoEntry>, start: int, best: int) -> bool {
    if start >= todo.len() {
        best == start
    } else {
        &&& start <= best < todo.len()
        &&& forall|j: int|
            start <= j < best ==> free_count(g, #[trigger] todo[j]) > free_count(g, todo[best])
                && free_count(g, todo[j]) > 1
        &&& free_count(g, todo[best]) > 1 ==> forall|j: int|
            best < j < todo.len() ==> free_count(g, #[trigger] todo[j]) >= free_count(
                g,
                todo[best],
            )
    }
}

/// The position that the ordering picks in `todo` from `start` on.
pub open spec fn best_of(g: Seq<u8>, todo: Seq<TodoEntry>, start: int) -> int {
    choose|best: int| is_best_of(g, todo, start, best)
}

/// What the search returns for grid `g` when the last `left` entries of
/// `todo` are still open: the solution that it finds first, if it finds
/// one, and the worklist as the search leaves it. The best open entry comes
/// to the front of the open part, and its free digits are tried in
/// ascending order.
pub open spec fn search_from(g: Seq<u8>, todo: Seq<TodoEntry>, left: nat) -> (
    Option<Seq<u8>>,
    Seq<TodoEntry>,
)
    decreases left, 1nat, 0nat,
{
    if left == 0 || left > todo.len() {
        (None, todo)
    } else {
        let index = todo.len() - left;
        try_from(g, swapped(todo, index, best_of(g, todo, index)), left, 1)
    }
}

/// What the search returns for the first open entry of `todo` when the
/// digits below `d` have been tried in vain: the first free digit from `d`
/// on with which the rest of the worklist can be filled decides.
pub open spec fn try_from(g: Seq<u8>, todo: Seq<TodoEntry>, left: nat, d: nat) -> (
    Option<Seq<u8>>,
    Seq<TodoEntry>,
)
    decreases left, 0nat, 10 - d,
{
    if d > 9 || left == 0 || left > todo.len() {
        (None, todo)
    } else {
        let cell = entry_cell(todo[todo.len() - left]);
        if !is_free(g, cell, d as u8) {
            try_from(g, todo, left, d + 1)
        } else if left == 1 {
            (Some(g.update(cell, d as u8)), todo)
        } else {
            let below = search_from(g.update(cell, d as u8), todo, (left - 1) as nat);
            if below.0 is Some {
                below
            } else {
                try_from(g, below.1, left, d + 1)
            }
        }
    }
}

/// What solving the puzzle `g` gives: the solution that the search finds
/// first, or the reason why there is none.
pub open spec fn outcome_of(g: Seq<u8>) -> Result<Seq<u8>, SolveError> {
    if !no_conflict(g) {
        Err(SolveError::InvalidInput)
    } else if is_complete(g) {
        Ok(g)
    } else {
        match search_from(g, open_cells(g, 81), open_cells(g, 81).len()).0 {
            Some(sol) => Ok(sol),
            None => Err(SolveError::NoSolution),
        }
    }
}

/// Digits that are not free are passed over.
pub proof fn lemma_skip(g: Seq<u8>, todo: Seq<TodoEntry>, left: nat, a: nat, b: nat)
    requires
        1 <= left <= todo.len(),
        1 <= a <= b <= 10,
        forall|e: u8|
            a <= e < b ==> !#[trigger] is_free(g, entry_cell(todo[todo.len() - left]), e),
    ensures
        try_from(g, todo, left, a) == try_from(g, todo, left, b),
    decreases b - a,
{
    if a < b {
        assert(!is_free(g, entry_cell(todo[todo.len() - left]), a as u8));
        lemma_skip(g, todo, left, a + 1, b);
    }
}

/// Where the masks are in step with the grid, the intersection of a cell's
/// three masks is the mask of the cell's free digits.
pub proof fn lemma_mask_is_candidates(
    rows: Seq<u16>,
    cols: Seq<u16>,
    boxes: Seq<u16>,
    g: Seq<u8>,
    e: TodoEntry,
)
    requires
        tracks(rows, cols, boxes, g),
        entry_ok(e),
    ensures
        rows[e.0 as int] & cols[e.1 as int] & boxes[e.2 as int] == candidates(g, entry_cell(e)),
{
    let i = entry_cell(e);
    let m = rows[e.0 as int] & cols[e.1 as int] & boxes[e.2 as int];
    assert(row_of(i) == e.0 && col_of(i) == e.1 && box_at(i) == e.2);
    assert forall|d: u8| is_digit(d) implies has_digit(m, d) == is_free(g, i, d) by {
        lemma_mask_is_free(rows, cols, boxes, g, i, d);
    }
    lemma_mask_is_free(rows, cols, boxes, g, i, 1);
    assert(is_candidate_mask(g, i, m));
    let c = candidates(g, i);
    assert forall|d: u8| is_digit(d) implies #[trigger] has_digit(m, d) == has_digit(c, d) by {
        assert(has_digit(c, d) == is_free(g, i, d));
    }
    lemma_same_digits(m, c);
}

/// The ordering picks one position only.
pub proof fn lemma_best_is_unique(g: Seq<u8>, todo: Seq<TodoEntry>, start: int, a: int, b: int)
    requires
        is_best_of(g, todo, start, a),
        is_best_of(g, todo, start, b),
    ensures
        a == b,
        a == best_of(g, todo, start),
{
    let c = best_of(g, todo, start);
    if start < todo.len() {
        if a < b {
            assert(free_count(g, todo[a]) > free_count(g, todo[b]));
            assert(free_count(g, todo[b]) >= free_count(g, todo[a]));
        }
        if b < a {
            assert(free_count(g, todo[b]) > free_count(g, todo[a]));
            assert(free_count(g, todo[a]) >= free_count(g, todo[b]));
        }
        if a < c {
            assert(free_count(g, todo[a]) > free_count(g, todo[c]));
            assert(free_count(g, todo[c]) >= free_count(g, todo[a]));
        }
        if c < a {
            assert(free_count(g, todo[c]) > free_count(g, todo[a]));
            assert(free_count(g, todo[a]) >= free_count(g, todo[c]));
        }
    }
}

} // verus!
