//! The search: a tracker of the digits that are still free in every row,
//! column and box, a worklist of the open cells, and a depth-first search
//! that takes the most constrained open cell first.

use vstd::prelude::*;
use crate::bits::{
    clear_low_bit, count_ones, digit_bit, get_low_bit, has_digit, is_digit, is_mask,
    lemma_all_bits, lemma_empty_mask, lemma_lowest_digit, lemma_restore, lemma_toggle,
    lowest_digit, popcount, pos_to_value, ALL_BITS_SET,
};
use crate::board::{Board, Solution};
use crate::model::{
    free_count, is_best_of, lemma_best_is_unique, lemma_mask_is_candidates, lemma_skip,
    outcome_of, search_from, try_from, SolveError,
};
use crate::rules::{
    box_at, box_has, col_has, col_of, extends, is_complete, is_free, is_grid, is_solution,
    lemma_conflict_unsolvable, lemma_place_keeps_no_conflict, lemma_prefix_conflict,
    lemma_units_are_permutations, no_conflict, prefix, row_has, row_of, solvable, solves,
};
use crate::state::{
    entry_cell, entry_of, entry_ok, is_open, lemma_commit_keeps_inv, lemma_commit_tracks,
    lemma_exhausted, lemma_mask_is_free, lemma_rollback_keeps_inv, lemma_swap_keeps_inv,
    open_cells, search_inv, swapped, todo_ok, tracks, TodoEntry,
};
use crate::SudokuSolver;

verus! {

/// The state of one search: the board, the three mask arrays and the
/// worklist of open cells.
///
/// The board itself is written only when a solution has been found. The
/// digits that the search has committed on the way are kept in a ghost grid,
/// which the masks are in step with.
pub struct Solver {
    board: Board,
    rows: [u16; 9],
    cols: [u16; 9],
    boxes: [u16; 9],
    todo: Vec<TodoEntry>,
    filled: Ghost<Seq<u8>>,
}

/// What a first pass over a board finds.
pub enum Status {
    /// Every cell is filled and no digit stands twice in a unit.
    Solved,
    /// A digit stands twice in a row, a column or a box.
    Unsolvable,
    /// No conflict, and at least one cell is open.
    Unsolved(Solver),
}

impl Solver {
    /// The cells of the board.
    pub closed spec fn board_view(&self) -> Seq<u8> {
        self.board@
    }

    /// The grid with every digit that the search has committed so far.
    pub closed spec fn committed(&self) -> Seq<u8> {
        self.filled@
    }

    /// The worklist.
    pub closed spec fn worklist(&self) -> Seq<TodoEntry> {
        self.todo@
    }

    /// The masks of the nine rows.
    pub closed spec fn row_masks(&self) -> Seq<u16> {
        self.rows@
    }

    /// The masks of the nine columns.
    pub closed spec fn col_masks(&self) -> Seq<u16> {
        self.cols@
    }

    /// The masks of the nine boxes.
    pub closed spec fn box_masks(&self) -> Seq<u16> {
        self.boxes@
    }

    /// The candidate mask of the worklist entry at position `j`.
    pub open spec fn mask_at(&self, j: int) -> u16 {
        let e = self.worklist()[j];
        self.row_masks()[e.0 as int] & self.col_masks()[e.1 as int] & self.box_masks()[e.2 as int]
    }

    /// The number of candidates of the worklist entry at position `j`.
    pub open spec fn count_at(&self, j: int) -> nat {
        popcount(self.mask_at(j))
    }

    /// The mask arrays have nine entries each, and the worklist is in order.
    pub open spec fn worklist_ok(&self) -> bool {
        &&& self.row_masks().len() == 9
        &&& self.col_masks().len() == 9
        &&& self.box_masks().len() == 9
        &&& todo_ok(self.worklist())
    }

    /// The state between two steps of the search, when the first `index`
    /// worklist entries have a committed digit.
    pub open spec fn inv(&self, index: int) -> bool {
        &&& is_grid(self.board_view())
        &&& search_inv(
            self.committed(),
            self.row_masks(),
            self.col_masks(),
            self.box_masks(),
            self.worklist(),
            index,
        )
    }

    /// `best` is the position that the ordering picks from `start` on: the
    /// first entry with at most one candidate, or else the first entry with
    /// the fewest candidates. Past the end of the worklist it is `start`.
    pub open spec fn is_best(&self, start: int, best: int) -> bool {
        let n = self.worklist().len() as int;
        if start >= n {
            best == start
        } else {
            &&& start <= best < n
            &&& forall|j: int|
                start <= j < best ==> #[trigger] self.count_at(j) > self.count_at(best)
                    && self.count_at(j) > 1
            &&& self.count_at(best) > 1 ==> forall|j: int|
                best < j < n ==> #[trigger] self.count_at(j) >= self.count_at(best)
        }
    }

    /// In the state of the search the ordering by the masks is the ordering
    /// by the free digits of the ghost grid.
    pub proof fn lemma_counts(&self, start: int)
        requires
            self.inv(start),
        ensures
            forall|best: int|
                self.is_best(start, best) ==> is_best_of(
                    self.committed(),
                    self.worklist(),
                    start,
                    best,
                ),
    {
        let g = self.committed();
        let todo = self.worklist();
        assert forall|j: int| 0 <= j < todo.len() implies #[trigger] self.count_at(j)
            == free_count(g, todo[j]) by {
            assert(entry_ok(todo[j]));
            lemma_mask_is_candidates(self.row_masks(), self.col_masks(), self.box_masks(), g, todo[j]);
        }
        assert forall|best: int| self.is_best(start, best) implies is_best_of(
            g,
            todo,
            start,
            best,
        ) by {
            if start < todo.len() {
                assert(self.count_at(best) == free_count(g, todo[best]));
                assert forall|j: int| start <= j < best implies free_count(g, #[trigger] todo[j])
                    > free_count(g, todo[best]) && free_count(g, todo[j]) > 1 by {
                    assert(self.count_at(j) == free_count(g, todo[j]));
                }
                if free_count(g, todo[best]) > 1 {
                    assert forall|j: int| best < j < todo.len() implies free_count(
                        g,
                        #[trigger] todo[j],
                    ) >= free_count(g, todo[best]) by {
                        assert(self.count_at(j) == free_count(g, todo[j]));
                    }
                }
            }
        }
    }

    /// The board as the search has left it.
    pub fn board(&self) -> (board: Board)
        ensures
            board@ == self.board_view(),
    {
        self.board
    }

    /// Whether no cell is open.
    pub fn is_solved(&self) -> (solved: bool)
        ensures
            solved == (self.worklist().len() == 0),
    {
        self.todo.len() == 0
    }

    /// The candidate mask of a cell: the intersection of the masks of its
    /// row, its column and its box.
    pub fn get_mask(&self, row: usize, col: usize, box_num: usize) -> (mask: u16)
        requires
            row < 9,
            col < 9,
            box_num < 9,
        ensures
            mask == self.row_masks()[row as int] & self.col_masks()[col as int]
                & self.box_masks()[box_num as int],
    {
        self.rows[row] & self.cols[col] & self.boxes[box_num]
    }

    /// Flips `bit` in the masks of the given row, column and box. Flipping
    /// the bit of a digit that is free in all three commits the digit to a
    /// cell of theirs, and flipping it again takes the digit back.
    pub fn toggle(&mut self, row: usize, col: usize, box_num: usize, bit: u16)
        requires
            row < 9,
            col < 9,
            box_num < 9,
        ensures
            final(self).row_masks() == old(self).row_masks().update(
                row as int,
                old(self).row_masks()[row as int] ^ bit,
            ),
            final(self).col_masks() == old(self).col_masks().update(
                col as int,
                old(self).col_masks()[col as int] ^ bit,
            ),
            final(self).box_masks() == old(self).box_masks().update(
                box_num as int,
                old(self).box_masks()[box_num as int] ^ bit,
            ),
            final(self).worklist() == old(self).worklist(),
            final(self).board_view() == old(self).board_view(),
            final(self).committed() == old(self).committed(),
    {
        self.rows[row] = self.rows[row] ^ bit;
        self.cols[col] = self.cols[col] ^ bit;
        self.boxes[box_num] = self.boxes[box_num] ^ bit;
    }

    /// Scans the worklist from `start` and returns the position of the entry
    /// with the fewest candidates, the earliest of them where several have
    /// as few. The scan stops at the first entry with at most one candidate.
    pub fn find_best_index(&self, start: usize) -> (best: usize)
        requires
            self.worklist_ok(),
        ensures
            self.is_best(start as int, best as int),
    {
        let mut best = start;
        let mut i = start;
        let mut best_count: u16 = !0;
        assert(best_count == 0xffff) by (bit_vector)
            requires
                best_count == !0u16,
        ;
        while i < self.todo.len()
            invariant
                self.worklist_ok(),
                start <= i,
                start <= best <= i,
                i == start ==> best_count == 0xffff && best == start,
                i > start ==> best < i && best_count == self.count_at(best as int),
                i > start ==> best_count > 1 && i <= self.todo.len(),
                forall|j: int|
                    start <= j < i && j != best ==> #[trigger] self.count_at(j) >= best_count
                        && self.count_at(j) > 1,
                forall|j: int| start <= j < best ==> #[trigger] self.count_at(j) > best_count,
            decreases self.todo.len() - i,
        {
            let (row, col, box_num) = self.todo[i];
            assert(entry_ok(self.worklist()[i as int]));
            let mask = self.get_mask(row, col, box_num);
            let count = count_ones(mask);
            if count < best_count {
                best = i;
                best_count = count;
                if best_count <= 1 {
                    return best;
                }
            }
            i += 1;
        }
        best
    }

    /// Searches from worklist position `index`: takes the best open entry to
    /// the front, tries its candidates from the smallest digit up, and for
    /// each commits the digit by flipping its bit in the three masks,
    /// searches on from `index + 1`, and takes the digit back by flipping
    /// the bit again where that fails.
    ///
    /// On success the ghost grid is a solution of the grid that the search
    /// started from, the masks are in step with it, and the board holds it
    /// in every cell that was empty at the start. On failure that grid has
    /// no solution, and the grid, the board and the masks are as they were.
    /// Either way the outcome and the order of the worklist are those of
    /// `search_from`.
    pub fn solve(&mut self, index: usize) -> (found: bool)
        requires
            old(self).inv(index as int),
            index < old(self).worklist().len(),
        ensures
            final(self).worklist().len() == old(self).worklist().len(),
            forall|j: int|
                0 <= j < index ==> #[trigger] final(self).worklist()[j] == old(self).worklist()[j],
            found ==> solves(final(self).committed(), old(self).committed()),
            found ==> final(self).inv(old(self).worklist().len() as int),
            found ==> forall|i: int|
                0 <= i < 81 ==> #[trigger] final(self).board_view()[i] == (if old(
                    self,
                ).committed()[i] == 0 {
                    final(self).committed()[i]
                } else {
                    old(self).board_view()[i]
                }),
            search_from(
                old(self).committed(),
                old(self).worklist(),
                (old(self).worklist().len() - index) as nat,
            ) == (
                if found {
                    Some(final(self).committed())
                } else {
                    None
                },
                final(self).worklist(),
            ),
            !found ==> !solvable(old(self).committed()),
            !found ==> final(self).inv(index as int),
            !found ==> final(self).committed() == old(self).committed(),
            !found ==> final(self).board_view() == old(self).board_view(),
            !found ==> final(self).row_masks() == old(self).row_masks(),
            !found ==> final(self).col_masks() == old(self).col_masks(),
            !found ==> final(self).box_masks() == old(self).box_masks(),
        decreases old(self).worklist().len() - index,
    {
        let best = self.find_best_index(index);
        let (row, col, box_num) = self.todo[best];
        let first = self.todo[index];
        let ghost left = (self.todo@.len() - index) as nat;
        proof {
            self.lemma_counts(index as int);
            lemma_best_is_unique(self.filled@, self.todo@, index as int, best as int, best as int);
            lemma_swap_keeps_inv(
                self.filled@,
                self.rows@,
                self.cols@,
                self.boxes@,
                self.todo@,
                index as int,
                best as int,
            );
        }
        self.todo[index] = (row, col, box_num);
        self.todo[best] = first;
        assert(self.todo@ == swapped(old(self).todo@, index as int, best as int));
        assert(entry_ok(self.todo@[index as int]));

        let ghost g = self.filled@;
        let ghost cell = entry_cell(self.todo@[index as int]);
        let ghost rows0 = self.rows@;
        let ghost cols0 = self.cols@;
        let ghost boxes0 = self.boxes@;
        let mut candidates = self.get_mask(row, col, box_num);
        let ghost all = candidates;
        let ghost mut next: nat = 1;
        proof {
            assert(row_of(cell) == row && col_of(cell) == col && box_at(cell) == box_num);
            assert forall|d: u8| is_digit(d) implies has_digit(all, d) == is_free(g, cell, d) by {
                lemma_mask_is_free(rows0, cols0, boxes0, g, cell, d);
            }
            lemma_mask_is_free(rows0, cols0, boxes0, g, cell, 1);
        }
        while candidates != 0
            invariant
                index < self.todo.len(),
                self.todo@.len() == old(self).todo@.len(),
                forall|j: int| 0 <= j < index ==> #[trigger] self.todo@[j] == old(self).todo@[j],
                self.todo@[index as int] == (row, col, box_num),
                cell == entry_cell(self.todo@[index as int]),
                cell == row * 9 + col,
                row < 9,
                col < 9,
                box_num < 9,
                0 <= cell < 81,
                self.inv(index as int),
                self.filled@ == g,
                g == old(self).filled@,
                self.board@ == old(self).board@,
                self.rows@ == rows0,
                self.cols@ == cols0,
                self.boxes@ == boxes0,
                rows0 == old(self).rows@,
                cols0 == old(self).cols@,
                boxes0 == old(self).boxes@,
                is_mask(candidates),
                forall|d: u8| is_digit(d) ==> (has_digit(all, d) == is_free(g, cell, d)),
                forall|d: u8| is_digit(d) && has_digit(candidates, d) ==> has_digit(all, d),
                1 <= next <= 10,
                left == self.todo@.len() - index,
                forall|e: u8| is_digit(e) && e < next ==> !has_digit(candidates, e),
                forall|e: u8|
                    is_digit(e) && e >= next ==> has_digit(candidates, e) == has_digit(all, e),
                search_from(old(self).filled@, old(self).todo@, left) == try_from(
                    g,
                    self.todo@,
                    left,
                    next,
                ),
                forall|d: u8|
                    is_digit(d) && has_digit(all, d) && !has_digit(candidates, d) ==> !solvable(
                        #[trigger] g.update(cell, d),
                    ),
            decreases candidates,
        {
            let ghost before = candidates;
            let ghost todo1 = self.todo@;
            let candidate = get_low_bit(candidates);
            candidates = clear_low_bit(candidates);
            let ghost d = lowest_digit(before);
            proof {
                lemma_lowest_digit(before, candidate);
                assert forall|e: u8| is_digit(e) implies has_digit(candidates, e) == (e != d
                    && has_digit(before, e)) by {
                    lemma_toggle(before, d, e);
                }
                assert(is_free(g, cell, d));
                assert(d >= next);
                assert forall|e: u8| next <= e < d implies !#[trigger] is_free(g, cell, e) by {
                    assert(is_digit(e));
                    assert(!has_digit(before, e));
                    assert(has_digit(before, e) == has_digit(all, e));
                    assert(has_digit(all, e) == is_free(g, cell, e));
                }
                lemma_skip(g, todo1, left, next, d as nat);
                lemma_commit_keeps_inv(g, rows0, cols0, boxes0, todo1, index as int, d);
            }
            self.toggle(row, col, box_num, candidate);
            self.filled = Ghost(g.update(cell, d));
            let ghost rows1 = self.rows@;
            let ghost cols1 = self.cols@;
            let ghost boxes1 = self.boxes@;
            assert(self.inv(index + 1));

            if index + 1 == self.todo.len() || self.solve(index + 1) {
                let value = pos_to_value(candidate);
                let ghost sol = self.filled@;
                let ghost board1 = self.board@;
                proof {
                    use_type_invariant(&self.board);
                    assert(value == d);
                    assert(sol[cell] == d);
                    let h = g.update(cell, d);
                    if index + 1 == self.todo@.len() {
                        assert(sol == h);
                        assert(board1 == old(self).board@);
                        assert forall|i: int| 0 <= i < 81 && i != cell && g[i] == 0 implies false by {
                            assert(h[i] == 0);
                            assert(is_open(self.todo@, index + 1, i));
                        }
                    } else {
                        assert(solves(sol, h));
                        assert(self.board_view() == board1);
                        assert(self.committed() == sol);
                        assert forall|i: int| 0 <= i < 81 && i != cell implies board1[i] == (if g[i]
                            == 0 {
                            sol[i]
                        } else {
                            old(self).board@[i]
                        }) by {
                            assert(h[i] == g[i]);
                            assert(self.board_view()[i] == (if h[i] == 0 { sol[i] } else { old(self).board@[i] }));
                        }
                    }
                }
                self.board.put(row * 9 + col, value);
                return true;
            }
            self.toggle(row, col, box_num, candidate);
            proof {
                lemma_restore(rows0[row as int], candidate);
                lemma_restore(cols0[col as int], candidate);
                lemma_restore(boxes0[box_num as int], candidate);
                assert(self.rows@ =~= rows0);
                assert(self.cols@ =~= cols0);
                assert(self.boxes@ =~= boxes0);
                lemma_rollback_keeps_inv(
                    g,
                    rows0,
                    cols0,
                    boxes0,
                    todo1,
                    index as int,
                    d,
                    g.update(cell, d),
                    rows1,
                    cols1,
                    boxes1,
                    self.todo@,
                );
            }
            self.filled = Ghost(g);
            proof {
                next = (d + 1) as nat;
            }
        }
        proof {
            assert forall|d: u8| is_digit(d) implies !has_digit(0u16, d) by {
                lemma_empty_mask(d);
            }
            lemma_exhausted(g, cell);
            assert forall|e: u8| next <= e < 10 implies !#[trigger] is_free(g, cell, e) by {
                assert(is_digit(e));
                assert(!has_digit(candidates, e));
                assert(has_digit(candidates, e) == has_digit(all, e));
                assert(has_digit(all, e) == is_free(g, cell, e));
            }
            lemma_skip(g, self.todo@, left, next, 10);
        }
        false
    }
}

/// What the first pass knows after the first `n` cells of `g`: the masks
/// are in step with those cells, which have no conflict, and the worklist
/// holds the empty ones among them in order.
pub open spec fn scanned(
    rows: Seq<u16>,
    cols: Seq<u16>,
    boxes: Seq<u16>,
    todo: Seq<TodoEntry>,
    g: Seq<u8>,
    n: int,
) -> bool {
    &&& tracks(rows, cols, boxes, prefix(g, n))
    &&& no_conflict(prefix(g, n))
    &&& todo == open_cells(g, n)
    &&& todo.len() <= n
    &&& forall|j: int|
        0 <= j < todo.len() ==> entry_ok(#[trigger] todo[j]) && entry_cell(todo[j]) < n
            && g[entry_cell(todo[j])] == 0
    &&& forall|j: int, k: int|
        0 <= j < k < todo.len() ==> entry_cell(#[trigger] todo[j]) < entry_cell(
            #[trigger] todo[k],
        )
    &&& forall|i: int| 0 <= i < n && #[trigger] g[i] == 0 ==> is_open(todo, 0, i)
}

/// Before the first cell: every digit is free everywhere, and the worklist
/// is empty.
pub proof fn lemma_scanned_start(full: Seq<u16>, g: Seq<u8>)
    requires
        is_grid(g),
        full.len() == 9,
        forall|u: int| 0 <= u < 9 ==> #[trigger] full[u] == ALL_BITS_SET,
    ensures
        scanned(full, full, full, Seq::empty(), g, 0),
{
    let p = prefix(g, 0);
    assert forall|u: int, d: u8| 0 <= u < 9 && is_digit(d) implies #[trigger] has_digit(
        full[u],
        d,
    ) && !row_has(p, u, d) && !col_has(p, u, d) && !box_has(p, u, d) by {
        lemma_all_bits(d);
    }
}

/// One step of the first pass over an empty cell: the cell goes on the
/// worklist.
pub proof fn lemma_scanned_empty(
    rows: Seq<u16>,
    cols: Seq<u16>,
    boxes: Seq<u16>,
    todo: Seq<TodoEntry>,
    g: Seq<u8>,
    n: int,
)
    requires
        is_grid(g),
        0 <= n < 81,
        g[n] == 0,
        scanned(rows, cols, boxes, todo, g, n),
    ensures
        scanned(rows, cols, boxes, todo.push(entry_of(n)), g, n + 1),
{
    let todo2 = todo.push(entry_of(n));
    assert(prefix(g, n + 1) =~= prefix(g, n));
    assert(entry_cell(entry_of(n)) == n);
    assert forall|i: int| 0 <= i < n + 1 && #[trigger] g[i] == 0 implies is_open(todo2, 0, i) by {
        if i < n {
            let j = choose|j: int| 0 <= j < todo.len() && entry_cell(#[trigger] todo[j]) == i;
            assert(todo2[j] == todo[j]);
        } else {
            assert(entry_cell(todo2[todo.len() as int]) == n);
        }
    }
}

/// One step of the first pass over a cell whose digit is free among the
/// cells before it: the digit's bit is flipped in the cell's three masks.
pub proof fn lemma_scanned_given(
    rows: Seq<u16>,
    cols: Seq<u16>,
    boxes: Seq<u16>,
    todo: Seq<TodoEntry>,
    g: Seq<u8>,
    n: int,
)
    requires
        is_grid(g),
        0 <= n < 81,
        g[n] != 0,
        is_free(prefix(g, n), n, g[n]),
        scanned(rows, cols, boxes, todo, g, n),
    ensures
        scanned(
            rows.update(row_of(n), rows[row_of(n)] ^ digit_bit(g[n])),
            cols.update(col_of(n), cols[col_of(n)] ^ digit_bit(g[n])),
            boxes.update(box_at(n), boxes[box_at(n)] ^ digit_bit(g[n])),
            todo,
            g,
            n + 1,
        ),
{
    let p = prefix(g, n);
    assert(g[n] <= 9);
    assert(prefix(g, n + 1) =~= p.update(n, g[n]));
    lemma_place_keeps_no_conflict(p, n, g[n]);
    lemma_commit_tracks(rows, cols, boxes, p, n, g[n]);
    assert forall|i: int| 0 <= i < n + 1 && #[trigger] g[i] == 0 implies is_open(todo, 0, i) by {
        assert(i < n);
    }
}

impl Status {
    /// The first pass over a board, cell by cell in row-major order. It
    /// fills the masks from the given digits and collects the empty cells.
    /// The pass ends at the first digit that already stands in its row, its
    /// column or its box.
    pub fn from(board: &Board) -> (status: Status)
        ensures
            match status {
                Status::Solved => is_solution(board@),
                Status::Unsolvable => !no_conflict(board@),
                Status::Unsolved(solver) => {
                    &&& no_conflict(board@)
                    &&& !is_complete(board@)
                    &&& solver.inv(0)
                    &&& solver.board_view() == board@
                    &&& solver.committed() == board@
                    &&& solver.worklist() == open_cells(board@, 81)
                },
            },
    {
        let mut rows: [u16; 9] = [ALL_BITS_SET; 9];
        let mut cols: [u16; 9] = [ALL_BITS_SET; 9];
        let mut boxes: [u16; 9] = [ALL_BITS_SET; 9];
        let mut todo: Vec<TodoEntry> = Vec::with_capacity(81);
        let ghost g = board@;
        proof {
            use_type_invariant(board);
            lemma_scanned_start(rows@, g);
            assert(rows@ =~= cols@ && rows@ =~= boxes@);
        }
        let mut row: usize = 0;
        while row < 9
            invariant
                row <= 9,
                g == board@,
                is_grid(g),
                scanned(rows@, cols@, boxes@, todo@, g, row * 9),
            decreases 9 - row,
        {
            let mut col: usize = 0;
            while col < 9
                invariant
                    row < 9,
                    col <= 9,
                    g == board@,
                    is_grid(g),
                    scanned(rows@, cols@, boxes@, todo@, g, row * 9 + col),
                decreases 9 - col,
            {
                let box_number = (row / 3) * 3 + (col / 3);
                let value = board.cell(row * 9 + col);
                let ghost n = (row * 9 + col) as int;
                assert(row_of(n) == row && col_of(n) == col && box_at(n) == box_number);
                if value == 0 {
                    proof {
                        lemma_scanned_empty(rows@, cols@, boxes@, todo@, g, n);
                    }
                    todo.push((row, col, box_number));
                } else {
                    let mask: u16 = 1u16 << ((value - 1) as u16);
                    proof {
                        lemma_mask_is_free(rows@, cols@, boxes@, prefix(g, n), n, value);
                    }
                    if rows[row] & cols[col] & boxes[box_number] & mask == 0 {
                        proof {
                            lemma_prefix_conflict(g, n);
                        }
                        return Status::Unsolvable;
                    }
                    proof {
                        lemma_scanned_given(rows@, cols@, boxes@, todo@, g, n);
                    }
                    rows[row] = rows[row] ^ mask;
                    cols[col] = cols[col] ^ mask;
                    boxes[box_number] = boxes[box_number] ^ mask;
                }
                col += 1;
            }
            row += 1;
        }
        proof {
            assert(prefix(g, 81) =~= g);
            assert forall|i: int| 0 <= i < 81 && todo@.len() == 0 implies #[trigger] g[i] != 0 by {
                if g[i] == 0 {
                    assert(is_open(todo@, 0, i));
                }
            }
        }
        if todo.len() == 0 {
            Status::Solved
        } else {
            proof {
                assert(g[entry_cell(todo@[0])] == 0);
            }
            Status::Unsolved(Solver { board: *board, rows, cols, boxes, todo, filled: Ghost(g) })
        }
    }
}

impl Board {
    /// Solves the board, and says why where it cannot: `InvalidInput` where
    /// a given digit stands twice in a row, a column or a box, which the
    /// first pass finds without any search, and `NoSolution` where the
    /// search has tried every candidate in vain. A board that is already a
    /// solution comes back as it is.
    pub fn try_solve(&self) -> (outcome: Result<Solution, SolveError>)
        ensures
            match outcome {
                Ok(solution) => solves(solution@, self@),
                Err(SolveError::InvalidInput) => !no_conflict(self@),
                Err(SolveError::NoSolution) => no_conflict(self@) && !solvable(self@),
            },
            match outcome {
                Ok(solution) => outcome_of(self@) == Ok::<Seq<u8>, SolveError>(solution@),
                Err(e) => outcome_of(self@) == Err::<Seq<u8>, SolveError>(e),
            },
            !no_conflict(self@) <==> outcome == Err::<Solution, SolveError>(
                SolveError::InvalidInput,
            ),
            is_solution(self@) ==> outcome == Ok::<Solution, SolveError>(*self),
            outcome is Ok ==> forall|u: int, d: u8|
                0 <= u < 9 && 1 <= d <= 9 ==> row_has(outcome->Ok_0@, u, d) && col_has(
                    outcome->Ok_0@,
                    u,
                    d,
                ) && box_has(outcome->Ok_0@, u, d),
    {
        proof {
            use_type_invariant(self);
        }
        let outcome = match Status::from(self) {
            Status::Unsolved(mut solver) => {
                if solver.solve(0) {
                    let solution = solver.board;
                    proof {
                        use_type_invariant(&solution);
                        assert forall|i: int| 0 <= i < 81 implies solution@[i]
                            == solver.filled@[i] by {
                            assert(solver.board_view()[i] == solution@[i]);
                            assert(self@[i] != 0 ==> solver.committed()[i] == self@[i]);
                        }
                        assert(solution@ =~= solver.filled@);
                    }
                    Ok(solution)
                } else {
                    Err(SolveError::NoSolution)
                }
            },
            Status::Unsolvable => Err(SolveError::InvalidInput),
            Status::Solved => {
                proof {
                    assert(extends(self@, self@));
                }
                Ok(*self)
            },
        };
        proof {
            if let Ok(solution) = outcome {
                assert forall|u: int, d: u8| 0 <= u < 9 && 1 <= d <= 9 implies row_has(
                    solution@,
                    u,
                    d,
                ) && col_has(solution@, u, d) && box_has(solution@, u, d) by {
                    lemma_units_are_permutations(solution@, u, d);
                }
            }
        }
        outcome
    }
}

impl SudokuSolver for Board {
    open spec fn cells(&self) -> Seq<u8> {
        self@
    }

    /// Solves the board by the tracked search with the most constrained
    /// cell first.
    fn solve(&self) -> (solution: Option<Solution>)
        ensures
            is_solution(self@) ==> solution == Some(*self),
            match solution {
                Some(s) => outcome_of(self@) == Ok::<Seq<u8>, SolveError>(s@),
                None => outcome_of(self@) is Err,
            },
    {
        match self.try_solve() {
            Ok(solution) => Some(solution),
            Err(_) => {
                proof {
                    if !no_conflict(self@) {
                        lemma_conflict_unsolvable(self@);
                    }
                }
                None
            },
        }
    }
}

} // verus!
