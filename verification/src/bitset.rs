//! The digits seen in the rows, columns and boxes, packed into three 128-bit
//! sets: bit `unit * 9 + digit` of a set is on where the digit stands in the
//! unit.

use vstd::prelude::*;
use crate::basic::{
    fillable_from, fills_from, lemma_fill_digit_is_free, lemma_fill_with_digit, lemma_first_fill,
    not_after,
};
use crate::rules::{
    box_at, box_has, col_has, col_of, is_free, is_grid, lemma_cell_of, lemma_place_has,
    lemma_place_keeps_no_conflict, lemma_prefix_conflict, no_conflict, prefix, row_has, row_of,
};

verus! {

/// Whether bit `k` of `bits` is on.
pub open spec fn bit_at(bits: u128, k: int) -> bool {
    bits & (1u128 << (k as u128)) != 0
}

/// Whether digit `d` stands in unit `u` of `g`, for the rows (`kind` 0), the
/// columns (`kind` 1) or the boxes (any other `kind`).
pub open spec fn unit_has(kind: int, g: Seq<u8>, u: int, d: u8) -> bool {
    if kind == 0 {
        row_has(g, u, d)
    } else if kind == 1 {
        col_has(g, u, d)
    } else {
        box_has(g, u, d)
    }
}

/// The unit of the given kind that holds cell `i`.
pub open spec fn unit_of(kind: int, i: int) -> int {
    if kind == 0 {
        row_of(i)
    } else if kind == 1 {
        col_of(i)
    } else {
        box_at(i)
    }
}

/// The bits of `bits` that are on are exactly the bits `u * 9 + d` of the
/// units `u` and digits `d` from 1 to 9 such that `d` stands in unit `u` of
/// `g`.
pub open spec fn marks(bits: u128, g: Seq<u8>, kind: int) -> bool {
    forall|k: int|
        0 <= k < 128 ==> #[trigger] bit_at(bits, k) == (1 <= k <= 81 && unit_has(
            kind,
            g,
            (k - 1) / 9,
            ((k - 1) % 9 + 1) as u8,
        ))
}

/// Setting bit `k` turns that bit on and leaves the others.
pub proof fn lemma_bit_set(bits: u128, k: u128, j: u128)
    requires
        k < 128,
        j < 128,
    ensures
        bit_at(bits | (1u128 << k), j as int) == (bit_at(bits, j as int) || j == k),
{
    assert(k < 128 && j < 128 ==> (((bits | (1u128 << k)) & (1u128 << j) != 0) == ((bits & (1u128
        << j) != 0) || j == k))) by (bit_vector);
}

/// Setting a bit that was off and masking it out again gives the bits back.
pub proof fn lemma_bit_restore(bits: u128, k: u128)
    requires
        k < 128,
        !bit_at(bits, k as int),
    ensures
        (bits | (1u128 << k)) & !(1u128 << k) == bits,
{
    assert(k < 128 && bits & (1u128 << k) == 0 ==> (bits | (1u128 << k)) & !(1u128 << k) == bits)
        by (bit_vector);
}

/// No bit of zero is on.
pub proof fn lemma_bit_zero(j: u128)
    requires
        j < 128,
    ensures
        !bit_at(0u128, j as int),
{
    assert(0u128 & (1u128 << j) == 0) by (bit_vector);
}

/// Placing digit `d` in the empty cell `i` and setting the bit of `d` in the
/// cell's unit keeps the bits in step with the grid.
pub proof fn lemma_mark(bits: u128, g: Seq<u8>, kind: int, i: int, d: u8)
    requires
        marks(bits, g, kind),
        g.len() == 81,
        0 <= i < 81,
        g[i] == 0,
        1 <= d <= 9,
    ensures
        marks(bits | (1u128 << ((unit_of(kind, i) * 9 + d) as u128)), g.update(i, d), kind),
        bit_at(bits, unit_of(kind, i) * 9 + d) == unit_has(kind, g, unit_of(kind, i), d),
{
    let u = unit_of(kind, i);
    let k0 = (u * 9 + d) as u128;
    let bits2 = bits | (1u128 << k0);
    let h = g.update(i, d);
    assert(0 <= u < 9);
    assert(bit_at(bits, u * 9 + d) == unit_has(kind, g, u, d)) by {
        let k = u * 9 + d;
        assert((k - 1) / 9 == u && (k - 1) % 9 + 1 == d);
    }
    assert forall|k: int| 0 <= k < 128 implies #[trigger] bit_at(bits2, k) == (1 <= k <= 81
        && unit_has(kind, h, (k - 1) / 9, ((k - 1) % 9 + 1) as u8)) by {
        lemma_bit_set(bits, k0, k as u128);
        assert(bit_at(bits, k) == (1 <= k <= 81 && unit_has(
            kind,
            g,
            (k - 1) / 9,
            ((k - 1) % 9 + 1) as u8,
        )));
        if 1 <= k <= 81 {
            let v = (k - 1) / 9;
            let e = ((k - 1) % 9 + 1) as u8;
            lemma_place_has(g, i, d, v, e);
            assert((k == k0) == (v == u && e == d));
        }
    }
}

/// The digits seen in every row, column and box.
pub struct BitSet {
    row_bits: u128,
    col_bits: u128,
    box_bits: u128,
}

impl BitSet {
    /// The set of the rows.
    pub closed spec fn rows(&self) -> u128 {
        self.row_bits
    }

    /// The set of the columns.
    pub closed spec fn cols(&self) -> u128 {
        self.col_bits
    }

    /// The set of the boxes.
    pub closed spec fn boxes(&self) -> u128 {
        self.box_bits
    }

    /// The three sets hold exactly the digits that stand in the rows, the
    /// columns and the boxes of `g`.
    pub open spec fn marks_grid(&self, g: Seq<u8>) -> bool {
        &&& marks(self.rows(), g, 0)
        &&& marks(self.cols(), g, 1)
        &&& marks(self.boxes(), g, 2)
    }

    /// The sets in which no digit has been seen.
    pub fn new() -> (bit_set: Self)
        ensures
            bit_set.rows() == 0,
            bit_set.cols() == 0,
            bit_set.boxes() == 0,
    {
        Self { row_bits: 0, col_bits: 0, box_bits: 0 }
    }

    /// Fills the sets from the digits of a board, cell by cell in row-major
    /// order. Fails where a digit stands twice in a row, a column or a box.
    pub fn try_configure_from(board: &[u8; 81]) -> (configured: Option<Self>)
        requires
            is_grid(board@),
        ensures
            configured is Some <==> no_conflict(board@),
            configured is Some ==> configured->0.marks_grid(board@),
    {
        let mut bit_set = BitSet::new();
        let ghost g = board@;
        proof {
            assert forall|kind: int| #[trigger] marks(0u128, prefix(g, 0), kind) by {
                assert forall|k: int| 0 <= k < 128 implies !#[trigger] bit_at(0u128, k) by {
                    lemma_bit_zero(k as u128);
                }
                assert forall|u: int, d: u8| 1 <= d <= 9 implies !unit_has(
                    kind,
                    prefix(g, 0),
                    u,
                    d,
                ) by {}
            }
            assert(marks(0u128, prefix(g, 0), 0));
            assert(marks(0u128, prefix(g, 0), 1));
            assert(marks(0u128, prefix(g, 0), 2));
        }
        let mut row: usize = 0;
        while row < 9
            invariant
                row <= 9,
                g == board@,
                is_grid(g),
                bit_set.marks_grid(prefix(g, row * 9)),
                no_conflict(prefix(g, row * 9)),
            decreases 9 - row,
        {
            let row_offset = row * 9;
            let row_box = row / 3 * 3;
            let mut col: usize = 0;
            while col < 9
                invariant
                    row < 9,
                    col <= 9,
                    row_offset == row * 9,
                    row_box == row / 3 * 3,
                    g == board@,
                    is_grid(g),
                    bit_set.marks_grid(prefix(g, row * 9 + col)),
                    no_conflict(prefix(g, row * 9 + col)),
                decreases 9 - col,
            {
                let value = board[row_offset + col] as usize;
                let ghost n = (row * 9 + col) as int;
                let ghost p = prefix(g, n);
                let ghost d = g[n];
                proof {
                    lemma_cell_of(row as int, col as int);
                    assert(d <= 9);
                }
                if value != 0 {
                    let box_number = (row_box + col / 3) * 9 + value;
                    let box_mask = 1u128 << (box_number as u128);
                    proof {
                        lemma_mark(bit_set.boxes(), p, 2, n, d);
                        lemma_mark(bit_set.rows(), p, 0, n, d);
                        lemma_mark(bit_set.cols(), p, 1, n, d);
                    }
                    if bit_set.box_and(box_mask) != 0 {
                        proof {
                            lemma_prefix_conflict(g, n);
                        }
                        return None;
                    }
                    bit_set.box_set_or(box_mask);

                    let row_mask = 1u128 << ((row_offset + value) as u128);
                    if bit_set.row_and(row_mask) != 0 {
                        proof {
                            lemma_prefix_conflict(g, n);
                        }
                        return None;
                    }
                    bit_set.row_set_or(row_mask);

                    let col_mask = 1u128 << ((col * 9 + value) as u128);
                    if bit_set.col_and(col_mask) != 0 {
                        proof {
                            lemma_prefix_conflict(g, n);
                        }
                        return None;
                    }
                    bit_set.col_set_or(col_mask);
                    proof {
                        assert(is_free(p, n, d));
                        lemma_place_keeps_no_conflict(p, n, d);
                        assert(prefix(g, n + 1) =~= p.update(n, d));
                    }
                } else {
                    proof {
                        assert(prefix(g, n + 1) =~= p);
                    }
                }
                col += 1;
            }
            row += 1;
        }
        proof {
            assert(prefix(g, 81) =~= g);
        }
        Some(bit_set)
    }

    /// Adds the bits of `mask` to the set of the rows.
    pub fn row_set_or(&mut self, mask: u128)
        ensures
            final(self).rows() == old(self).rows() | mask,
            final(self).cols() == old(self).cols(),
            final(self).boxes() == old(self).boxes(),
    {
        self.row_bits = self.row_bits | mask;
    }

    /// Keeps of the set of the rows the bits of `mask` only.
    pub fn row_set_and(&mut self, mask: u128)
        ensures
            final(self).rows() == old(self).rows() & mask,
            final(self).cols() == old(self).cols(),
            final(self).boxes() == old(self).boxes(),
    {
        self.row_bits = self.row_bits & mask;
    }

    /// The bits of `mask` that are in the set of the rows.
    pub fn row_and(&mut self, mask: u128) -> (common: u128)
        ensures
            common == old(self).rows() & mask,
            *final(self) == *old(self),
    {
        self.row_bits & mask
    }

    /// Adds the bits of `mask` to the set of the columns.
    pub fn col_set_or(&mut self, mask: u128)
        ensures
            final(self).cols() == old(self).cols() | mask,
            final(self).rows() == old(self).rows(),
            final(self).boxes() == old(self).boxes(),
    {
        self.col_bits = self.col_bits | mask;
    }

    /// Keeps of the set of the columns the bits of `mask` only.
    pub fn col_set_and(&mut self, mask: u128)
        ensures
            final(self).cols() == old(self).cols() & mask,
            final(self).rows() == old(self).rows(),
            final(self).boxes() == old(self).boxes(),
    {
        self.col_bits = self.col_bits & mask;
    }

    /// The bits of `mask` that are in the set of the columns.
    pub fn col_and(&mut self, mask: u128) -> (common: u128)
        ensures
            common == old(self).cols() & mask,
            *final(self) == *old(self),
    {
        self.col_bits & mask
    }

    /// Adds the bits of `mask` to the set of the boxes.
    pub fn box_set_or(&mut self, mask: u128)
        ensures
            final(self).boxes() == old(self).boxes() | mask,
            final(self).rows() == old(self).rows(),
            final(self).cols() == old(self).cols(),
    {
        self.box_bits = self.box_bits | mask;
    }

    /// Keeps of the set of the boxes the bits of `mask` only.
    pub fn box_set_and(&mut self, mask: u128)
        ensures
            final(self).boxes() == old(self).boxes() & mask,
            final(self).rows() == old(self).rows(),
            final(self).cols() == old(self).cols(),
    {
        self.box_bits = self.box_bits & mask;
    }

    /// The bits of `mask` that are in the set of the boxes.
    pub fn box_and(&mut self, mask: u128) -> (common: u128)
        ensures
            common == old(self).boxes() & mask,
            *final(self) == *old(self),
    {
        self.box_bits & mask
    }
}

/// Attempt to fill the grid from the cell in `row` and `col` on, by
/// recursion with backtracking, with the digits seen so far kept in
/// `bit_set`. On success every cell from there on is filled, no digit that
/// was added stands twice in a row, a column or a box, the sets hold the
/// digits of the filled grid, and of all such ways of filling the grid this
/// is the first. On failure there is no such way of filling the grid, and
/// the grid and the sets are as they were.
pub fn solve(solution_grid: &mut [u8; 81], bit_set: &mut BitSet, row: usize, col: usize) -> (found:
    bool)
    requires
        is_grid(old(solution_grid)@),
        old(bit_set).marks_grid(old(solution_grid)@),
        row <= 9,
        col <= 9,
    ensures
        found ==> fills_from(old(solution_grid)@, final(solution_grid)@, row * 9 + col),
        found ==> forall|other: Seq<u8>| #[trigger]
            fills_from(old(solution_grid)@, other, row * 9 + col) ==> not_after(
                final(solution_grid)@,
                other,
            ),
        found ==> final(bit_set).marks_grid(final(solution_grid)@),
        !found ==> !fillable_from(old(solution_grid)@, row * 9 + col),
        !found ==> final(solution_grid)@ == old(solution_grid)@,
        !found ==> *final(bit_set) == *old(bit_set),
    decreases 9 - row, 9 - col,
{
    let ghost g = solution_grid@;
    let ghost pos = (row * 9 + col) as int;
    if row == 9 {
        proof {
            assert forall|other: Seq<u8>| #[trigger] fills_from(g, other, pos) implies not_after(
                g,
                other,
            ) by {
                assert(other =~= g);
            }
        }
        return true;
    }
    if col == 9 {
        return solve(solution_grid, bit_set, row + 1, 0);
    }
    let offset = row * 9 + col;
    if solution_grid[offset] != 0 {
        let found = solve(solution_grid, bit_set, row, col + 1);
        proof {
            if found {
                assert(solution_grid@[pos] == g[pos]);
                assert forall|other: Seq<u8>| #[trigger]
                    fills_from(g, other, pos) implies not_after(solution_grid@, other) by {
                    assert(other[pos] == g[pos]);
                    assert(fills_from(g, other, pos + 1));
                }
            } else {
                assert forall|new_grid: Seq<u8>| !fills_from(g, new_grid, pos) by {
                    if fills_from(g, new_grid, pos) {
                        assert(new_grid[pos] == g[pos]);
                        assert(fills_from(g, new_grid, pos + 1));
                    }
                }
            }
        }
        found
    } else {
        let row_offset = row * 9;
        let col_offset = col * 9;
        let box_number = (row / 3 * 3 + col / 3) * 9;
        let ghost start = *bit_set;
        proof {
            lemma_cell_of(row as int, col as int);
        }
        let mut p: u8 = 1;
        while p <= 9
            invariant
                row < 9,
                col < 9,
                pos == row * 9 + col,
                offset == pos,
                row_offset == row * 9,
                col_offset == col * 9,
                box_number == box_at(pos) * 9,
                row_of(pos) == row,
                col_of(pos) == col,
                1 <= p <= 10,
                solution_grid@ == g,
                g == old(solution_grid)@,
                is_grid(g),
                g[pos] == 0,
                *bit_set == start,
                start == *old(bit_set),
                start.marks_grid(g),
                forall|q: u8|
                    1 <= q < p && is_free(g, pos, q) ==> !fillable_from(
                        #[trigger] g.update(pos, q),
                        pos + 1,
                    ),
            decreases 10 - p,
        {
            let value = p as usize;
            proof {
                lemma_mark(start.boxes(), g, 2, pos, p);
                lemma_mark(start.rows(), g, 0, pos, p);
                lemma_mark(start.cols(), g, 1, pos, p);
            }
            let box_mask = 1u128 << ((box_number + value) as u128);
            if bit_set.box_and(box_mask) == 0 {
                let row_mask = 1u128 << ((row_offset + value) as u128);
                if bit_set.row_and(row_mask) == 0 {
                    let col_mask = 1u128 << ((col_offset + value) as u128);
                    if bit_set.col_and(col_mask) == 0 {
                        assert(is_free(g, pos, p));
                        // Set the values in the grid, and bitmask fields
                        solution_grid[offset] = p;
                        bit_set.row_set_or(row_mask);
                        bit_set.col_set_or(col_mask);
                        bit_set.box_set_or(box_mask);
                        assert(solution_grid@ == g.update(pos, p));

                        if solve(solution_grid, bit_set, row, col + 1) {
                            proof {
                                lemma_fill_with_digit(g, solution_grid@, pos, p);
                                lemma_first_fill(g, solution_grid@, pos, p);
                            }
                            return true;
                        }
                        // Not a solution, so rollback the above masking

                        solution_grid[offset] = 0;
                        bit_set.row_set_and(!row_mask);
                        bit_set.col_set_and(!col_mask);
                        bit_set.box_set_and(!box_mask);
                        proof {
                            assert(solution_grid@ =~= g);
                            lemma_bit_restore(start.rows(), (row_offset + value) as u128);
                            lemma_bit_restore(start.cols(), (col_offset + value) as u128);
                            lemma_bit_restore(start.boxes(), (box_number + value) as u128);
                        }
                    }
                }
            }
            p += 1;
        }
        proof {
            assert forall|new_grid: Seq<u8>| !fills_from(g, new_grid, pos) by {
                if fills_from(g, new_grid, pos) {
                    lemma_fill_digit_is_free(g, new_grid, pos);
                    assert(fillable_from(g.update(pos, new_grid[pos]), pos + 1));
                }
            }
        }
        false
    }
}

} // verus!
