use sudoku_solver::basic;
use sudoku_solver::bitset::{self, BitSet};
use sudoku_solver::{Board, SudokuSolver};

fn easy_cells() -> [u8; 81] {
    [
        0, 5, 0, 0, 0, 9, 8, 1, 3, //
        9, 8, 0, 3, 5, 0, 6, 0, 7, //
        6, 0, 0, 0, 8, 0, 5, 9, 4, //
        8, 3, 2, 0, 0, 6, 0, 0, 0, //
        7, 0, 0, 1, 2, 8, 0, 0, 9, //
        1, 9, 0, 0, 7, 3, 2, 0, 0, //
        3, 7, 0, 6, 9, 0, 0, 5, 0, //
        0, 2, 0, 0, 0, 0, 7, 0, 0, //
        0, 0, 0, 0, 0, 4, 0, 0, 0, //
    ]
}

fn easy_solution() -> [u8; 81] {
    [
        2, 5, 7, 4, 6, 9, 8, 1, 3, //
        9, 8, 4, 3, 5, 1, 6, 2, 7, //
        6, 1, 3, 2, 8, 7, 5, 9, 4, //
        8, 3, 2, 9, 4, 6, 1, 7, 5, //
        7, 4, 5, 1, 2, 8, 3, 6, 9, //
        1, 9, 6, 5, 7, 3, 2, 4, 8, //
        3, 7, 8, 6, 9, 2, 4, 5, 1, //
        4, 2, 9, 8, 1, 5, 7, 3, 6, //
        5, 6, 1, 7, 3, 4, 9, 8, 2, //
    ]
}

fn medium_cells() -> [u8; 81] {
    [
        8, 6, 0, 0, 1, 7, 0, 0, 0, //
        0, 0, 0, 0, 0, 6, 0, 3, 0, //
        5, 0, 2, 0, 9, 0, 1, 0, 0, //
        6, 9, 0, 2, 0, 4, 3, 5, 1, //
        4, 7, 5, 9, 0, 1, 8, 0, 6, //
        0, 0, 0, 8, 0, 5, 0, 7, 0, //
        7, 0, 6, 0, 0, 0, 0, 9, 3, //
        0, 0, 0, 0, 0, 9, 6, 0, 2, //
        0, 2, 0, 0, 5, 0, 0, 0, 0, //
    ]
}

fn cells_of(board: &Board) -> [u8; 81] {
    let mut cells = [0u8; 81];
    for (i, cell) in cells.iter_mut().enumerate() {
        *cell = board.cell(i);
    }
    cells
}

fn dead_end_cells() -> [u8; 81] {
    let mut cells = [0u8; 81];
    for c in 0..8 {
        cells[c] = c as u8 + 1;
    }
    cells[17] = 9;
    cells
}

#[test]
fn a_digit_is_valid_where_row_column_and_box_lack_it() {
    let cells = easy_cells();
    assert!(basic::is_valid(cells, 0, 0, 2));
    assert!(basic::is_valid(cells, 0, 0, 4));
    assert!(!basic::is_valid(cells, 0, 0, 5));
    assert!(!basic::is_valid(cells, 0, 0, 7));
    assert!(!basic::is_valid(cells, 0, 0, 6));
    assert!(!basic::is_valid(cells, 0, 2, 2));
    assert!(basic::is_valid(cells, 0, 2, 7));
    assert!(basic::is_valid(cells, 8, 8, 8));
    assert!(!basic::is_valid(cells, 8, 8, 4));
    assert!(!basic::is_valid(cells, 8, 8, 9));
    assert!(!basic::is_valid(cells, 8, 8, 5));
}

#[test]
fn a_digit_of_the_cell_itself_is_not_valid() {
    let cells = easy_cells();
    assert!(!basic::is_valid(cells, 0, 1, 5));
    assert!(!basic::is_valid(cells, 0, 0, 0));
}

#[test]
fn plain_backtracking_fills_the_easy_board() {
    let mut cells = easy_cells();
    assert!(basic::solve(&mut cells, 0, 0));
    assert_eq!(cells, easy_solution());
}

#[test]
fn plain_backtracking_agrees_with_the_tracked_search() {
    for puzzle in [easy_cells(), medium_cells()] {
        let mut cells = puzzle;
        assert!(basic::solve(&mut cells, 0, 0));
        let solution = Board::new(puzzle).unwrap().solve().unwrap();
        assert_eq!(cells, cells_of(&solution));
    }
}

#[test]
fn plain_backtracking_leaves_a_dead_end_as_it_was() {
    let mut cells = dead_end_cells();
    assert!(!basic::solve(&mut cells, 0, 0));
    assert_eq!(cells, dead_end_cells());
    assert!(Board::new(dead_end_cells()).unwrap().solve().is_none());
}

#[test]
fn plain_backtracking_fills_from_the_given_cell_on() {
    let mut cells = easy_solution();
    cells[3] = 0;
    cells[80] = 0;
    assert!(basic::solve(&mut cells, 8, 0));
    assert_eq!(cells[80], 2);
    assert_eq!(cells[3], 0);
    assert!(basic::solve(&mut cells, 9, 0));
    assert_eq!(cells[3], 0);
    assert!(basic::solve(&mut cells, 0, 9));
    assert_eq!(cells[3], 0);
    assert!(basic::solve(&mut cells, 0, 3));
    assert_eq!(cells, easy_solution());
}

#[test]
fn bit_sets_start_empty() {
    let mut bits = BitSet::new();
    assert_eq!(bits.row_and(!0), 0);
    assert_eq!(bits.col_and(!0), 0);
    assert_eq!(bits.box_and(!0), 0);
}

#[test]
fn bit_sets_are_set_and_masked() {
    let mut bits = BitSet::new();
    bits.row_set_or(0b1010);
    bits.col_set_or(0b0110);
    bits.box_set_or(1 << 81);
    assert_eq!(bits.row_and(0b0011), 0b0010);
    assert_eq!(bits.col_and(0b0011), 0b0010);
    assert_eq!(bits.box_and(!0), 1 << 81);
    bits.row_set_and(!0b0010);
    bits.col_set_and(0b0100);
    bits.box_set_and(0);
    assert_eq!(bits.row_and(!0), 0b1000);
    assert_eq!(bits.col_and(!0), 0b0100);
    assert_eq!(bits.box_and(!0), 0);
}

#[test]
fn bit_sets_hold_the_digits_of_the_board() {
    let mut bits = BitSet::try_configure_from(&easy_cells()).unwrap();
    // row 0 holds 5, 9, 8, 1 and 3
    assert_eq!(bits.row_and(0b11_1111_1110), 0b11_0010_1010);
    // column 0 holds 9, 6, 8, 7, 1 and 3
    assert_eq!(bits.col_and(0b11_1111_1110), 0b11_1100_1010);
    // box 0 holds 5, 9, 8 and 6
    assert_eq!(bits.box_and(0b11_1111_1110), 0b11_0110_0000);
    // row 8 holds 4 alone
    assert_eq!(bits.row_and(0b11_1111_1110 << 72), 1 << 76);
    // nothing lies above the last digit of the last unit
    assert_eq!(bits.row_and(!0 << 82), 0);
    assert_eq!(bits.col_and(1), 0);
}

#[test]
fn bit_sets_refuse_a_conflict() {
    let mut cells = [0u8; 81];
    cells[9] = 5;
    cells[17] = 5;
    assert!(BitSet::try_configure_from(&cells).is_none());
    let mut cells = [0u8; 81];
    cells[4] = 7;
    cells[76] = 7;
    assert!(BitSet::try_configure_from(&cells).is_none());
    let mut cells = [0u8; 81];
    cells[30] = 2;
    cells[50] = 2;
    assert!(BitSet::try_configure_from(&cells).is_none());
    assert!(BitSet::try_configure_from(&[0u8; 81]).is_some());
}

#[test]
fn backtracking_with_bit_sets_fills_the_easy_board() {
    let mut cells = easy_cells();
    let mut bits = BitSet::try_configure_from(&cells).unwrap();
    assert!(bitset::solve(&mut cells, &mut bits, 0, 0));
    assert_eq!(cells, easy_solution());
    // every digit has been seen in every unit
    assert_eq!(bits.row_and(!0), (1u128 << 82) - 2);
    assert_eq!(bits.col_and(!0), (1u128 << 82) - 2);
    assert_eq!(bits.box_and(!0), (1u128 << 82) - 2);
}

#[test]
fn backtracking_with_bit_sets_leaves_a_dead_end_as_it_was() {
    let mut cells = dead_end_cells();
    let mut bits = BitSet::try_configure_from(&cells).unwrap();
    assert!(!bitset::solve(&mut cells, &mut bits, 0, 0));
    assert_eq!(cells, dead_end_cells());
    assert_eq!(bits.row_and(!0), 0b1_1111_1110 | (1 << 18));
    assert_eq!(bits.col_and(!0) & 0b11_1111_1110, 0b10);
}
