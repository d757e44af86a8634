use sudoku_solver::{board_from_2d, Board, SolveError, SudokuSolver};

fn solved_cells() -> [u8; 81] {
    [
        1, 3, 9, 2, 4, 6, 7, 5, 8, //
        5, 7, 2, 8, 1, 3, 4, 6, 9, //
        4, 6, 8, 7, 9, 5, 1, 3, 2, //
        2, 8, 7, 5, 6, 4, 3, 9, 1, //
        9, 4, 1, 3, 7, 2, 6, 8, 5, //
        6, 5, 3, 1, 8, 9, 2, 7, 4, //
        7, 2, 6, 4, 5, 8, 9, 1, 3, //
        3, 1, 5, 9, 2, 7, 8, 4, 6, //
        8, 9, 4, 6, 3, 1, 5, 2, 7, //
    ]
}

fn units_are_permutations(board: &Board) -> bool {
    for unit in 0..9 {
        for digit in 1..=9u8 {
            let in_row = (0..9).filter(|&c| board.get(unit, c) == digit).count();
            let in_col = (0..9).filter(|&r| board.get(r, unit) == digit).count();
            let in_box = (0..9)
                .filter(|&k| board.get((unit / 3) * 3 + k / 3, (unit % 3) * 3 + k % 3) == digit)
                .count();
            if in_row != 1 || in_col != 1 || in_box != 1 {
                return false;
            }
        }
    }
    true
}

#[test]
fn a_solved_grid_comes_back_unchanged() {
    let board = Board::new(solved_cells()).unwrap();
    assert_eq!(board.try_solve(), Ok(board));
    assert_eq!(board.solve(), Some(board));
}

#[test]
fn two_fives_in_a_row_are_invalid_input() {
    let mut cells = [0u8; 81];
    cells[9] = 5;
    cells[17] = 5;
    let board = Board::new(cells).unwrap();
    assert_eq!(board.try_solve(), Err(SolveError::InvalidInput));
    assert_eq!(board.solve(), None);
}

#[test]
fn two_equal_digits_in_a_column_are_invalid_input() {
    let mut cells = [0u8; 81];
    cells[4] = 7;
    cells[76] = 7;
    let board = Board::new(cells).unwrap();
    assert_eq!(board.try_solve(), Err(SolveError::InvalidInput));
}

#[test]
fn two_equal_digits_in_a_box_are_invalid_input() {
    let mut cells = [0u8; 81];
    cells[30] = 2;
    cells[50] = 2;
    let board = Board::new(cells).unwrap();
    assert_eq!(board.try_solve(), Err(SolveError::InvalidInput));
}

#[test]
fn a_conflict_in_a_full_grid_is_invalid_input() {
    let mut cells = solved_cells();
    cells[80] = 1;
    let board = Board::new(cells).unwrap();
    assert_eq!(board.try_solve(), Err(SolveError::InvalidInput));
}

#[test]
fn a_consistent_grid_without_solution_is_no_solution() {
    let mut cells = [0u8; 81];
    for c in 0..8 {
        cells[c] = c as u8 + 1;
    }
    cells[17] = 9;
    let board = Board::new(cells).unwrap();
    assert_eq!(board.try_solve(), Err(SolveError::NoSolution));
    assert_eq!(board.solve(), None);
}

#[test]
fn the_one_missing_digit_is_placed() {
    let mut cells = solved_cells();
    cells[80] = 0;
    let board = Board::new(cells).unwrap();
    let solution = board.try_solve().unwrap();
    assert_eq!(solution.cell(80), 7);
    assert_eq!(solution, Board::new(solved_cells()).unwrap());
}

#[test]
fn a_missing_digit_in_the_middle_is_placed() {
    let mut cells = solved_cells();
    cells[40] = 0;
    let board = Board::new(cells).unwrap();
    let solution = board.solve().unwrap();
    assert_eq!(solution.get(4, 4), 7);
    assert_eq!(solution, Board::new(solved_cells()).unwrap());
}

#[test]
fn the_blank_grid_gets_a_valid_solution() {
    let board = Board::new([0u8; 81]).unwrap();
    let solution = board.try_solve().unwrap();
    assert!(units_are_permutations(&solution));
}

#[test]
fn the_blank_grid_gets_the_first_solution_of_the_search() {
    let expected = board_from_2d([
        [1, 2, 3, 4, 5, 6, 7, 8, 9],
        [4, 5, 6, 7, 8, 9, 1, 2, 3],
        [7, 8, 9, 1, 2, 3, 4, 5, 6],
        [2, 6, 1, 9, 3, 4, 8, 7, 5],
        [8, 3, 4, 5, 1, 7, 6, 9, 2],
        [5, 9, 7, 2, 6, 8, 3, 1, 4],
        [3, 1, 2, 6, 7, 5, 9, 4, 8],
        [6, 4, 5, 8, 9, 1, 2, 3, 7],
        [9, 7, 8, 3, 4, 2, 5, 6, 1],
    ])
    .unwrap();
    let board = Board::new([0u8; 81]).unwrap();
    assert_eq!(board.try_solve(), Ok(expected));
}

#[test]
fn the_2x_hard_board_gets_its_solution() {
    let board = board_from_2d([
        [0, 7, 3, 0, 0, 2, 0, 0, 0],
        [0, 0, 0, 0, 7, 0, 0, 0, 0],
        [0, 0, 1, 0, 3, 0, 8, 0, 0],
        [0, 0, 0, 2, 6, 0, 0, 8, 0],
        [0, 0, 0, 5, 0, 0, 0, 2, 0],
        [0, 0, 0, 0, 0, 0, 1, 3, 7],
        [6, 0, 0, 4, 0, 9, 0, 0, 0],
        [0, 2, 0, 0, 0, 0, 9, 0, 0],
        [8, 0, 0, 0, 0, 0, 0, 0, 1],
    ])
    .unwrap();
    let expected = board_from_2d([
        [4, 7, 3, 8, 9, 2, 5, 1, 6],
        [2, 8, 6, 1, 7, 5, 3, 9, 4],
        [9, 5, 1, 6, 3, 4, 8, 7, 2],
        [1, 3, 9, 2, 6, 7, 4, 8, 5],
        [7, 4, 8, 5, 1, 3, 6, 2, 9],
        [5, 6, 2, 9, 4, 8, 1, 3, 7],
        [6, 1, 7, 4, 8, 9, 2, 5, 3],
        [3, 2, 4, 7, 5, 1, 9, 6, 8],
        [8, 9, 5, 3, 2, 6, 7, 4, 1],
    ])
    .unwrap();
    assert_eq!(board.try_solve(), Ok(expected));
    assert!(units_are_permutations(&expected));
}
