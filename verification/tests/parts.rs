use sudoku_solver::bits::{clear_low_bit, get_low_bit, pos_to_value, ALL_BITS_SET};
use sudoku_solver::{board_from_2d, parse_board, Board, ParseError, Status};

fn easy_board() -> Board {
    board_from_2d([
        [0, 5, 0, 0, 0, 9, 8, 1, 3],
        [9, 8, 0, 3, 5, 0, 6, 0, 7],
        [6, 0, 0, 0, 8, 0, 5, 9, 4],
        [8, 3, 2, 0, 0, 6, 0, 0, 0],
        [7, 0, 0, 1, 2, 8, 0, 0, 9],
        [1, 9, 0, 0, 7, 3, 2, 0, 0],
        [3, 7, 0, 6, 9, 0, 0, 5, 0],
        [0, 2, 0, 0, 0, 0, 7, 0, 0],
        [0, 0, 0, 0, 0, 4, 0, 0, 0],
    ])
    .unwrap()
}

fn hard_2x_board() -> Board {
    board_from_2d([
        [0, 7, 3, 0, 0, 2, 0, 0, 0],
        [0, 0, 0, 0, 7, 0, 0, 0, 0],
        [0, 0, 1, 0, 3, 0, 8, 0, 0],
        [0, 0, 0, 2, 6, 0, 0, 8, 0],
        [0, 0, 0, 5, 0, 0, 0, 2, 0],
        [0, 0, 0, 0, 0, 0, 1, 3, 7],
        [6, 0, 0, 4, 0, 9, 0, 0, 0],
        [0, 2, 0, 0, 0, 0, 9, 0, 0],
        [8, 0, 0, 0, 0, 0, 0, 0, 1],
    ])
    .unwrap()
}

const SOLVED_TEXT: &str =
    "139246758\n572813469\n468795132\n287564391\n941372685\n653189274\n726458913\n315927846\n894631527\n";

#[test]
fn lowest_bit_is_extracted() {
    assert_eq!(get_low_bit(0b1_0100), 0b100);
    assert_eq!(get_low_bit(0b1), 0b1);
    assert_eq!(get_low_bit(ALL_BITS_SET), 1);
    assert_eq!(get_low_bit(0b1_0000_0000), 0b1_0000_0000);
    assert_eq!(get_low_bit(0x8000), 0x8000);
    assert_eq!(get_low_bit(0), 0);
}

#[test]
fn lowest_bit_is_cleared() {
    assert_eq!(clear_low_bit(0b1_0100), 0b1_0000);
    assert_eq!(clear_low_bit(0b1), 0);
    assert_eq!(clear_low_bit(ALL_BITS_SET), 0b1_1111_1110);
    assert_eq!(clear_low_bit(0), 0);
}

#[test]
fn bit_position_becomes_digit() {
    assert_eq!(pos_to_value(0b1), 1);
    assert_eq!(pos_to_value(0b1_0000), 5);
    assert_eq!(pos_to_value(0b1_0000_0000), 9);
    assert_eq!(pos_to_value(0), 17);
}

#[test]
fn values_above_nine_are_refused() {
    let mut cells = [0u8; 81];
    assert!(Board::new(cells).is_some());
    cells[80] = 9;
    assert!(Board::new(cells).is_some());
    cells[80] = 10;
    assert!(Board::new(cells).is_none());
    let mut rows = [[0u8; 9]; 9];
    rows[3][4] = 9;
    assert_eq!(board_from_2d(rows).unwrap().get(3, 4), 9);
    assert_eq!(board_from_2d(rows).unwrap().cell(31), 9);
    rows[3][4] = 200;
    assert!(board_from_2d(rows).is_none());
}

#[test]
fn flat_and_nested_cells_give_the_same_board() {
    let flat = [
        0, 0, 0, 0, 4, 0, 0, 0, 0, //
        0, 0, 0, 0, 0, 0, 4, 0, 9, //
        0, 0, 0, 0, 0, 5, 0, 0, 0, //
        2, 8, 0, 5, 0, 0, 3, 9, 1, //
        0, 0, 1, 3, 7, 0, 6, 0, 0, //
        0, 0, 3, 0, 8, 0, 0, 7, 0, //
        0, 2, 0, 0, 5, 0, 9, 1, 0, //
        0, 0, 5, 0, 2, 0, 0, 0, 0, //
        0, 9, 0, 6, 0, 1, 5, 0, 0, //
    ];
    let nested = [
        [0, 0, 0, 0, 4, 0, 0, 0, 0],
        [0, 0, 0, 0, 0, 0, 4, 0, 9],
        [0, 0, 0, 0, 0, 5, 0, 0, 0],
        [2, 8, 0, 5, 0, 0, 3, 9, 1],
        [0, 0, 1, 3, 7, 0, 6, 0, 0],
        [0, 0, 3, 0, 8, 0, 0, 7, 0],
        [0, 2, 0, 0, 5, 0, 9, 1, 0],
        [0, 0, 5, 0, 2, 0, 0, 0, 0],
        [0, 9, 0, 6, 0, 1, 5, 0, 0],
    ];
    assert_eq!(Board::new(flat).unwrap(), board_from_2d(nested).unwrap());
}

#[test]
fn put_writes_one_cell() {
    let mut board = Board::new([0u8; 81]).unwrap();
    board.put(42, 6);
    assert_eq!(board.cell(42), 6);
    assert_eq!(board.get(4, 6), 6);
    assert_eq!(board.cell(41), 0);
}

#[test]
fn first_pass_classifies() {
    let solved = parse_board(SOLVED_TEXT.as_bytes()).unwrap();
    assert!(matches!(Status::from(&solved), Status::Solved));
    let mut cells = [0u8; 81];
    cells[0] = 3;
    cells[20] = 3;
    assert!(matches!(Status::from(&Board::new(cells).unwrap()), Status::Unsolvable));
    match Status::from(&easy_board()) {
        Status::Unsolved(solver) => assert!(!solver.is_solved()),
        _ => panic!("the board has open cells and no conflict"),
    }
}

#[test]
fn masks_hold_the_free_digits() {
    match Status::from(&easy_board()) {
        Status::Unsolved(solver) => {
            assert_eq!(solver.get_mask(0, 0, 0), 0b0_0000_1010);
            assert_eq!(solver.get_mask(0, 2, 0), 0b0_0100_1000);
            assert_eq!(solver.get_mask(0, 3, 1), 0b0_0100_1010);
        }
        _ => panic!("the board has open cells and no conflict"),
    }
    match Status::from(&Board::new([0u8; 81]).unwrap()) {
        Status::Unsolved(solver) => assert_eq!(solver.get_mask(4, 4, 4), ALL_BITS_SET),
        _ => panic!("the board has open cells and no conflict"),
    }
}

#[test]
fn toggling_commits_a_digit_and_takes_it_back() {
    match Status::from(&easy_board()) {
        Status::Unsolved(mut solver) => {
            assert_eq!(solver.get_mask(0, 0, 0), 0b0_0000_1010);
            solver.toggle(0, 0, 0, 0b10);
            assert_eq!(solver.get_mask(0, 0, 0), 0b0_0000_1000);
            assert_eq!(solver.get_mask(0, 2, 0), 0b0_0100_1000);
            assert_eq!(solver.get_mask(0, 3, 1), 0b0_0100_1000);
            assert_eq!(solver.get_mask(3, 0, 3), 0b0_0001_1000);
            solver.toggle(0, 0, 0, 0b10);
            assert_eq!(solver.get_mask(0, 0, 0), 0b0_0000_1010);
            assert_eq!(solver.get_mask(0, 3, 1), 0b0_0100_1010);
            assert_eq!(solver.board(), easy_board());
        }
        _ => panic!("the board has open cells and no conflict"),
    }
}

#[test]
fn a_found_solution_is_written_to_the_board() {
    match Status::from(&easy_board()) {
        Status::Unsolved(mut solver) => {
            assert!(solver.solve(0));
            assert_eq!(Ok(solver.board()), easy_board().try_solve());
            assert_eq!(solver.get_mask(4, 4, 4), 0);
        }
        _ => panic!("the board has open cells and no conflict"),
    }
}

#[test]
fn a_failed_search_leaves_board_and_masks() {
    let mut cells = [0u8; 81];
    for c in 0..8 {
        cells[c] = c as u8 + 1;
    }
    cells[17] = 9;
    let board = Board::new(cells).unwrap();
    match Status::from(&board) {
        Status::Unsolved(mut solver) => {
            let before = solver.get_mask(1, 0, 0);
            assert!(!solver.solve(0));
            assert_eq!(solver.board(), board);
            assert_eq!(solver.get_mask(1, 0, 0), before);
            assert_eq!(solver.get_mask(0, 8, 2), 0);
        }
        _ => panic!("the board has open cells and no conflict"),
    }
}

#[test]
fn ordering_stops_at_the_first_single_candidate() {
    match Status::from(&easy_board()) {
        Status::Unsolved(solver) => {
            assert_eq!(solver.find_best_index(0), 6);
            assert_eq!(solver.find_best_index(6), 6);
            assert_eq!(solver.find_best_index(7), 7);
            assert_eq!(solver.find_best_index(43), 43);
        }
        _ => panic!("the board has open cells and no conflict"),
    }
}

#[test]
fn ordering_takes_the_first_of_the_fewest() {
    match Status::from(&hard_2x_board()) {
        Status::Unsolved(solver) => assert_eq!(solver.find_best_index(0), 16),
        _ => panic!("the board has open cells and no conflict"),
    }
    match Status::from(&Board::new([0u8; 81]).unwrap()) {
        Status::Unsolved(solver) => assert_eq!(solver.find_best_index(5), 5),
        _ => panic!("the board has open cells and no conflict"),
    }
}

#[test]
fn search_from_the_first_entry_solves() {
    match Status::from(&easy_board()) {
        Status::Unsolved(mut solver) => assert!(solver.solve(0)),
        _ => panic!("the board has open cells and no conflict"),
    }
}

#[test]
fn text_is_parsed() {
    let board = parse_board(SOLVED_TEXT.as_bytes()).unwrap();
    assert_eq!(board.get(0, 0), 1);
    assert_eq!(board.get(0, 8), 8);
    assert_eq!(board.get(8, 8), 7);
    assert_eq!(board.to_string(), SOLVED_TEXT);
}

#[test]
fn text_without_the_last_newline_is_parsed() {
    let text = &SOLVED_TEXT.as_bytes()[..89];
    assert_eq!(parse_board(text), parse_board(SOLVED_TEXT.as_bytes()));
}

#[test]
fn dots_are_empty_cells() {
    let mut text = SOLVED_TEXT.as_bytes().to_vec();
    text[0] = b'.';
    text[11] = b'0';
    let board = parse_board(&text).unwrap();
    assert_eq!(board.get(0, 0), 0);
    assert_eq!(board.get(1, 1), 0);
    assert_eq!(board.get(0, 1), 3);
}

#[test]
fn other_bytes_are_refused() {
    let mut text = SOLVED_TEXT.as_bytes().to_vec();
    text[5] = b'x';
    assert_eq!(parse_board(&text), Err(ParseError::InvalidByte));
    text[5] = 0;
    assert_eq!(parse_board(&text), Err(ParseError::InvalidByte));
    text[5] = b' ';
    assert_eq!(parse_board(&text[..20]), Err(ParseError::InvalidByte));
}

#[test]
fn too_few_or_too_many_cells_are_refused() {
    let text = SOLVED_TEXT.as_bytes();
    assert_eq!(parse_board(&text[..88]), Err(ParseError::WrongLength));
    assert_eq!(parse_board(b""), Err(ParseError::WrongLength));
    let mut long = text.to_vec();
    long.push(b'1');
    assert_eq!(parse_board(&long), Err(ParseError::WrongLength));
}

#[test]
fn empty_board_is_printed_as_zeros() {
    let board = Board::new([0u8; 81]).unwrap();
    assert_eq!(board.to_string(), "000000000\n".repeat(9));
}
