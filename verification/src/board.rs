//! The board: 81 cell values in row-major order.

use vstd::prelude::*;
use crate::rules::is_grid;

verus! {

/// A 9×9 board as a flat array of 81 cells, row by row. A cell holds a digit
/// from 1 to 9, or 0 where it is empty.
#[derive(Clone, Copy, Debug, PartialEq, Eq)]
pub struct Board {
    cells: [u8; 81],
}

/// A solved board.
pub type Solution = Board;

impl View for Board {
    type V = Seq<u8>;

    closed spec fn view(&self) -> Seq<u8> {
        self.cells@
    }
}

impl Board {
    /// Every board holds 81 cells with values from 0 to 9.
    #[verifier::type_invariant]
    pub open spec fn well_formed(&self) -> bool {
        is_grid(self@)
    }

    /// Makes a board of 81 cell values in row-major order. Fails where a
    /// value is above 9.
    pub fn new(cells: [u8; 81]) -> (board: Option<Board>)
        ensures
            board is Some <==> is_grid(cells@),
            board is Some ==> board->0@ == cells@,
    {
        let mut i: usize = 0;
        while i < 81
            invariant
                i <= 81,
                forall|k: int| 0 <= k < i ==> #[trigger] cells@[k] <= 9,
            decreases 81 - i,
        {
            if cells[i] > 9 {
                return None;
            }
            i += 1;
        }
        Some(Board { cells })
    }

    /// The value of the cell with linear index `index`.
    pub fn cell(&self, index: usize) -> (value: u8)
        requires
            index < 81,
        ensures
            value == self@[index as int],
            value <= 9,
    {
        proof {
            use_type_invariant(self);
        }
        self.cells[index]
    }

    /// The value of the cell in `row` and `col`.
    pub fn get(&self, row: usize, col: usize) -> (value: u8)
        requires
            row < 9,
            col < 9,
        ensures
            value == self@[row * 9 + col],
            value <= 9,
    {
        self.cell(row * 9 + col)
    }

    /// The board as text: nine lines of nine digits, each line ended by a
    /// newline.
    pub fn to_string(&self) -> (text: String)
        ensures
            text@ == rendered(self@),
    {
        let mut text = String::new();
        let mut row: usize = 0;
        while row < 9
            invariant
                row <= 9,
                text@ == rendered(self@).take(row * 10),
            decreases 9 - row,
        {
            let mut col: usize = 0;
            while col < 9
                invariant
                    row < 9,
                    col <= 9,
                    text@ == rendered(self@).take(row * 10 + col),
                decreases 9 - col,
            {
                let value = self.cell(row * 9 + col);
                let ghost k = (row * 10 + col) as int;
                assert(k % 10 == col && k / 10 == row);
                push_char(&mut text, (value + ZERO) as char);
                assert(text@ =~= rendered(self@).take(k + 1));
                col += 1;
            }
            let ghost k = (row * 10 + 9) as int;
            assert(k % 10 == 9);
            push_char(&mut text, '\n');
            assert(text@ =~= rendered(self@).take(k + 1));
            row += 1;
        }
        assert(text@ =~= rendered(self@));
        text
    }

    /// Writes `value` into the cell with linear index `index`.
    pub fn put(&mut self, index: usize, value: u8)
        requires
            index < 81,
            value <= 9,
        ensures
            final(self)@ == old(self)@.update(index as int, value),
    {
        proof {
            use_type_invariant(&*self);
        }
        self.cells[index] = value;
    }
}

/// The text of a grid: nine lines of nine digit characters, each line ended
/// by a newline.
pub open spec fn rendered(g: Seq<u8>) -> Seq<char> {
    Seq::new(
        90,
        |k: int|
            if k % 10 == 9 {
                '\n'
            } else {
                digit_char(g[(k / 10) * 9 + k % 10])
            },
    )
}

/// The character of a cell value: `'0'` moved up by the value.
pub open spec fn digit_char(value: u8) -> char {
    ((value + ZERO) as u8) as char
}

/// Appends a character to the end of a string, by `String::push`.
#[verifier::external_body]
fn push_char(text: &mut String, c: char)
    ensures
        final(text)@ == old(text)@.push(c),
{
    text.push(c);
}

/// Why a text is not a board.
#[derive(Clone, Copy, Debug, PartialEq, Eq)]
pub enum ParseError {
    /// The text holds a byte that is neither a digit, a dot nor a newline.
    InvalidByte,
    /// The text holds more or fewer than 81 cells.
    WrongLength,
}

/// The byte of the character `0`.
pub const ZERO: u8 = 48;

/// The byte of the character `9`.
pub const NINE: u8 = 57;

/// The byte of a dot, which stands for an empty cell.
pub const DOT: u8 = 46;

/// The byte of a newline.
pub const NEWLINE: u8 = 10;

/// A byte that stands for a cell: a digit, or a dot for an empty cell.
pub open spec fn is_cell_byte(b: u8) -> bool {
    (ZERO <= b <= NINE) || b == DOT
}

/// A byte that may stand in the text of a board: a cell or a newline.
pub open spec fn is_text_byte(b: u8) -> bool {
    is_cell_byte(b) || b == NEWLINE
}

/// The value of the cell that a byte stands for.
pub open spec fn cell_value(b: u8) -> u8 {
    if b == DOT {
        0
    } else {
        (b - ZERO) as u8
    }
}

/// The cells that the first `n` bytes of a text stand for, newlines left
/// out.
pub open spec fn cells_in(data: Seq<u8>, n: int) -> Seq<u8>
    decreases n,
{
    if n <= 0 {
        Seq::empty()
    } else if data[n - 1] == NEWLINE {
        cells_in(data, n - 1)
    } else {
        cells_in(data, n - 1).push(cell_value(data[n - 1]))
    }
}

/// Reads a board from its text: 81 cells, each a digit or a dot, with
/// newlines anywhere between them. The text is refused where it holds any
/// other byte, and where the number of its cells is not 81.
pub fn parse_board(data: &[u8]) -> (parsed: Result<Board, ParseError>)
    ensures
        match parsed {
            Ok(board) => {
                &&& forall|i: int| 0 <= i < data@.len() ==> is_text_byte(#[trigger] data@[i])
                &&& board@ == cells_in(data@, data@.len() as int)
            },
            Err(ParseError::InvalidByte) => exists|i: int|
                0 <= i < data@.len() && !is_text_byte(#[trigger] data@[i]),
            Err(ParseError::WrongLength) => {
                &&& forall|i: int| 0 <= i < data@.len() ==> is_text_byte(#[trigger] data@[i])
                &&& cells_in(data@, data@.len() as int).len() != 81
            },
        },
{
    let mut buffer: [u8; 81] = [0; 81];
    let mut count: usize = 0;
    let mut i: usize = 0;
    while i < data.len()
        invariant
            i <= data@.len(),
            count <= i,
            count == cells_in(data@, i as int).len(),
            forall|k: int| 0 <= k < i ==> is_text_byte(#[trigger] data@[k]),
            forall|k: int| 0 <= k < count && k < 81 ==> buffer@[k] == cells_in(data@, i as int)[k],
            forall|k: int| 0 <= k < 81 ==> #[trigger] buffer@[k] <= 9,
        decreases data@.len() - i,
    {
        let byte = data[i];
        if byte == DOT || (ZERO <= byte && byte <= NINE) {
            if count < 81 {
                buffer[count] = if byte == DOT { 0 } else { byte - ZERO };
            }
            count += 1;
        } else if byte != NEWLINE {
            return Err(ParseError::InvalidByte);
        }
        i += 1;
    }
    if count != 81 {
        return Err(ParseError::WrongLength);
    }
    let board = Board { cells: buffer };
    assert(board@ =~= cells_in(data@, data@.len() as int));
    Ok(board)
}

/// Makes a board of nine rows of nine cell values. Fails where a value is
/// above 9.
pub fn board_from_2d(array: [[u8; 9]; 9]) -> (board: Option<Board>)
    ensures
        board is Some <==> forall|r: int, c: int|
            0 <= r < 9 && 0 <= c < 9 ==> #[trigger] array@[r]@[c] <= 9,
        board is Some ==> forall|r: int, c: int|
            0 <= r < 9 && 0 <= c < 9 ==> board->0@[r * 9 + c] == #[trigger] array@[r]@[c],
{
    let mut buff: [u8; 81] = [0; 81];
    let mut row: usize = 0;
    while row < 9
        invariant
            row <= 9,
            forall|r: int, c: int|
                0 <= r < row && 0 <= c < 9 ==> buff@[r * 9 + c] == #[trigger] array@[r]@[c],
        decreases 9 - row,
    {
        let row_offset = row * 9;
        let mut col: usize = 0;
        while col < 9
            invariant
                row < 9,
                col <= 9,
                row_offset == row * 9,
                forall|r: int, c: int|
                    0 <= r < row && 0 <= c < 9 ==> buff@[r * 9 + c] == #[trigger] array@[r]@[c],
                forall|c: int| 0 <= c < col ==> buff@[row * 9 + c] == #[trigger] array@[row as int]@[c],
            decreases 9 - col,
        {
            buff[row_offset + col] = array[row][col];
            col += 1;
        }
        row += 1;
    }
    let board = Board::new(buff);
    proof {
        if is_grid(buff@) {
            assert forall|r: int, c: int| 0 <= r < 9 && 0 <= c < 9 implies #[trigger] array@[r]@[c]
                <= 9 by {
                assert(buff@[r * 9 + c] <= 9);
            }
        }
        if forall|r: int, c: int| 0 <= r < 9 && 0 <= c < 9 ==> #[trigger] array@[r]@[c] <= 9 {
            assert forall|i: int| 0 <= i < 81 implies #[trigger] buff@[i] <= 9 by {
                let r = i / 9;
                let c = i % 9;
                assert(buff@[r * 9 + c] == array@[r]@[c]);
            }
        }
    }
    board
}

} // verus!
