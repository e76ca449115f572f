//! The 9x9 board of digits, built from the nine text rows of a puzzle.

use crate::board::{column_of, index_of, is_board, row_of};
use vstd::prelude::*;
use vstd::string::*;

verus! {

/// What can go wrong when a puzzle is read or a digit is placed.
#[derive(Debug, PartialEq, Eq)]
pub enum SudokuError {
    /// The digit is already held by a cell of the same row, column or box;
    /// the text names that cell.
    InvalidPlacement(String),
    /// The puzzle text is not nine rows of nine digit characters.
    FormatError,
}

/// A puzzle as it is stored: nine rows of nine characters, '0' for a blank.
#[derive(Debug, PartialEq, Eq)]
pub struct Sudoku {
    pub id: String,
    pub difficulty: u8,
    pub start: Vec<String>,
}

impl Clone for Sudoku {
    fn clone(&self) -> (copy: Self)
        ensures
            copy.id@ == self.id@,
            copy.difficulty == self.difficulty,
            copy.start@ == self.start@,
    {
        let mut start: Vec<String> = Vec::new();
        let mut i: usize = 0;
        while i < self.start.len()
            invariant
                i <= self.start@.len(),
                start@ == self.start@.take(i as int),
            decreases self.start@.len() - i,
        {
            start.push(self.start[i].clone());
            assert(start@ =~= self.start@.take(i as int + 1));
            i += 1;
        }
        assert(start@ =~= self.start@);
        Sudoku { id: self.id.clone(), difficulty: self.difficulty, start }
    }
}

/// The board: a digit from 0 to 9 in each cell, 0 for an empty cell,
/// and for each cell whether the puzzle fixed it.
#[derive(Debug, PartialEq, Eq)]
pub struct SudokuRaw {
    cell: [[u8; 9]; 9],
    given: [[bool; 9]; 9],
}

impl View for SudokuRaw {
    type V = Seq<u8>;

    /// The cells in scan order: row by row, each row from left to right.
    closed spec fn view(&self) -> Seq<u8> {
        Seq::new(81, |p: int| self.cell[row_of(p)][column_of(p)])
    }
}

impl Clone for SudokuRaw {
    fn clone(&self) -> (copy: Self)
        ensures
            copy == *self,
    {
        proof {
            use_type_invariant(self);
        }
        SudokuRaw { cell: self.cell, given: self.given }
    }
}

/// One of the ten characters from '0' to '9'.
pub open spec fn is_digit(c: char) -> bool {
    '0' <= c <= '9'
}

/// The digit that a digit character stands for.
pub open spec fn digit_of(c: char) -> u8 {
    (c as int - '0' as int) as u8
}

/// The character that stands for a digit.
pub open spec fn char_of(digit: u8) -> char {
    (digit as int + '0' as int) as char
}

/// The rows as sequences of characters.
pub open spec fn text_of(rows: Seq<String>) -> Seq<Seq<char>> {
    Seq::new(rows.len(), |i: int| rows[i]@)
}

/// Nine rows of nine digit characters each.
pub open spec fn is_puzzle_text(text: Seq<Seq<char>>) -> bool {
    &&& text.len() == 9
    &&& forall|y: int| 0 <= y < 9 ==> (#[trigger] text[y]).len() == 9
    &&& forall|x: int, y: int| 0 <= x < 9 && 0 <= y < 9 ==> is_digit(#[trigger] text[y][x])
}

/// The board that a puzzle text stands for.
pub open spec fn cells_of_text(text: Seq<Seq<char>>) -> Seq<u8> {
    Seq::new(81, |p: int| digit_of(text[row_of(p)][column_of(p)]))
}

/// The puzzle text that shows a board.
pub open spec fn text_of_cells(b: Seq<u8>) -> Seq<Seq<char>> {
    Seq::new(9, |y: int| Seq::new(9, |x: int| char_of(b[index_of(x, y)])))
}

/// Which cells of a board are filled.
pub open spec fn filled(b: Seq<u8>) -> Seq<bool> {
    Seq::new(81, |p: int| b[p] != 0)
}

/// The one-character text of a digit.
pub(crate) fn digit_str(digit: u8) -> (text: &'static str)
    requires
        digit <= 9,
    ensures
        text@ == seq![char_of(digit)],
{
    proof {
        reveal_strlit("0");
        reveal_strlit("1");
        reveal_strlit("2");
        reveal_strlit("3");
        reveal_strlit("4");
        reveal_strlit("5");
        reveal_strlit("6");
        reveal_strlit("7");
        reveal_strlit("8");
        reveal_strlit("9");
    }
    let text = match digit {
        0 => "0",
        1 => "1",
        2 => "2",
        3 => "3",
        4 => "4",
        5 => "5",
        6 => "6",
        7 => "7",
        8 => "8",
        _ => "9",
    };
    assert(text@ =~= seq![char_of(digit)]);
    text
}

impl SudokuRaw {
    /// Every cell holds a digit from 0 to 9.
    #[verifier::type_invariant]
    pub closed spec fn digits_in_range(&self) -> bool {
        forall|i: int, j: int| 0 <= i < 9 && 0 <= j < 9 ==> #[trigger] self.cell[i][j] <= 9
    }

    /// For each position, whether the cell was filled when the board was built.
    pub closed spec fn clues(&self) -> Seq<bool> {
        Seq::new(81, |p: int| self.given[row_of(p)][column_of(p)])
    }

    /// The digit in column `x` of row `y`.
    pub open spec fn at(&self, x: int, y: int) -> u8 {
        self@[index_of(x, y)]
    }

    /// The view of a board has eighty-one cells.
    pub broadcast proof fn lemma_view_len(&self)
        ensures
            #[trigger] self@.len() == 81,
    {
    }

    /// There is a clue mark for each of the eighty-one cells.
    pub broadcast proof fn lemma_clues_len(&self)
        ensures
            #[trigger] self.clues().len() == 81,
    {
    }

    /// A value that meets the type's invariant shows a board.
    pub proof fn lemma_is_board(&self)
        requires
            self.digits_in_range(),
        ensures
            is_board(self@),
            self.clues().len() == 81,
    {
    }

    /// Reads a puzzle: row `y` of the text fills row `y` of the board, and
    /// the cells that the text fills are the clues.
    pub fn from_text(rows: &[String]) -> (result: Result<SudokuRaw, SudokuError>)
        ensures
            match result {
                Ok(grid) => {
                    &&& is_puzzle_text(text_of(rows@))
                    &&& is_board(grid@)
                    &&& grid@ == cells_of_text(text_of(rows@))
                    &&& grid.clues() == filled(grid@)
                },
                Err(e) => !is_puzzle_text(text_of(rows@)) && e == SudokuError::FormatError,
            },
    {
        if rows.len() != 9 {
            return Err(SudokuError::FormatError);
        }
        let ghost text = text_of(rows@);
        let mut cell: [[u8; 9]; 9] = [[0u8; 9]; 9];
        let mut given: [[bool; 9]; 9] = [[false; 9]; 9];
        let mut y: usize = 0;
        while y < 9
            invariant
                y <= 9,
                rows@.len() == 9,
                text == text_of(rows@),
                text.len() == 9,
                forall|j: int| 0 <= j < y ==> (#[trigger] text[j]).len() == 9,
                forall|i: int, j: int|
                    0 <= i < 9 && 0 <= j < y ==> is_digit(#[trigger] text[j][i]),
                forall|i: int, j: int|
                    0 <= i < 9 && 0 <= j < y ==> #[trigger] cell[j][i] == digit_of(text[j][i]),
                forall|i: int, j: int|
                    0 <= i < 9 && 0 <= j < y ==> #[trigger] given[j][i] == (cell[j][i] != 0),
                forall|i: int, j: int| 0 <= i < 9 && 0 <= j < 9 ==> #[trigger] cell[j][i] <= 9,
            decreases 9 - y,
        {
            let row = rows[y].as_str();
            assert(row@ == text[y as int]);
            if row.unicode_len() != 9 {
                return Err(SudokuError::FormatError);
            }
            let mut x: usize = 0;
            while x < 9
                invariant
                    x <= 9,
                    y < 9,
                    text == text_of(rows@),
                    text.len() == 9,
                    row@ == text[y as int],
                    row@.len() == 9,
                    forall|i: int| 0 <= i < x ==> is_digit(#[trigger] row@[i]),
                    forall|i: int|
                        0 <= i < x ==> #[trigger] cell[y as int][i] == digit_of(row@[i]),
                    forall|i: int|
                        0 <= i < x ==> #[trigger] given[y as int][i] == (cell[y as int][i] != 0),
                    forall|i: int, j: int|
                        0 <= i < 9 && 0 <= j < y ==> #[trigger] cell[j][i] == digit_of(
                            text[j][i],
                        ),
                    forall|i: int, j: int|
                        0 <= i < 9 && 0 <= j < y ==> #[trigger] given[j][i] == (cell[j][i] != 0),
                    forall|i: int, j: int|
                        0 <= i < 9 && 0 <= j < 9 ==> #[trigger] cell[j][i] <= 9,
                decreases 9 - x,
            {
                let c = row.get_char(x);
                if !('0' <= c && c <= '9') {
                    assert(!is_digit(text[y as int][x as int]));
                    return Err(SudokuError::FormatError);
                }
                let digit: u8 = (c as u8) - ('0' as u8);
                cell[y][x] = digit;
                given[y][x] = digit != 0;
                x += 1;
            }
            y += 1;
        }
        let grid = SudokuRaw { cell, given };
        assert(grid@ =~= cells_of_text(text));
        assert(grid.clues() =~= filled(grid@));
        Ok(grid)
    }

    /// Builds the board of a stored puzzle from its rows.
    pub fn from(value: Sudoku) -> (result: Result<SudokuRaw, SudokuError>)
        ensures
            match result {
                Ok(grid) => {
                    &&& is_puzzle_text(text_of(value.start@))
                    &&& is_board(grid@)
                    &&& grid@ == cells_of_text(text_of(value.start@))
                    &&& grid.clues() == filled(grid@)
                },
                Err(e) => !is_puzzle_text(text_of(value.start@)) && e
                    == SudokuError::FormatError,
            },
    {
        SudokuRaw::from_text(value.start.as_slice())
    }

    /// Writes the board back as nine rows of nine digit characters.
    pub fn to_text(&self) -> (rows: Vec<String>)
        ensures
            text_of(rows@) == text_of_cells(self@),
    {
        proof {
            use_type_invariant(self);
        }
        let mut rows: Vec<String> = Vec::new();
        let mut y: usize = 0;
        while y < 9
            invariant
                y <= 9,
                rows@.len() == y,
                self.digits_in_range(),
                forall|j: int| 0 <= j < y ==> (#[trigger] rows@[j])@ == text_of_cells(self@)[j],
            decreases 9 - y,
        {
            let mut row = String::new();
            let mut x: usize = 0;
            while x < 9
                invariant
                    x <= 9,
                    y < 9,
                    self.digits_in_range(),
                    row@.len() == x,
                    forall|i: int|
                        0 <= i < x ==> #[trigger] row@[i] == char_of(self@[index_of(i, y as int)]),
                decreases 9 - x,
            {
                row.append(digit_str(self.cell[y][x]));
                x += 1;
            }
            assert(row@ =~= text_of_cells(self@)[y as int]);
            rows.push(row);
            y += 1;
        }
        assert(text_of(rows@) =~= text_of_cells(self@));
        rows
    }

    /// The digit in column `x` of row `y`; 0 when the cell is empty.
    pub fn get(&self, x: u8, y: u8) -> (digit: u8)
        requires
            x < 9,
            y < 9,
        ensures
            digit == self.at(x as int, y as int),
            digit <= 9,
    {
        proof {
            use_type_invariant(self);
        }
        self.cell[y as usize][x as usize]
    }

    /// Writes `digit` into the cell, whatever the cell or its peers hold.
    pub fn set(&mut self, x: u8, y: u8, digit: u8)
        requires
            x < 9,
            y < 9,
            digit <= 9,
        ensures
            is_board(old(self)@),
            is_board(final(self)@),
            final(self)@ == old(self)@.update(index_of(x as int, y as int), digit),
            final(self).clues() == old(self).clues(),
    {
        proof {
            use_type_invariant(&*self);
            self.lemma_is_board();
        }
        self.cell[y as usize][x as usize] = digit;
    }

    /// Whether the cell in column `x` of row `y` holds no digit.
    pub fn is_empty(&self, x: u8, y: u8) -> (empty: bool)
        requires
            x < 9,
            y < 9,
        ensures
            empty == (self.at(x as int, y as int) == 0),
    {
        self.cell[y as usize][x as usize] == 0
    }

    /// Whether the cell in column `x` of row `y` was filled when the board was
    /// built, whatever it holds now.
    pub fn is_given(&self, x: u8, y: u8) -> (given: bool)
        requires
            x < 9,
            y < 9,
        ensures
            given == self.clues()[index_of(x as int, y as int)],
    {
        self.given[y as usize][x as usize]
    }
}

} // verus!
