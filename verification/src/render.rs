//! Boards and stored puzzles as text for people to read: three blocks to a
//! row, three rows to a band, bars and dashes between them.

use crate::board::index_of;
use crate::grid::{char_of, digit_str, is_digit, Sudoku, SudokuRaw};
use vstd::prelude::*;
use vstd::string::*;

verus! {

broadcast use SudokuRaw::lemma_view_len;

/// What follows the character of the cell at place `i` of a row: a bar after
/// the third and the sixth, a blank after the others.
pub open spec fn gap_after(i: int) -> Seq<char> {
    if i == 2 || i == 5 {
        " | "@
    } else {
        " "@
    }
}

/// What follows row `y`: a line of dashes after the third and the sixth row.
pub open spec fn rule_after(y: int) -> Seq<char> {
    if y == 2 || y == 5 {
        "---------------------\n"@
    } else {
        Seq::empty()
    }
}

/// A cell of a board at place `i` of its row: its digit, or a blank when it is empty.
pub open spec fn cell_text(digit: u8, i: int) -> Seq<char> {
    seq![if digit == 0 { ' ' } else { char_of(digit) }] + gap_after(i)
}

/// The first `n` cells of row `y`.
pub open spec fn row_text(b: Seq<u8>, y: int, n: int) -> Seq<char>
    decreases n,
{
    if n <= 0 {
        Seq::empty()
    } else {
        row_text(b, y, n - 1) + cell_text(b[index_of(n - 1, y)], n - 1)
    }
}

/// The first `n` rows of a board, each closed by a line break.
pub open spec fn board_text(b: Seq<u8>, n: int) -> Seq<char>
    decreases n,
{
    if n <= 0 {
        Seq::empty()
    } else {
        board_text(b, n - 1) + row_text(b, n - 1, 9) + "\n"@ + rule_after(n - 1)
    }
}

/// A character of a stored puzzle at place `i` of its row: a digit as on a
/// board, anything else as an `x` with nothing after it.
pub open spec fn mark_text(c: char, i: int) -> Seq<char> {
    if is_digit(c) {
        seq![if c == '0' { ' ' } else { c }] + gap_after(i)
    } else {
        "x"@
    }
}

/// The first `n` characters of a stored row.
pub open spec fn line_text(row: Seq<char>, n: int) -> Seq<char>
    decreases n,
{
    if n <= 0 {
        Seq::empty()
    } else {
        line_text(row, n - 1) + mark_text(row[n - 1], n - 1)
    }
}

/// The first `n` rows of a stored puzzle.
pub open spec fn lines_text(rows: Seq<String>, n: int) -> Seq<char>
    decreases n,
{
    if n <= 0 {
        Seq::empty()
    } else {
        lines_text(rows, n - 1) + line_text(rows[n - 1]@, rows[n - 1]@.len() as int) + "\n"@
            + rule_after(n - 1)
    }
}

/// A number in decimal digits.
pub open spec fn decimal(n: int) -> Seq<char>
    decreases n,
{
    if n < 10 {
        seq![char_of(n as u8)]
    } else {
        decimal(n / 10) + seq![char_of((n % 10) as u8)]
    }
}

/// The line that heads a stored puzzle.
pub open spec fn heading(id: Seq<char>, difficulty: u8) -> Seq<char> {
    "Suduko: "@ + id + " "@ + "Difficulty: "@ + decimal(difficulty as int) + " \n"@
}

/// Appends the decimal digits of `n`.
fn append_decimal(text: &mut String, n: u8)
    ensures
        final(text)@ == old(text)@ + decimal(n as int),
{
    let ghost before = text@;
    if n >= 100 {
        text.append(digit_str(n / 100));
    }
    if n >= 10 {
        text.append(digit_str((n / 10) % 10));
    }
    text.append(digit_str(n % 10));
    proof {
        reveal_with_fuel(decimal, 3);
        assert(text@ =~= before + decimal(n as int));
    }
}

/// Appends what follows the cell at place `i` of a row.
fn append_gap(text: &mut String, i: usize)
    ensures
        final(text)@ == old(text)@ + gap_after(i as int),
{
    if i == 2 || i == 5 {
        text.append(" | ");
    } else {
        text.append(" ");
    }
}

/// Closes row `y`: a line break, and after the third and the sixth row a line of dashes.
fn append_row_end(text: &mut String, y: usize)
    ensures
        final(text)@ == old(text)@ + "\n"@ + rule_after(y as int),
{
    let ghost before = text@;
    text.append("\n");
    if y == 2 || y == 5 {
        text.append("---------------------\n");
    }
    assert(text@ =~= before + "\n"@ + rule_after(y as int));
}

impl SudokuRaw {
    /// The board as text: each cell followed by a blank, a bar between the
    /// blocks of a row, a line of dashes between the bands, empty cells blank.
    pub fn render(&self) -> (text: String)
        ensures
            text@ == board_text(self@, 9),
    {
        let mut text = String::new();
        let mut y: u8 = 0;
        while y < 9
            invariant
                y <= 9,
                text@ == board_text(self@, y as int),
            decreases 9 - y,
        {
            let ghost above = text@;
            let mut x: u8 = 0;
            while x < 9
                invariant
                    x <= 9,
                    y < 9,
                    text@ == above + row_text(self@, y as int, x as int),
                decreases 9 - x,
            {
                let ghost before = text@;
                let digit = self.get(x, y);
                if digit == 0 {
                    proof {
                        reveal_strlit(" ");
                    }
                    text.append(" ");
                } else {
                    text.append(digit_str(digit));
                }
                append_gap(&mut text, x as usize);
                assert(text@ =~= before + cell_text(digit, x as int));
                assert(text@ =~= above + row_text(self@, y as int, x as int + 1));
                x += 1;
            }
            append_row_end(&mut text, y as usize);
            assert(text@ =~= board_text(self@, y as int + 1));
            y += 1;
        }
        text
    }
}

impl Sudoku {
    /// The stored puzzle as text: a heading with its name and difficulty, then
    /// its rows laid out like a board, with an `x` for what is not a digit.
    pub fn render(&self) -> (text: String)
        ensures
            text@ == heading(self.id@, self.difficulty) + lines_text(
                self.start@,
                self.start@.len() as int,
            ),
    {
        let mut text = String::from_str("Suduko: ");
        text.append(self.id.as_str());
        text.append(" ");
        text.append("Difficulty: ");
        append_decimal(&mut text, self.difficulty);
        text.append(" \n");
        let ghost head = text@;
        assert(head =~= heading(self.id@, self.difficulty));
        let n = self.start.len();
        let mut y: usize = 0;
        while y < n
            invariant
                y <= n,
                n == self.start@.len(),
                text@ == head + lines_text(self.start@, y as int),
            decreases n - y,
        {
            let ghost above = text@;
            let row = self.start[y].as_str();
            let width = row.unicode_len();
            let mut i: usize = 0;
            while i < width
                invariant
                    i <= width,
                    width == row@.len(),
                    text@ == above + line_text(row@, i as int),
                decreases width - i,
            {
                let ghost before = text@;
                let c = row.get_char(i);
                if '1' <= c && c <= '9' {
                    text.append(digit_str((c as u8) - ('0' as u8)));
                    append_gap(&mut text, i);
                } else if c == '0' {
                    proof {
                        reveal_strlit(" ");
                    }
                    text.append(" ");
                    append_gap(&mut text, i);
                } else {
                    text.append("x");
                }
                assert(text@ =~= before + mark_text(c, i as int));
                assert(text@ =~= above + line_text(row@, i as int + 1));
                i += 1;
            }
            append_row_end(&mut text, y);
            assert(text@ =~= head + lines_text(self.start@, y as int + 1));
            y += 1;
        }
        text
    }
}

} // verus!
