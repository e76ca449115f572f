//! The uniqueness rule at work: whether a digit may go into a cell, and
//! whether the filled cells of a board agree with each other.

use crate::board::{
    allows, column_of, consistent, index_of, is_board, lemma_coordinates, lemma_position, peers,
    row_of,
};
use crate::grid::{char_of, digit_str, SudokuError, SudokuRaw};
use vstd::prelude::*;
use vstd::string::*;

verus! {

broadcast use SudokuRaw::lemma_view_len;

/// The `i`-th of the twenty-seven cells that are read around `p`:
/// the nine of its row, then the nine of its column, then the nine of its box.
pub open spec fn unit_cell(p: int, i: int) -> int {
    if i < 9 {
        index_of(i, row_of(p))
    } else if i < 18 {
        index_of(column_of(p), i - 9)
    } else {
        index_of(3 * (column_of(p) / 3) + (i - 18) % 3, 3 * (row_of(p) / 3) + (i - 18) / 3)
    }
}

/// The `i`-th read around `p` meets `digit` in another cell.
pub open spec fn conflict_at(b: Seq<u8>, p: int, digit: u8, i: int) -> bool {
    unit_cell(p, i) != p && b[unit_cell(p, i)] == digit
}

/// The `i`-th read is the first that meets `digit` in another cell.
pub open spec fn first_conflict(b: Seq<u8>, p: int, digit: u8, i: int) -> bool {
    &&& 0 <= i < 27
    &&& conflict_at(b, p, digit, i)
    &&& forall|j: int| 0 <= j < i ==> !#[trigger] conflict_at(b, p, digit, j)
}

/// The text that names the cell in column `x` of row `y` as the cause.
pub open spec fn conflict_text(x: int, y: int) -> Seq<char> {
    "Due to "@ + seq![char_of(x as u8)] + ","@ + seq![char_of(y as u8)]
}

/// Each of the twenty-seven reads stays on the board, and lands on a peer
/// unless it lands on the cell itself.
pub proof fn lemma_unit_cell_is_peer(p: int, i: int)
    requires
        0 <= p < 81,
        0 <= i < 27,
    ensures
        0 <= unit_cell(p, i) < 81,
        unit_cell(p, i) != p ==> peers(p, unit_cell(p, i)),
{
    let x = column_of(p);
    let y = row_of(p);
    lemma_position(p);
    if i < 9 {
        lemma_coordinates(i, y);
    } else if i < 18 {
        lemma_coordinates(x, i - 9);
    } else {
        let k = i - 18;
        let cx = 3 * (x / 3) + k % 3;
        let cy = 3 * (y / 3) + k / 3;
        lemma_coordinates(cx, cy);
        assert(cx / 3 == x / 3);
        assert(cy / 3 == y / 3);
    }
}

/// Every peer of a cell is among the twenty-seven reads.
pub proof fn lemma_peer_is_read(p: int, q: int) -> (i: int)
    requires
        peers(p, q),
    ensures
        0 <= i < 27,
        unit_cell(p, i) == q,
{
    let x = column_of(p);
    let y = row_of(p);
    let qx = column_of(q);
    let qy = row_of(q);
    lemma_position(p);
    lemma_position(q);
    if y == qy {
        qx
    } else if x == qx {
        9 + qy
    } else {
        assert(x / 3 == qx / 3 && y / 3 == qy / 3);
        let k = 3 * (qy % 3) + qx % 3;
        assert(k % 3 == qx % 3);
        assert(k / 3 == qy % 3);
        assert(3 * (x / 3) + k % 3 == qx);
        assert(3 * (y / 3) + k / 3 == qy);
        18 + k
    }
}

/// Finds the first of the twenty-seven reads around the cell that meets `digit`
/// in another cell, and returns that cell.
fn find_conflict(grid: &SudokuRaw, x: u8, y: u8, digit: u8) -> (found: Option<(u8, u8)>)
    requires
        x < 9,
        y < 9,
    ensures
        match found {
            None => allows(grid@, index_of(x as int, y as int), digit),
            Some((cx, cy)) => {
                &&& cx < 9
                &&& cy < 9
                &&& !allows(grid@, index_of(x as int, y as int), digit)
                &&& exists|i: int|
                    #[trigger] first_conflict(grid@, index_of(x as int, y as int), digit, i)
                        && unit_cell(index_of(x as int, y as int), i) == index_of(
                        cx as int,
                        cy as int,
                    )
            },
        },
{
    let ghost p = index_of(x as int, y as int);
    let mut i: u8 = 0;
    while i < 27
        invariant
            i <= 27,
            x < 9,
            y < 9,
            p == index_of(x as int, y as int),
            forall|j: int| 0 <= j < i ==> !#[trigger] conflict_at(grid@, p, digit, j),
        decreases 27 - i,
    {
        let (cx, cy): (u8, u8) = if i < 9 {
            (i, y)
        } else if i < 18 {
            (x, i - 9)
        } else {
            (3 * (x / 3) + (i - 18) % 3, 3 * (y / 3) + (i - 18) / 3)
        };
        assert(index_of(cx as int, cy as int) == unit_cell(p, i as int));
        if (cx != x || cy != y) && grid.get(cx, cy) == digit {
            proof {
                lemma_unit_cell_is_peer(p, i as int);
                assert(first_conflict(grid@, p, digit, i as int));
                assert(peers(p, unit_cell(p, i as int)));
            }
            return Some((cx, cy));
        }
        i += 1;
    }
    proof {
        assert forall|q: int| #[trigger] peers(p, q) implies grid@[q] != digit by {
            let j = lemma_peer_is_read(p, q);
            assert(!conflict_at(grid@, p, digit, j));
        }
    }
    None
}

/// Whether `digit` may go into the cell in column `x` of row `y`: it may unless
/// another cell of that row, of that column or of the cell's box already holds it.
pub fn can_place(grid: &SudokuRaw, x: u8, y: u8, digit: u8) -> (ok: bool)
    requires
        x < 9,
        y < 9,
    ensures
        ok == allows(grid@, index_of(x as int, y as int), digit),
{
    find_conflict(grid, x, y, digit).is_none()
}

/// Whether no two cells of one row, column or box hold the same digit.
pub fn is_consistent(grid: &SudokuRaw) -> (ok: bool)
    ensures
        ok == consistent(grid@),
{
    let mut y: u8 = 0;
    while y < 9
        invariant
            y <= 9,
            forall|p: int|
                0 <= p < index_of(0, y as int) && grid@[p] != 0 ==> #[trigger] allows(
                    grid@,
                    p,
                    grid@[p],
                ),
        decreases 9 - y,
    {
        let mut x: u8 = 0;
        while x < 9
            invariant
                x <= 9,
                y < 9,
                forall|p: int|
                    0 <= p < index_of(x as int, y as int) && grid@[p] != 0 ==> #[trigger] allows(
                        grid@,
                        p,
                        grid@[p],
                    ),
            decreases 9 - x,
        {
            let digit = grid.get(x, y);
            if digit != 0 && !can_place(grid, x, y, digit) {
                proof {
                    let p = index_of(x as int, y as int);
                    let q = choose|q: int| peers(p, q) && grid@[q] == digit;
                    assert(peers(p, q) && grid@[p] != 0 && grid@[p] == grid@[q]);
                }
                return false;
            }
            x += 1;
        }
        y += 1;
    }
    proof {
        assert forall|p: int, q: int| #[trigger] peers(p, q) && grid@[p] != 0 implies grid@[p]
            != grid@[q] by {
            assert(allows(grid@, p, grid@[p]));
        }
    }
    true
}

impl SudokuRaw {
    /// Puts `val` into the cell in column `x` of row `y` if the rule allows it.
    /// Otherwise the board stays as it is, and the error names the first cell
    /// among the twenty-seven reads that already holds `val`.
    pub fn place(&mut self, x: u8, y: u8, val: u8) -> (result: Result<(), SudokuError>)
        requires
            x < 9,
            y < 9,
            val <= 9,
        ensures
            is_board(old(self)@),
            is_board(final(self)@),
            final(self).clues() == old(self).clues(),
            match result {
                Ok(()) => {
                    &&& allows(old(self)@, index_of(x as int, y as int), val)
                    &&& final(self)@ == old(self)@.update(index_of(x as int, y as int), val)
                },
                Err(SudokuError::InvalidPlacement(text)) => {
                    &&& !allows(old(self)@, index_of(x as int, y as int), val)
                    &&& final(self)@ == old(self)@
                    &&& exists|i: int|
                        #[trigger] first_conflict(
                            old(self)@,
                            index_of(x as int, y as int),
                            val,
                            i,
                        ) && text@ == conflict_text(
                            column_of(unit_cell(index_of(x as int, y as int), i)),
                            row_of(unit_cell(index_of(x as int, y as int), i)),
                        )
                },
                Err(SudokuError::FormatError) => false,
            },
    {
        proof {
            use_type_invariant(&*self);
            self.lemma_is_board();
        }
        match find_conflict(self, x, y, val) {
            None => {
                self.set(x, y, val);
                Ok(())
            },
            Some((cx, cy)) => {
                let mut text = String::from_str("Due to ");
                text.append(digit_str(cx));
                text.append(",");
                text.append(digit_str(cy));
                assert(text@ =~= conflict_text(cx as int, cy as int));
                Err(SudokuError::InvalidPlacement(text))
            },
        }
    }
}

} // verus!
