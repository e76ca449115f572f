//! The mathematical model of a board: eighty-one digits in scan order,
//! and the uniqueness rule over rows, columns and boxes.

use vstd::prelude::*;

verus! {

/// Position of the cell in column `x` of row `y` in scan order (row by row).
pub open spec fn index_of(x: int, y: int) -> int {
    9 * y + x
}

/// The column of position `p`.
pub open spec fn column_of(p: int) -> int {
    p % 9
}

/// The row of position `p`.
pub open spec fn row_of(p: int) -> int {
    p / 9
}

/// Number of the 3x3 box that holds position `p`, counted row by row.
pub open spec fn box_of(p: int) -> int {
    3 * (row_of(p) / 3) + column_of(p) / 3
}

/// Eighty-one cells, each a digit from 0 to 9, where 0 stands for an empty cell.
pub open spec fn is_board(b: Seq<u8>) -> bool {
    &&& b.len() == 81
    &&& forall|p: int| 0 <= p < 81 ==> #[trigger] b[p] <= 9
}

/// A column and a row give a position on the board, and the position gives them back.
pub proof fn lemma_coordinates(x: int, y: int)
    requires
        0 <= x < 9,
        0 <= y < 9,
    ensures
        0 <= index_of(x, y) < 81,
        column_of(index_of(x, y)) == x,
        row_of(index_of(x, y)) == y,
{
}

/// A position on the board has a column and a row, which give it back.
pub proof fn lemma_position(p: int)
    requires
        0 <= p < 81,
    ensures
        0 <= column_of(p) < 9,
        0 <= row_of(p) < 9,
        index_of(column_of(p), row_of(p)) == p,
{
}

/// Two different cells that share a row, a column or a box.
pub open spec fn peers(p: int, q: int) -> bool {
    &&& 0 <= p < 81
    &&& 0 <= q < 81
    &&& p != q
    &&& (row_of(p) == row_of(q) || column_of(p) == column_of(q) || box_of(p) == box_of(q))
}

/// No peer of `p` holds `digit`.
pub open spec fn allows(b: Seq<u8>, p: int, digit: u8) -> bool {
    forall|q: int| #[trigger] peers(p, q) ==> b[q] != digit
}

/// No two peers hold the same digit (empty cells aside).
pub open spec fn consistent(b: Seq<u8>) -> bool {
    forall|p: int, q: int| #[trigger] peers(p, q) && b[p] != 0 ==> b[p] != b[q]
}

/// No cell is empty.
pub open spec fn complete(b: Seq<u8>) -> bool {
    forall|p: int| 0 <= p < 81 ==> #[trigger] b[p] != 0
}

/// `s` keeps every filled cell of `b`.
pub open spec fn extends(s: Seq<u8>, b: Seq<u8>) -> bool {
    forall|p: int| 0 <= p < 81 && #[trigger] b[p] != 0 ==> s[p] == b[p]
}

/// `s` is a full board that obeys the uniqueness rule and keeps the filled cells of `b`.
pub open spec fn is_solution_of(s: Seq<u8>, b: Seq<u8>) -> bool {
    &&& is_board(s)
    &&& complete(s)
    &&& consistent(s)
    &&& extends(s, b)
}

/// `s` and `t` hold the same digits at all positions before `p`.
pub open spec fn same_before(s: Seq<u8>, t: Seq<u8>, p: int) -> bool {
    forall|q: int| 0 <= q < p ==> #[trigger] s[q] == t[q]
}

/// No solution of `b` comes before `s` when boards are compared cell by cell in scan order:
/// where a solution first differs from `s`, it holds the larger digit.
pub open spec fn first_in_order(s: Seq<u8>, b: Seq<u8>) -> bool {
    forall|t: Seq<u8>, p: int|
        is_solution_of(t, b) && 0 <= p < 81 && #[trigger] same_before(t, s, p) ==> t[p] >= s[p]
}

} // verus!
