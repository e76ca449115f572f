//! What holds of every board, every puzzle text and every solution.

use crate::board::{
    box_of, column_of, complete, consistent, first_in_order, index_of, is_board, is_solution_of,
    lemma_coordinates, lemma_position, peers, row_of, same_before,
};
use crate::grid::{cells_of_text, digit_of, filled, is_digit, is_puzzle_text, text_of_cells};
use crate::search::{run, start, Phase, Search};
use vstd::prelude::*;
use vstd::set_lib::{lemma_int_range, lemma_subset_equality, set_int_range};

verus! {

/// The positions of row `y`, from left to right.
pub open spec fn row_cells(y: int) -> Seq<int> {
    Seq::new(9, |i: int| index_of(i, y))
}

/// The positions of column `x`, from top to bottom.
pub open spec fn column_cells(x: int) -> Seq<int> {
    Seq::new(9, |i: int| index_of(x, i))
}

/// The positions of box `k`, row by row; the boxes are counted row by row too.
pub open spec fn box_cells(k: int) -> Seq<int> {
    Seq::new(9, |i: int| index_of(3 * (k % 3) + i % 3, 3 * (k / 3) + i / 3))
}

/// Exactly one of the nine positions in `unit` holds `digit`.
pub open spec fn holds_once(b: Seq<u8>, unit: Seq<int>, digit: u8) -> bool {
    exists|i: int|
        0 <= i < 9 && #[trigger] b[unit[i]] == digit && forall|j: int|
            0 <= j < 9 && #[trigger] b[unit[j]] == digit ==> j == i
}

/// Every row, every column and every box holds each digit from 1 to 9 exactly once.
pub open spec fn units_hold_each_digit_once(b: Seq<u8>) -> bool {
    &&& forall|k: int, digit: u8|
        0 <= k < 9 && 1 <= digit <= 9 ==> #[trigger] holds_once(b, row_cells(k), digit)
    &&& forall|k: int, digit: u8|
        0 <= k < 9 && 1 <= digit <= 9 ==> #[trigger] holds_once(b, column_cells(k), digit)
    &&& forall|k: int, digit: u8|
        0 <= k < 9 && 1 <= digit <= 9 ==> #[trigger] holds_once(b, box_cells(k), digit)
}

/// Nine different numbers from 1 to 9 are all of them.
proof fn lemma_nine_of_nine(v: Seq<int>, d: int) -> (i: int)
    requires
        v.len() == 9,
        forall|i: int| 0 <= i < 9 ==> 1 <= #[trigger] v[i] <= 9,
        forall|i: int, j: int| 0 <= i < j < 9 ==> #[trigger] v[i] != #[trigger] v[j],
        1 <= d <= 9,
    ensures
        0 <= i < 9,
        v[i] == d,
{
    assert(v.no_duplicates());
    v.unique_seq_to_set();
    lemma_int_range(1, 10);
    let held = v.to_set();
    let all = set_int_range(1, 10);
    assert forall|n: int| held.contains(n) implies all.contains(n) by {
        assert(v.contains(n));
        let i = choose|i: int| 0 <= i < 9 && v[i] == n;
        assert(1 <= v[i] <= 9);
    }
    assert(held.subset_of(all));
    lemma_subset_equality(held, all);
    assert(all.contains(d));
    assert(v.contains(d));
    choose|i: int| 0 <= i < 9 && v[i] == d
}

/// On a full board that obeys the uniqueness rule, nine positions that are
/// peers of each other hold each digit from 1 to 9 exactly once.
proof fn lemma_unit_holds_once(b: Seq<u8>, unit: Seq<int>, digit: u8)
    requires
        is_board(b),
        complete(b),
        consistent(b),
        unit.len() == 9,
        forall|i: int| 0 <= i < 9 ==> 0 <= #[trigger] unit[i] < 81,
        forall|i: int, j: int| 0 <= i < j < 9 ==> peers(#[trigger] unit[i], #[trigger] unit[j]),
        1 <= digit <= 9,
    ensures
        holds_once(b, unit, digit),
{
    let v = Seq::new(9, |i: int| b[unit[i]] as int);
    assert forall|i: int| 0 <= i < 9 implies 1 <= #[trigger] v[i] <= 9 by {
        assert(b[unit[i]] != 0 && b[unit[i]] <= 9);
    }
    assert forall|i: int, j: int| 0 <= i < j < 9 implies #[trigger] v[i] != #[trigger] v[j] by {
        assert(peers(unit[i], unit[j]) && b[unit[i]] != 0);
    }
    let i = lemma_nine_of_nine(v, digit as int);
    assert(b[unit[i]] == digit);
    assert forall|j: int| 0 <= j < 9 && #[trigger] b[unit[j]] == digit implies j == i by {
        if j < i {
            assert(v[j] != v[i]);
        } else if i < j {
            assert(v[i] != v[j]);
        }
    }
}

/// Every row of a full board that obeys the uniqueness rule holds each digit
/// from 1 to 9 exactly once; so does every column, and so does every box.
pub proof fn lemma_solved_units(b: Seq<u8>, k: int, digit: u8)
    requires
        is_board(b),
        complete(b),
        consistent(b),
        0 <= k < 9,
        1 <= digit <= 9,
    ensures
        holds_once(b, row_cells(k), digit),
        holds_once(b, column_cells(k), digit),
        holds_once(b, box_cells(k), digit),
{
    let row = row_cells(k);
    assert forall|i: int, j: int| 0 <= i < j < 9 implies peers(
        #[trigger] row[i],
        #[trigger] row[j],
    ) by {
        lemma_coordinates(i, k);
        lemma_coordinates(j, k);
    }
    lemma_unit_holds_once(b, row, digit);
    let column = column_cells(k);
    assert forall|i: int, j: int| 0 <= i < j < 9 implies peers(
        #[trigger] column[i],
        #[trigger] column[j],
    ) by {
        lemma_coordinates(k, i);
        lemma_coordinates(k, j);
    }
    lemma_unit_holds_once(b, column, digit);
    let block = box_cells(k);
    assert forall|i: int, j: int| 0 <= i < j < 9 implies peers(
        #[trigger] block[i],
        #[trigger] block[j],
    ) by {
        lemma_coordinates(3 * (k % 3) + i % 3, 3 * (k / 3) + i / 3);
        lemma_coordinates(3 * (k % 3) + j % 3, 3 * (k / 3) + j / 3);
        assert(box_of(block[i]) == k);
        assert(box_of(block[j]) == k);
    }
    assert forall|i: int| 0 <= i < 9 implies 0 <= #[trigger] block[i] < 81 by {
        lemma_coordinates(3 * (k % 3) + i % 3, 3 * (k / 3) + i / 3);
    }
    lemma_unit_holds_once(b, block, digit);
}

/// On a full board that obeys the uniqueness rule, every row, every column and
/// every box holds each digit from 1 to 9 exactly once.
pub proof fn lemma_units_of_a_full_board(b: Seq<u8>)
    requires
        is_board(b),
        complete(b),
        consistent(b),
    ensures
        units_hold_each_digit_once(b),
{
    assert forall|k: int, digit: u8| 0 <= k < 9 && 1 <= digit <= 9 implies #[trigger] holds_once(
        b,
        row_cells(k),
        digit,
    ) by {
        lemma_solved_units(b, k, digit);
    }
    assert forall|k: int, digit: u8| 0 <= k < 9 && 1 <= digit <= 9 implies #[trigger] holds_once(
        b,
        column_cells(k),
        digit,
    ) by {
        lemma_solved_units(b, k, digit);
    }
    assert forall|k: int, digit: u8| 0 <= k < 9 && 1 <= digit <= 9 implies #[trigger] holds_once(
        b,
        box_cells(k),
        digit,
    ) by {
        lemma_solved_units(b, k, digit);
    }
}

/// Where nine positions hold each digit from 1 to 9, none of them is empty.
proof fn lemma_unit_is_full(b: Seq<u8>, unit: Seq<int>, i: int)
    requires
        is_board(b),
        unit.len() == 9,
        forall|j: int| 0 <= j < 9 ==> 0 <= #[trigger] unit[j] < 81,
        forall|digit: u8| 1 <= digit <= 9 ==> #[trigger] holds_once(b, unit, digit),
        0 <= i < 9,
    ensures
        b[unit[i]] != 0,
{
    // For each digit the place that holds it, counted from 1: nine different
    // numbers from 1 to 9, so one of them is the place `i`.
    let v = Seq::new(9, |n: int| place_of(b, unit, (n + 1) as u8) + 1);
    assert forall|n: int| 0 <= n < 9 implies 1 <= #[trigger] v[n] <= 9 && b[unit[v[n] - 1]] == (n
        + 1) as u8 by {
        assert(holds_once(b, unit, (n + 1) as u8));
    }
    assert forall|m: int, n: int| 0 <= m < n < 9 implies #[trigger] v[m] != #[trigger] v[n] by {
        assert(b[unit[v[m] - 1]] == (m + 1) as u8);
        assert(b[unit[v[n] - 1]] == (n + 1) as u8);
    }
    let n = lemma_nine_of_nine(v, i + 1);
    assert(b[unit[v[n] - 1]] == (n + 1) as u8);
}

/// A place in `unit` that holds `digit`, where there is one.
spec fn place_of(b: Seq<u8>, unit: Seq<int>, digit: u8) -> int {
    choose|j: int| 0 <= j < 9 && b[unit[j]] == digit
}

/// A board on which every row, every column and every box holds each digit
/// from 1 to 9 exactly once is full and obeys the uniqueness rule.
pub proof fn lemma_board_of_full_units(b: Seq<u8>)
    requires
        is_board(b),
        units_hold_each_digit_once(b),
    ensures
        complete(b),
        consistent(b),
{
    assert forall|p: int| 0 <= p < 81 implies #[trigger] b[p] != 0 by {
        lemma_position(p);
        let row = row_cells(row_of(p));
        assert forall|j: int| 0 <= j < 9 implies 0 <= #[trigger] row[j] < 81 by {
            lemma_coordinates(j, row_of(p));
        }
        assert forall|digit: u8| 1 <= digit <= 9 implies #[trigger] holds_once(b, row, digit) by {
            assert(holds_once(b, row_cells(row_of(p)), digit));
        }
        lemma_unit_is_full(b, row, column_of(p));
    }
    assert forall|p: int, q: int| #[trigger] peers(p, q) && b[p] != 0 implies b[p] != b[q] by {
        lemma_position(p);
        lemma_position(q);
        let digit = b[p];
        if b[p] == b[q] {
            if row_of(p) == row_of(q) {
                let unit = row_cells(row_of(p));
                assert(holds_once(b, unit, digit));
                assert(unit[column_of(p)] == p);
                assert(unit[column_of(q)] == q);
            } else if column_of(p) == column_of(q) {
                let unit = column_cells(column_of(p));
                assert(holds_once(b, unit, digit));
                assert(unit[row_of(p)] == p);
                assert(unit[row_of(q)] == q);
            } else {
                let k = box_of(p);
                let unit = box_cells(k);
                assert(holds_once(b, unit, digit));
                let i = 3 * (row_of(p) % 3) + column_of(p) % 3;
                let j = 3 * (row_of(q) % 3) + column_of(q) % 3;
                assert(k / 3 == row_of(p) / 3 && k % 3 == column_of(p) / 3);
                assert(k / 3 == row_of(q) / 3 && k % 3 == column_of(q) / 3);
                assert(i / 3 == row_of(p) % 3 && i % 3 == column_of(p) % 3);
                assert(j / 3 == row_of(q) % 3 && j % 3 == column_of(q) % 3);
                assert(unit[i] == p);
                assert(unit[j] == q);
            }
        }
    }
}

/// A solution of a puzzle holds, in every cell that the puzzle text fills, the
/// digit that the text gives: the clues are never altered.
pub proof fn lemma_clues_survive(text: Seq<Seq<char>>, solved: Seq<u8>, x: int, y: int)
    requires
        is_puzzle_text(text),
        is_solution_of(solved, cells_of_text(text)),
        0 <= x < 9,
        0 <= y < 9,
        filled(cells_of_text(text))[index_of(x, y)],
    ensures
        text[y][x] != '0',
        solved[index_of(x, y)] == digit_of(text[y][x]),
{
    lemma_coordinates(x, y);
    let b = cells_of_text(text);
    assert(b[index_of(x, y)] != 0);
    assert(is_digit(text[y][x]));
}

/// A full board that obeys the uniqueness rule is its own solution, the first
/// in order, and it has no other.
pub proof fn lemma_full_board_is_its_only_solution(b: Seq<u8>)
    requires
        is_board(b),
        complete(b),
        consistent(b),
    ensures
        is_solution_of(b, b),
        first_in_order(b, b),
        forall|t: Seq<u8>| is_solution_of(t, b) ==> t == b,
{
    assert forall|t: Seq<u8>| is_solution_of(t, b) implies t == b by {
        assert forall|p: int| 0 <= p < 81 implies t[p] == b[p] by {
            assert(b[p] != 0);
        }
        assert(t =~= b);
    }
}

/// On a full board the search only moves its cursor: from the start it is,
/// after `n` transitions, on position `n` with nothing filled and the board as
/// it was, and the transition after the eighty-first ends it in `Solved`.
pub proof fn lemma_full_board_is_scanned(b: Seq<u8>, n: int)
    requires
        is_board(b),
        complete(b),
        0 <= n <= 82,
    ensures
        run(b, start(), n).0 == b,
        run(b, start(), n).1 == (Search {
            cursor: if n <= 81 {
                n
            } else {
                81
            },
            candidate: 1,
            stack: Seq::empty(),
            phase: if n <= 81 {
                Phase::Scanning
            } else {
                Phase::Solved
            },
        }),
    decreases n,
{
    if n > 0 {
        lemma_full_board_is_scanned(b, n - 1);
        if n <= 81 {
            assert(b[n - 1] != 0);
        }
    }
}

/// The text of the board of a puzzle text is that text again.
pub proof fn lemma_text_round_trip(text: Seq<Seq<char>>)
    requires
        is_puzzle_text(text),
    ensures
        is_board(cells_of_text(text)),
        text_of_cells(cells_of_text(text)) == text,
{
    let b = cells_of_text(text);
    let back = text_of_cells(b);
    assert forall|p: int| 0 <= p < 81 implies #[trigger] b[p] <= 9 by {
        lemma_position(p);
        assert(is_digit(text[row_of(p)][column_of(p)]));
    }
    assert forall|y: int| 0 <= y < 9 implies #[trigger] back[y] == text[y] by {
        assert forall|x: int| 0 <= x < 9 implies #[trigger] back[y][x] == text[y][x] by {
            lemma_coordinates(x, y);
            assert(is_digit(text[y][x]));
        }
        assert(text[y].len() == 9);
        assert(back[y] =~= text[y]);
    }
    assert(back =~= text);
}

/// The text of a board is a puzzle text, and its board is that board again.
pub proof fn lemma_board_round_trip(b: Seq<u8>)
    requires
        is_board(b),
    ensures
        is_puzzle_text(text_of_cells(b)),
        cells_of_text(text_of_cells(b)) == b,
{
    let text = text_of_cells(b);
    assert forall|x: int, y: int| 0 <= x < 9 && 0 <= y < 9 implies is_digit(
        #[trigger] text[y][x],
    ) by {
        lemma_coordinates(x, y);
        assert(b[index_of(x, y)] <= 9);
    }
    assert forall|p: int| 0 <= p < 81 implies #[trigger] cells_of_text(text)[p] == b[p] by {
        lemma_position(p);
        assert(b[p] <= 9);
    }
    assert(cells_of_text(text) =~= b);
}

/// A board with the same digit twice in one row has no solution; nor has one
/// with the same digit twice in one column or in one box.
pub proof fn lemma_repeated_digit_has_no_solution(b: Seq<u8>, p: int, q: int)
    requires
        peers(p, q),
        b[p] != 0,
        b[p] == b[q],
    ensures
        !consistent(b),
        forall|t: Seq<u8>| !is_solution_of(t, b),
{
    assert forall|t: Seq<u8>| !is_solution_of(t, b) by {
        if is_solution_of(t, b) {
            assert(t[p] == b[p]);
            assert(t[q] == b[q]);
            assert(peers(p, q) && t[p] != 0 && t[p] == t[q]);
        }
    }
}

/// Two different cells of one row are peers.
pub proof fn lemma_row_mates_are_peers(x1: int, x2: int, y: int)
    requires
        0 <= x1 < 9,
        0 <= x2 < 9,
        x1 != x2,
        0 <= y < 9,
    ensures
        peers(index_of(x1, y), index_of(x2, y)),
{
    lemma_coordinates(x1, y);
    lemma_coordinates(x2, y);
}

/// A puzzle has at most one first solution.
pub proof fn lemma_first_solution_is_unique(b: Seq<u8>, s: Seq<u8>, t: Seq<u8>)
    requires
        is_solution_of(s, b),
        first_in_order(s, b),
        is_solution_of(t, b),
        first_in_order(t, b),
    ensures
        s == t,
{
    lemma_same_up_to(b, s, t, 81);
    assert(s =~= t);
}

proof fn lemma_same_up_to(b: Seq<u8>, s: Seq<u8>, t: Seq<u8>, n: int)
    requires
        is_solution_of(s, b),
        first_in_order(s, b),
        is_solution_of(t, b),
        first_in_order(t, b),
        0 <= n <= 81,
    ensures
        same_before(s, t, n),
        same_before(t, s, n),
    decreases n,
{
    if n > 0 {
        lemma_same_up_to(b, s, t, n - 1);
        assert(t[n - 1] >= s[n - 1]);
        assert(s[n - 1] >= t[n - 1]);
    }
}

} // verus!
