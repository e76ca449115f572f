//! The search as a machine on plain values: its states, its transition
//! function, the invariant that the transitions keep, and the measure that
//! they decrease.

use crate::board::{allows, consistent, is_board, is_solution_of, same_before};
use vstd::prelude::*;

verus! {

/// Where the search stands.
#[derive(Clone, Copy, Debug, PartialEq, Eq, Structural)]
pub enum Phase {
    /// The cell under the cursor has not been looked at yet.
    Scanning,
    /// The cell under the cursor is empty and a candidate digit is up for it.
    Trying,
    /// No digit fits the cell under the cursor: the last choice must be undone.
    Backtrack,
    /// The cursor has passed the last cell.
    Solved,
    /// There was no choice left to undo.
    Unsolvable,
}

/// The state of a search, as the contracts see it.
pub struct Search {
    /// Position of the cursor in scan order; 81 once it has passed the last cell.
    pub cursor: int,
    /// The digit that is tried next at the cursor; 10 when all nine have failed.
    pub candidate: u8,
    /// The positions that the search has filled, oldest first.
    pub stack: Seq<int>,
    /// Where the search stands.
    pub phase: Phase,
}

/// The state in which every search begins.
pub open spec fn start() -> Search {
    Search { cursor: 0, candidate: 1, stack: Seq::empty(), phase: Phase::Scanning }
}

/// The two phases in which a search has ended.
pub open spec fn is_terminal(phase: Phase) -> bool {
    phase == Phase::Solved || phase == Phase::Unsolvable
}

/// One transition: the board and the state that follow `b` and `s`.
pub open spec fn transition(b: Seq<u8>, s: Search) -> (Seq<u8>, Search) {
    match s.phase {
        Phase::Scanning => {
            if s.cursor >= 81 {
                (
                    b,
                    Search {
                        cursor: s.cursor,
                        candidate: s.candidate,
                        stack: s.stack,
                        phase: Phase::Solved,
                    },
                )
            } else if b[s.cursor] != 0 {
                (
                    b,
                    Search {
                        cursor: s.cursor + 1,
                        candidate: s.candidate,
                        stack: s.stack,
                        phase: Phase::Scanning,
                    },
                )
            } else {
                (
                    b,
                    Search { cursor: s.cursor, candidate: 1, stack: s.stack, phase: Phase::Trying },
                )
            }
        },
        Phase::Trying => {
            if s.candidate > 9 {
                (
                    b,
                    Search {
                        cursor: s.cursor,
                        candidate: s.candidate,
                        stack: s.stack,
                        phase: Phase::Backtrack,
                    },
                )
            } else if allows(b, s.cursor, s.candidate) {
                (
                    b.update(s.cursor, s.candidate),
                    Search {
                        cursor: s.cursor + 1,
                        candidate: 1,
                        stack: s.stack.push(s.cursor),
                        phase: Phase::Scanning,
                    },
                )
            } else {
                (
                    b,
                    Search {
                        cursor: s.cursor,
                        candidate: (s.candidate + 1) as u8,
                        stack: s.stack,
                        phase: if s.candidate < 9 {
                            Phase::Trying
                        } else {
                            Phase::Backtrack
                        },
                    },
                )
            }
        },
        Phase::Backtrack => {
            if s.stack.len() == 0 {
                (
                    b,
                    Search {
                        cursor: s.cursor,
                        candidate: s.candidate,
                        stack: s.stack,
                        phase: Phase::Unsolvable,
                    },
                )
            } else {
                (
                    b.update(s.stack.last(), 0),
                    Search {
                        cursor: s.stack.last(),
                        candidate: (b[s.stack.last()] + 1) as u8,
                        stack: s.stack.drop_last(),
                        phase: Phase::Trying,
                    },
                )
            }
        },
        Phase::Solved => (b, s),
        Phase::Unsolvable => (b, s),
    }
}

/// The board and the state after `n` transitions.
pub open spec fn run(b: Seq<u8>, s: Search, n: int) -> (Seq<u8>, Search)
    decreases n,
{
    if n <= 0 {
        (b, s)
    } else {
        transition(run(b, s, n - 1).0, run(b, s, n - 1).1)
    }
}

/// The phases in which a candidate digit stands for the cell under the cursor.
pub open spec fn engaged(phase: Phase) -> bool {
    phase == Phase::Trying || phase == Phase::Backtrack || phase == Phase::Unsolvable
}

/// The least digit that a solution can still hold at `p` if it holds the digits of
/// `b` before `p`: behind the cursor the digit of `b`, at the cursor the candidate.
pub open spec fn lower(b: Seq<u8>, s: Search, p: int) -> int {
    if p < s.cursor {
        b[p] as int
    } else if p == s.cursor && engaged(s.phase) {
        s.candidate as int
    } else {
        0
    }
}

/// The stack holds, in rising order, the cells behind the cursor that `o` leaves empty.
pub open spec fn stack_in_order(o: Seq<u8>, s: Search) -> bool {
    &&& forall|i: int|
        0 <= i < s.stack.len() ==> 0 <= #[trigger] s.stack[i] < s.cursor && o[s.stack[i]] == 0
    &&& forall|i: int, j: int|
        0 <= i < j < s.stack.len() ==> #[trigger] s.stack[i] < #[trigger] s.stack[j]
    &&& forall|q: int| 0 <= q < s.cursor && #[trigger] o[q] == 0 ==> s.stack.contains(q)
}

/// Every solution of `o` that holds the digits of `b` before a position holds
/// at least `lower` at it: the search has passed over no solution.
pub open spec fn nothing_missed(o: Seq<u8>, b: Seq<u8>, s: Search) -> bool {
    forall|t: Seq<u8>, p: int|
        is_solution_of(t, o) && 0 <= p < 81 && #[trigger] same_before(t, b, p) ==> t[p] >= lower(
            b,
            s,
            p,
        )
}

/// What holds of the board `b` and the state `s` all through a search that began on `o`.
pub open spec fn coherent(o: Seq<u8>, b: Seq<u8>, s: Search) -> bool {
    &&& is_board(o)
    &&& is_board(b)
    &&& consistent(b)
    &&& 0 <= s.cursor <= 81
    &&& 1 <= s.candidate <= 10
    &&& stack_in_order(o, s)
    &&& forall|q: int| 0 <= q < 81 && (q >= s.cursor || o[q] != 0) ==> #[trigger] b[q] == o[q]
    &&& forall|q: int| 0 <= q < s.cursor ==> #[trigger] b[q] != 0
    &&& engaged(s.phase) ==> s.cursor < 81 && o[s.cursor] == 0
    &&& s.phase == Phase::Backtrack || s.phase == Phase::Unsolvable ==> s.candidate == 10
    &&& s.phase == Phase::Unsolvable ==> s.stack.len() == 0
    &&& s.phase == Phase::Solved ==> s.cursor == 81
    &&& nothing_missed(o, b, s)
}

/// A number written with the digits of `w` in base eleven, the first digit weighing most.
pub open spec fn rank(w: Seq<int>) -> int
    decreases w.len(),
{
    if w.len() == 0 {
        0
    } else {
        rank(w.drop_last()) * 11 + w.last()
    }
}

/// For each position, how far `lower` still is from its end.
pub open spec fn weights(b: Seq<u8>, s: Search) -> Seq<int> {
    Seq::new(81, |p: int| 10 - lower(b, s, p))
}

/// What is left of the search: it falls whenever `lower` rises at some position
/// and stays as it was before that position.
pub open spec fn remaining(b: Seq<u8>, s: Search) -> int {
    rank(weights(b, s))
}

/// How far a phase is from the end of the search, for states that are otherwise alike.
pub open spec fn phase_weight(phase: Phase) -> int {
    match phase {
        Phase::Scanning => 2,
        Phase::Trying => 2,
        Phase::Backtrack => 1,
        Phase::Solved => 0,
        Phase::Unsolvable => 0,
    }
}

/// The state `s2` on `b2` is closer to the end of the search than `s` on `b`.
pub open spec fn advances(b: Seq<u8>, s: Search, b2: Seq<u8>, s2: Search) -> bool {
    &&& 0 <= remaining(b2, s2)
    &&& 0 <= s2.cursor <= 81
    &&& {
        ||| remaining(b2, s2) < remaining(b, s)
        ||| remaining(b2, s2) == remaining(b, s) && s2.cursor > s.cursor
        ||| remaining(b2, s2) == remaining(b, s) && s2.cursor == s.cursor && phase_weight(s2.phase)
            < phase_weight(s.phase)
    }
}

/// A number whose digits are not negative is not negative.
pub proof fn lemma_rank_nonnegative(w: Seq<int>)
    requires
        forall|i: int| 0 <= i < w.len() ==> 0 <= #[trigger] w[i],
    ensures
        0 <= rank(w),
    decreases w.len(),
{
    if w.len() > 0 {
        lemma_rank_nonnegative(w.drop_last());
    }
}

/// Of two numbers with as many digits, the one with the smaller digit where
/// they first differ is the smaller.
pub proof fn lemma_rank_order(v: Seq<int>, w: Seq<int>, p: int)
    requires
        v.len() == w.len(),
        0 <= p < v.len(),
        forall|i: int| 0 <= i < v.len() ==> 0 <= #[trigger] v[i] <= 10,
        forall|i: int| 0 <= i < w.len() ==> 0 <= #[trigger] w[i] <= 10,
        forall|i: int| 0 <= i < p ==> #[trigger] v[i] == w[i],
        v[p] < w[p],
    ensures
        rank(v) < rank(w),
    decreases v.len(),
{
    if p == v.len() - 1 {
        assert(v.drop_last() =~= w.drop_last());
    } else {
        lemma_rank_order(v.drop_last(), w.drop_last(), p);
    }
}

} // verus!
