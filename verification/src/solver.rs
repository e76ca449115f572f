//! The backtracking solver: a state that is stepped over a board until the
//! board is full or no choice is left to undo.

use crate::board::{
    complete, consistent, first_in_order, index_of, is_board, is_solution_of, peers,
};
use crate::grid::SudokuRaw;
use crate::laws::{
    lemma_full_board_is_its_only_solution, lemma_repeated_digit_has_no_solution,
    lemma_units_of_a_full_board, units_hold_each_digit_once,
};
use crate::progress::{
    lemma_solved, lemma_start, lemma_step, lemma_step_keeps_consistent, lemma_unsolvable,
};
use crate::rules::{can_place, is_consistent};
use crate::search::{
    coherent, is_terminal, phase_weight, remaining, start, transition, Phase, Search,
};
use vstd::prelude::*;

verus! {

broadcast use {SudokuRaw::lemma_view_len, SudokuRaw::lemma_clues_len};

/// How a search ended.
#[derive(Clone, Copy, Debug, PartialEq, Eq, Structural)]
pub enum Outcome {
    /// The board is full and obeys the uniqueness rule.
    Solved,
    /// The board cannot be completed.
    Unsolvable,
}

/// The state of a search: the cursor, the digit to try next, the cells that
/// the search has filled, and the phase.
#[derive(Debug)]
pub struct SearchState {
    x: u8,
    y: u8,
    candidate: u8,
    history: Vec<(u8, u8)>,
    phase: Phase,
}

/// The positions of cells that are given by column and row.
pub open spec fn positions(cells: Seq<(u8, u8)>) -> Seq<int> {
    Seq::new(cells.len(), |i: int| index_of(cells[i].0 as int, cells[i].1 as int))
}

impl View for SearchState {
    type V = Search;

    closed spec fn view(&self) -> Search {
        Search {
            cursor: index_of(self.x as int, self.y as int),
            candidate: self.candidate,
            stack: positions(self.history@),
            phase: self.phase,
        }
    }
}

impl SearchState {
    /// The cursor is on the board or just past its last row, the cells on the
    /// stack are on the board, and a digit is tried only at a cell of the board.
    #[verifier::type_invariant]
    closed spec fn in_range(&self) -> bool {
        &&& self.x < 9
        &&& self.y <= 9
        &&& self.phase == Phase::Trying ==> self.y < 9
        &&& forall|i: int|
            0 <= i < self.history@.len() ==> (#[trigger] self.history@[i]).0 < 9
                && self.history@[i].1 < 9
    }

    /// The state in which every search begins: the cursor on the first cell,
    /// nothing filled yet.
    pub fn new() -> (state: SearchState)
        ensures
            state@ == start(),
    {
        let state = SearchState {
            x: 0,
            y: 0,
            candidate: 1,
            history: Vec::new(),
            phase: Phase::Scanning,
        };
        assert(state@.stack =~= Seq::empty());
        state
    }

    /// Where the search stands.
    pub fn phase(&self) -> (phase: Phase)
        ensures
            phase == self@.phase,
    {
        self.phase
    }

    /// Whether the search has ended.
    pub fn is_terminal(&self) -> (ended: bool)
        ensures
            ended == is_terminal(self@.phase),
    {
        match self.phase {
            Phase::Solved => true,
            Phase::Unsolvable => true,
            _ => false,
        }
    }

    /// Column and row of the cursor; row 9 once it has passed the last cell.
    pub fn cursor(&self) -> (at: (u8, u8))
        ensures
            at.0 < 9,
            at.1 <= 9,
            index_of(at.0 as int, at.1 as int) == self@.cursor,
    {
        proof {
            use_type_invariant(self);
        }
        (self.x, self.y)
    }

    /// The digit that is tried next at the cursor.
    pub fn candidate(&self) -> (digit: u8)
        ensures
            digit == self@.candidate,
    {
        self.candidate
    }

    /// The cells that the search has filled and not undone, by column and row,
    /// oldest first.
    pub fn history(&self) -> (cells: &Vec<(u8, u8)>)
        ensures
            positions(cells@) == self@.stack,
            forall|i: int|
                0 <= i < cells@.len() ==> (#[trigger] cells@[i]).0 < 9 && cells@[i].1 < 9,
    {
        proof {
            use_type_invariant(self);
        }
        &self.history
    }

    /// How many cells the search has filled and not undone.
    pub fn depth(&self) -> (n: usize)
        ensures
            n == self@.stack.len(),
    {
        self.history.len()
    }

    /// Puts a cell on the stack.
    fn push(&mut self, at: (u8, u8))
        requires
            at.0 < 9,
            at.1 < 9,
        ensures
            final(self).history@ == old(self).history@.push(at),
            final(self).x == old(self).x,
            final(self).y == old(self).y,
            final(self).candidate == old(self).candidate,
            final(self).phase == old(self).phase,
    {
        proof {
            use_type_invariant(&*self);
        }
        let mut history = Vec::new();
        core::mem::swap(&mut self.history, &mut history);
        history.push(at);
        self.history = history;
    }

    /// Takes the newest cell off the stack, if there is one.
    fn pop(&mut self) -> (top: Option<(u8, u8)>)
        ensures
            final(self).x == old(self).x,
            final(self).y == old(self).y,
            final(self).candidate == old(self).candidate,
            final(self).phase == old(self).phase,
            match top {
                Some(at) => {
                    &&& old(self).history@.len() > 0
                    &&& at == old(self).history@.last()
                    &&& at.0 < 9
                    &&& at.1 < 9
                    &&& final(self).history@ == old(self).history@.drop_last()
                },
                None => {
                    &&& old(self).history@.len() == 0
                    &&& final(self).history@ == old(self).history@
                },
            },
    {
        proof {
            use_type_invariant(&*self);
        }
        let mut history = Vec::new();
        core::mem::swap(&mut self.history, &mut history);
        let top = history.pop();
        self.history = history;
        top
    }

    /// Moves the cursor to the next cell in scan order.
    fn advance(&mut self)
        requires
            old(self).y < 9,
            old(self).phase != Phase::Trying,
        ensures
            final(self)@.cursor == old(self)@.cursor + 1,
            final(self).candidate == old(self).candidate,
            final(self).history == old(self).history,
            final(self).phase == old(self).phase,
    {
        proof {
            use_type_invariant(&*self);
        }
        if self.x == 8 {
            self.x = 0;
            self.y = self.y + 1;
        } else {
            self.x = self.x + 1;
        }
    }

    /// Makes one transition of the search on `grid`. A board on which no two
    /// peers hold the same digit stays so, and what holds all through a search
    /// goes on holding.
    pub fn step(&mut self, grid: &mut SudokuRaw)
        ensures
            is_board(old(grid)@),
            is_board(final(grid)@),
            final(grid).clues() == old(grid).clues(),
            (final(grid)@, final(self)@) == transition(old(grid)@, old(self)@),
            consistent(old(grid)@) ==> consistent(final(grid)@),
            forall|o: Seq<u8>| #[trigger]
                coherent(o, old(grid)@, old(self)@) ==> coherent(o, final(grid)@, final(self)@),
    {
        proof {
            use_type_invariant(&*self);
            use_type_invariant(&*grid);
            grid.lemma_is_board();
        }
        match self.phase {
            Phase::Scanning => {
                if self.y >= 9 {
                    self.phase = Phase::Solved;
                } else if !grid.is_empty(self.x, self.y) {
                    self.advance();
                } else {
                    self.candidate = 1;
                    self.phase = Phase::Trying;
                }
            },
            Phase::Trying => {
                if self.candidate > 9 {
                    self.phase = Phase::Backtrack;
                } else if can_place(grid, self.x, self.y, self.candidate) {
                    grid.set(self.x, self.y, self.candidate);
                    self.push((self.x, self.y));
                    self.candidate = 1;
                    self.phase = Phase::Scanning;
                    self.advance();
                    assert(final(self)@.stack =~= old(self)@.stack.push(old(self)@.cursor));
                } else {
                    self.candidate = self.candidate + 1;
                    if self.candidate > 9 {
                        self.phase = Phase::Backtrack;
                    }
                }
            },
            Phase::Backtrack => {
                match self.pop() {
                    None => {
                        self.phase = Phase::Unsolvable;
                    },
                    Some((px, py)) => {
                        let digit = grid.get(px, py);
                        grid.set(px, py, 0);
                        self.x = px;
                        self.y = py;
                        self.candidate = digit + 1;
                        self.phase = Phase::Trying;
                        assert(final(self)@.stack =~= old(self)@.stack.drop_last());
                    },
                }
            },
            Phase::Solved => {},
            Phase::Unsolvable => {},
        }
        proof {
            lemma_step_keeps_consistent(old(grid)@, old(self)@);
            assert forall|o: Seq<u8>| #[trigger]
                coherent(o, old(grid)@, old(self)@) implies coherent(o, grid@, self@) by {
                if !is_terminal(old(self)@.phase) {
                    lemma_step(o, old(grid)@, old(self)@);
                }
            }
        }
    }
}

/// Completes `grid` by backtracking search. Cells are visited row by row and
/// digits tried in rising order, so of all the ways to complete the board the
/// one found is the first in that order. A board that cannot be completed is
/// left as it was; so is a full board that obeys the uniqueness rule, which is
/// solved as it stands. A board on which two peers hold the same digit cannot
/// be completed.
pub fn solve(grid: &mut SudokuRaw) -> (outcome: Outcome)
    ensures
        is_board(old(grid)@),
        final(grid).clues() == old(grid).clues(),
        (outcome == Outcome::Solved) == (exists|t: Seq<u8>| is_solution_of(t, old(grid)@)),
        !consistent(old(grid)@) ==> outcome == Outcome::Unsolvable,
        complete(old(grid)@) && consistent(old(grid)@) ==> outcome == Outcome::Solved
            && final(grid)@ == old(grid)@,
        match outcome {
            Outcome::Solved => {
                &&& is_solution_of(final(grid)@, old(grid)@)
                &&& first_in_order(final(grid)@, old(grid)@)
                &&& units_hold_each_digit_once(final(grid)@)
            },
            Outcome::Unsolvable => {
                &&& final(grid)@ == old(grid)@
                &&& forall|t: Seq<u8>| !is_solution_of(t, old(grid)@)
            },
        },
{
    proof {
        use_type_invariant(&*grid);
        grid.lemma_is_board();
    }
    let ghost o = grid@;
    let ghost clues = grid.clues();
    if !is_consistent(grid) {
        proof {
            let (p, q) = choose|p: int, q: int| peers(p, q) && o[p] != 0 && o[p] == o[q];
            lemma_repeated_digit_has_no_solution(o, p, q);
        }
        return Outcome::Unsolvable;
    }
    let mut state = SearchState::new();
    proof {
        lemma_start(o);
        if complete(o) {
            lemma_full_board_is_its_only_solution(o);
        }
    }
    while !state.is_terminal()
        invariant
            coherent(o, grid@, state@),
            grid.clues() == clues,
        decreases remaining(grid@, state@), 81 - state@.cursor, phase_weight(state@.phase),
    {
        proof {
            lemma_step(o, grid@, state@);
        }
        state.step(grid);
    }
    match state.phase() {
        Phase::Solved => {
            proof {
                lemma_solved(o, grid@, state@);
                assert(is_solution_of(grid@, o));
                lemma_units_of_a_full_board(grid@);
            }
            Outcome::Solved
        },
        _ => {
            proof {
                lemma_unsolvable(o, grid@, state@);
            }
            Outcome::Unsolvable
        },
    }
}

} // verus!
