//! Every transition of the search keeps `coherent` and brings the search
//! closer to its end; what the invariant gives in the two final phases.

use crate::board::{
    allows, consistent, first_in_order, is_board, is_solution_of, peers, same_before,
};
use crate::search::{
    advances, coherent, is_terminal, lemma_rank_nonnegative, lemma_rank_order, lower, remaining,
    start, transition, weights, Phase, Search,
};
use vstd::prelude::*;

verus! {

/// Where `lower` rises at `p` and stays as it was before `p`, less of the search remains.
proof fn lemma_rises_at(b: Seq<u8>, s: Search, b2: Seq<u8>, s2: Search, p: int)
    requires
        is_board(b),
        is_board(b2),
        s.candidate <= 10,
        s2.candidate <= 10,
        0 <= p < 81,
        forall|q: int| 0 <= q < p ==> lower(b2, s2, q) == lower(b, s, q),
        lower(b2, s2, p) > lower(b, s, p),
    ensures
        0 <= remaining(b2, s2) < remaining(b, s),
{
    let v = weights(b2, s2);
    let w = weights(b, s);
    assert forall|i: int| 0 <= i < 81 implies 0 <= #[trigger] v[i] <= 10 by {
        assert(b2[i] <= 9);
    }
    assert forall|i: int| 0 <= i < 81 implies 0 <= #[trigger] w[i] <= 10 by {
        assert(b[i] <= 9);
    }
    assert forall|i: int| 0 <= i < p implies #[trigger] v[i] == w[i] by {
        assert(lower(b2, s2, i) == lower(b, s, i));
    }
    lemma_rank_order(v, w, p);
    lemma_rank_nonnegative(v);
}

/// Where `lower` is the same at every position, as much of the search remains.
proof fn lemma_rises_nowhere(b: Seq<u8>, s: Search, b2: Seq<u8>, s2: Search)
    requires
        is_board(b2),
        s2.candidate <= 10,
        forall|q: int| 0 <= q < 81 ==> lower(b2, s2, q) == lower(b, s, q),
    ensures
        0 <= remaining(b2, s2),
        remaining(b2, s2) == remaining(b, s),
{
    let v = weights(b2, s2);
    assert forall|i: int| 0 <= i < 81 implies 0 <= #[trigger] v[i] by {
        assert(b2[i] <= 9);
    }
    assert(v =~= weights(b, s));
    lemma_rank_nonnegative(v);
}

/// A consistent board and the starting state are coherent.
pub proof fn lemma_start(o: Seq<u8>)
    requires
        is_board(o),
        consistent(o),
    ensures
        coherent(o, o, start()),
{
}

/// From `Scanning`: the cursor moves past a filled cell, stops at an empty
/// one, or has left the board.
pub proof fn lemma_scan(o: Seq<u8>, b: Seq<u8>, s: Search)
    requires
        coherent(o, b, s),
        s.phase == Phase::Scanning,
    ensures
        coherent(o, transition(b, s).0, transition(b, s).1),
        advances(b, s, transition(b, s).0, transition(b, s).1),
{
    let (b2, s2) = transition(b, s);
    let c = s.cursor;
    if c >= 81 {
        lemma_rises_nowhere(b, s, b2, s2);
    } else if b[c] != 0 {
        assert(o[c] != 0);
        assert forall|t: Seq<u8>, p: int|
            is_solution_of(t, o) && 0 <= p < 81 && #[trigger] same_before(t, b2, p) implies t[p]
            >= lower(b2, s2, p) by {
            if p < c {
                assert(t[p] >= lower(b, s, p));
            } else if p == c {
                assert(t[c] == o[c]);
            }
        }
        lemma_rises_at(b, s, b2, s2, c);
    } else {
        assert forall|t: Seq<u8>, p: int|
            is_solution_of(t, o) && 0 <= p < 81 && #[trigger] same_before(t, b2, p) implies t[p]
            >= lower(b2, s2, p) by {
            if p < c {
                assert(t[p] >= lower(b, s, p));
            } else if p == c {
                assert(t[c] != 0);
            }
        }
        lemma_rises_at(b, s, b2, s2, c);
    }
}

/// From `Trying` when all nine digits have failed at the cursor.
pub proof fn lemma_try_exhausted(o: Seq<u8>, b: Seq<u8>, s: Search)
    requires
        coherent(o, b, s),
        s.phase == Phase::Trying,
        s.candidate > 9,
    ensures
        coherent(o, transition(b, s).0, transition(b, s).1),
        advances(b, s, transition(b, s).0, transition(b, s).1),
{
    let (b2, s2) = transition(b, s);
    assert forall|t: Seq<u8>, p: int|
        is_solution_of(t, o) && 0 <= p < 81 && #[trigger] same_before(t, b2, p) implies t[p]
        >= lower(b2, s2, p) by {
        assert(t[p] >= lower(b, s, p));
    }
    lemma_rises_nowhere(b, s, b2, s2);
}

/// From `Trying` when a peer of the cursor's cell already holds the candidate.
pub proof fn lemma_try_refused(o: Seq<u8>, b: Seq<u8>, s: Search)
    requires
        coherent(o, b, s),
        s.phase == Phase::Trying,
        s.candidate <= 9,
        !allows(b, s.cursor, s.candidate),
    ensures
        coherent(o, transition(b, s).0, transition(b, s).1),
        advances(b, s, transition(b, s).0, transition(b, s).1),
{
    let (b2, s2) = transition(b, s);
    let c = s.cursor;
    let d = s.candidate;
    let q = choose|q: int| peers(c, q) && b[q] == d;
    assert(peers(c, q) && b[q] == d);
    assert forall|t: Seq<u8>, p: int|
        is_solution_of(t, o) && 0 <= p < 81 && #[trigger] same_before(t, b2, p) implies t[p]
        >= lower(b2, s2, p) by {
        assert(t[p] >= lower(b, s, p));
        if p == c && t[c] == d {
            if q < c {
                assert(t[q] == b[q]);
            } else {
                assert(b[q] == o[q]);
                assert(t[q] == o[q]);
            }
            assert(peers(c, q) && t[c] != 0 && t[c] == t[q]);
        }
    }
    lemma_rises_at(b, s, b2, s2, c);
}

/// From `Trying` when the candidate goes into the cursor's cell.
pub proof fn lemma_try_accepted(o: Seq<u8>, b: Seq<u8>, s: Search)
    requires
        coherent(o, b, s),
        s.phase == Phase::Trying,
        s.candidate <= 9,
        allows(b, s.cursor, s.candidate),
    ensures
        coherent(o, transition(b, s).0, transition(b, s).1),
        advances(b, s, transition(b, s).0, transition(b, s).1),
{
    let (b2, s2) = transition(b, s);
    let c = s.cursor;
    let d = s.candidate;
    assert forall|p: int, q: int| #[trigger] peers(p, q) && b2[p] != 0 implies b2[p] != b2[q] by {
        if p == c {
            assert(peers(c, q));
        } else if q == c {
            assert(peers(c, p));
        } else {
            assert(peers(p, q) && b[p] != 0);
        }
    }
    assert(s2.stack[s.stack.len() as int] == c);
    assert forall|q: int| 0 <= q < s2.cursor && #[trigger] o[q] == 0 implies s2.stack.contains(
        q,
    ) by {
        if q < c {
            assert(s.stack.contains(q));
            let i = choose|i: int| 0 <= i < s.stack.len() && s.stack[i] == q;
            assert(s2.stack[i] == q);
        }
    }
    assert forall|t: Seq<u8>, p: int|
        is_solution_of(t, o) && 0 <= p < 81 && #[trigger] same_before(t, b2, p) implies t[p]
        >= lower(b2, s2, p) by {
        if p <= c {
            assert(same_before(t, b, p));
            assert(t[p] >= lower(b, s, p));
        }
    }
    lemma_rises_nowhere(b, s, b2, s2);
}

/// From `Backtrack` when the last choice is undone and its cell gets the
/// next digit to try.
pub proof fn lemma_backtrack_undo(o: Seq<u8>, b: Seq<u8>, s: Search)
    requires
        coherent(o, b, s),
        s.phase == Phase::Backtrack,
        s.stack.len() > 0,
    ensures
        coherent(o, transition(b, s).0, transition(b, s).1),
        advances(b, s, transition(b, s).0, transition(b, s).1),
{
    let (b2, s2) = transition(b, s);
    let c = s.cursor;
    let top = s.stack.len() - 1;
    let u = s.stack[top];
    assert(0 <= u < c && o[u] == 0);
    assert(b[u] != 0);
    assert forall|q: int| u < q < c implies o[q] != 0 by {
        if o[q] == 0 {
            assert(s.stack.contains(q));
            let i = choose|i: int| 0 <= i < s.stack.len() && s.stack[i] == q;
            if i < top {
                assert(s.stack[i] < s.stack[top]);
            }
        }
    }
    assert forall|p: int, q: int| #[trigger] peers(p, q) && b2[p] != 0 implies b2[p] != b2[q] by {
        assert(peers(p, q) && b[p] != 0);
    }
    assert forall|i: int| 0 <= i < s2.stack.len() implies 0 <= #[trigger] s2.stack[i] < s2.cursor
        && o[s2.stack[i]] == 0 by {
        assert(s.stack[i] < s.stack[top]);
    }
    assert forall|q: int| 0 <= q < s2.cursor && #[trigger] o[q] == 0 implies s2.stack.contains(
        q,
    ) by {
        assert(s.stack.contains(q));
        let i = choose|i: int| 0 <= i < s.stack.len() && s.stack[i] == q;
        assert(s2.stack[i] == q);
    }
    assert forall|t: Seq<u8>, p: int|
        is_solution_of(t, o) && 0 <= p < 81 && #[trigger] same_before(t, b2, p) implies t[p]
        >= lower(b2, s2, p) by {
        if p <= u {
            assert(same_before(t, b, p));
            assert(t[p] >= lower(b, s, p));
            if p == u && t[u] == b[u] {
                assert forall|q: int| 0 <= q < c implies #[trigger] t[q] == b[q] by {
                    if q > u {
                        assert(o[q] != 0);
                        assert(b[q] == o[q]);
                    }
                }
                assert(same_before(t, b, c));
                assert(t[c] >= lower(b, s, c));
                assert(t[c] <= 9);
            }
        }
    }
    lemma_rises_at(b, s, b2, s2, u);
}

/// From `Backtrack` when there is no choice left to undo.
pub proof fn lemma_backtrack_empty(o: Seq<u8>, b: Seq<u8>, s: Search)
    requires
        coherent(o, b, s),
        s.phase == Phase::Backtrack,
        s.stack.len() == 0,
    ensures
        coherent(o, transition(b, s).0, transition(b, s).1),
        advances(b, s, transition(b, s).0, transition(b, s).1),
{
    let (b2, s2) = transition(b, s);
    assert forall|t: Seq<u8>, p: int|
        is_solution_of(t, o) && 0 <= p < 81 && #[trigger] same_before(t, b2, p) implies t[p]
        >= lower(b2, s2, p) by {
        assert(t[p] >= lower(b, s, p));
    }
    lemma_rises_nowhere(b, s, b2, s2);
}

/// No transition lets a digit stand twice among peers.
pub proof fn lemma_step_keeps_consistent(b: Seq<u8>, s: Search)
    requires
        is_board(b),
        s.phase == Phase::Trying ==> 0 <= s.cursor < 81,
        s.stack.len() > 0 ==> 0 <= s.stack.last() < 81,
    ensures
        consistent(b) ==> consistent(transition(b, s).0),
{
    let b2 = transition(b, s).0;
    if consistent(b) {
        assert forall|p: int, q: int| #[trigger] peers(p, q) && b2[p] != 0 implies b2[p]
            != b2[q] by {
            assert(peers(q, p));
            assert(peers(p, q) && b[p] != 0 ==> b[p] != b[q]);
        }
    }
}

/// Every transition from a state that is not final keeps the invariant and
/// brings the search closer to its end.
pub proof fn lemma_step(o: Seq<u8>, b: Seq<u8>, s: Search)
    requires
        coherent(o, b, s),
        !is_terminal(s.phase),
    ensures
        coherent(o, transition(b, s).0, transition(b, s).1),
        advances(b, s, transition(b, s).0, transition(b, s).1),
{
    match s.phase {
        Phase::Scanning => lemma_scan(o, b, s),
        Phase::Trying => {
            if s.candidate > 9 {
                lemma_try_exhausted(o, b, s);
            } else if allows(b, s.cursor, s.candidate) {
                lemma_try_accepted(o, b, s);
            } else {
                lemma_try_refused(o, b, s);
            }
        },
        Phase::Backtrack => {
            if s.stack.len() == 0 {
                lemma_backtrack_empty(o, b, s);
            } else {
                lemma_backtrack_undo(o, b, s);
            }
        },
        _ => {},
    }
}

/// When the search ends in `Solved`, the board is the first solution of `o`.
pub proof fn lemma_solved(o: Seq<u8>, b: Seq<u8>, s: Search)
    requires
        coherent(o, b, s),
        s.phase == Phase::Solved,
    ensures
        is_solution_of(b, o),
        first_in_order(b, o),
{
    assert forall|t: Seq<u8>, p: int|
        is_solution_of(t, o) && 0 <= p < 81 && #[trigger] same_before(t, b, p) implies t[p]
        >= b[p] by {
        assert(t[p] >= lower(b, s, p));
    }
}

/// When the search ends in `Unsolvable`, the board is `o` again and `o` has no solution.
pub proof fn lemma_unsolvable(o: Seq<u8>, b: Seq<u8>, s: Search)
    requires
        coherent(o, b, s),
        s.phase == Phase::Unsolvable,
    ensures
        b == o,
        forall|t: Seq<u8>| !is_solution_of(t, o),
{
    let c = s.cursor;
    assert forall|q: int| 0 <= q < c implies o[q] != 0 by {
        if o[q] == 0 {
            assert(s.stack.contains(q));
        }
    }
    assert(b =~= o);
    assert forall|t: Seq<u8>| !is_solution_of(t, o) by {
        if is_solution_of(t, o) {
            assert forall|q: int| 0 <= q < c implies #[trigger] t[q] == b[q] by {
                assert(o[q] != 0);
            }
            assert(same_before(t, b, c));
            assert(t[c] >= lower(b, s, c));
            assert(t[c] <= 9);
        }
    }
}

} // verus!
