//! The minimax evaluator and the best-move selector. Scores are exact members
//! of {-1, 0, 1}: forced loss, draw, forced win, always from X's perspective.

use vstd::prelude::*;
use crate::board::{Board, Square};
use crate::rules::{
    empties_from, empty_count, place_spec, solved_spec, terminal_spec, tied_spec, place_mark,
    solved, tied,
};

verus! {

/// Updating one empty cell to a player mark removes exactly one empty cell
/// from the tail count at or before it.
pub proof fn lemma_empties_from_update(s: Seq<Square>, i: int, m: Square, j: int)
    requires
        0 <= i < s.len(),
        s[i] == Square::E,
        m != Square::E,
        0 <= j <= s.len(),
    ensures
        empties_from(s.update(i, m), j) as int == empties_from(s, j) as int - (if j <= i {
            1int
        } else {
            0int
        }),
    decreases s.len() - j,
{
    if j < s.len() {
        lemma_empties_from_update(s, i, m, j + 1);
    }
}

/// Marking an empty cell for a player strictly lowers the empty-cell count:
/// the measure that bounds the game-tree recursion.
pub proof fn lemma_place_decreases_empties(s: Seq<Square>, i: int, m: Square)
    requires
        0 <= i < s.len(),
        s[i] == Square::E,
        m == Square::X || m == Square::O,
    ensures
        empty_count(place_spec(s, i, m)) < empty_count(s),
{
    lemma_empties_from_update(s, i, m, 0);
}

/// A board that is not tied has an empty cell, so a positive empty count.
pub proof fn lemma_not_tied_has_empty(s: Seq<Square>, j: int)
    requires
        0 <= j <= s.len(),
        exists|i: int| j <= i < s.len() && s[i] == Square::E,
    ensures
        empties_from(s, j) > 0,
    decreases s.len() - j,
{
    if s[j] != Square::E {
        lemma_not_tied_has_empty(s, j + 1);
    }
}

/// The minimax value of a board, from X's perspective: 1 if solved for X,
/// -1 if solved for O, 0 if tied, and otherwise the extremum over the other
/// side's replies: the minimum when O is to move (after X), the maximum when
/// X is to move.
pub open spec fn value_spec(s: Seq<Square>, team: Square) -> int
    decreases empty_count(s), 10int,
{
    if solved_spec(s, Square::X) {
        1
    } else if solved_spec(s, Square::O) {
        -1
    } else if tied_spec(s) {
        0
    } else if team == Square::X {
        best_child(s, Square::O, 0, true)
    } else {
        best_child(s, Square::X, 0, false)
    }
}

/// The extremum of the minimax values of the boards reached by `m` marking an
/// empty cell at index `i` or later: the minimum if `use_min`, else the
/// maximum. With no such cell the identity sentinel 2 (or -2) is returned.
pub open spec fn best_child(s: Seq<Square>, m: Square, i: int, use_min: bool) -> int
    decreases empty_count(s), 9int - i,
    via best_child_decreases
{
    if i < 0 || i >= 9 || s.len() != 9 || !(m == Square::X || m == Square::O) {
        if use_min {
            2
        } else {
            -2
        }
    } else if s[i] == Square::E {
        let v = value_spec(s.update(i, m), m);
        let rest = best_child(s, m, i + 1, use_min);
        if use_min {
            if v <= rest {
                v
            } else {
                rest
            }
        } else {
            if v >= rest {
                v
            } else {
                rest
            }
        }
    } else {
        best_child(s, m, i + 1, use_min)
    }
}

#[via_fn]
proof fn best_child_decreases(s: Seq<Square>, m: Square, i: int, use_min: bool) {
    if 0 <= i < 9 && s.len() == 9 && (m == Square::X || m == Square::O) && s[i] == Square::E {
        lemma_place_decreases_empties(s, i, m);
    }
}

/// A reply extremum is either its mode's sentinel or an exact score in
/// {-1, 0, 1}: 2 can only mean "no move" when minimizing, -2 when maximizing.
pub proof fn lemma_best_child_range(s: Seq<Square>, m: Square, i: int, use_min: bool)
    ensures
        use_min ==> best_child(s, m, i, use_min) == 2 || -1 <= best_child(s, m, i, use_min) <= 1,
        !use_min ==> best_child(s, m, i, use_min) == -2 || -1 <= best_child(s, m, i, use_min)
            <= 1,
    decreases empty_count(s), 9int - i,
{
    if 0 <= i < 9 && s.len() == 9 && (m == Square::X || m == Square::O) {
        if s[i] == Square::E {
            lemma_place_decreases_empties(s, i, m);
            lemma_value_tight(s.update(i, m), m);
        }
        lemma_best_child_range(s, m, i + 1, use_min);
    }
}

/// Produce the minimax value of the given board for the side `team` whose
/// move led here (X at the root): the exact extremum over the other side's
/// replies, or the terminal score.
fn evaluate(bd: Board, team: Square) -> (r: i32)
    ensures
        r as int == value_spec(bd@, team),
    decreases empty_count(bd@), 10int,
{
    if solved(bd, Square::X) {
        return 1;
    }
    if solved(bd, Square::O) {
        return -1;
    }
    if tied(bd) {
        return 0;
    }
    let use_min = team == Square::X;
    let m = if use_min {
        Square::O
    } else {
        Square::X
    };
    let mut acc: i32 = if use_min {
        2
    } else {
        -2
    };
    proof {
        lemma_best_child_range(bd@, m, 0, use_min);
    }
    let mut i: usize = 0;
    while i < 9
        invariant
            i <= 9,
            m == Square::X || m == Square::O,
            use_min <==> m == Square::O,
            use_min <==> team == Square::X,
            bd@.len() == 9,
            !terminal_spec(bd@),
            -2 <= acc <= 2,
            combine(acc as int, best_child(bd@, m, i as int, use_min), use_min) == best_child(
                bd@,
                m,
                0,
                use_min,
            ),
        decreases 9 - i,
    {
        if bd[i] == Square::E {
            let child = place_mark(bd, i, m);
            proof {
                lemma_place_decreases_empties(bd@, i as int, m);
                lemma_value_tight(child@, m);
            }
            let v = evaluate(child, m);
            if use_min {
                if v < acc {
                    acc = v;
                }
            } else {
                if v > acc {
                    acc = v;
                }
            }
        }
        i += 1;
    }
    acc
}

/// How a step of the extremum fold combines a child's value into the
/// accumulator: minimum when minimizing, maximum when maximizing.
pub open spec fn combine(a: int, b: int, use_min: bool) -> int {
    if use_min {
        if a <= b {
            a
        } else {
            b
        }
    } else {
        if a >= b {
            a
        } else {
            b
        }
    }
}

/// Produce the value of the given board, scored from X's perspective.
pub fn minimax(bd: Board) -> (r: i32)
    ensures
        r as int == value_spec(bd@, Square::X),
{
    evaluate(bd, Square::X)
}

/// The minimax value of a full-size board is an exact member of {-1, 0, 1}.
pub proof fn lemma_value_tight(s: Seq<Square>, team: Square)
    requires
        s.len() == 9,
    ensures
        -1 <= value_spec(s, team) <= 1,
    decreases empty_count(s), 10int,
{
    if !terminal_spec(s) {
        assert(exists|k: int| 0 <= k < 9 && s[k] == Square::E);
        if team == Square::X {
            lemma_best_child_tight(s, Square::O, 0, true);
        } else {
            lemma_best_child_tight(s, Square::X, 0, false);
        }
    }
}

/// With at least one empty cell at `i` or later, the reply extremum is a real
/// score: an exact member of {-1, 0, 1}, never a sentinel.
pub proof fn lemma_best_child_tight(s: Seq<Square>, m: Square, i: int, use_min: bool)
    requires
        s.len() == 9,
        m == Square::X || m == Square::O,
        0 <= i < 9,
        exists|k: int| i <= k < 9 && s[k] == Square::E,
    ensures
        -1 <= best_child(s, m, i, use_min) <= 1,
    decreases empty_count(s), 9int - i,
{
    lemma_best_child_range(s, m, i + 1, use_min);
    if s[i] == Square::E {
        lemma_place_decreases_empties(s, i, m);
        lemma_value_tight(s.update(i, m), m);
    } else {
        let k = choose|k: int| i <= k < 9 && s[k] == Square::E;
        assert(i + 1 <= k < 9 && s[k] == Square::E);
        lemma_best_child_tight(s, m, i + 1, use_min);
    }
}

/// The best score X can reach in one move: the maximum minimax value over
/// X's moves, or the sentinel -2 when no move exists.
pub open spec fn best_score(s: Seq<Square>) -> int {
    best_child(s, Square::X, 0, false)
}

/// The first (lowest-index) empty cell whose move for X reaches the best
/// score, searching from `i`; 9 when there is none.
pub open spec fn first_best_from(s: Seq<Square>, i: int) -> int
    decreases 9 - i,
{
    if i < 0 || i >= 9 {
        9
    } else if s[i] == Square::E && value_spec(place_spec(s, i, Square::X), Square::X)
        == best_score(s) {
        i
    } else {
        first_best_from(s, i + 1)
    }
}

/// A cell whose move scores the best, while every earlier empty cell's move
/// scores otherwise, is the first best cell.
proof fn lemma_first_best_pins(s: Seq<Square>, i: int, j: int)
    requires
        0 <= i <= j < 9,
        s[j] == Square::E,
        value_spec(place_spec(s, j, Square::X), Square::X) == best_score(s),
        forall|k: int| i <= k < j && s[k] == Square::E ==> value_spec(
            place_spec(s, k, Square::X),
            Square::X,
        ) != best_score(s),
    ensures
        first_best_from(s, i) == j,
    decreases j - i,
{
    if i < j {
        lemma_first_best_pins(s, i + 1, j);
    }
}

/// Produce the best possible move for X from a given board state: the first
/// child board with the strictly highest minimax value, or `None` when there
/// is no move, or when every move is a forced loss (the two cases share one
/// sentinel, a known quirk).
pub fn best_move(bd: Board) -> (r: Option<Board>)
    ensures
        (r is None) <==> best_score(bd@) <= -1,
        r is Some ==> {
            let k = first_best_from(bd@, 0);
            &&& 0 <= k < 9
            &&& bd@[k] == Square::E
            &&& r->0@ == place_spec(bd@, k, Square::X)
            &&& value_spec(r->0@, Square::X) == best_score(bd@)
            &&& best_score(bd@) >= 0
        },
{
    let mut highest: i32 = -2;
    let mut best: Option<Board> = None;
    proof {
        lemma_best_child_range(bd@, Square::X, 0, false);
    }
    let mut i: usize = 0;
    while i < 9
        invariant
            i <= 9,
            bd@.len() == 9,
            -2 <= highest <= 2,
            combine(highest as int, best_child(bd@, Square::X, i as int, false), false)
                == best_score(bd@),
            (best is None) <==> highest == -2,
            (highest == -2) <==> (forall|k: int| 0 <= k < i ==> bd@[k] != Square::E),
            forall|k: int| 0 <= k < i && bd@[k] == Square::E ==> value_spec(
                place_spec(bd@, k, Square::X),
                Square::X,
            ) <= highest,
            best is Some ==> exists|j: int|
                0 <= j < i && bd@[j] == Square::E && #[trigger] place_spec(bd@, j, Square::X)
                    == best->0@ && value_spec(best->0@, Square::X) == highest && (forall|k: int|
                    0 <= k < j && bd@[k] == Square::E ==> value_spec(
                        place_spec(bd@, k, Square::X),
                        Square::X,
                    ) < highest),
        decreases 9 - i,
    {
        if bd[i] == Square::E {
            let child = place_mark(bd, i, Square::X);
            proof {
                lemma_place_decreases_empties(bd@, i as int, Square::X);
                lemma_value_tight(child@, Square::X);
            }
            let v = minimax(child);
            if v > highest {
                highest = v;
                best = Some(child);
            }
        }
        i += 1;
    }
    if highest == -1 {
        return None;
    }
    proof {
        if best is Some {
            let j = choose|j: int|
                0 <= j < 9 && bd@[j] == Square::E && #[trigger] place_spec(bd@, j, Square::X)
                    == best->0@ && value_spec(best->0@, Square::X) == highest && (forall|k: int|
                    0 <= k < j && bd@[k] == Square::E ==> value_spec(
                        place_spec(bd@, k, Square::X),
                        Square::X,
                    ) < highest);
            lemma_first_best_pins(bd@, 0, j);
        }
    }
    best
}

/// The score of a terminal board depends only on its outcome: two boards
/// solved for the same mark, or both tied with no winner, score alike,
/// whatever else their cells hold.
pub proof fn lemma_terminal_score_from_outcome(s1: Seq<Square>, s2: Seq<Square>, t1: Square, t2: Square)
    requires
        terminal_spec(s1),
        terminal_spec(s2),
        solved_spec(s1, Square::X) == solved_spec(s2, Square::X),
        solved_spec(s1, Square::O) == solved_spec(s2, Square::O),
    ensures
        value_spec(s1, t1) == value_spec(s2, t2),
{
}

} // verus!
