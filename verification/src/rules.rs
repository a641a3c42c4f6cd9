//! The rules engine: win and tie detection, legal-move enumeration, and the
//! mark-switching helper.

use vstd::prelude::*;
use crate::board::{Board, Square};

verus! {

/// The three cells at `a`, `b`, `c` are all occupied by `m`.
pub open spec fn line_won(s: Seq<Square>, m: Square, a: int, b: int, c: int) -> bool {
    s[a] == m && s[b] == m && s[c] == m
}

/// One of the eight winning lines — three rows, three columns, or either
/// diagonal — consists entirely of `m`.
pub open spec fn any_line_won(s: Seq<Square>, m: Square) -> bool {
    ||| line_won(s, m, 0, 1, 2)
    ||| line_won(s, m, 3, 4, 5)
    ||| line_won(s, m, 6, 7, 8)
    ||| line_won(s, m, 0, 3, 6)
    ||| line_won(s, m, 1, 4, 7)
    ||| line_won(s, m, 2, 5, 8)
    ||| line_won(s, m, 0, 4, 8)
    ||| line_won(s, m, 2, 4, 6)
}

/// `m` occupies one of the eight winning lines. An empty cell occupies
/// nothing, so the empty mark never wins: a fully empty board is solved for
/// no mark.
pub open spec fn solved_spec(s: Seq<Square>, m: Square) -> bool {
    m != Square::E && any_line_won(s, m)
}

/// No square is empty. A board can be tied and solved at once: tie detection
/// deliberately does not look for a winner.
pub open spec fn tied_spec(s: Seq<Square>) -> bool {
    forall|i: int| 0 <= i < s.len() ==> s[i] != Square::E
}

/// The board is solved for some mark or full: recursion over the game tree
/// stops here.
pub open spec fn terminal_spec(s: Seq<Square>) -> bool {
    solved_spec(s, Square::X) || solved_spec(s, Square::O) || tied_spec(s)
}

/// Return true if the given team occupies a full row, column or diagonal;
/// the empty mark occupies nothing, so it never wins.
pub fn solved(bd: Board, team: Square) -> (r: bool)
    ensures
        r == solved_spec(bd@, team),
{
    if team == Square::E {
        return false;
    }
    (bd[0] == team && bd[1] == team && bd[2] == team)
        || (bd[3] == team && bd[4] == team && bd[5] == team)
        || (bd[6] == team && bd[7] == team && bd[8] == team)
        || (bd[0] == team && bd[3] == team && bd[6] == team)
        || (bd[1] == team && bd[4] == team && bd[7] == team)
        || (bd[2] == team && bd[5] == team && bd[8] == team)
        || (bd[0] == team && bd[4] == team && bd[8] == team)
        || (bd[2] == team && bd[4] == team && bd[6] == team)
}

/// Return true if the game is tied: no square left empty, whether or not
/// someone has already won.
pub fn tied(bd: Board) -> (r: bool)
    ensures
        r == tied_spec(bd@),
{
    let mut i: usize = 0;
    while i < 9
        invariant
            i <= 9,
            forall|k: int| 0 <= k < i ==> bd@[k] != Square::E,
        decreases 9 - i,
    {
        if bd[i] == Square::E {
            return false;
        }
        i += 1;
    }
    true
}

/// Return the opposite of the given team; an empty square maps to itself.
pub open spec fn switch_spec(team: Square) -> Square {
    match team {
        Square::O => Square::X,
        Square::X => Square::O,
        Square::E => Square::E,
    }
}

/// Return the opposite of the given team.
pub fn switch(team: Square) -> (r: Square)
    ensures
        r == switch_spec(team),
{
    match team {
        Square::O => Square::X,
        Square::X => Square::O,
        Square::E => Square::E,
    }
}

/// The board after marking cell `i` for `team`: a player mark is written, any
/// other mark leaves the board unchanged (a quirk of move generation, kept).
pub open spec fn place_spec(s: Seq<Square>, i: int, m: Square) -> Seq<Square> {
    if m == Square::X || m == Square::O {
        s.update(i, m)
    } else {
        s
    }
}

/// Write `m` into cell `i` of a copy of the board; marks other than the two
/// player marks leave the copy unchanged.
pub fn place_mark(bd: Board, i: usize, m: Square) -> (r: Board)
    requires
        i < 9,
    ensures
        r@ == place_spec(bd@, i as int, m),
{
    let mut nb = bd;
    if m == Square::X {
        nb[i] = Square::X;
    }
    if m == Square::O {
        nb[i] = Square::O;
    }
    proof {
        if m == Square::X || m == Square::O {
            assert(nb@ =~= bd@.update(i as int, m));
        } else {
            assert(nb@ =~= bd@);
        }
    }
    nb
}

/// The legal moves for `m` from cell `i` on: one new board for every empty
/// cell, in increasing cell order.
pub open spec fn next_from(s: Seq<Square>, m: Square, i: int) -> Seq<Seq<Square>>
    decreases 9 - i,
{
    if i < 0 || i >= 9 {
        Seq::empty()
    } else if s[i] == Square::E {
        seq![place_spec(s, i, m)] + next_from(s, m, i + 1)
    } else {
        next_from(s, m, i + 1)
    }
}

/// All boards reachable by `m` moving once: one per empty cell, in increasing
/// cell order.
pub open spec fn next_boards_spec(s: Seq<Square>, m: Square) -> Seq<Seq<Square>> {
    next_from(s, m, 0)
}

/// The number of empty squares among cells `i` and later.
pub open spec fn empties_from(s: Seq<Square>, i: int) -> nat
    decreases s.len() - i,
{
    if i < 0 || i >= s.len() {
        0
    } else {
        (if s[i] == Square::E {
            1nat
        } else {
            0nat
        }) + empties_from(s, i + 1)
    }
}

/// The number of empty squares on the board.
pub open spec fn empty_count(s: Seq<Square>) -> nat {
    empties_from(s, 0)
}

/// Team must be either X or O.
/// Return the next possible boards: for every empty square, a copy of the
/// board with that square marked for `team`, in increasing cell order.
pub fn next_boards(bd: Board, team: Square) -> (r: Vec<Board>)
    ensures
        r@.len() == next_boards_spec(bd@, team).len(),
        forall|j: int| 0 <= j < r@.len() ==> r@[j]@ == next_boards_spec(bd@, team)[j],
{
    let mut out: Vec<Board> = Vec::new();
    let ghost done: Seq<Seq<Square>> = Seq::empty();
    let mut done = Ghost(done);
    let mut i: usize = 0;
    while i < 9
        invariant
            i <= 9,
            done@ + next_from(bd@, team, i as int) == next_boards_spec(bd@, team),
            out@.len() == done@.len(),
            forall|j: int| 0 <= j < out@.len() ==> out@[j]@ == done@[j],
        decreases 9 - i,
    {
        if bd[i] == Square::E {
            let nb = place_mark(bd, i, team);
            out.push(nb);
            proof {
                assert(done@.push(nb@) + next_from(bd@, team, i + 1)
                    =~= done@ + next_from(bd@, team, i as int));
            }
            done = Ghost(done@.push(nb@));
        } else {
            proof {
                assert(done@ + next_from(bd@, team, i + 1)
                    =~= done@ + next_from(bd@, team, i as int));
            }
        }
        i += 1;
    }
    proof {
        assert(done@ + next_from(bd@, team, 9) =~= done@);
    }
    out
}

/// Move generation yields exactly one board per empty cell: the count of
/// moves from cell `i` on equals the count of empty cells from `i` on.
pub proof fn lemma_next_from_count(s: Seq<Square>, m: Square, i: int)
    requires
        s.len() == 9,
    ensures
        next_from(s, m, i).len() == empties_from(s, i),
    decreases 9 - i,
{
    if 0 <= i < 9 {
        lemma_next_from_count(s, m, i + 1);
    }
}

/// Every generated board marks one empty cell of the input for `m` and keeps
/// every other cell: it is the input updated at exactly one empty cell.
pub proof fn lemma_next_from_elems(s: Seq<Square>, m: Square, i: int)
    requires
        s.len() == 9,
    ensures
        forall|j: int| 0 <= j < next_from(s, m, i).len()
            ==> exists|k: int|
                i <= k < 9 && s[k] == Square::E && #[trigger] next_from(s, m, i)[j]
                    == place_spec(s, k, m),
    decreases 9 - i,
{
    if 0 <= i < 9 {
        lemma_next_from_elems(s, m, i + 1);
        assert forall|j: int| 0 <= j < next_from(s, m, i).len() implies exists|k: int|
            i <= k < 9 && s[k] == Square::E && #[trigger] next_from(s, m, i)[j]
                == place_spec(s, k, m) by {
            if s[i] == Square::E {
                if j == 0 {
                    assert(next_from(s, m, i)[0] == place_spec(s, i, m));
                } else {
                    assert(next_from(s, m, i)[j] == next_from(s, m, i + 1)[j - 1]);
                    let k = choose|k: int|
                        i + 1 <= k < 9 && s[k] == Square::E && next_from(s, m, i + 1)[j - 1]
                            == place_spec(s, k, m);
                    assert(i <= k < 9 && s[k] == Square::E && next_from(s, m, i)[j]
                        == place_spec(s, k, m));
                }
            } else {
                assert(next_from(s, m, i)[j] == next_from(s, m, i + 1)[j]);
                let k = choose|k: int|
                    i + 1 <= k < 9 && s[k] == Square::E && next_from(s, m, i + 1)[j]
                        == place_spec(s, k, m);
                assert(i <= k < 9 && s[k] == Square::E && next_from(s, m, i)[j]
                    == place_spec(s, k, m));
            }
        }
    }
}

/// For every board and mark, move generation returns exactly as many boards
/// as there are empty cells, and each result differs from the input only at
/// one formerly empty cell, which now holds the mark.
pub proof fn lemma_next_boards_shape(s: Seq<Square>, m: Square)
    requires
        s.len() == 9,
    ensures
        next_boards_spec(s, m).len() == empty_count(s),
        forall|j: int| 0 <= j < next_boards_spec(s, m).len()
            ==> exists|k: int|
                0 <= k < 9 && s[k] == Square::E && #[trigger] next_boards_spec(s, m)[j]
                    == place_spec(s, k, m),
{
    lemma_next_from_count(s, m, 0);
    lemma_next_from_elems(s, m, 0);
}

/// A fully empty board is solved for no mark: the player marks occupy no
/// line of it, and the empty mark never wins.
pub proof fn lemma_empty_board_unsolved(s: Seq<Square>, m: Square)
    requires
        s.len() == 9,
        forall|i: int| 0 <= i < 9 ==> s[i] == Square::E,
    ensures
        !solved_spec(s, m),
{
}

} // verus!
