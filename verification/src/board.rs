//! The 3x3 board: cell marks, the nine-cell grid, and the row-major
//! conversions between a cell index and a grid position.

use vstd::prelude::*;

verus! {

/// A square on a tic-tac-toe board: empty, or marked by one of the players.
#[derive(Clone, Copy, PartialEq, Eq, Debug, Structural)]
pub enum Square {
    E,
    X,
    O,
}

/// A tic-tac-toe board: exactly nine squares, indexed 0..8 in row-major order
/// (index = row * 3 + column). Boards are values; every transformation
/// produces a new board.
pub type Board = [Square; 9];

/// A 2-D coordinate, used for index/grid conversion and for layout placement.
#[derive(Clone, Copy, PartialEq, Eq, Debug, Structural)]
pub struct Point {
    pub x: i64,
    pub y: i64,
}

/// Convert an x,y grid position to an array index; `sqrt` is the side length
/// of the square grid.
pub open spec fn pos_to_index_spec(x: int, y: int, sqrt: int) -> int {
    y * sqrt + x
}

/// Convert an x,y grid position to an array index.
/// `sqrt` is the square root of the length of the array.
pub fn pos_to_index(x: usize, y: usize, sqrt: usize) -> (index: usize)
    requires
        pos_to_index_spec(x as int, y as int, sqrt as int) <= usize::MAX,
    ensures
        index == pos_to_index_spec(x as int, y as int, sqrt as int),
{
    y * sqrt + x
}

/// Convert an array index back to an x,y grid position.
/// `sqrt` is the square root of the length of the array.
pub fn index_to_pos(index: usize, sqrt: usize) -> (p: Point)
    requires
        0 < sqrt,
        index <= i64::MAX,
    ensures
        p.x == index as int % sqrt as int,
        p.y == index as int / sqrt as int,
{
    let x: usize = index % sqrt;
    let y: usize = index / sqrt;
    proof {
        assert(x <= index && y <= index) by (nonlinear_arith)
            requires
                0 < sqrt,
                x == index as int % sqrt as int,
                y == index as int / sqrt as int,
                0 <= index,
        ;
    }
    Point { x: x as i64, y: y as i64 }
}

/// The letter a square prints as on the console.
pub open spec fn square_char_spec(s: Square) -> char {
    match s {
        Square::E => 'E',
        Square::X => 'X',
        Square::O => 'O',
    }
}

/// The letter a square prints as on the console.
pub fn square_char(s: Square) -> (c: char)
    ensures
        c == square_char_spec(s),
{
    match s {
        Square::E => 'E',
        Square::X => 'X',
        Square::O => 'O',
    }
}

/// Check a console move: a cell index is valid exactly when it is at most 8.
pub fn valid_input(input: usize) -> (r: Result<usize, String>)
    ensures
        r is Ok <==> input <= 8,
        r is Ok ==> r->Ok_0 == input,
{
    if input > 8 {
        return Err("Index must be in [0, 8]".to_string());
    }
    Ok(input)
}

/// Round trip: converting an index to a grid position and back is the
/// identity, for every index and every positive grid size.
pub proof fn lemma_pos_index_round_trip(index: int, sqrt: int)
    requires
        0 < sqrt,
        0 <= index,
    ensures
        pos_to_index_spec(index % sqrt, index / sqrt, sqrt) == index,
{
    assert((index / sqrt) * sqrt + index % sqrt == index) by (nonlinear_arith)
        requires
            0 < sqrt,
            0 <= index,
    ;
}

} // verus!
