//! Optimal tic-tac-toe play and a drawing of the full reachable move tree.
//!
//! The board model and rules engine enumerate moves and detect wins and ties;
//! the minimax evaluator scores positions exhaustively; the layout engine
//! composes one tile per reachable board into a single picture, tracking
//! bounding boxes, spacing rows of children, centering the result and
//! producing connector lines between parent and child tiles.

pub mod board;
pub mod rules;
pub mod minimax;
pub mod layout;
