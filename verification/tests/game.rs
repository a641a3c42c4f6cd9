use tictactoe_tree::board::{index_to_pos, pos_to_index, square_char, valid_input, Board, Square};
use tictactoe_tree::minimax::{best_move, minimax};
use tictactoe_tree::rules::{next_boards, place_mark, solved, switch, tied};

const E: Square = Square::E;
const X: Square = Square::X;
const O: Square = Square::O;

const BD0: Board = [E, O, O, E, X, E, X, O, E];
const BD1: Board = [X, X, X, X, X, X, X, X, X];
const BD2: Board = [X, E, X, X, X, E, X, X, X];
const BD3: Board = [E, E, O, E, O, E, O, E, E];
const BD4: Board = [E, E, E, X, X, X, E, E, E];

#[test]
fn test_next_boards() {
    // Two cells occupied (positions 1 and 4): seven moves remain for X.
    let two_filled: Board = [E, X, E, E, O, E, E, E, E];
    let result0 = next_boards(two_filled, X);
    let result1 = next_boards(BD1, O);
    let result2 = next_boards(BD2, O);

    assert_eq!(result0.len(), 7);
    assert_eq!(result1.len(), 0);
    assert_eq!(result2.len(), 2);
}

#[test]
fn test_solved() {
    let result0 = solved(BD0, X);
    let result1 = solved(BD1, X);
    let result2 = solved(BD3, O);
    let result3 = solved(BD4, X);
    let result4 = solved(BD4, O);
    let result5 = solved(BD3, X);

    assert_eq!(result0, false);
    assert_eq!(result1, true);
    assert_eq!(result2, true);
    assert_eq!(result3, true);
    assert_eq!(result4, false);
    assert_eq!(result5, false);
}

#[test]
fn test_minimax() {
    let result0 = minimax([E, E, X, E, X, E, X, E, E]);
    assert_eq!(result0, 1);
    let result1 = minimax([E, O, X, E, O, E, X, O, E]);
    assert_eq!(result1, -1);
    let result2 = minimax([O, X, O, X, X, O, O, O, X]);
    assert_eq!(result2, 0);
    // One X move away from completing a diagonal, with no blocking move
    // available to O: a forced win.
    let result3 = minimax([X, O, X, E, X, E, E, O, E]);
    assert_eq!(result3, 1);
}

#[test]
fn test_next_boards_marks_one_cell() {
    let bd: Board = [X, E, O, E, X, E, E, O, X];
    let children = next_boards(bd, O);
    assert_eq!(children.len(), 4);
    let empties = [1usize, 3, 5, 6];
    for (child, &cell) in children.iter().zip(empties.iter()) {
        for i in 0..9 {
            if i == cell {
                assert_eq!(child[i], O);
            } else {
                assert_eq!(child[i], bd[i]);
            }
        }
    }
}

#[test]
fn test_next_boards_ignores_other_marks() {
    // A mark other than the two player marks changes nothing, but still
    // yields one copy per empty cell: a deliberate quirk.
    let bd: Board = [X, E, O, E, X, E, E, O, X];
    let children = next_boards(bd, E);
    assert_eq!(children.len(), 4);
    for child in children.iter() {
        assert_eq!(*child, bd);
    }
}

#[test]
fn test_solved_empty_board() {
    // False for a fully empty board under any mark: empty cells occupy
    // nothing, so not even the empty mark wins.
    let empty: Board = [E, E, E, E, E, E, E, E, E];
    assert_eq!(solved(empty, X), false);
    assert_eq!(solved(empty, O), false);
    assert_eq!(solved(empty, E), false);
}

#[test]
fn test_tied() {
    let full_and_won: Board = [X, X, X, O, O, X, X, O, O];
    assert!(tied(full_and_won));
    assert!(solved(full_and_won, X));
    assert!(!tied(BD2));
    assert!(!tied(BD0));
    assert!(tied(BD1));
}

#[test]
fn test_switch() {
    assert_eq!(switch(X), O);
    assert_eq!(switch(O), X);
    assert_eq!(switch(E), E);
}

#[test]
fn test_round_trip() {
    for i in 0..9usize {
        let p = index_to_pos(i, 3);
        assert_eq!(pos_to_index(p.x as usize, p.y as usize, 3), i);
    }
}

#[test]
fn test_best_move_takes_win() {
    let bd: Board = [X, X, E, O, O, E, E, E, E];
    let mv = best_move(bd).expect("a winning move exists");
    assert_eq!(mv, [X, X, X, O, O, E, E, E, E]);
}

#[test]
fn test_best_move_none_when_all_lose() {
    // O threatens both the top row and the left column: whatever X plays,
    // O completes the other line, so no move is offered.
    let bd: Board = [O, O, E, O, E, E, E, E, X];
    assert_eq!(best_move(bd), None);
}

#[test]
fn test_best_move_none_on_full_board() {
    let full: Board = [X, O, X, X, O, O, O, X, X];
    assert_eq!(best_move(full), None);
}

#[test]
fn test_place_mark() {
    let bd: Board = [E, E, E, E, E, E, E, E, E];
    assert_eq!(place_mark(bd, 4, X)[4], X);
    assert_eq!(place_mark(bd, 0, O)[0], O);
    assert_eq!(place_mark(bd, 4, E), bd);
}

#[test]
fn test_valid_input() {
    assert_eq!(valid_input(0), Ok(0));
    assert_eq!(valid_input(8), Ok(8));
    assert!(valid_input(9).is_err());
}

#[test]
fn test_square_char() {
    assert_eq!(square_char(E), 'E');
    assert_eq!(square_char(X), 'X');
    assert_eq!(square_char(O), 'O');
}
