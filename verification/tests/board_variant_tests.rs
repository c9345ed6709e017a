//! A second pass over the board behaviour, mirroring the first suite on
//! the same operations reached through the heuristic scoring entry point.

use tic_solved::board::{Board, TicMove};
use tic_solved::minmax::GameState;
use tic_solved::player::Player;

fn empty_cells() -> [[[[u8; 3]; 3]; 3]; 3] {
    [[[[0; 3]; 3]; 3]; 3]
}

fn board_from(cells: [[[[u8; 3]; 3]; 3]; 3]) -> Board {
    Board::create_board(cells, None).unwrap()
}

#[test]
fn tic_test_move() {
    let board = Board::new();
    let tic_move = TicMove::new((1, 1, 0, 2), &board).unwrap();
    let new_board = tic_move.do_move();
    println!("Old board \n{}", board.to_text());
    println!("New board \n{}", new_board.to_text());
}

#[test]
fn tic_test_move_nonempty_cell() {
    let board = Board::new();
    let tic_move = TicMove::new((1, 1, 0, 2), &board).unwrap();
    let new_board = tic_move.do_move();
    let tic_move = TicMove::new((1, 1, 0, 2), &new_board);
    assert!(tic_move.is_none());
}

#[test]
fn tic_test_move_invalid_board() {
    let board = Board::new();
    let tic_move = TicMove::new((1, 1, 0, 2), &board).unwrap();
    let new_board = tic_move.do_move();
    let tic_move = TicMove::new((0, 1, 1, 1), &new_board);
    assert!(tic_move.is_none());
}

#[test]
fn tic_test_do_multiple_moves() {
    let board = Board::new();
    let moves = board.next_states();
    let board2 = moves.get(11).unwrap();
    let moves = board2.next_states();
    let board3 = moves.get(4).unwrap();

    println!("Board \n{}", board3.to_text());
}

#[test]
fn tic_test_winning_game() {
    let moves_to_play = vec![40, 3, 4, 0, 4, 3, 0, 0, 6, 0, 5, 4, 5, 2, 0, 3, 7, 2, 6, 4];
    let mut board = Board::new();
    for m in moves_to_play {
        assert!(board.board_winner().is_none());
        let moves = board.next_states();
        board = moves.get(m).unwrap().to_owned();
    }
    println!("Board \n{}", board.to_text());
    assert!(board.board_winner() == Some(Player::Player2));
}

#[test]
fn tic_test_is_single_board_winning_row() {
    let mut cells = empty_cells();
    cells[0][0][0][0] = 1;
    cells[0][0][0][1] = 1;
    cells[0][0][0][2] = 1;
    let board = board_from(cells);

    assert_eq!(board.single_board_winner(0, 0), Some(Player::Player1));
}

#[test]
fn tic_test_is_single_board_winning_dig() {
    let mut cells = empty_cells();
    cells[1][1][0][2] = 1;
    cells[1][1][1][1] = 1;
    cells[1][1][2][0] = 1;
    let board = board_from(cells);

    assert_eq!(board.single_board_winner(1, 1), Some(Player::Player1));
}

#[test]
fn tic_test_is_single_board_winning_col() {
    let mut cells = empty_cells();
    cells[2][0][0][1] = 2;
    cells[2][0][1][1] = 2;
    cells[2][0][2][1] = 2;
    let board = board_from(cells);
    println!("{}", board.to_text());
    assert_eq!(board.single_board_winner(2, 0), Some(Player::Player2));
}

#[test]
fn tic_test_is_single_board_not_winning_col() {
    let mut cells = empty_cells();
    cells[2][0][0][1] = 2;
    cells[2][0][1][1] = 2;
    cells[2][0][2][1] = 2;
    let board = board_from(cells);
    assert_eq!(board.single_board_winner(1, 1), None);
}

#[test]
fn tic_test_is_single_board_not_winning_col2() {
    let mut cells = empty_cells();
    cells[2][0][0][1] = 2;
    cells[2][0][1][1] = 2;
    cells[2][0][2][1] = 1;
    let board = board_from(cells);
    assert_eq!(board.single_board_winner(2, 0), None);
}

#[test]
fn tic_test_is_board_winning() {
    let mut cells = empty_cells();
    cells[0][0][0][0] = 1;
    cells[0][0][0][1] = 1;
    cells[0][0][0][2] = 1;
    let board = board_from(cells);
    assert_eq!(board.single_board_winner(0, 0), Some(Player::Player1));

    cells[1][1][0][2] = 1;
    cells[1][1][1][1] = 1;
    cells[1][1][2][0] = 1;
    let board = board_from(cells);
    assert_eq!(board.single_board_winner(1, 1), Some(Player::Player1));

    cells[2][2][0][1] = 1;
    cells[2][2][1][1] = 1;
    cells[2][2][2][1] = 1;
    let board = board_from(cells);
    assert_eq!(board.single_board_winner(2, 2), Some(Player::Player1));

    println!("{}", board.to_text());
    assert!(board.board_winner() == Some(Player::Player1));
    assert_eq!(board.almost_win_score(), -1000);
}

#[test]
fn tic_test_2_in_a_col() {
    let mut cells = empty_cells();
    cells[2][0][0][1] = 2;
    cells[2][0][1][1] = 2;
    let board = board_from(cells);
    println!("{}", board.to_text());
    assert_eq!(board.number_almost_wins(2, 0, Player::Player2), 1);
}

#[test]
fn tic_test_2_in_a_col_and_dig() {
    let mut cells = empty_cells();
    cells[2][0][0][1] = 2;
    cells[2][0][1][1] = 2;

    cells[1][1][0][2] = 2;
    cells[1][1][1][1] = 2;
    let board = board_from(cells);

    println!("{}", board.to_text());

    assert_eq!(
        board.number_almost_wins(2, 0, Player::Player2)
            + board.number_almost_wins(1, 1, Player::Player2),
        2
    );
    assert_eq!(board.almost_win_score(), 2);
}

#[test]
fn tic_test_score() {
    let mut cells = empty_cells();
    cells[2][0][0][1] = 2;
    cells[2][0][1][1] = 2;
    cells[2][0][2][1] = 2;
    cells[1][0][0][1] = 2;
    cells[1][0][1][1] = 2;
    cells[2][1][0][1] = 1;
    cells[2][1][1][1] = 1;
    cells[2][1][2][1] = 1;
    cells[0][0][0][0] = 1;
    cells[0][0][1][1] = 1;
    cells[0][2][2][2] = 1;
    cells[0][2][2][0] = 1;
    cells[1][2][2][2] = 1;
    cells[1][2][0][0] = 1;
    cells[1][1][0][1] = 1;
    cells[1][1][2][1] = 1;
    let board = board_from(cells);
    println!("{}", board.to_text());
    assert_eq!(board.almost_win_score(), -3)
}

#[test]
fn tic_test_score_symmetry() {
    let empty_board = Board::new();
    let moves = empty_board.next_states();
    let board1 = moves.first().unwrap().to_owned();
    let board2 = moves.last().unwrap().to_owned();
    assert_eq!(board1.almost_win_score(), board2.almost_win_score());
}

#[test]
fn test_score_dummy() {
    let empty_board = Board::new();
    let moves = empty_board.next_states();
    let dummy_board = moves.first().unwrap().to_owned();
    assert_eq!(dummy_board.number_almost_wins(0, 0, Player::Player1), 0);
    assert_eq!(dummy_board.number_almost_wins(0, 0, Player::Player2), 0);
    assert_eq!(dummy_board.almost_win_score(), 0);
}

#[test]
fn tic_test_score_simple() {
    let board = Board::new();
    let moves = board.next_states();
    let board = moves.get(0).unwrap().to_owned();
    let moves = board.next_states();
    let board = moves.get(3).unwrap().to_owned();
    let moves = board.next_states();
    let board = moves.get(0).unwrap().to_owned();
    println!("{}", board.to_text());
}
