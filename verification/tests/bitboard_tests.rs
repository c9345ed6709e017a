//! The packed board: conversions round-trip, the two representations
//! agree on winners and legal moves, and the packed strategy moves.

use tic_solved::bitboard::BitBoard;
use tic_solved::board::{Board, TicMove};
use tic_solved::minmax::GameState;
use tic_solved::player::Player;
use tic_solved::strategy::AlphaBetaBitBoardStrategy;
use tic_solved::text::BoardResult;

fn played(script: &[(usize, usize, usize, usize)]) -> Board {
    let mut board = Board::new();
    for mv in script {
        board = TicMove::new(*mv, &board).unwrap().do_move();
    }
    board
}

#[test]
fn round_trip_is_identity_on_parsed_boards() {
    let text = "\
        x.. ... o.. \
        .x. .O. ... \
        ... ... ..x \
        \
        ... o.. ... \
        .o. ... .x. \
        ... ... ... \
        \
        ... ... ... \
        .x. ..o ... \
        ... ... ... ";
    let board = BoardResult::from_text(text).into_inner().unwrap();
    let bitboard = BitBoard::from_board(&board);
    let back = bitboard.to_board();
    assert_eq!(board, back);
}

#[test]
fn round_trip_keeps_cells_and_forced_subboard() {
    let board = played(&[(1, 1, 0, 2), (0, 2, 2, 1), (2, 1, 1, 1)]);
    let bitboard = BitBoard::from_board(&board);
    let back = bitboard.to_board();
    assert_eq!(board.to_arr().0, back.to_arr().0);
    // Only the forced subboard of the last move survives the packing.
    assert_eq!(board.to_arr().1, Some((2, 1, 1, 1)));
    assert_eq!(back.to_arr().1, Some((0, 0, 1, 1)));
}

#[test]
fn round_trip_exhaustive_two_plies() {
    let empty = Board::new();
    for first in empty.get_legal_boards() {
        for second in first.get_legal_boards().into_iter().take(3) {
            let back = BitBoard::from_board(&second).to_board();
            assert_eq!(second.to_arr().0, back.to_arr().0);
            let (_, _, y, x) = second.to_arr().1.unwrap();
            assert_eq!(back.to_arr().1, Some((0, 0, y, x)));
        }
    }
}

#[test]
fn winners_agree_on_sample_positions() {
    // A finished game, a won subboard short of a full win, and an empty
    // board: the packed winner check matches the straightforward one.
    let moves_to_play = vec![40, 3, 4, 0, 4, 3, 0, 0, 6, 0, 5, 4, 5, 2, 0, 3, 7, 2, 6, 4];
    let mut board = Board::new();
    for m in moves_to_play {
        let bitboard = BitBoard::from_board(&board);
        assert_eq!(board.board_winner(), bitboard.who_win(bitboard.all_wins()));
        let moves = board.next_states();
        board = moves.get(m).unwrap().to_owned();
    }
    let bitboard = BitBoard::from_board(&board);
    assert_eq!(board.board_winner(), Some(Player::Player2));
    assert_eq!(bitboard.who_win(bitboard.all_wins()), Some(Player::Player2));
}

#[test]
fn legal_moves_agree_between_representations() {
    // The two representations enumerate the same successors in the same
    // row-major order.
    let board = played(&[(1, 1, 1, 1), (1, 1, 0, 2), (0, 2, 1, 1), (1, 1, 2, 0)]);
    let bitboard = BitBoard::from_board(&board);
    let plain: Vec<[[[[u8; 3]; 3]; 3]; 3]> =
        board.get_legal_boards().iter().map(|b| b.to_arr().0).collect();
    let packed: Vec<[[[[u8; 3]; 3]; 3]; 3]> = bitboard
        .get_legal_boards()
        .iter()
        .map(|b| b.to_board().to_arr().0)
        .collect();
    assert_eq!(plain, packed);

    let empty_plain: Vec<[[[[u8; 3]; 3]; 3]; 3]> =
        Board::new().get_legal_boards().iter().map(|b| b.to_arr().0).collect();
    let empty_packed: Vec<[[[[u8; 3]; 3]; 3]; 3]> = BitBoard::new()
        .get_legal_boards()
        .iter()
        .map(|b| b.to_board().to_arr().0)
        .collect();
    assert_eq!(empty_plain, empty_packed);
}

#[test]
fn packed_strategy_moves_and_stops() {
    let board = played(&[(1, 1, 1, 1), (1, 1, 0, 2), (0, 2, 1, 1)]);
    let strategy = AlphaBetaBitBoardStrategy::new(4);
    let chosen = strategy.get_move(&board).unwrap();
    // The chosen board is one of the legal successors.
    let legal: Vec<[[[[u8; 3]; 3]; 3]; 3]> =
        board.get_legal_boards().iter().map(|b| b.to_arr().0).collect();
    assert!(legal.contains(&chosen.to_arr().0));

    let finished_game = vec![40, 3, 4, 0, 4, 3, 0, 0, 6, 0, 5, 4, 5, 2, 0, 3, 7, 2, 6, 4];
    let mut board = Board::new();
    for m in finished_game {
        board = board.next_states().get(m).unwrap().to_owned();
    }
    assert!(strategy.get_move(&board).is_none());
}

#[test]
fn packed_board_starts_empty() {
    let bitboard = BitBoard::new();
    let board = bitboard.to_board();
    assert_eq!(board, Board::new());
    assert_eq!(bitboard.who_turn(), Player::Player1);
}
