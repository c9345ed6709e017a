//! Board behaviour: moves, win detection, almost-wins and the heuristic.

use tic_solved::board::{AlmostWinHeuristic, Board, TicMove};
use tic_solved::minmax::{GameState, Heuristic};
use tic_solved::player::Player;

fn empty_cells() -> [[[[u8; 3]; 3]; 3]; 3] {
    [[[[0; 3]; 3]; 3]; 3]
}

fn board_from(cells: [[[[u8; 3]; 3]; 3]; 3]) -> Board {
    Board::create_board(cells, None).unwrap()
}

#[test]
fn test_move() {
    let board = Board::new();
    let tic_move = TicMove::new((1, 1, 0, 2), &board).unwrap();
    let new_board = tic_move.do_move();
    println!("Old board \n{}", board.to_text());
    println!("New board \n{}", new_board.to_text());
}

#[test]
fn test_move_nonempty_cell() {
    let board = Board::new();
    let tic_move = TicMove::new((1, 1, 0, 2), &board).unwrap();
    let new_board = tic_move.do_move();
    let tic_move = TicMove::new((1, 1, 0, 2), &new_board);
    assert!(tic_move.is_none());
}

#[test]
fn test_move_invalid_board() {
    let board = Board::new();
    let tic_move = TicMove::new((1, 1, 0, 2), &board).unwrap();
    let new_board = tic_move.do_move();
    let tic_move = TicMove::new((0, 1, 1, 1), &new_board);
    assert!(tic_move.is_none());
}

#[test]
fn test_do_multiple_moves() {
    let board = Board::new();
    let moves = board.next_states();
    let board2 = moves.get(11).unwrap();
    let moves = board2.next_states();
    let board3 = moves.get(4).unwrap();

    println!("Board \n{}", board3.to_text());
}

#[test]
fn test_winning_game() {
    let moves_to_play = vec![40, 3, 4, 0, 4, 3, 0, 0, 6, 0, 5, 4, 5, 2, 0, 3, 7, 2, 6, 4];
    let mut board = Board::new();
    for m in moves_to_play {
        assert!(board.board_winner().is_none());
        let moves = board.next_states();
        board = moves.get(m).unwrap().to_owned();
    }
    println!("Board \n{}", board.to_text());
    assert!(board.board_winner() == Some(Player::Player2));
}

#[test]
fn test_is_single_board_winning_row() {
    let mut cells = empty_cells();
    cells[0][0][0][0] = 1;
    cells[0][0][0][1] = 1;
    cells[0][0][0][2] = 1;
    let board = board_from(cells);

    assert_eq!(board.single_board_winner(0, 0), Some(Player::Player1));
}

#[test]
fn test_is_single_board_winning_dig() {
    let mut cells = empty_cells();
    cells[1][1][0][2] = 1;
    cells[1][1][1][1] = 1;
    cells[1][1][2][0] = 1;
    let board = board_from(cells);

    assert_eq!(board.single_board_winner(1, 1), Some(Player::Player1));
}

#[test]
fn test_is_single_board_winning_col() {
    let mut cells = empty_cells();
    cells[2][0][0][1] = 2;
    cells[2][0][1][1] = 2;
    cells[2][0][2][1] = 2;
    let board = board_from(cells);
    println!("{}", board.to_text());
    assert_eq!(board.single_board_winner(2, 0), Some(Player::Player2));
}

#[test]
fn test_is_single_board_not_winning_col() {
    let mut cells = empty_cells();
    cells[2][0][0][1] = 2;
    cells[2][0][1][1] = 2;
    cells[2][0][2][1] = 2;
    let board = board_from(cells);
    assert_eq!(board.single_board_winner(1, 1), None);
}

#[test]
fn test_is_single_board_not_winning_col2() {
    let mut cells = empty_cells();
    cells[2][0][0][1] = 2;
    cells[2][0][1][1] = 2;
    cells[2][0][2][1] = 1;
    let board = board_from(cells);
    assert_eq!(board.single_board_winner(2, 0), None);
}

#[test]
fn test_is_board_winning() {
    let mut cells = empty_cells();
    cells[0][0][0][0] = 1;
    cells[0][0][0][1] = 1;
    cells[0][0][0][2] = 1;
    let board = board_from(cells);
    assert_eq!(board.single_board_winner(0, 0), Some(Player::Player1));

    cells[1][1][0][2] = 1;
    cells[1][1][1][1] = 1;
    cells[1][1][2][0] = 1;
    let board = board_from(cells);
    assert_eq!(board.single_board_winner(1, 1), Some(Player::Player1));

    cells[2][2][0][1] = 1;
    cells[2][2][1][1] = 1;
    cells[2][2][2][1] = 1;
    let board = board_from(cells);
    assert_eq!(board.single_board_winner(2, 2), Some(Player::Player1));

    println!("{}", board.to_text());
    assert!(board.board_winner() == Some(Player::Player1));
    assert_eq!(AlmostWinHeuristic::score(&board), -1000);
}

#[test]
fn test_2_in_a_col() {
    let mut cells = empty_cells();
    cells[2][0][0][1] = 2;
    cells[2][0][1][1] = 2;
    let board = board_from(cells);
    println!("{}", board.to_text());
    assert_eq!(board.number_almost_wins(2, 0, Player::Player2), 1);
}

#[test]
fn test_2_in_a_col_and_dig() {
    let mut cells = empty_cells();
    cells[2][0][0][1] = 2;
    cells[2][0][1][1] = 2;

    cells[1][1][0][2] = 2;
    cells[1][1][1][1] = 2;
    let board = board_from(cells);

    println!("{}", board.to_text());

    assert_eq!(
        board.number_almost_wins(2, 0, Player::Player2)
            + board.number_almost_wins(1, 1, Player::Player2),
        2
    );
    assert_eq!(AlmostWinHeuristic::score(&board), 2);
}

#[test]
fn test_score() {
    let mut cells = empty_cells();
    cells[2][0][0][1] = 2;
    cells[2][0][1][1] = 2;
    cells[2][0][2][1] = 2;
    cells[1][0][0][1] = 2;
    cells[1][0][1][1] = 2;
    cells[2][1][0][1] = 1;
    cells[2][1][1][1] = 1;
    cells[2][1][2][1] = 1;
    cells[0][0][0][0] = 1;
    cells[0][0][1][1] = 1;
    cells[0][2][2][2] = 1;
    cells[0][2][2][0] = 1;
    cells[1][2][2][2] = 1;
    cells[1][2][0][0] = 1;
    cells[1][1][0][1] = 1;
    cells[1][1][2][1] = 1;
    let board = board_from(cells);
    println!("{}", board.to_text());
    assert_eq!(AlmostWinHeuristic::score(&board), -3)
}

#[test]
fn test_score_symmetry() {
    let empty_board = Board::new();
    let moves = empty_board.next_states();
    let board1 = moves.first().unwrap().to_owned();
    let board2 = moves.last().unwrap().to_owned();
    assert_eq!(
        AlmostWinHeuristic::score(&board1),
        AlmostWinHeuristic::score(&board2)
    );
}

#[test]
fn test_almost_wins_dummy() {
    let empty_board = Board::new();
    let moves = empty_board.next_states();
    let dummy_board = moves.first().unwrap().to_owned();
    assert_eq!(dummy_board.number_almost_wins(0, 0, Player::Player1), 0);
    assert_eq!(dummy_board.number_almost_wins(0, 0, Player::Player2), 0);
}

#[test]
fn test_score_simple() {
    let board = Board::new();
    let moves = board.next_states();
    let board = moves.get(0).unwrap().to_owned();
    let moves = board.next_states();
    let board = moves.get(3).unwrap().to_owned();
    let moves = board.next_states();
    let board = moves.get(0).unwrap().to_owned();
    let moves = board.next_states();
    let board = moves.get(0).unwrap().to_owned();
    println!("{}", board.to_text());
    assert!(AlmostWinHeuristic::score(&board) > 0);
}

#[test]
fn legal_moves_of_empty_board_are_all_cells() {
    let board = Board::new();
    assert_eq!(board.get_legal_boards().len(), 81);
}

#[test]
fn first_move_forces_its_subboard() {
    let board = Board::new();
    let first = TicMove::new((0, 0, 0, 0), &board).unwrap().do_move();
    let replies = first.get_legal_boards();
    assert_eq!(replies.len(), 8);
    for reply in &replies {
        let (before, _) = first.to_arr();
        let (after, _) = reply.to_arr();
        let mut changed = None;
        for sr in 0..3 {
            for sc in 0..3 {
                for cr in 0..3 {
                    for cc in 0..3 {
                        if before[sr][sc][cr][cc] != after[sr][sc][cr][cc] {
                            changed = Some((sr, sc));
                        }
                    }
                }
            }
        }
        assert_eq!(changed, Some((0usize, 0usize)));
    }
}

#[test]
fn decided_subboard_never_reopens() {
    // The second player fills subboard (0, 0)'s middle row while the first
    // keeps pointing play back at it; afterwards no legal move may land in
    // (0, 0).
    let mut board = Board::new();
    let script = [
        (0, 0, 0, 0),
        (0, 0, 1, 0),
        (1, 0, 0, 0),
        (0, 0, 1, 1),
        (1, 1, 0, 0),
        (0, 0, 1, 2),
    ];
    for mv in script {
        board = TicMove::new(mv, &board).unwrap().do_move();
    }
    assert_eq!(board.single_board_winner(0, 0), Some(Player::Player2));
    // Walk a few plies and check every legal move avoids subboard (0, 0).
    let mut frontier = vec![board];
    for _ in 0..2 {
        let mut next = Vec::new();
        for b in &frontier {
            for child in b.get_legal_boards() {
                let (before, _) = b.to_arr();
                let (after, _) = child.to_arr();
                for cr in 0..3 {
                    for cc in 0..3 {
                        assert_eq!(before[0][0][cr][cc], after[0][0][cr][cc]);
                    }
                }
                next.push(child);
            }
        }
        frontier = next;
        frontier.truncate(5);
    }
}

#[test]
fn create_board_rejects_bad_codes() {
    let mut cells = empty_cells();
    cells[1][2][0][1] = 3;
    let r = Board::create_board(cells, None);
    assert_eq!(r.unwrap_err(), "Cells parameter");
}

#[test]
fn heuristic_is_reflection_symmetric() {
    // Score a scripted position and its half-revolution counterpart.
    let mut board = Board::new();
    for mv in [(1, 1, 0, 2), (0, 2, 2, 1), (2, 1, 1, 1), (1, 1, 2, 0), (2, 0, 0, 1)] {
        board = TicMove::new(mv, &board).unwrap().do_move();
    }
    let (cells, last) = board.to_arr();
    let mut turned = [[[[0u8; 3]; 3]; 3]; 3];
    for sr in 0..3 {
        for sc in 0..3 {
            for cr in 0..3 {
                for cc in 0..3 {
                    turned[2 - sr][2 - sc][2 - cr][2 - cc] = cells[sr][sc][cr][cc];
                }
            }
        }
    }
    let (a, b, y, x) = last.unwrap();
    let reflected = Board::create_board(turned, Some((2 - a, 2 - b, 2 - y, 2 - x))).unwrap();
    assert_eq!(
        AlmostWinHeuristic::score(&reflected),
        AlmostWinHeuristic::score(&board)
    );
}

#[test]
fn who_turn_follows_mark_counts() {
    let board = Board::new();
    assert_eq!(board.who_turn(), Player::Player1);
    let board = TicMove::new((0, 0, 0, 0), &board).unwrap().do_move();
    assert_eq!(board.who_turn(), Player::Player2);
}
