//! Search behaviour: the helper combinators, the equality of plain and
//! pruning minimax, and the strategies built on them.

use tic_solved::board::{AlmostWinHeuristic, Board, TicMove};
use tic_solved::minmax::alphabeta;
use tic_solved::minmax::alphabeta::{optional_max, optional_min, ScoredGameState};
use tic_solved::minmax::naive;
use tic_solved::minmax::GameState;
use tic_solved::strategy::{AlphaBetaStrategy, MinimaxStrategy, Strategy};

#[test]
fn test_optional_max() {
    let a = Some(ScoredGameState { score: 10, game_state: 60 });
    let b = Some(ScoredGameState { score: 15, game_state: 100 });
    assert_eq!(optional_max(a, b.clone()), b);
}

#[test]
fn test_optional_min() {
    let a = Some(ScoredGameState { score: 10, game_state: 60 });
    let b = Some(ScoredGameState { score: 15, game_state: 100 });
    assert_eq!(optional_min(a.clone(), b), a);
}

#[test]
fn test_none_order_wtf() {
    assert!(None <= Some(-3));
    assert!(None <= Some(3));
    assert!(!(None >= Some(3)));
    assert!(!(None >= Some(-3)));
}

fn sample_position() -> Board {
    // A dozen scripted plies from the empty board.
    let mut board = Board::new();
    let script = [
        (1, 1, 1, 1),
        (1, 1, 0, 2),
        (0, 2, 1, 1),
        (1, 1, 2, 0),
        (2, 0, 1, 1),
        (1, 1, 0, 0),
        (0, 0, 2, 2),
        (2, 2, 0, 0),
        (0, 0, 1, 2),
        (1, 2, 2, 1),
        (2, 1, 0, 1),
        (0, 1, 2, 2),
    ];
    for mv in script {
        board = TicMove::new(mv, &board).unwrap().do_move();
    }
    board
}

#[test]
fn naive_and_alphabeta_scores_agree() {
    let board = sample_position();
    assert!(board.get_legal_boards().len() > 0);
    for depth in 1..5 {
        let naive_max = naive::max_score::<Board, AlmostWinHeuristic>(&board, depth);
        let (_, ab_max) =
            alphabeta::max_score::<Board, AlmostWinHeuristic>(&board, depth, None, None);
        assert_eq!(naive_max, ab_max);
        let naive_min = naive::min_score::<Board, AlmostWinHeuristic>(&board, depth);
        let (_, ab_min) =
            alphabeta::min_score::<Board, AlmostWinHeuristic>(&board, depth, None, None);
        assert_eq!(naive_min, ab_min);
    }
}

#[test]
fn naive_and_alphabeta_scores_agree_near_start() {
    let mut board = Board::new();
    for mv in [(0, 0, 0, 0), (0, 0, 1, 2), (1, 2, 2, 2)] {
        board = TicMove::new(mv, &board).unwrap().do_move();
    }
    for depth in 1..4 {
        let naive_max = naive::max_score::<Board, AlmostWinHeuristic>(&board, depth);
        let (_, ab_max) =
            alphabeta::max_score::<Board, AlmostWinHeuristic>(&board, depth, None, None);
        assert_eq!(naive_max, ab_max);
    }
}

#[test]
fn strategies_choose_the_same_move() {
    let board = sample_position();
    for depth in 1..4 {
        let plain = MinimaxStrategy::new(depth);
        let pruning = AlphaBetaStrategy::new(depth);
        let move_a = plain.get_move(&board).unwrap();
        let move_b = pruning.get_move(&board).unwrap();
        assert_eq!(move_a, move_b);
    }
}

#[test]
fn strategies_return_nothing_on_finished_games() {
    // Play the scripted winning game to its end: the super-board is won,
    // so no strategy has a move to offer.
    let moves_to_play = vec![40, 3, 4, 0, 4, 3, 0, 0, 6, 0, 5, 4, 5, 2, 0, 3, 7, 2, 6, 4];
    let mut board = Board::new();
    for m in moves_to_play {
        let moves = board.next_states();
        board = moves.get(m).unwrap().to_owned();
    }
    assert!(board.board_winner().is_some());
    assert_eq!(board.get_legal_boards().len(), 0);
    assert!(MinimaxStrategy::new(3).get_move(&board).is_none());
    assert!(AlphaBetaStrategy::new(3).get_move(&board).is_none());
}

#[test]
fn search_returns_heuristic_at_depth_zero() {
    let board = sample_position();
    let score = naive::max_score::<Board, AlmostWinHeuristic>(&board, 0);
    assert_eq!(score, board.almost_win_score());
}
