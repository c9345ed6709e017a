//! Parsing and rendering the text form of a board.

use tic_solved::board::{Board, TicMove};
use tic_solved::player::Player;
use tic_solved::text::BoardResult;

fn dots(n: usize) -> String {
    let mut s = String::new();
    for _ in 0..n {
        s.push('.');
    }
    s
}

#[test]
fn parse_empty_board() {
    let board = BoardResult::from_text(&dots(81)).into_inner().unwrap();
    assert_eq!(board, Board::new());
}

#[test]
fn parse_reads_marks_and_turn() {
    let mut text = dots(81);
    // An `x` in the top-left cell and an `o` in the very centre.
    text.replace_range(0..1, "x");
    text.replace_range(40..41, "o");
    let board = BoardResult::from_text(&text).into_inner().unwrap();
    assert_eq!(board.who_turn(), Player::Player1);
    let (cells, last) = board.to_arr();
    assert_eq!(cells[0][0][0][0], 1);
    assert_eq!(cells[1][1][1][1], 2);
    assert_eq!(last, None);
}

#[test]
fn parse_reads_the_forced_subboard() {
    let mut text = dots(81);
    // An uppercase mark in the grid's bottom-right cell: subboard (2, 2).
    text.replace_range(80..81, "X");
    let board = BoardResult::from_text(&text).into_inner().unwrap();
    assert_eq!(board.to_arr().1, Some((0, 0, 2, 2)));

    let mut text = dots(81);
    // A backtick flags an empty cell; first cell, subboard (0, 0).
    text.replace_range(0..1, "`");
    let board = BoardResult::from_text(&text).into_inner().unwrap();
    assert_eq!(board.to_arr().1, Some((0, 0, 0, 0)));
    assert_eq!(board.to_arr().0[0][0][0][0], 0);
}

#[test]
fn parse_rejects_wrong_length() {
    let r = BoardResult::from_text(&dots(80)).into_inner();
    assert_eq!(
        r.unwrap_err(),
        "Invalid board string: wrong number of characters"
    );
}

#[test]
fn parse_rejects_unknown_characters() {
    let mut text = dots(81);
    text.replace_range(10..11, "q");
    let r = BoardResult::from_text(&text).into_inner();
    assert_eq!(r.unwrap_err(), "Invalid board string: unknown character");
}

#[test]
fn parse_rejects_markers_in_two_subboards() {
    let mut text = dots(81);
    text.replace_range(0..1, "X");
    text.replace_range(80..81, "O");
    let r = BoardResult::from_text(&text).into_inner();
    assert_eq!(r.unwrap_err(), "Last move is unclear");
}

#[test]
fn parse_accepts_markers_in_one_subboard() {
    let mut text = dots(81);
    // Cells (0,0,0,0) and (0,0,1,0) both lie in subboard (0, 0): text
    // positions 0 and 9.
    text.replace_range(0..1, "X");
    text.replace_range(9..10, "O");
    let board = BoardResult::from_text(&text).into_inner().unwrap();
    assert_eq!(board.to_arr().1, Some((0, 0, 0, 0)));
}

#[test]
fn parse_rejects_impossible_counts() {
    let mut text = dots(81);
    text.replace_range(0..1, "o");
    let r = BoardResult::from_text(&text).into_inner();
    assert_eq!(
        r.unwrap_err(),
        "Invalid board string: impossible number of x's or o's"
    );

    let mut text = dots(81);
    text.replace_range(0..2, "xx");
    let r = BoardResult::from_text(&text).into_inner();
    assert_eq!(
        r.unwrap_err(),
        "Invalid board string: impossible number of x's or o's"
    );
}

#[test]
fn parse_skips_whitespace() {
    let mut text = String::new();
    for chunk in 0..27 {
        if chunk == 0 {
            text.push_str("x..");
        } else if chunk == 1 {
            text.push_str(".o.");
        } else {
            text.push_str("...");
        }
        text.push_str(" \n\t");
    }
    let board = BoardResult::from_text(&text).into_inner().unwrap();
    let (cells, _) = board.to_arr();
    assert_eq!(cells[0][0][0][0], 1);
    // Text position 4 is the middle cell of the top row of subboard (0,1).
    assert_eq!(cells[0][1][0][1], 2);
}

#[test]
fn render_then_parse_round_trips() {
    let mut board = Board::new();
    for mv in [(1, 1, 0, 2), (0, 2, 2, 1), (2, 1, 1, 1)] {
        board = TicMove::new(mv, &board).unwrap().do_move();
    }
    let text = board.to_text();
    println!("{}", text);
    let back = BoardResult::from_text(&text).into_inner().unwrap();
    assert_eq!(board.to_arr().0, back.to_arr().0);
    // The rendering flags the forced subboard, which is what parsing
    // recovers.
    assert_eq!(back.to_arr().1, Some((0, 0, 1, 1)));
}

#[test]
fn render_marks_the_forced_subboard() {
    let mut board = Board::new();
    board = TicMove::new((0, 0, 0, 0), &board).unwrap().do_move();
    let text = board.to_text();
    // The mark itself sits in the forced subboard (0, 0), so it is
    // rendered uppercase; every other cell of that subboard is a flagged
    // empty cell.
    assert!(text.starts_with("X``"));
}
