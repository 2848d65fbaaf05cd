use zugzwang::board::Board;
use zugzwang::movegen::legal_moves;
use zugzwang::play::{apply_human_move, engine_reply, game_status, GameStatus};
use zugzwang::types::Color;

#[test]
fn game_status_is_ongoing_at_the_start() {
    assert_eq!(
        game_status(&Board::starting_position()),
        GameStatus::Ongoing
    );
}

#[test]
fn game_status_detects_checkmate() {
    let board = Board::from_fen("k7/Q7/1K6/8/8/8/8/8 b - - 0 1").unwrap();
    assert_eq!(game_status(&board), GameStatus::Checkmate);
}

#[test]
fn game_status_detects_stalemate() {
    let board = Board::from_fen("7k/5Q2/6K1/8/8/8/8/8 b - - 0 1").unwrap();
    assert_eq!(game_status(&board), GameStatus::Stalemate);
}

#[test]
fn apply_human_move_plays_a_legal_move() {
    let board = Board::starting_position();
    let next = apply_human_move(&board, "e2e4").unwrap();
    assert_eq!(
        next.to_fen(),
        "rnbqkbnr/pppppppp/8/8/4P3/8/PPPP1PPP/RNBQKBNR b KQkq e3 0 1"
    );
}

#[test]
fn apply_human_move_rejects_an_illegal_move() {
    let board = Board::starting_position();
    assert!(apply_human_move(&board, "e2e5").is_err());
}

#[test]
fn engine_reply_plays_a_legal_move() {
    let board = Board::starting_position();
    let (mv, next) = engine_reply(&board).unwrap();
    assert!(legal_moves(&Board::starting_position()).contains(&mv));
    assert_eq!(next.side_to_move, Color::Black);
}

#[test]
fn engine_reply_returns_none_with_no_legal_moves() {
    let board = Board::from_fen("k7/Q7/1K6/8/8/8/8/8 b - - 0 1").unwrap();
    assert!(engine_reply(&board).is_none());
}
