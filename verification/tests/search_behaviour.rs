use zugzwang::board::Board;
use zugzwang::history::HistoryTable;
use zugzwang::moves::Move;
use zugzwang::ordering::order_moves_for_search;
use zugzwang::play::{engine_reply, game_status, GameStatus};
use zugzwang::search::{quiesce, Search, MATE_SCORE};
use zugzwang::square::Square;

const BACK_RANK_MATE: &str = "6k1/5ppp/8/8/8/8/8/R5K1 w - - 0 1";

#[test]
fn root_search_finds_a_mate_in_one() {
    let board = Board::from_fen(BACK_RANK_MATE).unwrap();
    let (mv, score) = Search::new().root_search(&board, 1);
    assert_eq!(mv.to_uci(), "a1a8");
    assert_eq!(score, MATE_SCORE - 1);
}

#[test]
fn deeper_search_still_prefers_the_shortest_mate() {
    let board = Board::from_fen(BACK_RANK_MATE).unwrap();
    let (mv, score) = Search::new().root_search(&board, 3);
    assert_eq!(mv.to_uci(), "a1a8");
    assert_eq!(score, MATE_SCORE - 1);
}

#[test]
fn a_zero_budget_still_searches_one_ply() {
    let board = Board::from_fen(BACK_RANK_MATE).unwrap();
    let (mv, score) = Search::new().find_best_move(&board, 0).unwrap();
    assert_eq!(mv.to_uci(), "a1a8");
    assert_eq!(score, MATE_SCORE - 1);
}

#[test]
fn find_best_move_has_nothing_to_say_without_a_legal_move() {
    let board = Board::from_fen("7k/5Q2/6K1/8/8/8/8/8 b - - 0 1").unwrap();
    assert!(Search::new().find_best_move(&board, 0).is_none());
}

#[test]
fn quiescence_takes_a_hanging_queen() {
    let board = Board::from_fen("4k3/8/8/3q4/4P3/8/8/4K3 w - - 0 1").unwrap();
    assert_eq!(quiesce(&board, -MATE_SCORE, MATE_SCORE), 100);
}

#[test]
fn quiescence_stands_pat_when_capturing_loses() {
    // The only capture, Qxd5, is answered by exd5 and loses the queen.
    let board = Board::from_fen("4k3/8/4p3/3p4/8/8/8/3QK3 w - - 0 1").unwrap();
    assert_eq!(quiesce(&board, -MATE_SCORE, MATE_SCORE), 900 - 200);
}

#[test]
fn a_fail_high_returns_at_least_beta() {
    let board = Board::from_fen("4k3/8/8/3q4/4P3/8/8/4K3 w - - 0 1").unwrap();
    assert!(quiesce(&board, -10, 50) >= 50);
    assert!(Search::new().negamax(&board, 1, 0, -10, 50) >= 50);
}

#[test]
fn negamax_sees_a_free_queen_one_ply_deep() {
    let board = Board::from_fen("4k3/8/8/3q4/4P3/8/8/4K3 w - - 0 1").unwrap();
    assert_eq!(Search::new().negamax(&board, 1, 0, -MATE_SCORE, MATE_SCORE), 100);
}

#[test]
fn search_order_puts_captures_then_killers_then_history() {
    let board = Board::from_fen("4k3/8/8/3p4/4P3/8/8/1N2K1N1 w - - 0 1").unwrap();
    let quiet = Move::new(Square::new(4, 3), Square::new(4, 4));
    let killer = Move::new(Square::new(6, 0), Square::new(5, 2));
    let favoured = Move::new(Square::new(1, 0), Square::new(2, 2));
    let capture = Move::new(Square::new(4, 3), Square::new(3, 4));
    let mut history = HistoryTable::new();
    history.record(favoured, 3);
    let mut moves = vec![quiet, favoured, killer, capture];
    order_moves_for_search(&board, &mut moves, [Some(killer), None], &history);
    assert_eq!(moves, vec![capture, killer, favoured, quiet]);
}

#[test]
fn engine_reply_answers_with_the_mate() {
    let board = Board::from_fen(BACK_RANK_MATE).unwrap();
    let (mv, next) = engine_reply(&board).unwrap();
    assert_eq!(mv.to_uci(), "a1a8");
    assert_eq!(game_status(&next), GameStatus::Checkmate);
}

#[test]
fn equal_moves_are_broken_by_generation_order() {
    // Every first move keeps the material level one ply deep, and none is a
    // capture, killer or history move, so the first generated one wins.
    let board = Board::starting_position();
    let (mv, score) = Search::new().root_search(&board, 1);
    assert_eq!(mv.to_uci(), "a2a3");
    assert_eq!(score, 0);
}
