use zugzwang::board::Board;
use zugzwang::killers::KillerMoves;
use zugzwang::movegen::{can_perft, legal_moves, perft};
use zugzwang::moves::Move;
use zugzwang::ordering::order_moves;
use zugzwang::play::game_status;
use zugzwang::play::GameStatus;
use zugzwang::position::{can_play_moves, has_king_on_board, is_sound, move_can_be_made};
use zugzwang::search::{quiesce, should_deepen, Search, MATE_SCORE, MAX_DEPTH};
use zugzwang::square::Square;
use zugzwang::types::Color;
use zugzwang::uci::{read_command, UciCommand};

#[test]
fn a_mated_side_scores_the_mate_even_outside_the_window() {
    let board = Board::from_fen("k7/Q7/1K6/8/8/8/8/8 b - - 0 1").unwrap();
    assert_eq!(Search::new().negamax(&board, 2, 3, 0, 10), -(MATE_SCORE - 3));
    assert_eq!(Search::new().negamax(&board, 0, 5, -20, -10), -(MATE_SCORE - 5));
}

#[test]
fn a_stalemated_side_scores_zero_even_outside_the_window() {
    let board = Board::from_fen("k7/2Q5/1K6/8/8/8/8/8 b - - 0 1").unwrap();
    assert_eq!(Search::new().negamax(&board, 3, 1, 50, 60), 0);
}

#[test]
fn search_runs_on_a_position_with_a_stale_en_passant_target() {
    let board = Board::from_fen("4k3/8/8/8/8/8/8/4K3 w - e6 0 1").unwrap();
    assert!(!is_sound(&board));
    assert_eq!(Search::new().negamax(&board, 2, 0, -MATE_SCORE, MATE_SCORE), 0);
    assert_eq!(quiesce(&board, -MATE_SCORE, MATE_SCORE), 0);
}

#[test]
fn deepening_needs_time_depth_and_counter_room() {
    let start = Board::starting_position();
    assert!(should_deepen(10, 100, 3, &start));
    assert!(!should_deepen(100, 100, 3, &start));
    assert!(!should_deepen(0, 0, 1, &start));
    assert!(!should_deepen(0, 100, MAX_DEPTH, &start));
    assert!(should_deepen(0, 100, MAX_DEPTH - 1, &start));
    let worn = Board::from_fen("4k3/8/8/8/8/8/8/4K3 w - - 4294967225 1").unwrap();
    assert!(should_deepen(0, 100, 2, &worn));
    assert!(!should_deepen(0, 100, 3, &worn));
}

#[test]
fn handshake_words_must_stand_alone() {
    let board = Board::starting_position();
    assert!(matches!(read_command(&board, "uci foo"), UciCommand::Ignore));
    assert!(matches!(read_command(&board, "quit now"), UciCommand::Ignore));
    assert!(matches!(read_command(&board, "\t uci \t"), UciCommand::Identify));
    assert!(matches!(read_command(&board, "stop stop"), UciCommand::Ignore));
}

#[test]
fn the_more_valuable_victim_sorts_first_whatever_the_attacker() {
    // A knight on c3 can take a bishop on b5 or a knight on d5; a pawn on
    // e4 can take the knight on d5 too. The bishop is worth more than the
    // knight, so taking it comes first even with the knight as attacker.
    let board = Board::from_fen("4k3/8/8/1b1n4/4P3/2N5/8/4K3 w - - 0 1").unwrap();
    let mut moves = vec![
        Move::new(Square::new(4, 3), Square::new(3, 4)),
        Move::new(Square::new(2, 2), Square::new(3, 4)),
        Move::new(Square::new(2, 2), Square::new(1, 4)),
    ];
    order_moves(&board, &mut moves);
    assert_eq!(moves[0].to, Square::new(1, 4));
    assert_eq!(moves[1].from, Square::new(4, 3));
    assert_eq!(moves[2].from, Square::new(2, 2));
}

#[test]
fn the_two_killers_of_a_ply_stay_distinct() {
    let a = Move::new(Square::new(4, 1), Square::new(4, 3));
    let b = Move::new(Square::new(3, 1), Square::new(3, 3));
    let mut killers = KillerMoves::new();
    killers.store(2, a);
    killers.store(2, b);
    killers.store(2, a);
    assert_eq!(killers.get(2), [Some(a), Some(b)]);
    killers.store(2, a);
    assert_eq!(killers.get(2), [Some(a), Some(b)]);
}

#[test]
fn perft_counts_a_position_only_as_deep_as_its_kings_allow() {
    // No black king: White's moves can be counted, Black's replies cannot.
    let board = Board::from_fen("4r3/8/8/8/4N3/8/8/4K3 w - - 0 1").unwrap();
    assert!(can_perft(&board, 1));
    assert_eq!(perft(&board, 1), 5);
    assert!(!can_perft(&board, 2));
    assert!(can_perft(&Board::starting_position(), 3));
}

#[test]
fn move_checks_find_what_cannot_be_played() {
    let start = Board::starting_position();
    assert!(can_play_moves(&start));
    assert!(has_king_on_board(&start, Color::Black));
    let lone = Board::from_fen("4k3/8/8/8/8/8/8/4K3 w - - 0 1").unwrap();
    assert!(move_can_be_made(&lone, Move::new(Square::new(4, 0), Square::new(4, 1))));
    assert!(!move_can_be_made(&lone, Move::new(Square::new(3, 0), Square::new(3, 1))));
    let no_black_king = Board::from_fen("4r3/8/8/8/8/8/8/4K3 w - - 0 1").unwrap();
    assert!(!has_king_on_board(&no_black_king, Color::Black));
    assert!(can_play_moves(&no_black_king));
    let worn = Board::from_fen("4k3/8/8/8/8/8/8/4K3 w - - 4294967295 1").unwrap();
    assert!(!can_play_moves(&worn));
}

#[test]
fn game_status_reads_any_position_whose_side_has_a_king() {
    // The side not to move is in check: still classified.
    let board = Board::from_fen("4k3/8/8/8/8/8/8/4R1K1 w - - 0 1").unwrap();
    assert!(!is_sound(&board));
    assert_eq!(game_status(&board), GameStatus::Ongoing);
    assert!(!legal_moves(&board).is_empty());
}
