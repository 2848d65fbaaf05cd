use zugzwang::board::Board;
use zugzwang::movegen::perft;
use zugzwang::position::is_sound;

fn counts(fen: &str, depth: u32) -> Vec<u64> {
    let board = Board::from_fen(fen).unwrap();
    assert!(is_sound(&board));
    (1..=depth).map(|d| perft(&board, d)).collect()
}

#[test]
fn perft_of_the_starting_position() {
    let board = Board::starting_position();
    assert_eq!(perft(&board, 0), 1);
    assert_eq!(perft(&board, 1), 20);
    assert_eq!(perft(&board, 2), 400);
    assert_eq!(perft(&board, 3), 8902);
}

#[test]
fn perft_of_a_position_full_of_castling_and_en_passant() {
    assert_eq!(
        counts("r3k2r/p1ppqpb1/bn2pnp1/3PN3/1p2P3/2N2Q1p/PPPBBPPP/R3K2R w KQkq - 0 1", 2),
        vec![48, 2039]
    );
}

#[test]
fn perft_of_a_sparse_endgame() {
    assert_eq!(
        counts("8/2p5/3p4/KP5r/1R3p1k/8/4P1P1/8 w - - 0 1", 3),
        vec![14, 191, 2812]
    );
}

#[test]
fn perft_with_promotions_and_checks() {
    assert_eq!(
        counts("r3k2r/Pppp1ppp/1b3nbN/nP6/BBP1P3/q4N2/Pp1P2PP/R2Q1RK1 w kq - 0 1", 2),
        vec![6, 264]
    );
    assert_eq!(
        counts("rnbq1k1r/pp1Pbppp/2p5/8/2B5/8/PPP1NnPP/RNBQK2R w KQ - 1 8", 2),
        vec![44, 1486]
    );
}
