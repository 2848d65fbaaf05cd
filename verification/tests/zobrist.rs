use zugzwang::board::Board;
use zugzwang::movegen::find_uci_move;
use zugzwang::moves::Move;
use zugzwang::square::Square;
use zugzwang::zobrist::hash;

#[test]
fn identical_positions_hash_the_same() {
    let a = Board::starting_position();
    let b = Board::starting_position();
    assert_eq!(hash(&a), hash(&b));
}

#[test]
fn different_positions_hash_differently() {
    let start = Board::starting_position();
    let after_e4 = start.make_move(Move::new(
        Square::new(4, 1),
        Square::new(4, 3),
    ));
    assert_ne!(hash(&start), hash(&after_e4));
}

#[test]
fn transposed_move_orders_hash_the_same() {
    // 1.Nf3 Nf6 2.Nc3 Nc6 and 1.Nc3 Nc6 2.Nf3 Nf6 reach the identical
    // position by different move orders — exactly the case a
    // transposition table exists to exploit, so their hashes (and not
    // just their FENs) must match.
    let play = |moves: &[&str]| {
        let mut board = Board::starting_position();
        for &uci in moves {
            board = board.make_move(find_uci_move(&board, uci).unwrap());
        }
        board
    };
    let a = play(&["g1f3", "g8f6", "b1c3", "b8c6"]);
    let b = play(&["b1c3", "b8c6", "g1f3", "g8f6"]);
    assert_eq!(a.to_fen(), b.to_fen());
    assert_eq!(hash(&a), hash(&b));
}

#[test]
fn side_to_move_affects_the_hash() {
    let white = Board::from_fen("4k3/8/8/8/8/8/8/4K3 w - - 0 1").unwrap();
    let black = Board::from_fen("4k3/8/8/8/8/8/8/4K3 b - - 0 1").unwrap();
    assert_ne!(hash(&white), hash(&black));
}

#[test]
fn castling_rights_affect_the_hash() {
    let with_rights = Board::from_fen("r3k2r/8/8/8/8/8/8/R3K2R w KQkq - 0 1").unwrap();
    let without_rights = Board::from_fen("r3k2r/8/8/8/8/8/8/R3K2R w - - 0 1").unwrap();
    assert_ne!(hash(&with_rights), hash(&without_rights));
}

#[test]
fn en_passant_target_affects_the_hash() {
    let with_ep =
        Board::from_fen("rnbqkbnr/ppp1pppp/8/3pP3/8/8/PPPP1PPP/RNBQKBNR w KQkq d6 0 3")
            .unwrap();
    let without_ep =
        Board::from_fen("rnbqkbnr/ppp1pppp/8/3pP3/8/8/PPPP1PPP/RNBQKBNR w KQkq - 0 3").unwrap();
    assert_ne!(hash(&with_ep), hash(&without_ep));
}
