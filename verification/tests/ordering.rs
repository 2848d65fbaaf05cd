use zugzwang::board::Board;
use zugzwang::moves::Move;
use zugzwang::ordering::order_moves;
use zugzwang::square::Square;

#[test]
fn captures_sort_before_quiet_moves() {
    // White queen on d1 can capture a pawn on d7 or make a quiet move
    // to d2; the capture must come first regardless of list order.
    let board = Board::from_fen("4k3/3p4/8/8/8/8/8/3QK3 w - - 0 1").unwrap();
    let mut moves = vec![
        Move::new(Square::new(3, 0), Square::new(3, 1)),
        Move::new(Square::new(3, 0), Square::new(3, 6)),
    ];
    order_moves(&board, &mut moves);
    assert_eq!(moves[0].to, Square::new(3, 6));
}

#[test]
fn cheaper_attacker_ranks_first_among_equal_victims() {
    // Both a white pawn on c5 and a white rook on d1 can capture a
    // black pawn on d6; the pawn recapture should sort first since
    // it risks less material if the pawn was actually defended.
    let board = Board::from_fen("4k3/8/3p4/2P5/8/8/8/3RK3 w - - 0 1").unwrap();
    let mut moves = vec![
        Move::new(Square::new(3, 0), Square::new(3, 5)),
        Move::new(Square::new(2, 4), Square::new(3, 5)),
    ];
    order_moves(&board, &mut moves);
    assert_eq!(moves[0].from, Square::new(2, 4));
}
