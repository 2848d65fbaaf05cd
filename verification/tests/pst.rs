use zugzwang::board::{Board, Piece};
use zugzwang::pst::score;
use zugzwang::square::Square;
use zugzwang::types::{Color, PieceKind};

#[test]
fn starting_position_pst_score_is_symmetric() {
    assert_eq!(score(&Board::starting_position()), 0);
}

#[test]
fn knight_is_rewarded_for_centralizing() {
    let mut board = Board::empty();
    let rim = Square::new(0, 0);
    let center = Square::new(3, 3);
    let knight = Piece {
        kind: PieceKind::Knight,
        color: Color::White,
    };
    board.set(rim, Some(knight));
    let rim_score = score(&board);
    board.set(rim, None);
    board.set(center, Some(knight));
    let center_score = score(&board);
    assert!(center_score > rim_score);
}

#[test]
fn king_is_rewarded_for_a_castled_corner_over_the_open_center() {
    // The KING table rewards early-game safety (tucked behind pawns on
    // the back rank) over centralization — the opposite priority from
    // every other piece — since an exposed king in the middle of an
    // open board is a liability, not an asset.
    let mut board = Board::empty();
    let castled = Square::new(6, 0);
    let center = Square::new(3, 3);
    let king = Piece {
        kind: PieceKind::King,
        color: Color::White,
    };
    board.set(castled, Some(king));
    let castled_score = score(&board);
    board.set(castled, None);
    board.set(center, Some(king));
    let center_score = score(&board);
    assert!(castled_score > center_score);
}

#[test]
fn white_and_black_pawn_advancement_are_mirrored() {
    // A white pawn one step from promoting and a black pawn one step
    // from promoting should be rewarded identically in magnitude.
    let mut white_board = Board::empty();
    white_board.set(
        Square::new(4, 6),
        Some(Piece {
            kind: PieceKind::Pawn,
            color: Color::White,
        }),
    );
    let mut black_board = Board::empty();
    black_board.set(
        Square::new(4, 1),
        Some(Piece {
            kind: PieceKind::Pawn,
            color: Color::Black,
        }),
    );
    assert_eq!(score(&white_board), -score(&black_board));
}
