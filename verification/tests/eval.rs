use zugzwang::board::{Board, Piece};
use zugzwang::eval::{evaluate, material_score};
use zugzwang::square::Square;
use zugzwang::types::{Color, PieceKind};

#[test]
fn starting_position_material_is_balanced() {
    let board = Board::starting_position();
    assert_eq!(material_score(&board), 0);
}

#[test]
fn starting_position_evaluation_is_balanced() {
    let board = Board::starting_position();
    assert_eq!(evaluate(&board), 0);
}

#[test]
fn evaluate_adds_material_and_pst() {
    // A lone white knight on the rim: material_score is +320, and the
    // knight's PST value on a1 is negative, so the combined
    // evaluation should be strictly less than material alone.
    let mut board = Board::empty();
    board.set(
        Square::new(0, 0),
        Some(Piece {
            kind: PieceKind::Knight,
            color: Color::White,
        }),
    );
    assert!(evaluate(&board) < material_score(&board));
}
