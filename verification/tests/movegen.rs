use zugzwang::board::{Board, Piece};
use zugzwang::movegen::{is_in_check, is_square_attacked, legal_moves, pseudo_legal_moves};
use zugzwang::moves::MoveKind;
use zugzwang::square::Square;
use zugzwang::types::{Color, PieceKind};

#[test]
fn starting_position_has_twenty_pseudo_legal_moves() {
    // 16 pawn moves (8 single + 8 double pushes) + 4 knight moves;
    // the king and sliding pieces are all boxed in at the start.
    let board = Board::starting_position();
    let moves = pseudo_legal_moves(&board);
    assert_eq!(moves.len(), 20);
}

#[test]
fn knight_on_empty_board_has_eight_moves() {
    let mut board = Board::empty();
    board.set(
        Square::new(3, 3),
        Some(Piece {
            kind: PieceKind::Knight,
            color: Color::White,
        }),
    );
    let moves = pseudo_legal_moves(&board);
    assert_eq!(moves.len(), 8);
}

#[test]
fn king_cannot_capture_its_own_piece() {
    let mut board = Board::empty();
    board.set(
        Square::new(4, 4),
        Some(Piece {
            kind: PieceKind::King,
            color: Color::White,
        }),
    );
    board.set(
        Square::new(4, 5),
        Some(Piece {
            kind: PieceKind::Pawn,
            color: Color::White,
        }),
    );
    let moves = pseudo_legal_moves(&board);
    let king_moves: Vec<_> = moves
        .iter()
        .filter(|m| m.from == Square::new(4, 4))
        .collect();
    assert_eq!(king_moves.len(), 7);
    assert!(!king_moves.iter().any(|m| m.to == Square::new(4, 5)));
}

#[test]
fn rook_on_empty_board_has_fourteen_moves() {
    let mut board = Board::empty();
    board.set(
        Square::new(3, 3),
        Some(Piece {
            kind: PieceKind::Rook,
            color: Color::White,
        }),
    );
    let moves = pseudo_legal_moves(&board);
    assert_eq!(moves.len(), 14);
}

#[test]
fn bishop_ray_stops_at_a_capture_and_a_blocker() {
    let mut board = Board::empty();
    board.set(
        Square::new(3, 3),
        Some(Piece {
            kind: PieceKind::Bishop,
            color: Color::White,
        }),
    );
    board.set(
        Square::new(5, 5),
        Some(Piece {
            kind: PieceKind::Pawn,
            color: Color::Black,
        }),
    );
    board.set(
        Square::new(1, 1),
        Some(Piece {
            kind: PieceKind::Pawn,
            color: Color::White,
        }),
    );
    let moves = pseudo_legal_moves(&board);
    let bishop_moves: Vec<_> = moves
        .iter()
        .filter(|m| m.from == Square::new(3, 3))
        .collect();
    assert!(bishop_moves.iter().any(|m| m.to == Square::new(4, 4)));
    assert!(bishop_moves.iter().any(|m| m.to == Square::new(5, 5)));
    assert!(!bishop_moves.iter().any(|m| m.to == Square::new(6, 6)));
    assert!(bishop_moves.iter().any(|m| m.to == Square::new(2, 2)));
    assert!(!bishop_moves.iter().any(|m| m.to == Square::new(1, 1)));
}

#[test]
fn is_square_attacked_detects_pawn_attack() {
    let mut board = Board::empty();
    board.set(
        Square::new(3, 3),
        Some(Piece {
            kind: PieceKind::Pawn,
            color: Color::White,
        }),
    );
    assert!(is_square_attacked(&board, Square::new(4, 4), Color::White));
    assert!(!is_square_attacked(&board, Square::new(4, 2), Color::White));
}

#[test]
fn is_square_attacked_detects_rook_ray_through_open_file() {
    let mut board = Board::empty();
    board.set(
        Square::new(0, 0),
        Some(Piece {
            kind: PieceKind::Rook,
            color: Color::Black,
        }),
    );
    assert!(is_square_attacked(&board, Square::new(0, 7), Color::Black));
    board.set(
        Square::new(0, 4),
        Some(Piece {
            kind: PieceKind::Pawn,
            color: Color::White,
        }),
    );
    assert!(!is_square_attacked(&board, Square::new(0, 7), Color::Black));
}

#[test]
fn is_in_check_detects_check_from_a_queen() {
    let mut board = Board::empty();
    board.set(
        Square::new(4, 0),
        Some(Piece {
            kind: PieceKind::King,
            color: Color::White,
        }),
    );
    board.set(
        Square::new(4, 7),
        Some(Piece {
            kind: PieceKind::Queen,
            color: Color::Black,
        }),
    );
    assert!(is_in_check(&board));
}

#[test]
fn legal_moves_from_starting_position_is_twenty() {
    let board = Board::starting_position();
    assert_eq!(legal_moves(&board).len(), 20);
}

#[test]
fn legal_moves_excludes_moves_that_leave_own_king_in_check() {
    // White king on e1, a white knight pinned on e4 by a black rook on
    // e8. A knight can never move without leaving the e-file, so every
    // pseudo-legal knight move here is illegal.
    let board = Board::from_fen("4r3/8/8/8/4N3/8/8/4K3 w - - 0 1").unwrap();
    let moves = legal_moves(&board);
    assert!(!moves.iter().any(|m| m.from == Square::new(4, 3)));
}

#[test]
fn legal_moves_excludes_king_stepping_into_check() {
    let board = Board::from_fen("4k3/8/8/8/8/8/8/4KR2 b - - 0 1").unwrap();
    let moves = legal_moves(&board);
    // Black king on e8 must not step to f8, attacked by the white rook.
    assert!(!moves
        .iter()
        .any(|m| m.from == Square::new(4, 7) && m.to == Square::new(5, 7)));
}

#[test]
fn castling_available_when_squares_clear_and_safe() {
    let board = Board::from_fen("r3k2r/8/8/8/8/8/8/R3K2R w KQkq - 0 1").unwrap();
    let moves = pseudo_legal_moves(&board);
    assert!(moves
        .iter()
        .any(|m| m.kind == MoveKind::CastleKingside && m.to == Square::new(6, 0)));
    assert!(moves
        .iter()
        .any(|m| m.kind == MoveKind::CastleQueenside && m.to == Square::new(2, 0)));
}

#[test]
fn castling_blocked_when_king_in_check() {
    let board = Board::from_fen("r3k2r/8/8/8/8/8/4R3/4K3 b kq - 0 1").unwrap();
    let moves = pseudo_legal_moves(&board);
    assert!(!moves
        .iter()
        .any(|m| matches!(m.kind, MoveKind::CastleKingside | MoveKind::CastleQueenside)));
}

#[test]
fn castling_blocked_when_passing_through_attacked_square() {
    // White rook on f2 attacks f1, the square the king must pass
    // through to castle kingside.
    let board = Board::from_fen("4k3/8/8/8/8/8/5r2/4K2R w K - 0 1").unwrap();
    let moves = pseudo_legal_moves(&board);
    assert!(!moves.iter().any(|m| m.kind == MoveKind::CastleKingside));
}

#[test]
fn castling_blocked_when_squares_between_are_occupied() {
    let board = Board::from_fen("4k3/8/8/8/8/8/8/4KB1R w K - 0 1").unwrap();
    let moves = pseudo_legal_moves(&board);
    assert!(!moves.iter().any(|m| m.kind == MoveKind::CastleKingside));
}

#[test]
fn pawn_on_start_rank_can_push_one_or_two() {
    let board = Board::starting_position();
    let moves = pseudo_legal_moves(&board);
    let e_pawn_moves: Vec<_> = moves
        .iter()
        .filter(|m| m.from == Square::new(4, 1))
        .collect();
    assert_eq!(e_pawn_moves.len(), 2);
    assert!(e_pawn_moves.iter().any(|m| m.to == Square::new(4, 2)));
    assert!(e_pawn_moves.iter().any(|m| m.to == Square::new(4, 3)));
}

#[test]
fn pawn_reaching_back_rank_generates_four_promotions() {
    let mut board = Board::empty();
    board.set(
        Square::new(0, 6),
        Some(Piece {
            kind: PieceKind::Pawn,
            color: Color::White,
        }),
    );
    let moves = pseudo_legal_moves(&board);
    assert_eq!(moves.len(), 4);
    let promos: Vec<_> = moves.iter().filter_map(|m| m.promotion).collect();
    assert!(promos.contains(&PieceKind::Queen));
    assert!(promos.contains(&PieceKind::Rook));
    assert!(promos.contains(&PieceKind::Bishop));
    assert!(promos.contains(&PieceKind::Knight));
}

#[test]
fn pawn_can_capture_en_passant() {
    let mut board = Board::empty();
    board.set(
        Square::new(4, 4),
        Some(Piece {
            kind: PieceKind::Pawn,
            color: Color::White,
        }),
    );
    board.set(
        Square::new(3, 4),
        Some(Piece {
            kind: PieceKind::Pawn,
            color: Color::Black,
        }),
    );
    board.en_passant = Some(Square::new(3, 5));
    let moves = pseudo_legal_moves(&board);
    assert!(moves
        .iter()
        .any(|m| m.to == Square::new(3, 5) && m.kind == MoveKind::EnPassant));
}
