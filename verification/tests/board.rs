use zugzwang::board::{Board, Piece};
use zugzwang::moves::{Move, MoveKind};
use zugzwang::square::Square;
use zugzwang::types::{CastlingRights, Color, PieceKind};

#[test]
fn starting_position_has_sixteen_pieces_per_side() {
    let board = Board::starting_position();
    let count = |color: Color| {
        (0..64)
            .filter(|&i| {
                let sq = Square::new((i % 8) as u8, (i / 8) as u8);
                board.get(sq).map(|p| p.color) == Some(color)
            })
            .count()
    };
    assert_eq!(count(Color::White), 16);
    assert_eq!(count(Color::Black), 16);
}

#[test]
fn starting_position_places_kings_on_e_file() {
    let board = Board::starting_position();
    let white_king = board.get(Square::new(4, 0)).unwrap();
    let black_king = board.get(Square::new(4, 7)).unwrap();
    assert_eq!(white_king.kind, PieceKind::King);
    assert_eq!(black_king.kind, PieceKind::King);
}

#[test]
fn display_renders_ranks_top_down_with_dots_for_empty_squares() {
    let board = Board::starting_position();
    let rendered = board.to_string();
    let lines: Vec<&str> = rendered.lines().collect();
    assert_eq!(lines.len(), 8);
    // Rank 8 (Black's back rank) is printed first.
    assert_eq!(lines[0], "r n b q k b n r ");
    assert_eq!(lines[2], ". . . . . . . . ");
    assert_eq!(lines[7], "R N B Q K B N R ");
}

#[test]
fn make_move_relocates_the_piece_and_flips_side_to_move() {
    let board = Board::starting_position();
    let mv = Move::new(Square::new(4, 1), Square::new(4, 3));
    let next = board.make_move(mv);

    assert!(next.get(Square::new(4, 1)).is_none());
    assert_eq!(next.get(Square::new(4, 3)).unwrap().kind, PieceKind::Pawn);
    assert_eq!(next.side_to_move, Color::Black);
}

#[test]
fn make_move_resets_the_halfmove_clock_on_a_pawn_move() {
    let mut board = Board::from_fen("4k3/8/8/8/8/8/4P3/4K3 w - - 12 20").unwrap();
    board.halfmove_clock = 12;
    let mv = Move::new(Square::new(4, 1), Square::new(4, 2));
    assert_eq!(board.make_move(mv).halfmove_clock, 0);
}

#[test]
fn make_move_resets_the_halfmove_clock_on_a_capture() {
    let board = Board::from_fen("4k3/8/8/8/8/4n3/4R3/4K3 w - - 12 20").unwrap();
    let mv = Move::new(Square::new(4, 1), Square::new(4, 2));
    assert_eq!(board.make_move(mv).halfmove_clock, 0);
}

#[test]
fn make_move_increments_the_halfmove_clock_on_a_quiet_non_pawn_move() {
    let board = Board::from_fen("4k3/8/8/8/8/8/8/4KR2 w - - 12 20").unwrap();
    let mv = Move::new(Square::new(5, 0), Square::new(5, 3));
    assert_eq!(board.make_move(mv).halfmove_clock, 13);
}

#[test]
fn make_move_double_pawn_push_sets_en_passant_target() {
    let board = Board::starting_position();
    let mv = Move::new(Square::new(4, 1), Square::new(4, 3));
    let next = board.make_move(mv);
    assert_eq!(next.en_passant, Some(Square::new(4, 2)));
}

#[test]
fn make_move_king_move_clears_both_castling_rights() {
    let mut board = Board::empty();
    board.castling = CastlingRights::all();
    board.set(
        Square::new(4, 0),
        Some(Piece {
            kind: PieceKind::King,
            color: Color::White,
        }),
    );
    let mv = Move::new(Square::new(4, 0), Square::new(4, 1));
    let next = board.make_move(mv);
    assert!(!next.castling.white_kingside);
    assert!(!next.castling.white_queenside);
    assert!(next.castling.black_kingside);
}

#[test]
fn make_move_castle_kingside_relocates_the_rook() {
    let mut board = Board::empty();
    board.castling = CastlingRights::all();
    board.set(
        Square::new(4, 0),
        Some(Piece {
            kind: PieceKind::King,
            color: Color::White,
        }),
    );
    board.set(
        Square::new(7, 0),
        Some(Piece {
            kind: PieceKind::Rook,
            color: Color::White,
        }),
    );
    let mut mv = Move::new(Square::new(4, 0), Square::new(6, 0));
    mv.kind = MoveKind::CastleKingside;
    let next = board.make_move(mv);

    assert_eq!(next.get(Square::new(6, 0)).unwrap().kind, PieceKind::King);
    assert_eq!(next.get(Square::new(5, 0)).unwrap().kind, PieceKind::Rook);
    assert!(next.get(Square::new(7, 0)).is_none());
}

#[test]
fn from_fen_parses_the_starting_position() {
    let board =
        Board::from_fen("rnbqkbnr/pppppppp/8/8/8/8/PPPPPPPP/RNBQKBNR w KQkq - 0 1").unwrap();
    assert_eq!(board.side_to_move, Color::White);
    assert_eq!(board.castling, CastlingRights::all());
    assert_eq!(board.en_passant, None);
    assert_eq!(board.halfmove_clock, 0);
    assert_eq!(board.fullmove_number, 1);
    assert_eq!(board.get(Square::new(4, 0)).unwrap().kind, PieceKind::King);
}

#[test]
fn from_fen_parses_castling_rights_and_en_passant() {
    let board = Board::from_fen("rnbqkbnr/ppp1pppp/8/3pP3/8/8/PPPP1PPP/RNBQKBNR w KQkq d6 0 3")
        .unwrap();
    assert_eq!(board.en_passant, Some(Square::new(3, 5)));
    assert_eq!(board.castling, CastlingRights::all());
}

#[test]
fn from_fen_rejects_malformed_placement() {
    assert!(Board::from_fen("not-a-fen").is_err());
    assert!(Board::from_fen("rnbqkbnr/pppppppp/8/8/8/8/PPPPPPPP w KQkq - 0 1").is_err());
}

#[test]
fn from_fen_rejects_a_rank_that_is_too_short() {
    // "6" only covers six squares; a valid rank must sum to exactly 8.
    assert!(Board::from_fen("6/8/8/8/8/8/8/8 w - - 0 1").is_err());
    assert!(Board::from_fen("pppppp/8/8/8/8/8/8/8 w - - 0 1").is_err());
}

#[test]
fn from_fen_rejects_a_rank_that_is_too_long() {
    // A single "9" skip code overshoots the 8 squares in a rank.
    assert!(Board::from_fen("9/8/8/8/8/8/8/8 w - - 0 1").is_err());
}

#[test]
fn from_fen_rejects_an_invalid_piece_character() {
    assert!(
        Board::from_fen("xnbqkbnr/pppppppp/8/8/8/8/PPPPPPPP/RNBQKBNR w KQkq - 0 1").is_err()
    );
}

#[test]
fn from_fen_rejects_a_position_with_no_white_king() {
    assert!(Board::from_fen("4k3/8/8/8/8/8/8/8 w - - 0 1").is_err());
}

#[test]
fn from_fen_rejects_a_position_with_two_black_kings() {
    assert!(Board::from_fen("3kk3/8/8/8/8/8/8/4K3 w - - 0 1").is_err());
}

#[test]
fn from_fen_rejects_an_invalid_side_to_move() {
    assert!(Board::from_fen("8/8/8/8/8/8/8/8 x - - 0 1").is_err());
}

#[test]
fn from_fen_rejects_an_invalid_en_passant_square() {
    assert!(Board::from_fen("8/8/8/8/8/8/8/8 w - z9 0 1").is_err());
}

#[test]
fn from_fen_rejects_a_non_numeric_halfmove_clock() {
    assert!(Board::from_fen("8/8/8/8/8/8/8/8 w - - abc 1").is_err());
}

#[test]
fn from_fen_rejects_a_non_numeric_fullmove_number() {
    assert!(Board::from_fen("8/8/8/8/8/8/8/8 w - - 0 abc").is_err());
}

#[test]
fn from_fen_fills_in_defaults_for_missing_trailing_fields() {
    // Only piece placement is strictly required; everything else falls
    // back to a sane default (as some non-standard FEN sources omit
    // the move counters).
    let board = Board::from_fen("4k3/8/8/8/8/8/8/4K3").unwrap();
    assert_eq!(board.side_to_move, Color::White);
    assert_eq!(board.castling, CastlingRights::none());
    assert_eq!(board.en_passant, None);
    assert_eq!(board.halfmove_clock, 0);
    assert_eq!(board.fullmove_number, 1);
}

#[test]
fn to_fen_round_trips_the_starting_position() {
    let board = Board::starting_position();
    assert_eq!(
        board.to_fen(),
        "rnbqkbnr/pppppppp/8/8/8/8/PPPPPPPP/RNBQKBNR w KQkq - 0 1"
    );
}

#[test]
fn fen_round_trip_preserves_arbitrary_positions() {
    let fens = [
        "rnbqkbnr/pppppppp/8/8/8/8/PPPPPPPP/RNBQKBNR w KQkq - 0 1",
        "rnbqkbnr/ppp1pppp/8/3pP3/8/8/PPPP1PPP/RNBQKBNR w KQkq d6 0 3",
        "r3k2r/8/8/8/8/8/8/R3K2R w KQkq - 0 1",
        "8/8/8/4k3/8/8/8/4K2R w K - 5 39",
    ];
    for fen in fens {
        let board = Board::from_fen(fen).unwrap();
        assert_eq!(board.to_fen(), fen);
    }
}

#[test]
fn make_move_en_passant_removes_the_captured_pawn() {
    let mut board = Board::empty();
    board.set(
        Square::new(4, 4),
        Some(Piece {
            kind: PieceKind::Pawn,
            color: Color::White,
        }),
    );
    board.set(
        Square::new(3, 4),
        Some(Piece {
            kind: PieceKind::Pawn,
            color: Color::Black,
        }),
    );
    board.en_passant = Some(Square::new(3, 5));
    let mut mv = Move::new(Square::new(4, 4), Square::new(3, 5));
    mv.kind = MoveKind::EnPassant;
    let next = board.make_move(mv);

    assert!(next.get(Square::new(3, 4)).is_none());
    assert_eq!(next.get(Square::new(3, 5)).unwrap().kind, PieceKind::Pawn);
}
