use zugzwang::board::Board;
use zugzwang::fen::FenError;
use zugzwang::square::Square;
use zugzwang::types::{CastlingRights, Color};

#[test]
fn empty_text_has_no_placement() {
    assert_eq!(Board::from_fen("").err(), Some(FenError::MissingPlacement));
    assert_eq!(Board::from_fen(" \t\n ").err(), Some(FenError::MissingPlacement));
}

#[test]
fn seven_ranks_are_refused() {
    assert_eq!(
        Board::from_fen("4k3/8/8/8/8/8/4K3 w - - 0 1").err(),
        Some(FenError::RankCount)
    );
}

#[test]
fn a_piece_past_the_eighth_file_is_refused() {
    assert_eq!(
        Board::from_fen("4k3/8/8/8/8/8/8/4K3p w - - 0 1").err(),
        Some(FenError::TooManySquares)
    );
}

#[test]
fn an_unknown_letter_is_refused() {
    assert_eq!(
        Board::from_fen("4k3/8/8/8/8/8/8/4X3 w - - 0 1").err(),
        Some(FenError::BadPiece)
    );
}

#[test]
fn a_short_rank_is_refused_as_too_narrow() {
    assert_eq!(
        Board::from_fen("4k3/8/8/8/8/8/8/4K2 w - - 0 1").err(),
        Some(FenError::RankWidth)
    );
}

#[test]
fn extra_and_missing_kings_are_refused_by_color() {
    assert_eq!(
        Board::from_fen("4k3/8/8/8/8/8/8/3KK3 w - - 0 1").err(),
        Some(FenError::KingCount(Color::White))
    );
    assert_eq!(
        Board::from_fen("4k3/8/8/8/8/8/8/8 b - - 0 1").is_ok(),
        true
    );
    assert_eq!(
        Board::from_fen("8/8/8/8/8/8/8/4K3 b - - 0 1").err(),
        Some(FenError::KingCount(Color::Black))
    );
}

#[test]
fn bad_side_en_passant_and_counters_are_refused() {
    assert_eq!(
        Board::from_fen("4k3/8/8/8/8/8/8/4K3 white - - 0 1").err(),
        Some(FenError::BadSide)
    );
    assert_eq!(
        Board::from_fen("4k3/8/8/8/8/8/8/4K3 w - e9 0 1").err(),
        Some(FenError::BadEnPassant)
    );
    assert_eq!(
        Board::from_fen("4k3/8/8/8/8/8/8/4K3 w - - -1 1").err(),
        Some(FenError::BadHalfmove)
    );
    assert_eq!(
        Board::from_fen("4k3/8/8/8/8/8/8/4K3 w - - 0 4294967296").err(),
        Some(FenError::BadFullmove)
    );
}

#[test]
fn fields_may_be_separated_by_any_whitespace() {
    let board = Board::from_fen("  4k3/8/8/8/8/8/8/4K3 \t b\n-   -  +7 4294967295 trailing").unwrap();
    assert_eq!(board.side_to_move, Color::Black);
    assert_eq!(board.halfmove_clock, 7);
    assert_eq!(board.fullmove_number, 4294967295);
}

#[test]
fn castling_letters_are_read_wherever_they_stand() {
    let board = Board::from_fen("4k3/8/8/8/8/8/8/4K3 w zqK - 0 1").unwrap();
    assert_eq!(
        board.castling,
        CastlingRights {
            white_kingside: true,
            white_queenside: false,
            black_kingside: false,
            black_queenside: true,
        }
    );
}

#[test]
fn zero_digits_skip_nothing() {
    let board = Board::from_fen("4k03/8/8/8/8/8/8/4K3 w - - 0 1").unwrap();
    assert_eq!(board.to_fen(), "4k3/8/8/8/8/8/8/4K3 w - - 0 1");
}

#[test]
fn a_long_run_of_digits_is_a_rank_of_the_wrong_width() {
    let long = format!("{}/8/8/8/8/8/8/4K3 w - - 0 1", "9".repeat(30));
    assert_eq!(Board::from_fen(&long).err(), Some(FenError::RankWidth));
    let then_a_piece = format!("{}k/8/8/8/8/8/8/4K3 w - - 0 1", "9".repeat(30));
    assert_eq!(Board::from_fen(&then_a_piece).err(), Some(FenError::TooManySquares));
    assert_eq!(Board::from_fen("9/8/8/8/8/8/8/8 w - - 0 1").err(), Some(FenError::RankWidth));
}

#[test]
fn written_positions_read_back_unchanged() {
    let mut board = Board::from_fen("r3k2r/p1ppqpb1/bn2pnp1/3PN3/1p2P3/2N2Q1p/PPPBBPPP/R3K2R w KQkq - 0 1").unwrap();
    board.en_passant = Some(Square::new(2, 2));
    board.halfmove_clock = 17;
    board.fullmove_number = 1234567;
    let text = board.to_fen();
    assert_eq!(text, "r3k2r/p1ppqpb1/bn2pnp1/3PN3/1p2P3/2N2Q1p/PPPBBPPP/R3K2R w KQkq c3 17 1234567");
    let back = Board::from_fen(&text).unwrap();
    for i in 0..64u8 {
        let sq = Square::new(i % 8, i / 8);
        assert_eq!(back.get(sq), board.get(sq));
    }
    assert_eq!(back.side_to_move, board.side_to_move);
    assert_eq!(back.castling, board.castling);
    assert_eq!(back.en_passant, board.en_passant);
    assert_eq!(back.halfmove_clock, board.halfmove_clock);
    assert_eq!(back.fullmove_number, board.fullmove_number);
}

#[test]
fn square_names_read_and_write() {
    assert_eq!(Square::from_algebraic("e3"), Some(Square::new(4, 2)));
    assert_eq!(Square::from_algebraic("i3"), None);
    assert_eq!(Square::from_algebraic("e33"), None);
    assert_eq!(Square::new(7, 7).to_algebraic(), "h8");
}
