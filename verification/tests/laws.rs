use zugzwang::board::{Board, Piece};
use zugzwang::eval::{evaluate, material_score};
use zugzwang::movegen::{find_uci_move, legal_moves, pseudo_legal_moves};
use zugzwang::moves::Move;
use zugzwang::ordering::order_moves;
use zugzwang::play::apply_human_move;
use zugzwang::position::is_sound;
use zugzwang::pst::score;
use zugzwang::square::Square;
use zugzwang::tt::{Bound, TTEntry, TranspositionTable};
use zugzwang::types::{Color, PieceKind};
use zugzwang::zobrist::hash;

const KIWIPETE: &str = "r3k2r/p1ppqpb1/bn2pnp1/3PN3/1p2P3/2N2Q1p/PPPBBPPP/R3K2R w KQkq - 0 1";

fn mirror(board: &Board) -> Board {
    let mut out = Board::empty();
    for rank in 0..8u8 {
        for file in 0..8u8 {
            let piece = board.get(Square::new(file, 7 - rank)).map(|p| Piece {
                kind: p.kind,
                color: p.color.opposite(),
            });
            out.set(Square::new(file, rank), piece);
        }
    }
    out
}

#[test]
fn swapping_colors_negates_the_evaluation() {
    let board = Board::from_fen(KIWIPETE).unwrap();
    let mut lopsided = board;
    lopsided.set(Square::new(5, 2), None);
    for b in [board, lopsided] {
        let m = mirror(&b);
        assert_eq!(material_score(&m), -material_score(&b));
        assert_eq!(score(&m), -score(&b));
        assert_eq!(evaluate(&m), -evaluate(&b));
    }
    assert_eq!(material_score(&lopsided), -900);
}

#[test]
fn every_legal_move_is_found_by_its_own_name() {
    let board = Board::from_fen(KIWIPETE).unwrap();
    let moves = legal_moves(&board);
    assert_eq!(moves.len(), 48);
    for mv in moves {
        assert_eq!(find_uci_move(&board, &mv.to_uci()), Some(mv));
    }
    assert_eq!(find_uci_move(&board, "e1e3"), None);
}

#[test]
fn legal_moves_are_the_pseudo_legal_moves_that_keep_the_king_safe() {
    let board = Board::from_fen("4k3/8/8/8/4r3/8/4B3/4K3 w - - 0 1").unwrap();
    let pseudo = pseudo_legal_moves(&board);
    let legal = legal_moves(&board);
    assert!(legal.iter().all(|m| pseudo.contains(m)));
    // The bishop is pinned on the e-file; only king moves remain.
    assert!(legal.iter().all(|m| m.from == Square::new(4, 0)));
    assert_eq!(legal.len(), 4);
}

#[test]
fn a_human_move_may_carry_surrounding_whitespace() {
    let board = Board::starting_position();
    let next = apply_human_move(&board, "  g1f3\n").unwrap();
    assert_eq!(next.to_fen(), "rnbqkbnr/pppppppp/8/8/8/5N2/PPPPPPPP/RNBQKB1R b KQkq - 1 1");
    assert_eq!(apply_human_move(&board, " e2e5 ").err(), Some("illegal move:  e2e5 ".to_string()));
}

#[test]
fn promotions_are_named_with_their_piece_letter() {
    let board = Board::from_fen("8/4P3/8/8/8/8/k7/4K3 w - - 0 1").unwrap();
    let mv = find_uci_move(&board, "e7e8n").unwrap();
    assert_eq!(mv.promotion, Some(PieceKind::Knight));
    assert_eq!(mv.to_uci(), "e7e8n");
    assert!(find_uci_move(&board, "e7e8").is_none());
}

#[test]
fn captures_come_before_quiet_moves_and_cheaper_attackers_first() {
    let board = Board::from_fen("4k3/8/3p4/2P5/8/8/8/3RK3 w - - 0 1").unwrap();
    let mut moves = legal_moves(&board);
    order_moves(&board, &mut moves);
    let capture_count = moves.iter().filter(|m| board.get(m.to).is_some()).count();
    assert_eq!(capture_count, 2);
    assert!(moves[..2].iter().all(|m| board.get(m.to).is_some()));
    assert_eq!(moves[0].from, Square::new(2, 4));
    assert_eq!(moves[1].from, Square::new(3, 0));
}

#[test]
fn hashing_ignores_the_move_counters() {
    let a = Board::from_fen("r3k2r/8/8/8/8/8/8/R3K2R w KQkq - 0 1").unwrap();
    let b = Board::from_fen("r3k2r/8/8/8/8/8/8/R3K2R w KQkq - 37 80").unwrap();
    assert_eq!(hash(&a), hash(&b));
}

#[test]
fn a_table_with_one_slot_always_replaces() {
    let mut tt = TranspositionTable::new(0);
    assert_eq!(tt.capacity(), 1);
    let first = TTEntry { key: 3, depth: 1, score: 7, bound: Bound::Upper };
    let second = TTEntry { key: 4, depth: 2, score: 8, bound: Bound::Lower };
    tt.store(first);
    assert_eq!(tt.get(3).unwrap().score, 7);
    tt.store(second);
    assert!(tt.get(3).is_none());
    assert_eq!(tt.get(4).unwrap().bound, Bound::Lower);
}

#[test]
fn a_megabyte_table_has_a_power_of_two_slots() {
    let tt = TranspositionTable::new(1);
    let n = tt.capacity();
    assert!(n.is_power_of_two());
    let slot = std::mem::size_of::<Option<TTEntry>>();
    let wanted = (1 << 20) / slot;
    assert!(n <= wanted && wanted < 2 * n);
}

#[test]
fn keys_a_table_apart_replace_each_other() {
    let mut tt = TranspositionTable::new(1);
    let apart = 9 + tt.capacity() as u64;
    tt.store(TTEntry { key: 9, depth: 1, score: 1, bound: Bound::Exact });
    tt.store(TTEntry { key: apart, depth: 2, score: 2, bound: Bound::Upper });
    assert!(tt.get(9).is_none());
    assert_eq!(tt.get(apart).unwrap().score, 2);
}

#[test]
fn soundness_check_rejects_broken_positions() {
    assert!(is_sound(&Board::starting_position()));
    assert!(!is_sound(&Board::from_fen("4r3/8/8/8/4N3/8/8/4K3 w - - 0 1").unwrap()));
    assert!(!is_sound(&Board::from_fen("4k3/8/8/8/8/8/8/4K3 w - e6 0 1").unwrap()));
    assert!(!is_sound(&Board::from_fen("4k3/8/8/8/8/8/8/4R1K1 w - - 0 1").unwrap()));
    assert!(!is_sound(&Board::from_fen("4k3/8/8/8/8/8/8/3K4 w K - 0 1").unwrap()));
    assert!(is_sound(&Board::from_fen("4k3/8/8/3pP3/8/8/8/4K3 w - d6 0 1").unwrap()));
}

#[test]
fn moves_render_in_coordinate_notation() {
    let mut mv = Move::new(Square::new(4, 6), Square::new(4, 7));
    mv.promotion = Some(PieceKind::Queen);
    assert_eq!(mv.to_uci(), "e7e8q");
    assert_eq!(Move::new(Square::new(0, 0), Square::new(7, 7)).to_uci(), "a1h8");
}

#[test]
fn the_drawing_follows_the_pieces() {
    let board = Board::starting_position();
    let next = board.make_move(Move::new(Square::new(6, 0), Square::new(5, 2)));
    let rendered = next.to_string();
    assert_eq!(
        rendered,
        "r n b q k b n r \np p p p p p p p \n. . . . . . . . \n. . . . . . . . \n. . . . . . . . \n. . . . . N . . \nP P P P P P P P \nR N B Q K B . R \n"
    );
    assert_eq!(next.side_to_move, Color::Black);
}

#[test]
fn legal_moves_keep_a_position_sound() {
    let mut board = Board::from_fen(KIWIPETE).unwrap();
    for _ in 0..12 {
        assert!(is_sound(&board));
        let moves = legal_moves(&board);
        let mv = moves[moves.len() / 2];
        board = board.make_move(mv);
    }
    assert!(is_sound(&board));
}

#[test]
fn evaluation_adds_exact_material_and_table_values() {
    let mut board = Board::empty();
    board.set(
        Square::new(0, 0),
        Some(Piece {
            kind: PieceKind::Knight,
            color: Color::White,
        }),
    );
    assert_eq!(material_score(&board), 320);
    assert_eq!(score(&board), -50);
    assert_eq!(evaluate(&board), 270);
    // A black knight on d5 reads the table from its own side, the entry
    // a white knight on d4 would get: 20.
    board.set(
        Square::new(3, 4),
        Some(Piece {
            kind: PieceKind::Knight,
            color: Color::Black,
        }),
    );
    assert_eq!(material_score(&board), 0);
    assert_eq!(score(&board), -50 - 20);
}

#[test]
fn castling_rights_are_lost_for_good() {
    let board = Board::from_fen("r3k2r/8/8/8/8/8/8/R3K2R w KQkq - 0 1").unwrap();
    let capture = find_uci_move(&board, "a1a8").unwrap();
    let next = board.make_move(capture);
    assert!(!next.castling.white_queenside);
    assert!(!next.castling.black_queenside);
    assert!(next.castling.white_kingside);
    assert!(next.castling.black_kingside);
    let back = next.make_move(find_uci_move(&next, "e8e7").unwrap());
    assert!(!back.castling.black_kingside && !back.castling.black_queenside);
    assert!(!back.castling.white_queenside);
}
