use vstd::prelude::*;
use crate::board::{Board, Piece};
use crate::movegen::{
    attacked, bishop_dir, castle_move, legal, moves_playable, has_king, dir_count, holds_color, home_rank, in_check, king_of, lemma_dirs_are_units, occupant,
    pawn_attacks, pawn_dir, piece_move, pseudo_legal, ray_at, ray_attacker, ray_clear, rook_dir, slide_dir,
    slide_reach, slider_attacks, step_at, step_attacks, step_offset, step_target, unit_dir,
};
use crate::moves::{Move, MoveKind, uci_name};
use crate::square::Square;
use crate::types::{Color, PieceKind};

verus! {

// ---------------------------------------------------------------------------
// Well-formed positions
// ---------------------------------------------------------------------------

/// Exactly one square holds the king of `c`.
pub open spec fn unique_king(b: Board, c: Color) -> bool {
    exists|i: int| 0 <= i < 64 && b.at(i) == king_of(c) && forall|j: int| 0 <= j < 64 && #[trigger] b.at(j) == king_of(c) ==> j == i
}

/// The home square of the king of `c`.
pub open spec fn king_home(c: Color) -> int {
    home_rank(c) * 8 + 4
}

/// A side still holding a castling right has its king on its home square.
pub open spec fn rights_backed(b: Board) -> bool {
    &&& (b.castling.white_kingside || b.castling.white_queenside) ==> b.at(king_home(Color::White)) == king_of(Color::White)
    &&& (b.castling.black_kingside || b.castling.black_queenside) ==> b.at(king_home(Color::Black)) == king_of(Color::Black)
}

/// The rank an en passant capture by `c` lands on.
pub open spec fn ep_rank(c: Color) -> int {
    if c == Color::White { 5 } else { 2 }
}

/// An en passant target is the empty square an enemy pawn just crossed with
/// a double push: it lies on the capturing rank and the pawn stands behind it.
pub open spec fn ep_consistent(b: Board) -> bool {
    let c = b.side_to_move;
    match b.en_passant {
        None => true,
        Some(t) => {
            &&& t.valid()
            &&& t.rank == ep_rank(c)
            &&& b.on(t).is_none()
            &&& occupant(b, t.file as int, t.rank - pawn_dir(c)) == Some(Piece { kind: PieceKind::Pawn, color: c.flip() })
        },
    }
}

/// A position the side to move can play from: its king is on the board
/// exactly once, castling rights and the en passant target agree with the
/// pieces, and the move counters have room to advance.
pub open spec fn playable(b: Board) -> bool {
    &&& unique_king(b, b.side_to_move)
    &&& rights_backed(b)
    &&& ep_consistent(b)
    &&& b.halfmove_clock < u32::MAX
    &&& b.fullmove_number < u32::MAX
}

/// A legal position: playable, with one king for the side not to move, and
/// that king not attacked.
pub open spec fn sound(b: Board) -> bool {
    &&& playable(b)
    &&& unique_king(b, b.side_to_move.flip())
    &&& !in_check(b, b.side_to_move.flip())
}

// ---------------------------------------------------------------------------
// What a move does to the squares
// ---------------------------------------------------------------------------

/// The piece the move relocates.
pub open spec fn moved_piece(b: Board, m: Move) -> Piece {
    b.on(m.from).unwrap()
}

/// The piece that lands on the destination.
pub open spec fn placed_piece(b: Board, m: Move) -> Piece {
    match m.promotion {
        Some(k) => Piece { kind: k, color: b.side_to_move },
        None => moved_piece(b, m),
    }
}

/// The occupant of square index `j` after `m`.
pub open spec fn cell_after(b: Board, m: Move, j: int) -> Option<Piece> {
    let r = m.from.rank as int;
    if j == m.to.idx() {
        Some(placed_piece(b, m))
    } else if j == m.from.idx() {
        None
    } else if m.kind == MoveKind::EnPassant && j == r * 8 + m.to.file {
        None
    } else if m.kind == MoveKind::CastleKingside && j == r * 8 + 5 {
        b.at(r * 8 + 7)
    } else if m.kind == MoveKind::CastleKingside && j == r * 8 + 7 {
        None
    } else if m.kind == MoveKind::CastleQueenside && j == r * 8 + 3 {
        b.at(r * 8)
    } else if m.kind == MoveKind::CastleQueenside && j == r * 8 {
        None
    } else {
        b.at(j)
    }
}

pub proof fn lemma_cells_after(b: Board, m: Move)
    requires
        m.valid(),
    ensures
        forall|j: int| 0 <= j < 64 ==> #[trigger] b.after_move(m).at(j) == cell_after(b, m, j),
{
}

// ---------------------------------------------------------------------------
// A capture attacks the captured square
// ---------------------------------------------------------------------------

/// The jump or step pattern pointing back the other way.
pub open spec fn reverse_step(k: int) -> int {
    (k + 4) % 8
}

pub proof fn lemma_reverse_step(kind: PieceKind, k: int)
    requires
        0 <= k < 8,
    ensures
        0 <= reverse_step(k) < 8,
        step_offset(kind, reverse_step(k)).0 == -step_offset(kind, k).0,
        step_offset(kind, reverse_step(k)).1 == -step_offset(kind, k).1,
{
}

/// Walking back along a clear line from its end reaches its start past the
/// same empty squares.
pub proof fn lemma_reverse_ray(b: Board, from: Square, d: (int, int), n: int, to: Square)
    requires
        from.valid(),
        to.valid(),
        unit_dir(d),
        slide_reach(b, from, d, n, to),
    ensures
        ray_clear(b, to.file as int, to.rank as int, (-d.0, -d.1), n),
        ray_at(b, to.file as int, to.rank as int, (-d.0, -d.1), n) == b.on(from),
{
    let d2 = (-d.0, -d.1);
    assert forall|t: int| 1 <= t < n implies (#[trigger] ray_at(b, to.file as int, to.rank as int, d2, t)).is_none() by {
        assert(to.file + t * d2.0 == from.file + (n - t) * d.0) by (nonlinear_arith)
            requires to.file == from.file + n * d.0, d2.0 == -d.0;
        assert(to.rank + t * d2.1 == from.rank + (n - t) * d.1) by (nonlinear_arith)
            requires to.rank == from.rank + n * d.1, d2.1 == -d.1;
        assert(ray_at(b, from.file as int, from.rank as int, d, n - t).is_none());
    }
    assert(to.file + n * d2.0 == from.file) by (nonlinear_arith)
        requires to.file == from.file + n * d.0, d2.0 == -d.0;
    assert(to.rank + n * d2.1 == from.rank) by (nonlinear_arith)
        requires to.rank == from.rank + n * d.1, d2.1 == -d.1;
}

/// A pseudo-legal capture attacks the square it captures on.
pub proof fn lemma_capture_attacks(b: Board, m: Move)
    requires
        pseudo_legal(b, m),
        m.kind == MoveKind::Normal,
        holds_color(b, m.to.file as int, m.to.rank as int, b.side_to_move.flip()),
    ensures
        attacked(b, m.to.file as int, m.to.rank as int, b.side_to_move),
{
    let c = b.side_to_move;
    let tf = m.to.file as int;
    let tr = m.to.rank as int;
    if piece_move(b, m, PieceKind::Pawn) {
        assert(pawn_attacks(b, tf, tr, c));
    } else if piece_move(b, m, PieceKind::Knight) || piece_move(b, m, PieceKind::King) {
        let kind = if piece_move(b, m, PieceKind::Knight) { PieceKind::Knight } else { PieceKind::King };
        let k = choose|k: int| 0 <= k < 8 && #[trigger] step_target(m.from, kind, k) == (m.to.file as int, m.to.rank as int);
        lemma_reverse_step(kind, k);
        assert(step_at(b, tf, tr, kind, reverse_step(k)) == Some(Piece { kind, color: c }));
        assert(step_attacks(b, tf, tr, c, kind));
    } else {
        let kind = if piece_move(b, m, PieceKind::Bishop) {
            PieceKind::Bishop
        } else if piece_move(b, m, PieceKind::Rook) {
            PieceKind::Rook
        } else {
            PieceKind::Queen
        };
        assert(piece_move(b, m, kind));
        let (k, n) = choose|k: int, n: int| 0 <= k < dir_count(kind) && #[trigger] slide_reach(b, m.from, slide_dir(kind, k), n, m.to);
        let d = slide_dir(kind, k);
        lemma_dirs_are_units(kind, k);
        lemma_reverse_ray(b, m.from, d, n, m.to);
        let d2 = (-d.0, -d.1);
        if d.0 != 0 && d.1 != 0 {
            // a diagonal: bishop or queen
            let k2 = if d2 == bishop_dir(0) { 0int } else if d2 == bishop_dir(1) { 1 } else if d2 == bishop_dir(2) { 2 } else { 3 };
            assert(slide_dir(PieceKind::Bishop, k2) == d2);
            assert(ray_attacker(b, tf, tr, c, PieceKind::Bishop, slide_dir(PieceKind::Bishop, k2), n));
            assert(slider_attacks(b, tf, tr, c, PieceKind::Bishop));
        } else {
            let k2 = if d2 == rook_dir(0) { 0int } else if d2 == rook_dir(1) { 1 } else if d2 == rook_dir(2) { 2 } else { 3 };
            assert(slide_dir(PieceKind::Rook, k2) == d2);
            assert(ray_attacker(b, tf, tr, c, PieceKind::Rook, slide_dir(PieceKind::Rook, k2), n));
            assert(slider_attacks(b, tf, tr, c, PieceKind::Rook));
        }
    }
}


// ---------------------------------------------------------------------------
// What a pseudo-legal move keeps
// ---------------------------------------------------------------------------

/// The pieces a pseudo-legal move takes from, lands on and clears.
pub proof fn lemma_pseudo_shape(b: Board, m: Move)
    requires
        playable(b),
        pseudo_legal(b, m),
    ensures
        m.valid(),
        b.on(m.from) is Some,
        moved_piece(b, m).color == b.side_to_move,
        !holds_color(b, m.to.file as int, m.to.rank as int, b.side_to_move),
        m.promotion is Some ==> moved_piece(b, m).kind == PieceKind::Pawn,
        m.promotion is Some ==> m.promotion.unwrap() != PieceKind::King,
        m.kind == MoveKind::EnPassant ==> {
            &&& moved_piece(b, m).kind == PieceKind::Pawn
            &&& b.on(m.to).is_none()
            &&& b.at(m.from.rank * 8 + m.to.file) == Some(Piece { kind: PieceKind::Pawn, color: b.side_to_move.flip() })
            &&& m.from.rank * 8 + m.to.file != m.from.idx()
            &&& m.from.rank * 8 + m.to.file != m.to.idx()
        },
        (m.kind == MoveKind::CastleKingside || m.kind == MoveKind::CastleQueenside) ==> {
            &&& castle_move(b, m)
            &&& m.from.idx() == king_home(b.side_to_move)
            &&& moved_piece(b, m) == king_of(b.side_to_move).unwrap()
            &&& m.from.rank == home_rank(b.side_to_move)
        },
        m.kind == MoveKind::Normal && moved_piece(b, m).kind == PieceKind::King ==> m.promotion is None,
{
    let c = b.side_to_move;
    if piece_move(b, m, PieceKind::Pawn) {
        if m.kind == MoveKind::EnPassant {
            let t = b.en_passant.unwrap();
            assert(t == m.to);
            assert(occupant(b, t.file as int, t.rank - pawn_dir(c)) == Some(Piece { kind: PieceKind::Pawn, color: c.flip() }));
        }
    } else if castle_move(b, m) {
    } else {
    }
}

/// The mover's king stays on the board exactly once.
pub proof fn lemma_mover_king_kept(b: Board, m: Move)
    requires
        playable(b),
        pseudo_legal(b, m),
    ensures
        unique_king(b.after_move(m), b.side_to_move),
{
    let c = b.side_to_move;
    let a = b.after_move(m);
    lemma_pseudo_shape(b, m);
    lemma_cells_after(b, m);
    let ic = choose|i: int| 0 <= i < 64 && b.at(i) == king_of(c) && forall|j: int| 0 <= j < 64 && #[trigger] b.at(j) == king_of(c) ==> j == i;
    let r = m.from.rank as int;
    if moved_piece(b, m).kind == PieceKind::King {
        assert(m.from.idx() == ic);
        assert(a.at(m.to.idx()) == king_of(c));
        assert forall|j: int| 0 <= j < 64 && #[trigger] a.at(j) == king_of(c) implies j == m.to.idx() by {
            if j != m.to.idx() {
                if m.kind == MoveKind::CastleKingside && j == r * 8 + 5 {
                    assert(b.at(r * 8 + 7) == king_of(c));
                } else if m.kind == MoveKind::CastleQueenside && j == r * 8 + 3 {
                    assert(b.at(r * 8) == king_of(c));
                } else {
                    assert(b.at(j) == king_of(c));
                }
            }
        }
    } else {
        assert(ic != m.from.idx());
        assert(ic != m.to.idx()) by {
            if ic == m.to.idx() {
                assert(holds_color(b, m.to.file as int, m.to.rank as int, c));
            }
        }
        assert(a.at(ic) == king_of(c));
        assert forall|j: int| 0 <= j < 64 && #[trigger] a.at(j) == king_of(c) implies j == ic by {
            if j == m.to.idx() {
                assert(a.at(j) == Some(placed_piece(b, m)));
            } else {
                assert(b.at(j) == king_of(c));
            }
        }
    }
}

/// The opponent's king stays on the board exactly once; outside the mover's
/// home rank it does not move at all.
pub proof fn lemma_opponent_king_kept(b: Board, m: Move)
    requires
        sound(b),
        pseudo_legal(b, m),
    ensures
        unique_king(b.after_move(m), b.side_to_move.flip()),
        forall|i: int| 0 <= i < 64 && b.at(i) == king_of(b.side_to_move.flip()) && i / 8 != home_rank(b.side_to_move)
            ==> #[trigger] b.after_move(m).at(i) == king_of(b.side_to_move.flip()),
{
    let c = b.side_to_move;
    let e = c.flip();
    let a = b.after_move(m);
    lemma_pseudo_shape(b, m);
    lemma_cells_after(b, m);
    let ie = choose|i: int| 0 <= i < 64 && b.at(i) == king_of(e) && forall|j: int| 0 <= j < 64 && #[trigger] b.at(j) == king_of(e) ==> j == i;
    assert(first_king_of(b, e, ie));
    assert(!attacked(b, ie % 8, ie / 8, c)) by {
        assert(crate::movegen::first_king(b, e, ie));
    }
    let r = m.from.rank as int;
    assert(ie != m.from.idx());
    assert(ie != m.to.idx()) by {
        if ie == m.to.idx() {
            if m.kind == MoveKind::Normal {
                lemma_capture_attacks(b, m);
                assert(ie % 8 == m.to.file && ie / 8 == m.to.rank);
            }
        }
    }
    let corner_q = m.kind == MoveKind::CastleQueenside && ie == r * 8;
    if m.kind == MoveKind::CastleKingside {
        assert(ie != r * 8 + 7) by {
            if ie == r * 8 + 7 {
                assert(step_at(b, 6, r, PieceKind::King, 0) == king_of(e));
                assert(step_attacks(b, 6, r, e, PieceKind::King));
            }
        }
    }
    let pe = if corner_q { r * 8 + 3 } else { ie };
    assert(a.at(pe) == king_of(e));
    assert forall|j: int| 0 <= j < 64 && #[trigger] a.at(j) == king_of(e) implies j == pe by {
        if j == m.to.idx() {
            assert(a.at(j) == Some(placed_piece(b, m)));
        } else if m.kind == MoveKind::CastleKingside && j == r * 8 + 5 {
            assert(b.at(r * 8 + 7) == king_of(e));
        } else if m.kind == MoveKind::CastleQueenside && j == r * 8 + 3 {
            assert(b.at(r * 8) == king_of(e));
        } else {
            assert(b.at(j) == king_of(e));
        }
    }
    assert forall|i: int| 0 <= i < 64 && b.at(i) == king_of(e) && i / 8 != home_rank(c)
        implies #[trigger] a.at(i) == king_of(e) by {
        assert(i == ie);
    }
}

/// `i` is where the king of `c` stands, first in board order.
pub open spec fn first_king_of(b: Board, c: Color, i: int) -> bool {
    crate::movegen::first_king(b, c, i)
}


/// Castling rights that survive a move still have their king at home.
pub proof fn lemma_rights_kept(b: Board, m: Move)
    requires
        sound(b),
        pseudo_legal(b, m),
    ensures
        rights_backed(b.after_move(m)),
{
    let c = b.side_to_move;
    let e = c.flip();
    let a = b.after_move(m);
    lemma_pseudo_shape(b, m);
    lemma_cells_after(b, m);
    lemma_opponent_king_kept(b, m);
    let ic = choose|i: int| 0 <= i < 64 && b.at(i) == king_of(c) && forall|j: int| 0 <= j < 64 && #[trigger] b.at(j) == king_of(c) ==> j == i;
    let moved = moved_piece(b, m);
    // the mover's own rights
    if a.castling.kingside(c) || a.castling.queenside(c) {
        assert(b.castling.kingside(c) || b.castling.queenside(c));
        let h = king_home(c);
        assert(b.at(h) == king_of(c));
        assert(h == ic);
        assert(!(moved.kind == PieceKind::King));
        assert(m.from.idx() != h);
        assert(m.to.idx() != h) by {
            if m.to.idx() == h {
                assert(holds_color(b, m.to.file as int, m.to.rank as int, c));
            }
        }
        assert(m.kind == MoveKind::Normal || m.kind == MoveKind::EnPassant);
        assert(a.at(h) == b.at(h));
    }
    // the opponent's rights
    if a.castling.kingside(e) || a.castling.queenside(e) {
        assert(b.castling.kingside(e) || b.castling.queenside(e));
        let h = king_home(e);
        assert(b.at(h) == king_of(e));
        assert(h / 8 != home_rank(c));
        assert(a.at(h) == king_of(e));
    }
    if c == Color::White {
    } else {
    }
}

/// A double pawn push leaves a consistent en passant target; every other
/// move leaves none.
pub proof fn lemma_ep_kept(b: Board, m: Move)
    requires
        playable(b),
        pseudo_legal(b, m),
    ensures
        ep_consistent(b.after_move(m)),
{
    let c = b.side_to_move;
    let a = b.after_move(m);
    lemma_pseudo_shape(b, m);
    lemma_cells_after(b, m);
    let moved = moved_piece(b, m);
    if a.en_passant is Some {
        assert(moved.kind == PieceKind::Pawn);
        assert(piece_move(b, m, PieceKind::Pawn));
        let d = pawn_dir(c);
        assert(m.to.rank == m.from.rank + 2 * d);
        assert(m.kind == MoveKind::Normal && m.promotion is None);
        let t = a.en_passant.unwrap();
        assert(t.file == m.from.file && t.rank == m.from.rank + d);
        assert(t.idx() != m.from.idx() && t.idx() != m.to.idx());
        assert(a.at(t.idx()) == b.at(t.idx()));
        assert(a.side_to_move == c.flip());
        assert(t.rank - pawn_dir(c.flip()) == m.to.rank);
        assert((t.rank - pawn_dir(c.flip())) * 8 + t.file == m.to.idx());
    }
}

/// Every pseudo-legal move of a playable position can be played and
/// leaves the mover with a king.
pub proof fn lemma_playable_moves(b: Board)
    requires
        playable(b),
    ensures
        moves_playable(b),
{
    assert forall|m: Move| #[trigger] pseudo_legal(b, m) implies b.move_ok(m) && has_king(b.after_move(m), b.side_to_move) by {
        lemma_pseudo_shape(b, m);
        lemma_mover_king_kept(b, m);
    }
}

/// Playing a legal move from a sound position leads to a sound position,
/// as long as the move counters have room to advance once more.
pub proof fn lemma_legal_move_keeps_sound(b: Board, m: Move)
    requires
        sound(b),
        legal(b, m),
        b.halfmove_clock + 1 < u32::MAX,
        b.fullmove_number + 1 < u32::MAX,
    ensures
        sound(b.after_move(m)),
        b.after_move(m).halfmove_clock <= b.halfmove_clock + 1,
        b.after_move(m).fullmove_number <= b.fullmove_number + 1,
{
    lemma_pseudo_shape(b, m);
    lemma_mover_king_kept(b, m);
    lemma_opponent_king_kept(b, m);
    lemma_rights_kept(b, m);
    lemma_ep_kept(b, m);
    let a = b.after_move(m);
    assert(a.side_to_move == b.side_to_move.flip());
    assert(a.side_to_move.flip() == b.side_to_move);
}


// ---------------------------------------------------------------------------
// Captures shrink the material on the board
// ---------------------------------------------------------------------------

/// 1 for an occupied square, 0 for an empty one.
pub open spec fn occ(p: Option<Piece>) -> int {
    if p is Some { 1 } else { 0 }
}

/// The number of occupied squares among indices `0..n`.
pub open spec fn count_upto(b: Board, n: int) -> int
    decreases n,
{
    if n <= 0 { 0 } else { count_upto(b, n - 1) + occ(b.at(n - 1)) }
}

/// The number of pieces on the board.
pub open spec fn piece_count(b: Board) -> int {
    count_upto(b, 64)
}

pub proof fn lemma_count_bounds(b: Board, n: int)
    requires
        0 <= n <= 64,
    ensures
        0 <= count_upto(b, n) <= n,
    decreases n,
{
    if n > 0 {
        lemma_count_bounds(b, n - 1);
    }
}

proof fn lemma_count_same(a: Board, b: Board, n: int)
    requires
        0 <= n <= 64,
        forall|j: int| 0 <= j < 64 ==> #[trigger] a.at(j) == b.at(j),
    ensures
        count_upto(a, n) == count_upto(b, n),
    decreases n,
{
    if n > 0 {
        lemma_count_same(a, b, n - 1);
    }
}

proof fn lemma_count_with_cell(b: Board, i: int, p: Option<Piece>, n: int)
    requires
        0 <= i < 64,
        0 <= n <= 64,
    ensures
        count_upto(b.with_cell(i, p), n) == count_upto(b, n) + if i < n { occ(p) - occ(b.at(i)) } else { 0 },
    decreases n,
{
    if n > 0 {
        lemma_count_with_cell(b, i, p, n - 1);
    }
}

/// A capture from a playable position leaves one piece fewer on the board.
pub proof fn lemma_capture_shrinks(b: Board, m: Move)
    requires
        playable(b),
        pseudo_legal(b, m),
        b.captures(m),
    ensures
        piece_count(b.after_move(m)) == piece_count(b) - 1,
{
    lemma_pseudo_shape(b, m);
    let c = b.cells_after(m);
    assert forall|j: int| 0 <= j < 64 implies #[trigger] b.after_move(m).at(j) == c.at(j) by {}
    lemma_count_same(b.after_move(m), c, 64);
    let placed = Some(placed_piece(b, m));
    let f = m.from.idx();
    let t = m.to.idx();
    if m.kind == MoveKind::EnPassant {
        let v = m.from.rank * 8 + m.to.file;
        let b1 = b.with_cell(v, None);
        let b2 = b1.with_cell(f, None);
        lemma_count_with_cell(b, v, None, 64);
        lemma_count_with_cell(b1, f, None, 64);
        lemma_count_with_cell(b2, t, placed, 64);
        assert(c == b2.with_cell(t, placed));
    } else {
        assert(m.kind == MoveKind::Normal);
        let b2 = b.with_cell(f, None);
        lemma_count_with_cell(b, f, None, 64);
        lemma_count_with_cell(b2, t, placed, 64);
        assert(c == b2.with_cell(t, placed));
    }
}


/// What a capture search spends: two for each piece on the board, and one
/// for an en passant target (an en passant capture may find no pawn to
/// take, but it always clears the target).
pub open spec fn capture_measure(b: Board) -> int {
    2 * piece_count(b) + if b.en_passant is Some { 1int } else { 0int }
}

/// Any pseudo-legal capture lowers the capture measure, whatever else holds
/// of the position.
pub proof fn lemma_capture_measure(b: Board, m: Move)
    requires
        pseudo_legal(b, m),
        b.captures(m),
    ensures
        0 <= capture_measure(b.after_move(m)) < capture_measure(b),
        b.after_move(m).en_passant is None,
{
    lemma_count_bounds(b.after_move(m), 64);
    let c = b.cells_after(m);
    assert forall|j: int| 0 <= j < 64 implies #[trigger] b.after_move(m).at(j) == c.at(j) by {}
    lemma_count_same(b.after_move(m), c, 64);
    let placed = Some(placed_piece(b, m));
    let f = m.from.idx();
    let t = m.to.idx();
    assert(m.valid());
    assert(b.on(m.from) is Some);
    if m.kind == MoveKind::EnPassant {
        assert(piece_move(b, m, PieceKind::Pawn));
        let v = m.from.rank * 8 + m.to.file;
        let b1 = b.with_cell(v, None);
        let b2 = b1.with_cell(f, None);
        lemma_count_with_cell(b, v, None, 64);
        lemma_count_with_cell(b1, f, None, 64);
        lemma_count_with_cell(b2, t, placed, 64);
        assert(c == b2.with_cell(t, placed));
        assert(b.en_passant is Some);
    } else {
        assert(!castle_move(b, m));
        assert(m.kind == MoveKind::Normal);
        assert(b.on(m.to) is Some);
        assert(f != t);
        let b2 = b.with_cell(f, None);
        lemma_count_with_cell(b, f, None, 64);
        lemma_count_with_cell(b2, t, placed, 64);
        assert(c == b2.with_cell(t, placed));
    }
}

// ---------------------------------------------------------------------------
// Checking a position
// ---------------------------------------------------------------------------

/// Whether the king of `c` stands on exactly one square.
fn has_unique_king(board: &Board, c: Color) -> (r: bool)
    ensures
        r == unique_king(*board, c),
{
    let ghost b = *board;
    let mut found: Option<usize> = None;
    let mut twice = false;
    let mut i: usize = 0;
    while i < 64
        invariant
            i <= 64,
            b == *board,
            found is None ==> forall|k: int| 0 <= k < i ==> #[trigger] b.at(k) != king_of(c),
            found matches Some(j) ==> j < i && b.at(j as int) == king_of(c),
            !twice ==> (found matches Some(j) ==> forall|k: int| 0 <= k < i && #[trigger] b.at(k) == king_of(c) ==> k == j),
            twice ==> exists|k1: int, k2: int| 0 <= k1 < 64 && 0 <= k2 < 64 && k1 != k2 && #[trigger] b.at(k1) == king_of(c) && #[trigger] b.at(k2) == king_of(c),
        decreases 64 - i,
    {
        if board.squares[i] == Some(Piece { kind: PieceKind::King, color: c }) {
            match found {
                Some(j) => {
                    twice = true;
                    assert(b.at(j as int) == king_of(c) && b.at(i as int) == king_of(c));
                },
                None => {
                    found = Some(i);
                },
            }
        }
        i += 1;
    }
    if twice {
        proof {
            if unique_king(b, c) {
                let (k1, k2) = choose|k1: int, k2: int| 0 <= k1 < 64 && 0 <= k2 < 64 && k1 != k2 && #[trigger] b.at(k1) == king_of(c) && #[trigger] b.at(k2) == king_of(c);
                let u = choose|u: int| 0 <= u < 64 && b.at(u) == king_of(c) && forall|j: int| 0 <= j < 64 && #[trigger] b.at(j) == king_of(c) ==> j == u;
            }
        }
        return false;
    }
    match found {
        Some(j) => {
            assert(b.at(j as int) == king_of(c));
            true
        },
        None => {
            proof {
                if unique_king(b, c) {
                    let u = choose|u: int| 0 <= u < 64 && b.at(u) == king_of(c) && forall|j: int| 0 <= j < 64 && #[trigger] b.at(j) == king_of(c) ==> j == u;
                }
            }
            false
        },
    }
}

/// Whether a position is legal to search from: each side's king on exactly
/// one square, the side not to move not in check, castling rights backed
/// by kings on their home squares, an en passant target consistent with a
/// double pawn push, and room in the move counters.
pub fn is_sound(board: &Board) -> (r: bool)
    ensures
        r == sound(*board),
{
    let ghost b = *board;
    let side = board.side_to_move;
    if !has_unique_king(board, side) || !has_unique_king(board, side.opposite()) {
        return false;
    }
    if board.halfmove_clock == u32::MAX || board.fullmove_number == u32::MAX {
        return false;
    }
    let c = board.castling;
    let white_king = Some(Piece { kind: PieceKind::King, color: Color::White });
    let black_king = Some(Piece { kind: PieceKind::King, color: Color::Black });
    if (c.white_kingside || c.white_queenside) && board.squares[4] != white_king {
        return false;
    }
    if (c.black_kingside || c.black_queenside) && board.squares[60] != black_king {
        return false;
    }
    assert(rights_backed(b));
    match board.en_passant {
        Some(t) => {
            if !(t.file < 8 && t.rank < 8) {
                return false;
            }
            let rank: u8 = if side == Color::White { 5 } else { 2 };
            if t.rank != rank || board.get(t).is_some() {
                return false;
            }
            let behind: i32 = if side == Color::White { t.rank as i32 - 1 } else { t.rank as i32 + 1 };
            let pawn = Some(Piece { kind: PieceKind::Pawn, color: side.opposite() });
            if crate::movegen::occupant_at(board, t.file as i32, behind) != pawn {
                return false;
            }
        },
        None => {},
    }
    assert(ep_consistent(b));
    assert(has_king(b, side.flip())) by {
        let i = choose|i: int| 0 <= i < 64 && b.at(i) == king_of(side.flip())
            && forall|j: int| 0 <= j < 64 && #[trigger] b.at(j) == king_of(side.flip()) ==> j == i;
    }
    !crate::movegen::king_attacked(board, side.opposite())
}


/// Whether the king of `color` stands somewhere on the board.
pub fn has_king_on_board(board: &Board, color: Color) -> (r: bool)
    ensures
        r == has_king(*board, color),
{
    let king = Some(Piece { kind: PieceKind::King, color });
    let mut i: usize = 0;
    while i < 64
        invariant
            i <= 64,
            king == king_of(color),
            board.squares@.len() == 64,
            forall|j: int| 0 <= j < i ==> #[trigger] board.at(j) != king_of(color),
        decreases 64 - i,
    {
        if board.squares[i] == king {
            assert(board.at(i as int) == king_of(color));
            return true;
        }
        i += 1;
    }
    false
}

/// Whether `mv` can be played on `board`: its squares are on the board, its
/// origin holds a piece, and the move counters have room to advance.
pub fn move_can_be_made(board: &Board, mv: Move) -> (r: bool)
    ensures
        r == board.move_ok(mv),
{
    if !(mv.from.file < 8 && mv.from.rank < 8 && mv.to.file < 8 && mv.to.rank < 8) {
        return false;
    }
    match board.get(mv.from) {
        None => false,
        Some(p) => {
            (p.kind == PieceKind::Pawn || crate::ordering::is_capture(board, mv) || board.halfmove_clock < u32::MAX)
                && (board.side_to_move != Color::Black || board.fullmove_number < u32::MAX)
        },
    }
}

/// Whether every pseudo-legal move of `board` can be played and leaves the
/// mover with a king, which is what filtering them into legal moves needs.
pub fn can_play_moves(board: &Board) -> (r: bool)
    ensures
        r == moves_playable(*board),
{
    let ghost b = *board;
    let pseudo = crate::movegen::pseudo_legal_moves(board);
    let mut i: usize = 0;
    while i < pseudo.len()
        invariant
            i <= pseudo@.len(),
            b == *board,
            forall|m: Move| #[trigger] pseudo@.contains(m) <==> pseudo_legal(b, m),
            forall|j: int| 0 <= j < i ==> b.move_ok(#[trigger] pseudo@[j]) && has_king(b.after_move(pseudo@[j]), b.side_to_move),
        decreases pseudo@.len() - i,
    {
        let mv = pseudo[i];
        assert(pseudo@.contains(mv));
        if !move_can_be_made(board, mv) {
            return false;
        }
        let next = board.make_move(mv);
        if !has_king_on_board(&next, board.side_to_move) {
            return false;
        }
        i += 1;
    }
    assert forall|m: Move| #[trigger] pseudo_legal(b, m) implies b.move_ok(m) && has_king(b.after_move(m), b.side_to_move) by {
        assert(pseudo@.contains(m));
        let j = choose|j: int| 0 <= j < pseudo@.len() && pseudo@[j] == m;
    }
    true
}

// ---------------------------------------------------------------------------
// Naming moves
// ---------------------------------------------------------------------------

/// Coordinate notation spells out the origin, the destination and the
/// promotion of a move.
proof fn lemma_uci_name_parts(m1: Move, m2: Move)
    requires
        m1.valid(),
        m2.valid(),
        uci_name(m1) == uci_name(m2),
    ensures
        m1.from == m2.from,
        m1.to == m2.to,
        m1.promotion == m2.promotion,
{
    let n1 = uci_name(m1);
    let n2 = uci_name(m2);
    assert(n1[0] == n2[0] && n1[1] == n2[1] && n1[2] == n2[2] && n1[3] == n2[3]);
    assert(n1[0] as int == 97 + m1.from.file && n2[0] as int == 97 + m2.from.file);
    assert(n1[1] as int == 49 + m1.from.rank && n2[1] as int == 49 + m2.from.rank);
    assert(n1[2] as int == 97 + m1.to.file && n2[2] as int == 97 + m2.to.file);
    assert(n1[3] as int == 49 + m1.to.rank && n2[3] as int == 49 + m2.to.rank);
    assert(n1.len() == if m1.promotion is Some { 5int } else { 4int });
    assert(n2.len() == if m2.promotion is Some { 5int } else { 4int });
    if m1.promotion is Some && m2.promotion is Some {
        assert(n1[4] == crate::moves::kind_letter(m1.promotion.unwrap()));
        assert(n2[4] == crate::moves::kind_letter(m2.promotion.unwrap()));
        assert(n1[4] == n2[4]);
    }
}

/// Two pseudo-legal moves of a playable position with the same origin,
/// destination and promotion are the same move.
proof fn lemma_pseudo_kind_unique(b: Board, m1: Move, m2: Move)
    requires
        playable(b),
        pseudo_legal(b, m1),
        pseudo_legal(b, m2),
        m1.from == m2.from,
        m1.to == m2.to,
        m1.promotion == m2.promotion,
    ensures
        m1 == m2,
{
    lemma_pseudo_shape(b, m1);
    lemma_pseudo_shape(b, m2);
    if m1.kind != MoveKind::Normal {
        lemma_kind_agrees(b, m1, m2);
    } else if m2.kind != MoveKind::Normal {
        lemma_kind_agrees(b, m2, m1);
    }
}

/// A castling or en passant move has no other kind of twin.
proof fn lemma_kind_agrees(b: Board, m1: Move, m2: Move)
    requires
        playable(b),
        pseudo_legal(b, m1),
        pseudo_legal(b, m2),
        m1.from == m2.from,
        m1.to == m2.to,
        m1.promotion == m2.promotion,
        m1.kind == MoveKind::CastleKingside || m1.kind == MoveKind::CastleQueenside || m1.kind == MoveKind::EnPassant,
    ensures
        m1.kind == m2.kind,
{
    lemma_pseudo_shape(b, m1);
    lemma_pseudo_shape(b, m2);
    if m1.kind == m2.kind {
    } else if m1.kind == MoveKind::EnPassant {
        assert(b.on(m1.to).is_none());
        assert(moved_piece(b, m1).kind == PieceKind::Pawn);
        assert(piece_move(b, m2, PieceKind::Pawn) || castle_move(b, m2));
    } else {
        assert(castle_move(b, m1));
        assert(moved_piece(b, m1) == king_of(b.side_to_move).unwrap());
        if m2.kind == MoveKind::Normal {
            assert(piece_move(b, m2, PieceKind::King));
            let k = choose|k: int| 0 <= k < 8 && #[trigger] step_target(m2.from, PieceKind::King, k) == (m2.to.file as int, m2.to.rank as int);
            assert(m2.to.file == 6 || m2.to.file == 2);
            assert(m2.from.file == 4);
        }
    }
}

/// A move's coordinate notation names at most one legal move of a
/// playable position, so `find_uci_move` finds the move it was given.
pub proof fn lemma_uci_names_unique(b: Board, m1: Move, m2: Move)
    requires
        playable(b),
        legal(b, m1),
        legal(b, m2),
        uci_name(m1) == uci_name(m2),
    ensures
        m1 == m2,
{
    lemma_uci_name_parts(m1, m2);
    lemma_pseudo_kind_unique(b, m1, m2);
}

} // verus!
