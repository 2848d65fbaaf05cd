use vstd::prelude::*;
use crate::board::{Board, Piece};
use crate::moves::{Move, MoveKind, candidate, code_sum, lemma_seq_sum_codes, move_space, seq_sum, uci_name};
use crate::position::{lemma_legal_move_keeps_sound, lemma_playable_moves, sound};
use crate::square::Square;
use crate::text::{chars_of, same_text};
use crate::types::{Color, PieceKind};

verus! {

// ---------------------------------------------------------------------------
// Board geometry
// ---------------------------------------------------------------------------

/// Whether (`f`, `r`) is a square of the board.
pub open spec fn on_board(f: int, r: int) -> bool {
    0 <= f < 8 && 0 <= r < 8
}

/// The occupant of (`f`, `r`); nothing for coordinates off the board.
pub open spec fn occupant(b: Board, f: int, r: int) -> Option<Piece> {
    if on_board(f, r) { b.at(r * 8 + f) } else { None }
}

/// The eight knight jumps, in generation order.
pub open spec fn knight_offset(k: int) -> (int, int) {
    if k == 0 { (1, 2) }
    else if k == 1 { (2, 1) }
    else if k == 2 { (2, -1) }
    else if k == 3 { (1, -2) }
    else if k == 4 { (-1, -2) }
    else if k == 5 { (-2, -1) }
    else if k == 6 { (-2, 1) }
    else { (-1, 2) }
}

/// The eight king steps, in generation order.
pub open spec fn king_offset(k: int) -> (int, int) {
    if k == 0 { (1, 0) }
    else if k == 1 { (1, 1) }
    else if k == 2 { (0, 1) }
    else if k == 3 { (-1, 1) }
    else if k == 4 { (-1, 0) }
    else if k == 5 { (-1, -1) }
    else if k == 6 { (0, -1) }
    else { (1, -1) }
}

/// The four diagonal directions.
pub open spec fn bishop_dir(k: int) -> (int, int) {
    if k == 0 { (1, 1) }
    else if k == 1 { (1, -1) }
    else if k == 2 { (-1, 1) }
    else { (-1, -1) }
}

/// The four orthogonal directions.
pub open spec fn rook_dir(k: int) -> (int, int) {
    if k == 0 { (1, 0) }
    else if k == 1 { (-1, 0) }
    else if k == 2 { (0, 1) }
    else { (0, -1) }
}

/// The jump or step pattern of a knight or king.
pub open spec fn step_offset(kind: PieceKind, k: int) -> (int, int) {
    if kind == PieceKind::Knight { knight_offset(k) } else { king_offset(k) }
}

/// The number of directions a sliding piece moves in.
pub open spec fn dir_count(kind: PieceKind) -> int {
    if kind == PieceKind::Queen { 8 } else { 4 }
}

/// The `k`-th direction of a sliding piece: bishops move diagonally, rooks
/// orthogonally, queens in the four diagonal and then the four orthogonal
/// directions.
pub open spec fn slide_dir(kind: PieceKind, k: int) -> (int, int) {
    if kind == PieceKind::Bishop {
        bishop_dir(k)
    } else if kind == PieceKind::Rook {
        rook_dir(k)
    } else if k < 4 {
        bishop_dir(k)
    } else {
        rook_dir(k - 4)
    }
}

/// The occupant `t` steps from (`f`, `r`) in direction `d`.
pub open spec fn ray_at(b: Board, f: int, r: int, d: (int, int), t: int) -> Option<Piece> {
    occupant(b, f + t * d.0, r + t * d.1)
}

/// The squares strictly between (`f`, `r`) and `n` steps along `d` are empty.
pub open spec fn ray_clear(b: Board, f: int, r: int, d: (int, int), n: int) -> bool {
    forall|t: int| 1 <= t < n ==> (#[trigger] ray_at(b, f, r, d, t)).is_none()
}

/// A unit direction: each component is -1, 0 or 1, not both 0.
pub open spec fn unit_dir(d: (int, int)) -> bool {
    -1 <= d.0 <= 1 && -1 <= d.1 <= 1 && (d.0 != 0 || d.1 != 0)
}

pub proof fn lemma_dirs_are_units(kind: PieceKind, k: int)
    requires
        0 <= k < 8,
    ensures
        unit_dir(slide_dir(kind, k)),
        unit_dir(king_offset(k)),
{
}

// ---------------------------------------------------------------------------
// Attacks
// ---------------------------------------------------------------------------

/// The rank offset from a square to the pawns of `by` that attack it.
pub open spec fn pawn_attack_rank(by: Color) -> int {
    if by == Color::White { -1 } else { 1 }
}

/// A pawn of `by` attacks (`f`, `r`) diagonally.
pub open spec fn pawn_attacks(b: Board, f: int, r: int, by: Color) -> bool {
    let p = Some(Piece { kind: PieceKind::Pawn, color: by });
    occupant(b, f - 1, r + pawn_attack_rank(by)) == p || occupant(b, f + 1, r + pawn_attack_rank(by)) == p
}

/// The occupant one knight jump or king step (pattern `k`) from (`f`, `r`).
pub open spec fn step_at(b: Board, f: int, r: int, kind: PieceKind, k: int) -> Option<Piece> {
    occupant(b, f + step_offset(kind, k).0, r + step_offset(kind, k).1)
}

/// A knight or king (`kind`) of `by` stands one jump or step from (`f`, `r`).
pub open spec fn step_attacks(b: Board, f: int, r: int, by: Color, kind: PieceKind) -> bool {
    exists|k: int| 0 <= k < 8 && #[trigger] step_at(b, f, r, kind, k) == Some(Piece { kind, color: by })
}

/// The first piece along direction `d` from (`f`, `r`) is at distance `n`
/// and is a `kind` or a queen of `by`.
pub open spec fn ray_attacker(b: Board, f: int, r: int, by: Color, kind: PieceKind, d: (int, int), n: int) -> bool {
    &&& n >= 1
    &&& ray_clear(b, f, r, d, n)
    &&& (ray_at(b, f, r, d, n) == Some(Piece { kind, color: by })
        || ray_at(b, f, r, d, n) == Some(Piece { kind: PieceKind::Queen, color: by }))
}

/// A bishop (diagonally) or rook (orthogonally) of `by`, or a queen, sees
/// (`f`, `r`) along an empty line.
pub open spec fn slider_attacks(b: Board, f: int, r: int, by: Color, kind: PieceKind) -> bool {
    exists|k: int, n: int| 0 <= k < 4 && #[trigger] ray_attacker(b, f, r, by, kind, slide_dir(kind, k), n)
}

/// Whether (`f`, `r`) is attacked by any piece of color `by`.
pub open spec fn attacked(b: Board, f: int, r: int, by: Color) -> bool {
    ||| pawn_attacks(b, f, r, by)
    ||| step_attacks(b, f, r, by, PieceKind::Knight)
    ||| step_attacks(b, f, r, by, PieceKind::King)
    ||| slider_attacks(b, f, r, by, PieceKind::Bishop)
    ||| slider_attacks(b, f, r, by, PieceKind::Rook)
}

fn in_bounds(file: i32, rank: i32) -> (b: bool)
    ensures
        b == on_board(file as int, rank as int),
{
    0 <= file && file < 8 && 0 <= rank && rank < 8
}

/// The occupant of (`f`, `r`), or nothing off the board.
pub(crate) fn occupant_at(board: &Board, f: i32, r: i32) -> (p: Option<Piece>)
    ensures
        p == occupant(*board, f as int, r as int),
{
    if in_bounds(f, r) {
        board.get(Square::new(f as u8, r as u8))
    } else {
        None
    }
}

fn step_offset_exec(kind: PieceKind, k: usize) -> (o: (i32, i32))
    requires
        k < 8,
    ensures
        o.0 == step_offset(kind, k as int).0,
        o.1 == step_offset(kind, k as int).1,
{
    if kind == PieceKind::Knight {
        if k == 0 { (1, 2) }
        else if k == 1 { (2, 1) }
        else if k == 2 { (2, -1) }
        else if k == 3 { (1, -2) }
        else if k == 4 { (-1, -2) }
        else if k == 5 { (-2, -1) }
        else if k == 6 { (-2, 1) }
        else { (-1, 2) }
    } else {
        if k == 0 { (1, 0) }
        else if k == 1 { (1, 1) }
        else if k == 2 { (0, 1) }
        else if k == 3 { (-1, 1) }
        else if k == 4 { (-1, 0) }
        else if k == 5 { (-1, -1) }
        else if k == 6 { (0, -1) }
        else { (1, -1) }
    }
}

fn slide_dir_exec(kind: PieceKind, k: usize) -> (d: (i32, i32))
    requires
        k < 8,
    ensures
        d.0 == slide_dir(kind, k as int).0,
        d.1 == slide_dir(kind, k as int).1,
{
    let (kk, diagonal) = if kind == PieceKind::Bishop {
        (k, true)
    } else if kind == PieceKind::Rook {
        (k, false)
    } else if k < 4 {
        (k, true)
    } else {
        (k - 4, false)
    };
    if diagonal {
        if kk == 0 { (1, 1) }
        else if kk == 1 { (1, -1) }
        else if kk == 2 { (-1, 1) }
        else { (-1, -1) }
    } else {
        if kk == 0 { (1, 0) }
        else if kk == 1 { (-1, 0) }
        else if kk == 2 { (0, 1) }
        else { (0, -1) }
    }
}

/// One more step along a ray moves by the direction once more.
pub proof fn lemma_ray_step(x: int, t: int, d: int)
    ensures
        x + (t + 1) * d == x + t * d + d,
{
    assert((t + 1) * d == t * d + d) by (nonlinear_arith);
}

/// A ray that has left the board never comes back.
pub proof fn lemma_ray_leaves(f: int, r: int, d: (int, int), t: int, n: int)
    requires
        on_board(f, r),
        unit_dir(d),
        1 <= t <= n,
        !on_board(f + t * d.0, r + t * d.1),
    ensures
        !on_board(f + n * d.0, r + n * d.1),
{
    assert(t * d.0 == if d.0 == 1 { t } else if d.0 == -1 { -t } else { 0 }) by (nonlinear_arith)
        requires -1 <= d.0 <= 1;
    assert(t * d.1 == if d.1 == 1 { t } else if d.1 == -1 { -t } else { 0 }) by (nonlinear_arith)
        requires -1 <= d.1 <= 1;
    assert(n * d.0 == if d.0 == 1 { n } else if d.0 == -1 { -n } else { 0 }) by (nonlinear_arith)
        requires -1 <= d.0 <= 1;
    assert(n * d.1 == if d.1 == 1 { n } else if d.1 == -1 { -n } else { 0 }) by (nonlinear_arith)
        requires -1 <= d.1 <= 1;
}

/// A ray leaves the board within eight steps.
pub proof fn lemma_ray_bounded(f: int, r: int, d: (int, int), t: int)
    requires
        unit_dir(d),
        t >= 8,
    ensures
        !on_board(f + t * d.0, r + t * d.1) || !on_board(f, r),
{
    assert(t * d.0 == if d.0 == 1 { t } else if d.0 == -1 { -t } else { 0 }) by (nonlinear_arith)
        requires -1 <= d.0 <= 1;
    assert(t * d.1 == if d.1 == 1 { t } else if d.1 == -1 { -t } else { 0 }) by (nonlinear_arith)
        requires -1 <= d.1 <= 1;
}

/// Whether a `kind` (bishop or rook) or a queen of `by` sees `sq` along
/// one of the `kind`'s directions.
fn ray_attacked_by(board: &Board, sq: Square, by: Color, kind: PieceKind) -> (res: bool)
    requires
        sq.valid(),
        kind == PieceKind::Bishop || kind == PieceKind::Rook,
    ensures
        res == slider_attacks(*board, sq.file as int, sq.rank as int, by, kind),
{
    let ghost f0 = sq.file as int;
    let ghost r0 = sq.rank as int;
    let mut k: usize = 0;
    while k < 4
        invariant
            k <= 4,
            sq.valid(),
            f0 == sq.file,
            r0 == sq.rank,
            kind == PieceKind::Bishop || kind == PieceKind::Rook,
            forall|j: int, n: int| 0 <= j < k ==> !#[trigger] ray_attacker(*board, f0, r0, by, kind, slide_dir(kind, j), n),
        decreases 4 - k,
    {
        let (df, dr) = slide_dir_exec(kind, k);
        let ghost d = slide_dir(kind, k as int);
        proof { lemma_dirs_are_units(kind, k as int); }
        let mut t: i32 = 1;
        let mut f = sq.file as i32 + df;
        let mut r = sq.rank as i32 + dr;
        loop
            invariant
                1 <= t <= 8,
                k < 4,
                kind == PieceKind::Bishop || kind == PieceKind::Rook,
                sq.valid(),
                f0 == sq.file,
                r0 == sq.rank,
                d == slide_dir(kind, k as int),
                unit_dir(d),
                d.0 == df,
                d.1 == dr,
                f == f0 + t * d.0,
                r == r0 + t * d.1,
                ray_clear(*board, f0, r0, d, t as int),
            ensures
                forall|n: int| !#[trigger] ray_attacker(*board, f0, r0, by, kind, d, n),
            decreases 8 - t,
        {
            if !in_bounds(f, r) {
                assert forall|n: int| !#[trigger] ray_attacker(*board, f0, r0, by, kind, d, n) by {
                    if n >= t && ray_attacker(*board, f0, r0, by, kind, d, n) {
                        lemma_ray_leaves(f0, r0, d, t as int, n);
                    }
                }
                break;
            }
            proof {
                if t >= 8 {
                    lemma_ray_bounded(f0, r0, d, t as int);
                }
            }
            let p = occupant_at(board, f, r);
            assert(p == ray_at(*board, f0, r0, d, t as int));
            if let Some(p) = p {
                if p.color == by && (p.kind == kind || p.kind == PieceKind::Queen) {
                    assert(ray_attacker(*board, sq.file as int, sq.rank as int, by, kind, slide_dir(kind, k as int), t as int));
                    return true;
                }
                assert forall|n: int| !#[trigger] ray_attacker(*board, f0, r0, by, kind, d, n) by {
                    if n > t {
                        assert(ray_at(*board, f0, r0, d, t as int).is_some());
                    }
                }
                break;
            }
            proof {
                lemma_ray_step(f0, t as int, d.0);
                lemma_ray_step(r0, t as int, d.1);
            }
            t += 1;
            f += df;
            r += dr;
        }
        k += 1;
    }
    false
}

/// Whether a knight or king (`kind`) of `by` stands next to `sq` in its
/// jump or step pattern.
fn step_attacked_by(board: &Board, sq: Square, by: Color, kind: PieceKind) -> (res: bool)
    requires
        sq.valid(),
    ensures
        res == step_attacks(*board, sq.file as int, sq.rank as int, by, kind),
{
    let mut k: usize = 0;
    while k < 8
        invariant
            k <= 8,
            sq.valid(),
            forall|j: int| 0 <= j < k ==> #[trigger] step_at(*board, sq.file as int, sq.rank as int, kind, j) != Some(Piece { kind, color: by }),
        decreases 8 - k,
    {
        let (df, dr) = step_offset_exec(kind, k);
        let p = occupant_at(board, sq.file as i32 + df, sq.rank as i32 + dr);
        assert(p == step_at(*board, sq.file as int, sq.rank as int, kind, k as int));
        if let Some(p) = p {
            if p.color == by && p.kind == kind {
                return true;
            }
        }
        k += 1;
    }
    false
}

/// Returns whether `sq` is attacked by any piece of color `by`, checked
/// piece-type by piece-type from the target square outward. Used both for
/// "is my king in check" and for the squares a king must not castle
/// through or into.
pub fn is_square_attacked(board: &Board, sq: Square, by: Color) -> (res: bool)
    requires
        sq.valid(),
    ensures
        res == attacked(*board, sq.file as int, sq.rank as int, by),
{
    let pawn_rank_offset: i32 = match by {
        Color::White => -1,
        Color::Black => 1,
    };
    let r = sq.rank as i32 + pawn_rank_offset;
    let left = occupant_at(board, sq.file as i32 - 1, r);
    let right = occupant_at(board, sq.file as i32 + 1, r);
    let pawn = Some(Piece { kind: PieceKind::Pawn, color: by });
    if let Some(p) = left {
        if p.color == by && p.kind == PieceKind::Pawn {
            return true;
        }
    }
    if let Some(p) = right {
        if p.color == by && p.kind == PieceKind::Pawn {
            return true;
        }
    }
    if step_attacked_by(board, sq, by, PieceKind::Knight) {
        return true;
    }
    if step_attacked_by(board, sq, by, PieceKind::King) {
        return true;
    }
    if ray_attacked_by(board, sq, by, PieceKind::Bishop) {
        return true;
    }
    if ray_attacked_by(board, sq, by, PieceKind::Rook) {
        return true;
    }
    false
}


// ---------------------------------------------------------------------------
// Pseudo-legal moves
// ---------------------------------------------------------------------------

/// A plain move from `from` to `to`: no promotion, nothing else relocated.
pub open spec fn plain(from: Square, to: Square) -> Move {
    Move { from, to, promotion: None, kind: MoveKind::Normal }
}

/// (`f`, `r`) holds a piece of color `c`.
pub open spec fn holds_color(b: Board, f: int, r: int, c: Color) -> bool {
    occupant(b, f, r) matches Some(p) && p.color == c
}

/// The coordinates one jump or step (pattern `k`) from `from`.
pub open spec fn step_target(from: Square, kind: PieceKind, k: int) -> (int, int) {
    (from.file + step_offset(kind, k).0, from.rank + step_offset(kind, k).1)
}

/// A knight jump or king step of the side to move onto a square that no
/// piece of its own occupies.
pub open spec fn step_move(b: Board, m: Move, kind: PieceKind) -> bool {
    let c = b.side_to_move;
    &&& m.valid()
    &&& m.kind == MoveKind::Normal
    &&& m.promotion.is_none()
    &&& b.on(m.from) == Some(Piece { kind, color: c })
    &&& exists|k: int| 0 <= k < 8 && #[trigger] step_target(m.from, kind, k) == (m.to.file as int, m.to.rank as int)
    &&& !holds_color(b, m.to.file as int, m.to.rank as int, c)
}

/// `to` lies `n` steps along `d` from `from`, with only empty squares between.
pub open spec fn slide_reach(b: Board, from: Square, d: (int, int), n: int, to: Square) -> bool {
    &&& n >= 1
    &&& to.file == from.file + n * d.0
    &&& to.rank == from.rank + n * d.1
    &&& ray_clear(b, from.file as int, from.rank as int, d, n)
}

/// A bishop, rook or queen move of the side to move along an empty line,
/// stopping on an empty square or capturing the first enemy piece.
pub open spec fn slide_move(b: Board, m: Move, kind: PieceKind) -> bool {
    let c = b.side_to_move;
    &&& m.valid()
    &&& m.kind == MoveKind::Normal
    &&& m.promotion.is_none()
    &&& b.on(m.from) == Some(Piece { kind, color: c })
    &&& exists|k: int, n: int| 0 <= k < dir_count(kind) && #[trigger] slide_reach(b, m.from, slide_dir(kind, k), n, m.to)
    &&& !holds_color(b, m.to.file as int, m.to.rank as int, c)
}

/// The direction in which pawns of `c` advance.
pub open spec fn pawn_dir(c: Color) -> int {
    if c == Color::White { 1 } else { -1 }
}

/// The rank from which pawns of `c` may advance two squares.
pub open spec fn start_rank(c: Color) -> int {
    if c == Color::White { 1 } else { 6 }
}

/// The rank on which pawns of `c` promote.
pub open spec fn promo_rank(c: Color) -> int {
    if c == Color::White { 7 } else { 0 }
}

/// A pawn move reaching the promotion rank names a queen, rook, bishop or
/// knight; any other pawn move names no promotion.
pub open spec fn promotion_fits(m: Move, c: Color) -> bool {
    if m.to.rank == promo_rank(c) {
        m.promotion matches Some(k) && (k == PieceKind::Queen || k == PieceKind::Rook
            || k == PieceKind::Bishop || k == PieceKind::Knight)
    } else {
        m.promotion.is_none()
    }
}

/// A pawn move of the side to move: a push onto an empty square, a double
/// push from the start rank across two empty squares, a diagonal capture
/// of an enemy piece, or an en passant capture onto the target square.
pub open spec fn pawn_move(b: Board, m: Move) -> bool {
    let c = b.side_to_move;
    let d = pawn_dir(c);
    let f = m.from.file as int;
    let r = m.from.rank as int;
    let diagonal = (m.to.file == f - 1 || m.to.file == f + 1) && m.to.rank == r + d;
    &&& m.valid()
    &&& b.on(m.from) == Some(Piece { kind: PieceKind::Pawn, color: c })
    &&& {
        ||| (m.kind == MoveKind::Normal && m.to.file == f && m.to.rank == r + d && b.on(m.to).is_none()
            && promotion_fits(m, c))
        ||| (m.kind == MoveKind::Normal && m.promotion.is_none() && r == start_rank(c) && m.to.file == f
            && m.to.rank == r + 2 * d && occupant(b, f, r + d).is_none() && b.on(m.to).is_none())
        ||| (m.kind == MoveKind::Normal && diagonal && holds_color(b, m.to.file as int, m.to.rank as int, c.flip())
            && promotion_fits(m, c))
        ||| (m.kind == MoveKind::EnPassant && m.promotion.is_none() && diagonal && b.on(m.to).is_none()
            && b.en_passant == Some(m.to))
    }
}

/// The back rank of `c`.
pub open spec fn home_rank(c: Color) -> int {
    if c == Color::White { 0 } else { 7 }
}

/// A castling move of the side to move: the right is still held, the king
/// square is not attacked, the squares between king and rook are empty,
/// and the squares the king crosses and lands on are not attacked.
pub open spec fn castle_move(b: Board, m: Move) -> bool {
    let c = b.side_to_move;
    let e = c.flip();
    let r = home_rank(c);
    &&& !attacked(b, 4, r, e)
    &&& {
        ||| (b.castling.kingside(c) && m == (Move {
            from: crate::board::sq(4, r),
            to: crate::board::sq(6, r),
            promotion: None,
            kind: MoveKind::CastleKingside,
        }) && occupant(b, 5, r).is_none() && occupant(b, 6, r).is_none() && !attacked(b, 5, r, e)
            && !attacked(b, 6, r, e))
        ||| (b.castling.queenside(c) && m == (Move {
            from: crate::board::sq(4, r),
            to: crate::board::sq(2, r),
            promotion: None,
            kind: MoveKind::CastleQueenside,
        }) && occupant(b, 3, r).is_none() && occupant(b, 2, r).is_none() && occupant(b, 1, r).is_none()
            && !attacked(b, 3, r, e) && !attacked(b, 2, r, e))
    }
}

/// The moves of the side to move's pieces of `kind`.
pub open spec fn piece_move(b: Board, m: Move, kind: PieceKind) -> bool {
    if kind == PieceKind::Pawn {
        pawn_move(b, m)
    } else if kind == PieceKind::Knight || kind == PieceKind::King {
        step_move(b, m, kind)
    } else {
        slide_move(b, m, kind)
    }
}

/// A move that follows the movement and capture rules of the side to move's
/// pieces, whether or not it leaves the mover's own king in check.
pub open spec fn pseudo_legal(b: Board, m: Move) -> bool {
    ||| piece_move(b, m, PieceKind::Pawn)
    ||| piece_move(b, m, PieceKind::Knight)
    ||| piece_move(b, m, PieceKind::King)
    ||| piece_move(b, m, PieceKind::Bishop)
    ||| piece_move(b, m, PieceKind::Rook)
    ||| piece_move(b, m, PieceKind::Queen)
    ||| castle_move(b, m)
}

// ---------------------------------------------------------------------------
// Per-square move lists, in generation order
// ---------------------------------------------------------------------------

/// The jumps or steps from `from` over patterns `0..k`.
pub open spec fn step_list(b: Board, from: Square, kind: PieceKind, k: int) -> Seq<Move>
    decreases k,
{
    if k <= 0 {
        Seq::empty()
    } else {
        let t = step_target(from, kind, k - 1);
        step_list(b, from, kind, k - 1) + if on_board(t.0, t.1) && !holds_color(b, t.0, t.1, b.side_to_move) {
            seq![plain(from, crate::board::sq(t.0, t.1))]
        } else {
            Seq::empty()
        }
    }
}

/// The moves along direction `d` from `from`, starting `t` steps out.
pub open spec fn ray_list(b: Board, from: Square, d: (int, int), t: int) -> Seq<Move>
    decreases 9 - t,
{
    let f = from.file + t * d.0;
    let r = from.rank + t * d.1;
    if t >= 9 || t < 1 || !on_board(f, r) {
        Seq::empty()
    } else {
        match occupant(b, f, r) {
            None => seq![plain(from, crate::board::sq(f, r))] + ray_list(b, from, d, t + 1),
            Some(p) => if p.color != b.side_to_move {
                seq![plain(from, crate::board::sq(f, r))]
            } else {
                Seq::empty()
            },
        }
    }
}

/// The sliding moves from `from` along directions `0..k` of `kind`.
pub open spec fn slide_list(b: Board, from: Square, kind: PieceKind, k: int) -> Seq<Move>
    decreases k,
{
    if k <= 0 {
        Seq::empty()
    } else {
        slide_list(b, from, kind, k - 1) + ray_list(b, from, slide_dir(kind, k - 1), 1)
    }
}


/// Two moves from the same square with different destinations differ.
pub open spec fn to_coords(m: Move) -> (int, int) {
    (m.to.file as int, m.to.rank as int)
}

pub proof fn lemma_step_offsets_distinct(kind: PieceKind, j: int, k: int)
    requires
        0 <= j < 8,
        0 <= k < 8,
        j != k,
    ensures
        step_offset(kind, j) != step_offset(kind, k),
{
}

/// What the step list holds: the plain moves from `from` to the on-board,
/// not self-occupied targets of patterns `0..k`, each once.
pub proof fn lemma_step_list(b: Board, from: Square, kind: PieceKind, k: int)
    requires
        from.valid(),
        0 <= k <= 8,
    ensures
        step_list(b, from, kind, k).no_duplicates(),
        forall|m: Move| #[trigger] step_list(b, from, kind, k).contains(m) <==> {
            &&& m.from == from
            &&& m.valid()
            &&& m.kind == MoveKind::Normal
            &&& m.promotion.is_none()
            &&& !holds_color(b, m.to.file as int, m.to.rank as int, b.side_to_move)
            &&& exists|j: int| 0 <= j < k && #[trigger] step_target(from, kind, j) == to_coords(m)
        },
    decreases k,
{
    if k > 0 {
        lemma_step_list(b, from, kind, k - 1);
        let prev = step_list(b, from, kind, k - 1);
        let t = step_target(from, kind, k - 1);
        let cur = step_list(b, from, kind, k);
        if on_board(t.0, t.1) && !holds_color(b, t.0, t.1, b.side_to_move) {
            let m0 = plain(from, crate::board::sq(t.0, t.1));
            assert(cur == prev.push(m0));
            assert forall|j: int| 0 <= j < k - 1 implies #[trigger] step_target(from, kind, j) != t by {
                lemma_step_offsets_distinct(kind, j, k - 1);
            }
            assert(!prev.contains(m0));
            assert forall|m: Move| #[trigger] cur.contains(m) <==> (prev.contains(m) || m == m0) by {
                if cur.contains(m) && !prev.contains(m) {
                    let i = choose|i: int| 0 <= i < cur.len() && cur[i] == m;
                    assert(i == prev.len());
                }
                if m == m0 {
                    assert(cur[prev.len() as int] == m0);
                }
                if prev.contains(m) {
                    let i = choose|i: int| 0 <= i < prev.len() && prev[i] == m;
                    assert(cur[i] == m);
                }
            }
            assert(to_coords(m0) == t);
            assert forall|m: Move| cur.contains(m) ==> (exists|j: int| 0 <= j < k && #[trigger] step_target(from, kind, j) == to_coords(m))
                by {
                if cur.contains(m) && m == m0 {
                    assert(step_target(from, kind, k - 1) == to_coords(m));
                }
            }
            assert forall|m: Move|
                (m.from == from && m.valid() && m.kind == MoveKind::Normal && m.promotion.is_none()
                    && !holds_color(b, m.to.file as int, m.to.rank as int, b.side_to_move)
                    && exists|j: int| 0 <= j < k && #[trigger] step_target(from, kind, j) == to_coords(m))
                implies cur.contains(m) by {
                let j = choose|j: int| 0 <= j < k && #[trigger] step_target(from, kind, j) == to_coords(m);
                if j == k - 1 {
                    assert(m == m0);
                } else {
                    assert(prev.contains(m));
                }
            }
            assert(cur.no_duplicates()) by {
                assert forall|i: int, i2: int| 0 <= i < cur.len() && 0 <= i2 < cur.len() && i != i2 implies cur[i] != cur[i2] by {
                    if i == prev.len() {
                        assert(prev.contains(cur[i2]));
                    } else if i2 == prev.len() {
                        assert(prev.contains(cur[i]));
                    } else {
                        assert(cur[i] == prev[i] && cur[i2] == prev[i2]);
                    }
                }
            }
        } else {
            assert(cur =~= prev);
            assert forall|m: Move|
                (m.from == from && m.valid() && m.kind == MoveKind::Normal && m.promotion.is_none()
                    && !holds_color(b, m.to.file as int, m.to.rank as int, b.side_to_move)
                    && exists|j: int| 0 <= j < k && #[trigger] step_target(from, kind, j) == to_coords(m))
                implies cur.contains(m) by {
                let j = choose|j: int| 0 <= j < k && #[trigger] step_target(from, kind, j) == to_coords(m);
                assert(j != k - 1);
            }
        }
    }
}

/// Pushes the knight jumps or king steps from `from` onto `moves`: a move
/// onto an empty square or an enemy-occupied one (a capture), never onto a
/// friendly piece.
fn step_moves_from(board: &Board, from: Square, kind: PieceKind, moves: &mut Vec<Move>)
    requires
        from.valid(),
    ensures
        final(moves)@ == old(moves)@ + step_list(*board, from, kind, 8),
{
    let color = board.side_to_move;
    let mut k: usize = 0;
    while k < 8
        invariant
            k <= 8,
            from.valid(),
            color == board.side_to_move,
            moves@ == old(moves)@ + step_list(*board, from, kind, k as int),
        decreases 8 - k,
    {
        let (df, dr) = step_offset_exec(kind, k);
        let f = from.file as i32 + df;
        let r = from.rank as i32 + dr;
        let ghost before = moves@;
        if in_bounds(f, r) {
            let to = Square::new(f as u8, r as u8);
            let friendly = match board.get(to) {
                Some(occupant) => occupant.color == color,
                None => false,
            };
            if !friendly {
                moves.push(Move::new(from, to));
            }
        }
        assert(moves@ =~= old(moves)@ + step_list(*board, from, kind, k + 1));
        k += 1;
    }
}


/// The coordinates `n` steps along `d` from `from`.
pub open spec fn ray_target(from: Square, d: (int, int), n: int) -> (int, int) {
    (from.file + n * d.0, from.rank + n * d.1)
}

/// `m` is the plain move `n` steps along `d` from `from`, onto a square of
/// the board no own piece occupies, past only empty squares from step `t` on.
pub open spec fn ray_hit(b: Board, from: Square, d: (int, int), t: int, n: int, m: Move) -> bool {
    let x = ray_target(from, d, n);
    &&& n >= t
    &&& on_board(x.0, x.1)
    &&& m == plain(from, crate::board::sq(x.0, x.1))
    &&& (forall|j: int| t <= j < n ==> (#[trigger] ray_at(b, from.file as int, from.rank as int, d, j)).is_none())
    &&& !holds_color(b, x.0, x.1, b.side_to_move)
}

/// Different step counts along a unit direction reach different squares; a
/// multiple of one unit direction is a multiple of no other.
pub proof fn lemma_unit_multiple(a: int, a2: int, n: int, n2: int)
    requires
        -1 <= a <= 1,
        -1 <= a2 <= 1,
        n >= 1,
        n2 >= 1,
        n * a == n2 * a2,
    ensures
        a == a2,
        a != 0 ==> n == n2,
{
    if a == 0 {
        assert(n2 * a2 == 0);
        assert(a2 == 0) by (nonlinear_arith) requires n2 * a2 == 0, n2 >= 1;
    } else if a == 1 {
        assert(a2 == 1 && n == n2) by (nonlinear_arith) requires n * a == n2 * a2, a == 1, n >= 1, n2 >= 1, -1 <= a2 <= 1;
    } else {
        assert(a2 == -1 && n == n2) by (nonlinear_arith) requires n * a == n2 * a2, a == -1, n >= 1, n2 >= 1, -1 <= a2 <= 1;
    }
}

/// What a ray list holds: for each step count from `t` on, the move to
/// that square if the ray reaches it, each once.
pub proof fn lemma_ray_list(b: Board, from: Square, d: (int, int), t: int)
    requires
        from.valid(),
        unit_dir(d),
        1 <= t <= 9,
    ensures
        ray_list(b, from, d, t).no_duplicates(),
        forall|m: Move| #[trigger] ray_list(b, from, d, t).contains(m) <==> exists|n: int| #[trigger] ray_hit(b, from, d, t, n, m),
    decreases 9 - t,
{
    let f0 = from.file as int;
    let r0 = from.rank as int;
    let x = ray_target(from, d, t);
    let cur = ray_list(b, from, d, t);
    if t >= 9 || !on_board(x.0, x.1) {
        assert(cur.len() == 0);
        assert forall|m: Move| !#[trigger] cur.contains(m) && !exists|n: int| #[trigger] ray_hit(b, from, d, t, n, m) by {
            if exists|n: int| #[trigger] ray_hit(b, from, d, t, n, m) {
                let n = choose|n: int| #[trigger] ray_hit(b, from, d, t, n, m);
                if t >= 9 {
                    lemma_ray_bounded(f0, r0, d, n);
                } else {
                    lemma_ray_leaves(f0, r0, d, t, n);
                }
            }
        }
    } else {
        let m0 = plain(from, crate::board::sq(x.0, x.1));
        assert(ray_hit(b, from, d, t, t, m0) <==> !holds_color(b, x.0, x.1, b.side_to_move));
        match occupant(b, x.0, x.1) {
            None => {
                lemma_ray_list(b, from, d, t + 1);
                let rest = ray_list(b, from, d, t + 1);
                assert(cur == seq![m0] + rest);
                assert(ray_hit(b, from, d, t, t, m0));
                assert forall|n: int, m: Move| n > t implies (#[trigger] ray_hit(b, from, d, t, n, m) <==> ray_hit(b, from, d, t + 1, n, m)) by {
                    if ray_hit(b, from, d, t + 1, n, m) {
                        assert forall|j: int| t <= j < n implies (#[trigger] ray_at(b, f0, r0, d, j)).is_none() by {
                            if j == t {
                            } else {
                                assert(t + 1 <= j < n);
                            }
                        }
                    }
                }
                assert forall|m: Move| #[trigger] cur.contains(m) <==> exists|n: int| #[trigger] ray_hit(b, from, d, t, n, m) by {
                    if cur.contains(m) {
                        let i = choose|i: int| 0 <= i < cur.len() && cur[i] == m;
                        if i == 0 {
                            assert(m == m0);
                            assert(ray_hit(b, from, d, t, t, m));
                        } else {
                            assert(rest[i - 1] == m);
                            assert(rest.contains(m));
                            let n = choose|n: int| #[trigger] ray_hit(b, from, d, t + 1, n, m);
                            assert(ray_hit(b, from, d, t, n, m));
                        }
                    }
                    if exists|n: int| #[trigger] ray_hit(b, from, d, t, n, m) {
                        let n = choose|n: int| #[trigger] ray_hit(b, from, d, t, n, m);
                        if n == t {
                            assert(cur[0] == m);
                        } else {
                            assert(ray_hit(b, from, d, t + 1, n, m));
                            assert(rest.contains(m));
                            let i = choose|i: int| 0 <= i < rest.len() && rest[i] == m;
                            assert(cur[i + 1] == m);
                        }
                    }
                }
                assert(!rest.contains(m0)) by {
                    if rest.contains(m0) {
                        let n = choose|n: int| #[trigger] ray_hit(b, from, d, t + 1, n, m0);
                        let y = ray_target(from, d, n);
                        assert(crate::board::sq(y.0, y.1) == crate::board::sq(x.0, x.1));
                        assert(y == x);
                        assert(n * d.0 == t * d.0 && n * d.1 == t * d.1);
                        lemma_unit_multiple(d.0, d.0, n, t);
                        lemma_unit_multiple(d.1, d.1, n, t);
                    }
                }
                assert(cur.no_duplicates()) by {
                    assert forall|i: int, i2: int| 0 <= i < cur.len() && 0 <= i2 < cur.len() && i != i2 implies cur[i] != cur[i2] by {
                        if i == 0 {
                            assert(cur[i2] == rest[i2 - 1]);
                        } else if i2 == 0 {
                            assert(cur[i] == rest[i - 1]);
                        } else {
                            assert(cur[i] == rest[i - 1] && cur[i2] == rest[i2 - 1]);
                        }
                    }
                }
            },
            Some(p) => {
                assert forall|n: int, m: Move| n > t implies !#[trigger] ray_hit(b, from, d, t, n, m) by {
                    assert(ray_at(b, f0, r0, d, t).is_some());
                }
                if p.color != b.side_to_move {
                    assert(cur == seq![m0]);
                    assert forall|m: Move| #[trigger] cur.contains(m) <==> exists|n: int| #[trigger] ray_hit(b, from, d, t, n, m) by {
                        if cur.contains(m) {
                            assert(cur[0] == m);
                            assert(ray_hit(b, from, d, t, t, m));
                        }
                        if exists|n: int| #[trigger] ray_hit(b, from, d, t, n, m) {
                            let n = choose|n: int| #[trigger] ray_hit(b, from, d, t, n, m);
                            assert(n == t);
                            assert(cur[0] == m);
                        }
                    }
                } else {
                    assert(cur.len() == 0);
                    assert forall|m: Move| !#[trigger] cur.contains(m) && !exists|n: int| #[trigger] ray_hit(b, from, d, t, n, m) by {
                        if exists|n: int| #[trigger] ray_hit(b, from, d, t, n, m) {
                            let n = choose|n: int| #[trigger] ray_hit(b, from, d, t, n, m);
                            assert(n == t);
                        }
                    }
                }
            },
        }
    }
}


/// A sliding piece's directions are distinct unit directions.
pub proof fn lemma_slide_dirs(kind: PieceKind, j: int, k: int)
    requires
        0 <= j < 8,
        0 <= k < 8,
        j != k,
        kind == PieceKind::Queen || (j < 4 && k < 4),
    ensures
        slide_dir(kind, j) != slide_dir(kind, k),
        unit_dir(slide_dir(kind, j)),
{
}

/// What a sliding piece's move list holds: each move along one of the
/// directions `0..k` that a ray reaches, each once.
pub proof fn lemma_slide_list(b: Board, from: Square, kind: PieceKind, k: int)
    requires
        from.valid(),
        0 <= k <= dir_count(kind),
    ensures
        slide_list(b, from, kind, k).no_duplicates(),
        forall|m: Move| #[trigger] slide_list(b, from, kind, k).contains(m) <==>
            exists|j: int, n: int| 0 <= j < k && #[trigger] ray_hit(b, from, slide_dir(kind, j), 1, n, m),
    decreases k,
{
    if k > 0 {
        lemma_slide_list(b, from, kind, k - 1);
        let d = slide_dir(kind, k - 1);
        lemma_dirs_are_units(kind, k - 1);
        lemma_ray_list(b, from, d, 1);
        let prev = slide_list(b, from, kind, k - 1);
        let ray = ray_list(b, from, d, 1);
        let cur = slide_list(b, from, kind, k);
        assert(cur == prev + ray);
        assert forall|m: Move| #[trigger] cur.contains(m) <==> (prev.contains(m) || ray.contains(m)) by {
            if cur.contains(m) {
                let i = choose|i: int| 0 <= i < cur.len() && cur[i] == m;
                if i < prev.len() {
                    assert(prev[i] == m);
                } else {
                    assert(ray[i - prev.len()] == m);
                }
            }
            if prev.contains(m) {
                let i = choose|i: int| 0 <= i < prev.len() && prev[i] == m;
                assert(cur[i] == m);
            }
            if ray.contains(m) {
                let i = choose|i: int| 0 <= i < ray.len() && ray[i] == m;
                assert(cur[i + prev.len()] == m);
            }
        }
        assert forall|m: Move| #[trigger] cur.contains(m) <==>
            exists|j: int, n: int| 0 <= j < k && #[trigger] ray_hit(b, from, slide_dir(kind, j), 1, n, m) by {
            if ray.contains(m) {
                let n = choose|n: int| #[trigger] ray_hit(b, from, d, 1, n, m);
                assert(ray_hit(b, from, slide_dir(kind, k - 1), 1, n, m));
            }
            if exists|j: int, n: int| 0 <= j < k && #[trigger] ray_hit(b, from, slide_dir(kind, j), 1, n, m) {
                let (j, n) = choose|j: int, n: int| 0 <= j < k && #[trigger] ray_hit(b, from, slide_dir(kind, j), 1, n, m);
                if j == k - 1 {
                    assert(ray.contains(m));
                } else {
                    assert(prev.contains(m));
                }
            }
        }
        assert forall|m: Move| prev.contains(m) implies !ray.contains(m) by {
            let (j, n) = choose|j: int, n: int| 0 <= j < k - 1 && #[trigger] ray_hit(b, from, slide_dir(kind, j), 1, n, m);
            if ray.contains(m) {
                let n2 = choose|n2: int| #[trigger] ray_hit(b, from, d, 1, n2, m);
                let dj = slide_dir(kind, j);
                lemma_slide_dirs(kind, j, k - 1);
                lemma_slide_dirs(kind, k - 1, j);
                let x = ray_target(from, dj, n);
                let y = ray_target(from, d, n2);
                assert(crate::board::sq(x.0, x.1) == crate::board::sq(y.0, y.1));
                assert(n * dj.0 == n2 * d.0 && n * dj.1 == n2 * d.1);
                lemma_unit_multiple(dj.0, d.0, n, n2);
                lemma_unit_multiple(dj.1, d.1, n, n2);
            }
        }
        assert(cur.no_duplicates()) by {
            assert forall|i: int, i2: int| 0 <= i < cur.len() && 0 <= i2 < cur.len() && i != i2 implies cur[i] != cur[i2] by {
                let pl = prev.len() as int;
                if i < pl && i2 < pl {
                    assert(cur[i] == prev[i] && cur[i2] == prev[i2]);
                } else if i >= pl && i2 >= pl {
                    assert(cur[i] == ray[i - pl] && cur[i2] == ray[i2 - pl]);
                } else if i < pl {
                    assert(cur[i] == prev[i] && cur[i2] == ray[i2 - pl]);
                    assert(prev.contains(cur[i]));
                    assert(ray.contains(cur[i2]));
                } else {
                    assert(cur[i2] == prev[i2] && cur[i] == ray[i - pl]);
                    assert(prev.contains(cur[i2]));
                    assert(ray.contains(cur[i]));
                }
            }
        }
    }
}

fn dir_count_exec(kind: PieceKind) -> (n: usize)
    ensures
        n == dir_count(kind),
{
    if kind == PieceKind::Queen { 8 } else { 4 }
}

/// Pushes the ray moves of the bishop, rook or queen on `from`: each
/// direction is walked until it hits the board edge, a friendly piece
/// (stop, don't include), or an enemy piece (include as a capture, then
/// stop).
fn sliding_moves_from(board: &Board, from: Square, kind: PieceKind, moves: &mut Vec<Move>)
    requires
        from.valid(),
    ensures
        final(moves)@ == old(moves)@ + slide_list(*board, from, kind, dir_count(kind)),
{
    let color = board.side_to_move;
    let count = dir_count_exec(kind);
    let mut k: usize = 0;
    while k < count
        invariant
            k <= count,
            count == dir_count(kind),
            from.valid(),
            color == board.side_to_move,
            moves@ == old(moves)@ + slide_list(*board, from, kind, k as int),
        decreases count - k,
    {
        let (df, dr) = slide_dir_exec(kind, k);
        let ghost d = slide_dir(kind, k as int);
        let ghost base = moves@;
        proof { lemma_dirs_are_units(kind, k as int); }
        let mut t: i32 = 1;
        let mut f = from.file as i32 + df;
        let mut r = from.rank as i32 + dr;
        loop
            invariant_except_break
                moves@ + ray_list(*board, from, d, t as int) == base + ray_list(*board, from, d, 1),
            invariant
                1 <= t <= 8,
                from.valid(),
                color == board.side_to_move,
                unit_dir(d),
                d.0 == df,
                d.1 == dr,
                f == from.file + t * d.0,
                r == from.rank + t * d.1,
            ensures
                moves@ == base + ray_list(*board, from, d, 1),
            decreases 8 - t,
        {
            if !in_bounds(f, r) {
                assert(ray_list(*board, from, d, t as int) =~= Seq::<Move>::empty());
                assert(moves@ + ray_list(*board, from, d, t as int) == moves@);
                break;
            }
            proof {
                if t >= 8 {
                    lemma_ray_bounded(from.file as int, from.rank as int, d, t as int);
                }
            }
            let to = Square::new(f as u8, r as u8);
            let m = Move::new(from, to);
            let ghost rest = ray_list(*board, from, d, t + 1);
            match board.get(to) {
                None => {
                    assert(ray_list(*board, from, d, t as int) == seq![m] + rest);
                    moves.push(m);
                    assert(moves@ + rest =~= base + ray_list(*board, from, d, 1)) by {
                        assert(moves@ + rest =~= (moves@.drop_last() + ray_list(*board, from, d, t as int)));
                    }
                },
                Some(occupant) => {
                    if occupant.color != color {
                        assert(ray_list(*board, from, d, t as int) == seq![m]);
                        moves.push(m);
                        assert(moves@ =~= base + ray_list(*board, from, d, 1)) by {
                            assert(moves@ =~= moves@.drop_last() + ray_list(*board, from, d, t as int));
                        }
                    } else {
                        assert(ray_list(*board, from, d, t as int) =~= Seq::<Move>::empty());
                        assert(moves@ + ray_list(*board, from, d, t as int) =~= moves@);
                    }
                    break;
                },
            }
            proof {
                lemma_ray_step(from.file as int, t as int, d.0);
                lemma_ray_step(from.rank as int, t as int, d.1);
            }
            t += 1;
            f += df;
            r += dr;
        }
        assert(moves@ =~= old(moves)@ + slide_list(*board, from, kind, k + 1));
        k += 1;
    }
}


// ---------------------------------------------------------------------------
// Sequence facts
// ---------------------------------------------------------------------------

pub proof fn lemma_concat_contains<A>(a: Seq<A>, b: Seq<A>)
    ensures
        forall|x: A| #[trigger] (a + b).contains(x) <==> a.contains(x) || b.contains(x),
{
    assert forall|x: A| #[trigger] (a + b).contains(x) <==> a.contains(x) || b.contains(x) by {
        if (a + b).contains(x) {
            let i = choose|i: int| 0 <= i < (a + b).len() && (a + b)[i] == x;
            if i < a.len() {
                assert(a[i] == x);
            } else {
                assert(b[i - a.len()] == x);
            }
        }
        if a.contains(x) {
            let i = choose|i: int| 0 <= i < a.len() && a[i] == x;
            assert((a + b)[i] == x);
        }
        if b.contains(x) {
            let i = choose|i: int| 0 <= i < b.len() && b[i] == x;
            assert((a + b)[i + a.len()] == x);
        }
    }
}

pub proof fn lemma_concat_no_dups<A>(a: Seq<A>, b: Seq<A>)
    requires
        a.no_duplicates(),
        b.no_duplicates(),
        forall|x: A| a.contains(x) ==> !b.contains(x),
    ensures
        (a + b).no_duplicates(),
{
    let c = a + b;
    assert forall|i: int, j: int| 0 <= i < c.len() && 0 <= j < c.len() && i != j implies c[i] != c[j] by {
        let al = a.len() as int;
        if i < al && j < al {
            assert(c[i] == a[i] && c[j] == a[j]);
        } else if i >= al && j >= al {
            assert(c[i] == b[i - al] && c[j] == b[j - al]);
        } else if i < al {
            assert(a.contains(c[i]));
            assert(c[j] == b[j - al]);
            assert(b.contains(c[j]));
        } else {
            assert(a.contains(c[j]));
            assert(c[i] == b[i - al]);
            assert(b.contains(c[i]));
        }
    }
}

// ---------------------------------------------------------------------------
// Pawn moves
// ---------------------------------------------------------------------------

/// A move from `from` to `to` promoting to `k`.
pub open spec fn promote(from: Square, to: Square, k: PieceKind) -> Move {
    Move { from, to, promotion: Some(k), kind: MoveKind::Normal }
}

/// The pawn move from `from` to `to`, expanded into the four promotions
/// (queen, rook, bishop, knight) when `to` is on `promo_rank`.
pub open spec fn promo_moves(from: Square, to: Square, promo_rank: int) -> Seq<Move> {
    if to.rank == promo_rank {
        seq![
            promote(from, to, PieceKind::Queen),
            promote(from, to, PieceKind::Rook),
            promote(from, to, PieceKind::Bishop),
            promote(from, to, PieceKind::Knight),
        ]
    } else {
        seq![plain(from, to)]
    }
}

/// The pushes of the pawn on `from`: single, then double from the start rank.
pub open spec fn pawn_pushes(b: Board, from: Square) -> Seq<Move> {
    let c = b.side_to_move;
    let d = pawn_dir(c);
    let f = from.file as int;
    let r = from.rank as int;
    if on_board(f, r + d) && occupant(b, f, r + d).is_none() {
        promo_moves(from, crate::board::sq(f, r + d), promo_rank(c)) + if r == start_rank(c) && occupant(
            b,
            f,
            r + 2 * d,
        ).is_none() {
            seq![plain(from, crate::board::sq(f, r + 2 * d))]
        } else {
            Seq::empty()
        }
    } else {
        Seq::empty()
    }
}

/// The capture of the pawn on `from` toward file offset `df`: an enemy
/// piece taken (with promotions), or an en passant capture onto the target.
pub open spec fn pawn_captures(b: Board, from: Square, df: int) -> Seq<Move> {
    let c = b.side_to_move;
    let tf = from.file + df;
    let tr = from.rank + pawn_dir(c);
    let to = crate::board::sq(tf, tr);
    if !on_board(tf, tr) {
        Seq::empty()
    } else {
        match occupant(b, tf, tr) {
            Some(p) => if p.color != c {
                promo_moves(from, to, promo_rank(c))
            } else {
                Seq::empty()
            },
            None => if b.en_passant == Some(to) {
                seq![Move { from, to, promotion: None, kind: MoveKind::EnPassant }]
            } else {
                Seq::empty()
            },
        }
    }
}

/// The moves of the pawn on `from`, in generation order.
pub open spec fn pawn_list(b: Board, from: Square) -> Seq<Move> {
    pawn_pushes(b, from) + pawn_captures(b, from, -1) + pawn_captures(b, from, 1)
}

pub proof fn lemma_promo_moves(from: Square, to: Square, c: Color)
    ensures
        promo_moves(from, to, promo_rank(c)).no_duplicates(),
        forall|m: Move| #[trigger] promo_moves(from, to, promo_rank(c)).contains(m) <==> (m.from == from && m.to == to
            && m.kind == MoveKind::Normal && promotion_fits(m, c)),
{
    let s = promo_moves(from, to, promo_rank(c));
    assert forall|m: Move| #[trigger] s.contains(m) <==> (m.from == from && m.to == to
        && m.kind == MoveKind::Normal && promotion_fits(m, c)) by {
        if m.from == from && m.to == to && m.kind == MoveKind::Normal && promotion_fits(m, c) {
            if to.rank == promo_rank(c) {
                let k = m.promotion.unwrap();
                if k == PieceKind::Queen { assert(s[0] == m); }
                else if k == PieceKind::Rook { assert(s[1] == m); }
                else if k == PieceKind::Bishop { assert(s[2] == m); }
                else { assert(s[3] == m); }
            } else {
                assert(s[0] == m);
            }
        }
    }
}

/// What a pawn's move list holds: exactly its pawn moves, each once.
pub proof fn lemma_pawn_list(b: Board, from: Square)
    requires
        from.valid(),
        b.on(from) == Some(Piece { kind: PieceKind::Pawn, color: b.side_to_move }),
    ensures
        pawn_list(b, from).no_duplicates(),
        forall|m: Move| #[trigger] pawn_list(b, from).contains(m) <==> pawn_move(b, m) && m.from == from,
{
    let c = b.side_to_move;
    let d = pawn_dir(c);
    let f = from.file as int;
    let r = from.rank as int;
    let pushes = pawn_pushes(b, from);
    let left = pawn_captures(b, from, -1);
    let right = pawn_captures(b, from, 1);
    // the pushes
    if on_board(f, r + d) && occupant(b, f, r + d).is_none() {
        let one = promo_moves(from, crate::board::sq(f, r + d), promo_rank(c));
        lemma_promo_moves(from, crate::board::sq(f, r + d), c);
        let two: Seq<Move> = if r == start_rank(c) && occupant(b, f, r + 2 * d).is_none() {
            seq![plain(from, crate::board::sq(f, r + 2 * d))]
        } else {
            Seq::empty()
        };
        assert(pushes == one + two);
        lemma_concat_contains(one, two);
        assert forall|m: Move| one.contains(m) implies !two.contains(m) by {
            if two.contains(m) {
                assert(two[0] == m);
            }
        }
        lemma_concat_no_dups(one, two);
    }
    assert forall|m: Move| #[trigger] pushes.contains(m) <==> (m.from == from && m.valid() && m.kind == MoveKind::Normal
        && m.to.file == f && ((m.to.rank == r + d && b.on(m.to).is_none() && promotion_fits(m, c))
        || (m.promotion.is_none() && r == start_rank(c) && m.to.rank == r + 2 * d
            && occupant(b, f, r + d).is_none() && b.on(m.to).is_none()))) by {
        if on_board(f, r + d) && occupant(b, f, r + d).is_none() {
            lemma_promo_moves(from, crate::board::sq(f, r + d), c);
            if r == start_rank(c) && occupant(b, f, r + 2 * d).is_none() {
                assert(seq![plain(from, crate::board::sq(f, r + 2 * d))].contains(m) <==> m == plain(from, crate::board::sq(f, r + 2 * d))) by {
                    if m == plain(from, crate::board::sq(f, r + 2 * d)) {
                        assert(seq![plain(from, crate::board::sq(f, r + 2 * d))][0] == m);
                    }
                }
            }
        } else {
            assert(pushes.len() == 0);
        }
    }
    // the captures
    assert forall|df: int| df == -1 || df == 1 implies {
        &&& (#[trigger] pawn_captures(b, from, df)).no_duplicates()
        &&& forall|m: Move| #[trigger] pawn_captures(b, from, df).contains(m) <==> (m.from == from && m.valid()
            && m.to.file == f + df && m.to.rank == r + d && (
            (m.kind == MoveKind::Normal && holds_color(b, m.to.file as int, m.to.rank as int, c.flip())
                && promotion_fits(m, c))
            || (m.kind == MoveKind::EnPassant && m.promotion.is_none() && b.on(m.to).is_none()
                && b.en_passant == Some(m.to))))
    } by {
        let caps = pawn_captures(b, from, df);
        let tf = f + df;
        let tr = r + d;
        let to = crate::board::sq(tf, tr);
        if on_board(tf, tr) {
            match occupant(b, tf, tr) {
                Some(p) => {
                    lemma_promo_moves(from, to, c);
                    if p.color == c {
                        assert(caps.len() == 0);
                    }
                },
                None => {
                    if b.en_passant == Some(to) {
                        let e = Move { from, to, promotion: None, kind: MoveKind::EnPassant };
                        assert forall|m: Move| #[trigger] caps.contains(m) <==> m == e by {
                            if m == e {
                                assert(caps[0] == m);
                            }
                        }
                    } else {
                        assert(caps.len() == 0);
                    }
                },
            }
        } else {
            assert(caps.len() == 0);
        }
    }
    let pl = pushes + left;
    lemma_concat_contains(pushes, left);
    lemma_concat_contains(pl, right);
    assert forall|m: Move| pushes.contains(m) implies !left.contains(m) by {}
    lemma_concat_no_dups(pushes, left);
    assert forall|m: Move| pl.contains(m) implies !right.contains(m) by {}
    lemma_concat_no_dups(pl, right);
    assert(pawn_list(b, from) == pl + right);
}

/// Pushes a pawn move, expanding it into four promotion moves
/// (queen/rook/bishop/knight) if it lands on the back rank.
fn push_pawn_move(moves: &mut Vec<Move>, from: Square, to: Square, promo_rank: u8)
    ensures
        final(moves)@ == old(moves)@ + promo_moves(from, to, promo_rank as int),
{
    if to.rank == promo_rank {
        moves.push(Move { from, to, promotion: Some(PieceKind::Queen), kind: MoveKind::Normal });
        moves.push(Move { from, to, promotion: Some(PieceKind::Rook), kind: MoveKind::Normal });
        moves.push(Move { from, to, promotion: Some(PieceKind::Bishop), kind: MoveKind::Normal });
        moves.push(Move { from, to, promotion: Some(PieceKind::Knight), kind: MoveKind::Normal });
    } else {
        moves.push(Move::new(from, to));
    }
    assert(final(moves)@ =~= old(moves)@ + promo_moves(from, to, promo_rank as int));
}

/// Pushes the moves of the pawn on `from`: single and double pushes,
/// diagonal captures, and en passant.
fn pawn_moves_from(board: &Board, from: Square, moves: &mut Vec<Move>)
    requires
        from.valid(),
    ensures
        final(moves)@ == old(moves)@ + pawn_list(*board, from),
{
    let color = board.side_to_move;
    let (dir, start_rank, promo_rank): (i32, u8, u8) = match color {
        Color::White => (1, 1, 7),
        Color::Black => (-1, 6, 0),
    };
    let ghost base = old(moves)@;
    let file = from.file;
    let rank = from.rank;
    let one_rank = rank as i32 + dir;
    if in_bounds(file as i32, one_rank) {
        let one_sq = Square::new(file, one_rank as u8);
        if board.get(one_sq).is_none() {
            push_pawn_move(moves, from, one_sq, promo_rank);
            if rank == start_rank {
                let two_sq = Square::new(file, (rank as i32 + dir * 2) as u8);
                if board.get(two_sq).is_none() {
                    moves.push(Move::new(from, two_sq));
                }
            }
        }
    }
    assert(moves@ =~= base + pawn_pushes(*board, from));
    let ghost after_pushes = moves@;
    let mut side: usize = 0;
    while side < 2
        invariant
            side <= 2,
            from.valid(),
            file == from.file,
            rank == from.rank,
            color == board.side_to_move,
            dir == pawn_dir(color),
            promo_rank == crate::movegen::promo_rank(color),
            one_rank == rank + dir,
            moves@ == after_pushes + if side == 0 {
                Seq::<Move>::empty()
            } else if side == 1 {
                pawn_captures(*board, from, -1)
            } else {
                pawn_captures(*board, from, -1) + pawn_captures(*board, from, 1)
            },
        decreases 2 - side,
    {
        let df: i32 = if side == 0 { -1 } else { 1 };
        let ghost before = moves@;
        let cf = file as i32 + df;
        if in_bounds(cf, one_rank) {
            let target = Square::new(cf as u8, one_rank as u8);
            match board.get(target) {
                Some(occupant) => {
                    if occupant.color != color {
                        push_pawn_move(moves, from, target, promo_rank);
                    }
                },
                None => {
                    if board.en_passant == Some(target) {
                        moves.push(Move { from, to: target, promotion: None, kind: MoveKind::EnPassant });
                    }
                },
            }
        }
        assert(moves@ =~= before + pawn_captures(*board, from, df as int));
        side += 1;
    }
    assert(moves@ =~= old(moves)@ + pawn_list(*board, from));
}


// ---------------------------------------------------------------------------
// All pseudo-legal moves
// ---------------------------------------------------------------------------

/// The moves of the piece on `from` if it is a `kind` of the side to move.
pub open spec fn square_list(b: Board, from: Square, kind: PieceKind) -> Seq<Move> {
    if b.on(from) == Some(Piece { kind, color: b.side_to_move }) {
        if kind == PieceKind::Pawn {
            pawn_list(b, from)
        } else if kind == PieceKind::Knight || kind == PieceKind::King {
            step_list(b, from, kind, 8)
        } else {
            slide_list(b, from, kind, dir_count(kind))
        }
    } else {
        Seq::empty()
    }
}

/// Every piece move starts on a square holding a piece of that kind of the
/// side to move.
pub proof fn lemma_piece_move_origin(b: Board, m: Move, kind: PieceKind)
    requires
        piece_move(b, m, kind),
    ensures
        m.valid(),
        b.on(m.from) == Some(Piece { kind, color: b.side_to_move }),
        m.kind == MoveKind::Normal || m.kind == MoveKind::EnPassant,
{
}

pub proof fn lemma_square_list(b: Board, from: Square, kind: PieceKind)
    requires
        from.valid(),
    ensures
        square_list(b, from, kind).no_duplicates(),
        forall|m: Move| #[trigger] square_list(b, from, kind).contains(m) <==> piece_move(b, m, kind) && m.from == from,
{
    let c = b.side_to_move;
    if b.on(from) == Some(Piece { kind, color: c }) {
        if kind == PieceKind::Pawn {
            lemma_pawn_list(b, from);
        } else if kind == PieceKind::Knight || kind == PieceKind::King {
            lemma_step_list(b, from, kind, 8);
            assert forall|m: Move| #[trigger] square_list(b, from, kind).contains(m) <==> piece_move(b, m, kind) && m.from == from by {
                if piece_move(b, m, kind) && m.from == from {
                    let k = choose|k: int| 0 <= k < 8 && #[trigger] step_target(m.from, kind, k) == (m.to.file as int, m.to.rank as int);
                    assert(step_target(from, kind, k) == to_coords(m));
                }
            }
        } else {
            lemma_slide_list(b, from, kind, dir_count(kind));
            assert forall|m: Move| #[trigger] square_list(b, from, kind).contains(m) <==> piece_move(b, m, kind) && m.from == from by {
                if square_list(b, from, kind).contains(m) {
                    let (j, n) = choose|j: int, n: int| 0 <= j < dir_count(kind) && #[trigger] ray_hit(b, from, slide_dir(kind, j), 1, n, m);
                    assert(slide_reach(b, m.from, slide_dir(kind, j), n, m.to));
                }
                if piece_move(b, m, kind) && m.from == from {
                    let (j, n) = choose|j: int, n: int| 0 <= j < dir_count(kind) && #[trigger] slide_reach(b, m.from, slide_dir(kind, j), n, m.to);
                    assert(ray_hit(b, from, slide_dir(kind, j), 1, n, m));
                }
            }
        }
    } else {
        assert forall|m: Move| !(piece_move(b, m, kind) && m.from == from) by {}
    }
}

/// Pushes the moves of every piece of `kind` belonging to the side to move.
/// The moves of the side to move's pieces of `kind` standing on square
/// indices `0..n`, square by square in index order.
pub open spec fn kind_list(b: Board, kind: PieceKind, n: int) -> Seq<Move>
    decreases n,
{
    if n <= 0 {
        Seq::empty()
    } else {
        kind_list(b, kind, n - 1) + square_list(b, Square::of_index(n - 1), kind)
    }
}

/// Every pseudo-legal move in the order they are generated: pawn moves,
/// then knight, king, bishop, rook and queen moves, each square by square
/// from a1 to h8, then castling (kingside first).
pub open spec fn move_order(b: Board) -> Seq<Move> {
    kind_list(b, PieceKind::Pawn, 64) + kind_list(b, PieceKind::Knight, 64) + kind_list(b, PieceKind::King, 64)
        + kind_list(b, PieceKind::Bishop, 64) + kind_list(b, PieceKind::Rook, 64) + kind_list(b, PieceKind::Queen, 64)
        + castle_list(b)
}

fn piece_moves(board: &Board, moves: &mut Vec<Move>, kind: PieceKind)
    requires
        old(moves)@.no_duplicates(),
        forall|i: int| 0 <= i < old(moves)@.len() ==> !piece_move(*board, #[trigger] old(moves)@[i], kind),
    ensures
        final(moves)@.no_duplicates(),
        forall|m: Move| #[trigger] final(moves)@.contains(m) <==> old(moves)@.contains(m) || piece_move(*board, m, kind),
        final(moves)@ == old(moves)@ + kind_list(*board, kind, 64),
{
    let color = board.side_to_move;
    let mut rank: u8 = 0;
    assert(old(moves)@ + kind_list(*board, kind, 0) =~= old(moves)@);
    while rank < 8
        invariant
            rank <= 8,
            color == board.side_to_move,
            moves@ == old(moves)@ + kind_list(*board, kind, rank * 8),
            moves@.no_duplicates(),
            forall|m: Move| #[trigger] moves@.contains(m) <==> old(moves)@.contains(m) || (piece_move(*board, m, kind)
                && m.from.idx() < rank * 8),
            forall|i: int| 0 <= i < old(moves)@.len() ==> !piece_move(*board, #[trigger] old(moves)@[i], kind),
        decreases 8 - rank,
    {
        let mut file: u8 = 0;
        while file < 8
            invariant
                rank < 8,
                file <= 8,
                color == board.side_to_move,
                moves@ == old(moves)@ + kind_list(*board, kind, rank * 8 + file),
                moves@.no_duplicates(),
                forall|m: Move| #[trigger] moves@.contains(m) <==> old(moves)@.contains(m) || (piece_move(*board, m, kind)
                    && m.from.idx() < rank * 8 + file),
                forall|i: int| 0 <= i < old(moves)@.len() ==> !piece_move(*board, #[trigger] old(moves)@[i], kind),
            decreases 8 - file,
        {
            let from = Square::new(file, rank);
            let ghost before = moves@;
            let ghost list = square_list(*board, from, kind);
            proof { lemma_square_list(*board, from, kind); }
            match board.get(from) {
                Some(piece) => {
                    if piece.color == color && piece.kind == kind {
                        if kind == PieceKind::Pawn {
                            pawn_moves_from(board, from, moves);
                        } else if kind == PieceKind::Knight || kind == PieceKind::King {
                            step_moves_from(board, from, kind, moves);
                        } else {
                            sliding_moves_from(board, from, kind, moves);
                        }
                    }
                },
                None => {},
            }
            assert(moves@ == before + list);
            proof {
                assert(Square::of_index(rank * 8 + file) == from);
                assert(moves@ =~= old(moves)@ + kind_list(*board, kind, rank * 8 + file + 1));
                lemma_concat_contains(before, list);
                assert forall|m: Move| before.contains(m) implies !list.contains(m) by {
                    if list.contains(m) {
                        if old(moves)@.contains(m) {
                            let i = choose|i: int| 0 <= i < old(moves)@.len() && old(moves)@[i] == m;
                            assert(!piece_move(*board, old(moves)@[i], kind));
                        }
                    }
                }
                lemma_concat_no_dups(before, list);
                assert forall|m: Move| #[trigger] moves@.contains(m) <==> old(moves)@.contains(m) || (piece_move(*board, m, kind)
                    && m.from.idx() < rank * 8 + file + 1) by {
                    if piece_move(*board, m, kind) {
                        lemma_piece_move_origin(*board, m, kind);
                        if m.from.idx() == rank * 8 + file {
                            assert(m.from == from);
                        }
                    }
                }
            }
            file += 1;
        }
        rank += 1;
    }
}

/// The castling moves available to the side to move, kingside first.
pub open spec fn castle_list(b: Board) -> Seq<Move> {
    let c = b.side_to_move;
    let e = c.flip();
    let r = home_rank(c);
    let ks = b.castling.kingside(c);
    let qs = b.castling.queenside(c);
    if (!ks && !qs) || attacked(b, 4, r, e) {
        Seq::empty()
    } else {
        (if ks && occupant(b, 5, r).is_none() && occupant(b, 6, r).is_none() && !attacked(b, 5, r, e) && !attacked(
            b,
            6,
            r,
            e,
        ) {
            seq![Move { from: crate::board::sq(4, r), to: crate::board::sq(6, r), promotion: None, kind: MoveKind::CastleKingside }]
        } else {
            Seq::empty()
        }) + (if qs && occupant(b, 3, r).is_none() && occupant(b, 2, r).is_none() && occupant(b, 1, r).is_none()
            && !attacked(b, 3, r, e) && !attacked(b, 2, r, e) {
            seq![Move { from: crate::board::sq(4, r), to: crate::board::sq(2, r), promotion: None, kind: MoveKind::CastleQueenside }]
        } else {
            Seq::empty()
        })
    }
}

pub proof fn lemma_castle_list(b: Board)
    ensures
        castle_list(b).no_duplicates(),
        forall|m: Move| #[trigger] castle_list(b).contains(m) <==> castle_move(b, m),
{
    let l = castle_list(b);
    assert forall|m: Move| #[trigger] l.contains(m) <==> castle_move(b, m) by {
        if l.contains(m) {
            let i = choose|i: int| 0 <= i < l.len() && l[i] == m;
        }
        if castle_move(b, m) {
            if m.kind == MoveKind::CastleKingside {
                assert(l[0] == m);
            } else {
                assert(l[l.len() - 1] == m);
            }
        }
    }
    assert(l.no_duplicates()) by {
        if l.len() == 2 {
            assert(l[0].kind != l[1].kind);
        }
    }
}

/// Generates castling moves for the side to move, applying the standard
/// rules beyond "the right hasn't been lost": the king isn't currently in
/// check, the squares it passes through and lands on aren't attacked, and
/// the squares between king and rook are empty.
fn castling_moves(board: &Board, moves: &mut Vec<Move>)
    ensures
        final(moves)@ == old(moves)@ + castle_list(*board),
{
    let color = board.side_to_move;
    let rank: u8 = match color {
        Color::White => 0,
        Color::Black => 7,
    };
    let (kingside_right, queenside_right) = match color {
        Color::White => (board.castling.white_kingside, board.castling.white_queenside),
        Color::Black => (board.castling.black_kingside, board.castling.black_queenside),
    };
    if !kingside_right && !queenside_right {
        assert(castle_list(*board) =~= Seq::<Move>::empty());
        assert(moves@ =~= old(moves)@ + castle_list(*board));
        return;
    }
    let enemy = color.opposite();
    let king_sq = Square::new(4, rank);
    if is_square_attacked(board, king_sq, enemy) {
        assert(castle_list(*board) =~= Seq::<Move>::empty());
        assert(moves@ =~= old(moves)@ + castle_list(*board));
        return;
    }
    let ghost base = moves@;
    if kingside_right {
        let f_sq = Square::new(5, rank);
        let g_sq = Square::new(6, rank);
        if board.get(f_sq).is_none() && board.get(g_sq).is_none() && !is_square_attacked(board, f_sq, enemy)
            && !is_square_attacked(board, g_sq, enemy) {
            let mut mv = Move::new(king_sq, g_sq);
            mv.kind = MoveKind::CastleKingside;
            moves.push(mv);
        }
    }
    let ghost mid = moves@;
    if queenside_right {
        let d_sq = Square::new(3, rank);
        let c_sq = Square::new(2, rank);
        let b_sq = Square::new(1, rank);
        if board.get(d_sq).is_none() && board.get(c_sq).is_none() && board.get(b_sq).is_none()
            && !is_square_attacked(board, d_sq, enemy) && !is_square_attacked(board, c_sq, enemy) {
            let mut mv = Move::new(king_sq, c_sq);
            mv.kind = MoveKind::CastleQueenside;
            moves.push(mv);
        }
    }
    assert(moves@ =~= old(moves)@ + castle_list(*board));
}

/// Generates pseudo-legal moves for the side to move: legal piece movement
/// and capture rules, but without filtering out moves that leave the
/// mover's own king in check. `legal_moves` does that filtering.
pub fn pseudo_legal_moves(board: &Board) -> (moves: Vec<Move>)
    ensures
        moves@ == move_order(*board),
        moves@.no_duplicates(),
        forall|m: Move| #[trigger] moves@.contains(m) <==> pseudo_legal(*board, m),
{
    let mut moves: Vec<Move> = Vec::new();
    let ghost b = *board;
    piece_moves(board, &mut moves, PieceKind::Pawn);
    assert forall|i: int| 0 <= i < moves@.len() implies !piece_move(b, #[trigger] moves@[i], PieceKind::Knight) by {
        assert(moves@.contains(moves@[i]));
    }
    piece_moves(board, &mut moves, PieceKind::Knight);
    assert forall|i: int| 0 <= i < moves@.len() implies !piece_move(b, #[trigger] moves@[i], PieceKind::King) by {
        assert(moves@.contains(moves@[i]));
    }
    piece_moves(board, &mut moves, PieceKind::King);
    assert forall|i: int| 0 <= i < moves@.len() implies !piece_move(b, #[trigger] moves@[i], PieceKind::Bishop) by {
        assert(moves@.contains(moves@[i]));
    }
    piece_moves(board, &mut moves, PieceKind::Bishop);
    assert forall|i: int| 0 <= i < moves@.len() implies !piece_move(b, #[trigger] moves@[i], PieceKind::Rook) by {
        assert(moves@.contains(moves@[i]));
    }
    piece_moves(board, &mut moves, PieceKind::Rook);
    assert forall|i: int| 0 <= i < moves@.len() implies !piece_move(b, #[trigger] moves@[i], PieceKind::Queen) by {
        assert(moves@.contains(moves@[i]));
    }
    piece_moves(board, &mut moves, PieceKind::Queen);
    let ghost before = moves@;
    castling_moves(board, &mut moves);
    proof {
        lemma_castle_list(b);
        lemma_concat_contains(before, castle_list(b));
        assert forall|m: Move| before.contains(m) implies !castle_list(b).contains(m) by {}
        lemma_concat_no_dups(before, castle_list(b));
        assert(moves@ =~= move_order(b));
    }
    moves
}


// ---------------------------------------------------------------------------
// Check and legal moves
// ---------------------------------------------------------------------------

/// The king of color `c`.
pub open spec fn king_of(c: Color) -> Option<Piece> {
    Some(Piece { kind: PieceKind::King, color: c })
}

/// Some square holds the king of `c`.
pub open spec fn has_king(b: Board, c: Color) -> bool {
    exists|i: int| 0 <= i < 64 && #[trigger] b.at(i) == king_of(c)
}

/// Square index `i` holds the king of `c`, and no earlier square does.
pub open spec fn first_king(b: Board, c: Color, i: int) -> bool {
    &&& 0 <= i < 64
    &&& b.at(i) == king_of(c)
    &&& forall|j: int| 0 <= j < i ==> #[trigger] b.at(j) != king_of(c)
}

/// The king of `c` (the first one in board order) is attacked.
pub open spec fn in_check(b: Board, c: Color) -> bool {
    exists|i: int| #[trigger] first_king(b, c, i) && attacked(b, i % 8, i / 8, c.flip())
}

/// A pseudo-legal move that does not leave the mover's own king attacked.
pub open spec fn legal(b: Board, m: Move) -> bool {
    pseudo_legal(b, m) && !in_check(b.after_move(m), b.side_to_move)
}

/// What filtering the pseudo-legal moves needs: each one can be played,
/// and leaves the mover with a king.
pub open spec fn moves_playable(b: Board) -> bool {
    forall|m: Move| #[trigger] pseudo_legal(b, m) ==> b.move_ok(m) && has_king(b.after_move(m), b.side_to_move)
}

/// The first square in board order holding the king of `color`.
fn find_king(board: &Board, color: Color) -> (sq: Square)
    requires
        has_king(*board, color),
    ensures
        sq.valid(),
        first_king(*board, color, sq.idx()),
{
    let mut rank: u8 = 0;
    while rank < 8
        invariant
            rank <= 8,
            has_king(*board, color),
            forall|j: int| 0 <= j < rank * 8 ==> #[trigger] board.at(j) != king_of(color),
        decreases 8 - rank,
    {
        let mut file: u8 = 0;
        while file < 8
            invariant
                rank < 8,
                file <= 8,
                forall|j: int| 0 <= j < rank * 8 + file ==> #[trigger] board.at(j) != king_of(color),
            decreases 8 - file,
        {
            let sq = Square::new(file, rank);
            if let Some(p) = board.get(sq) {
                if p.color == color && p.kind == PieceKind::King {
                    return sq;
                }
            }
            file += 1;
        }
        rank += 1;
    }
    proof {
        let i = choose|i: int| 0 <= i < 64 && #[trigger] board.at(i) == king_of(color);
    }
    Square::new(0, 0)  // unreachable: the loops find the king that `has_king` promises
}

/// Whether the king of `color` (the first one in board order) is attacked.
pub(crate) fn king_attacked(board: &Board, color: Color) -> (res: bool)
    requires
        has_king(*board, color),
    ensures
        res == in_check(*board, color),
{
    let k = find_king(board, color);
    let res = is_square_attacked(board, k, color.opposite());
    proof {
        let i = k.idx();
        assert(i % 8 == k.file && i / 8 == k.rank);
        assert forall|i2: int| #[trigger] first_king(*board, color, i2) implies i2 == i by {
            if i2 < i {
                assert(board.at(i2) != king_of(color));
            } else if i2 > i {
                assert(board.at(i) != king_of(color));
            }
        }
    }
    res
}

/// Returns whether the side to move's king is currently attacked.
pub fn is_in_check(board: &Board) -> (res: bool)
    requires
        has_king(*board, board.side_to_move),
    ensures
        res == in_check(*board, board.side_to_move),
{
    king_attacked(board, board.side_to_move)
}

/// Generates fully legal moves for the side to move: pseudo-legal moves
/// filtered to exclude any that leave the mover's own king in check.
pub fn legal_moves(board: &Board) -> (moves: Vec<Move>)
    requires
        moves_playable(*board),
    ensures
        moves@ == move_order(*board).filter(legal_in(*board)),
        moves@.no_duplicates(),
        forall|m: Move| #[trigger] moves@.contains(m) <==> legal(*board, m),
{
    let color = board.side_to_move;
    let pseudo = pseudo_legal_moves(board);
    let mut moves: Vec<Move> = Vec::new();
    let mut i: usize = 0;
    assert(pseudo@.take(0) =~= Seq::<Move>::empty());
    while i < pseudo.len()
        invariant
            i <= pseudo@.len(),
            color == board.side_to_move,
            moves@ == pseudo@.take(i as int).filter(legal_in(*board)),
            moves_playable(*board),
            pseudo@.no_duplicates(),
            forall|m: Move| #[trigger] pseudo@.contains(m) <==> pseudo_legal(*board, m),
            moves@.no_duplicates(),
            forall|m: Move| #[trigger] moves@.contains(m) <==> (legal(*board, m) && exists|j: int| 0 <= j < i && pseudo@[j] == m),
        decreases pseudo@.len() - i,
    {
        let mv = pseudo[i];
        assert(pseudo@.contains(mv));
        let next = board.make_move(mv);
        let ghost before = moves@;
        proof {
            assert(pseudo@.take(i as int + 1) == pseudo@.take(i as int).push(mv));
            pseudo@.take(i as int).lemma_filter_push(mv, legal_in(*board));
        }
        if !king_attacked(&next, color) {
            proof {
                if before.contains(mv) {
                    let j = choose|j: int| 0 <= j < i && pseudo@[j] == mv;
                    assert(pseudo@[j] == pseudo@[i as int]);
                }
            }
            moves.push(mv);
            proof {
                assert forall|a: int, c: int| 0 <= a < moves@.len() && 0 <= c < moves@.len() && a != c implies moves@[a] != moves@[c] by {
                    if a == before.len() {
                        assert(before.contains(moves@[c]));
                    } else if c == before.len() {
                        assert(before.contains(moves@[a]));
                    } else {
                        assert(moves@[a] == before[a] && moves@[c] == before[c]);
                    }
                }
            }
        }
        proof {
            assert forall|m: Move| #[trigger] moves@.contains(m) <==> (legal(*board, m) && exists|j: int| 0 <= j < i + 1 && pseudo@[j] == m) by {
                if moves@.contains(m) {
                    let a = choose|a: int| 0 <= a < moves@.len() && moves@[a] == m;
                    if a < before.len() {
                        assert(before[a] == m);
                        assert(before.contains(m));
                    }
                }
                if legal(*board, m) && exists|j: int| 0 <= j < i + 1 && pseudo@[j] == m {
                    let j = choose|j: int| 0 <= j < i + 1 && pseudo@[j] == m;
                    if j < i {
                        assert(before.contains(m));
                        let a = choose|a: int| 0 <= a < before.len() && before[a] == m;
                        assert(moves@[a] == m);
                    } else {
                        assert(moves@[moves@.len() - 1] == m);
                    }
                }
            }
        }
        i += 1;
    }
    proof {
        assert forall|m: Move| #[trigger] moves@.contains(m) <==> legal(*board, m) by {
            if legal(*board, m) {
                assert(pseudo@.contains(m));
                let j = choose|j: int| 0 <= j < pseudo@.len() && pseudo@[j] == m;
            }
        }
        assert(pseudo@.take(pseudo@.len() as int) == pseudo@);
    }
    moves
}

/// The legal moves of `b`, as a predicate.
pub open spec fn legal_in(b: Board) -> spec_fn(Move) -> bool {
    |m: Move| legal(b, m)
}


// ---------------------------------------------------------------------------
// Finding a move by name
// ---------------------------------------------------------------------------

/// The legal move whose coordinate notation (as `Move::to_uci` writes it,
/// e.g. `e2e4` or `e7e8q`) is `uci`, if there is one.
pub fn find_uci_move(board: &Board, uci: &str) -> (r: Option<Move>)
    requires
        moves_playable(*board),
    ensures
        match r {
            Some(m) => legal(*board, m) && uci_name(m) == uci@,
            None => forall|m: Move| #[trigger] legal(*board, m) ==> uci_name(m) != uci@,
        },
{
    let target = chars_of(uci);
    let moves = legal_moves(board);
    let mut i: usize = 0;
    while i < moves.len()
        invariant
            i <= moves@.len(),
            target@ == uci@,
            forall|m: Move| #[trigger] moves@.contains(m) <==> legal(*board, m),
            forall|k: int| 0 <= k < i ==> uci_name(#[trigger] moves@[k]) != uci@,
        decreases moves@.len() - i,
    {
        let mv = moves[i];
        assert(moves@.contains(mv));
        let name = mv.to_uci();
        let name_chars = chars_of(name.as_str());
        if same_text(&name_chars, &target) {
            return Some(mv);
        }
        i += 1;
    }
    proof {
        assert forall|m: Move| #[trigger] legal(*board, m) implies uci_name(m) != uci@ by {
            assert(moves@.contains(m));
            let k = choose|k: int| 0 <= k < moves@.len() && moves@[k] == m;
        }
    }
    None
}

// ---------------------------------------------------------------------------
// Counting move sequences
// ---------------------------------------------------------------------------

/// The number of sequences of `depth` legal moves from `b` (1 at depth 0).
pub open spec fn perft_count(b: Board, depth: nat) -> nat
    decreases depth, move_space() + 1,
{
    if depth == 0 {
        1
    } else {
        perft_sum(b, depth, move_space() as int)
    }
}

/// The move sequences of `perft_count` that start with a legal move
/// numbered `0..k`.
pub open spec fn perft_sum(b: Board, depth: nat, k: int) -> nat
    decreases depth, k,
{
    if depth == 0 || k <= 0 {
        0
    } else {
        perft_sum(b, depth, k - 1) + if legal(b, candidate(k - 1)) {
            perft_count(b.after_move(candidate(k - 1)), (depth - 1) as nat)
        } else {
            0
        }
    }
}

/// The sequences below each child, as a function of the move played.
pub open spec fn child_counts(b: Board, depth: nat) -> spec_fn(Move) -> nat {
    |m: Move| perft_count(b.after_move(m), (depth - 1) as nat)
}

proof fn lemma_perft_sum_codes(b: Board, depth: nat, k: int)
    requires
        depth > 0,
    ensures
        perft_sum(b, depth, k) == code_sum(|m: Move| legal(b, m), child_counts(b, depth), k),
    decreases k,
{
    if k > 0 {
        lemma_perft_sum_codes(b, depth, k - 1);
    }
}

/// The number a count saturates to in a `u64`.
pub open spec fn saturated(n: nat) -> nat {
    if n > u64::MAX { u64::MAX as nat } else { n }
}

/// Every position `depth` legal moves deep or less below `b` can have its
/// moves generated: each pseudo-legal move can be played and leaves the
/// mover with a king.
pub open spec fn perft_safe(b: Board, depth: nat) -> bool
    decreases depth,
{
    depth == 0 || (moves_playable(b) && forall|m: Move| #[trigger] legal(b, m)
        ==> perft_safe(b.after_move(m), (depth - 1) as nat))
}

/// A sound position with room in its move counters for `depth` plies can
/// be counted that deep.
pub proof fn lemma_sound_perft_safe(b: Board, depth: nat)
    requires
        sound(b),
        b.halfmove_clock + depth < u32::MAX,
        b.fullmove_number + depth < u32::MAX,
    ensures
        perft_safe(b, depth),
    decreases depth,
{
    if depth > 0 {
        lemma_playable_moves(b);
        assert forall|m: Move| #[trigger] legal(b, m) implies perft_safe(b.after_move(m), (depth - 1) as nat) by {
            lemma_legal_move_keeps_sound(b, m);
            lemma_sound_perft_safe(b.after_move(m), (depth - 1) as nat);
        }
    }
}

/// Whether `perft` can count `depth` plies from `board`.
pub fn can_perft(board: &Board, depth: u32) -> (r: bool)
    ensures
        r == perft_safe(*board, depth as nat),
    decreases depth,
{
    if depth == 0 {
        return true;
    }
    let ghost b = *board;
    if !crate::position::can_play_moves(board) {
        return false;
    }
    let moves = legal_moves(board);
    let mut i: usize = 0;
    while i < moves.len()
        invariant
            i <= moves@.len(),
            b == *board,
            depth > 0,
            moves_playable(b),
            forall|m: Move| #[trigger] moves@.contains(m) <==> legal(b, m),
            forall|j: int| 0 <= j < i ==> perft_safe(b.after_move(#[trigger] moves@[j]), (depth - 1) as nat),
        decreases moves@.len() - i,
    {
        let mv = moves[i];
        assert(moves@.contains(mv));
        let next = board.make_move(mv);
        if !can_perft(&next, depth - 1) {
            return false;
        }
        i += 1;
    }
    assert forall|m: Move| #[trigger] legal(b, m) implies perft_safe(b.after_move(m), (depth - 1) as nat) by {
        assert(moves@.contains(m));
        let j = choose|j: int| 0 <= j < moves@.len() && moves@[j] == m;
    }
    true
}

/// Counts the sequences of `depth` legal moves from `board` (perft), as
/// used to validate move generation against published counts; a count past
/// `u64::MAX` saturates.
pub fn perft(board: &Board, depth: u32) -> (n: u64)
    requires
        perft_safe(*board, depth as nat),
    ensures
        n == saturated(perft_count(*board, depth as nat)),
    decreases depth,
{
    if depth == 0 {
        return 1;
    }
    let ghost b = *board;
    let ghost f = child_counts(b, depth as nat);
    let moves = legal_moves(board);
    let mut total: u64 = 0;
    let mut i: usize = 0;
    while i < moves.len()
        invariant
            i <= moves@.len(),
            b == *board,
            depth > 0,
            perft_safe(b, depth as nat),
            f == child_counts(b, depth as nat),
            forall|m: Move| #[trigger] moves@.contains(m) <==> legal(b, m),
            total == saturated(seq_sum(moves@.take(i as int), f)),
        decreases moves@.len() - i,
    {
        let mv = moves[i];
        assert(moves@.contains(mv));
        let next = board.make_move(mv);
        let c = perft(&next, depth - 1);
        assert(moves@.take(i as int + 1).drop_last() == moves@.take(i as int));
        assert(moves@.take(i as int + 1).last() == mv);
        total = if total > u64::MAX - c { u64::MAX } else { total + c };
        i += 1;
    }
    proof {
        assert(moves@.take(moves@.len() as int) == moves@);
        lemma_seq_sum_codes(moves@, |m: Move| legal(b, m), f);
        lemma_perft_sum_codes(b, depth as nat, move_space() as int);
    }
    total
}

} // verus!
