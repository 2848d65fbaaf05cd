use vstd::prelude::*;
use crate::board::{Board, Piece};
use crate::eval::{grid_total, signed, lemma_grid_total_bound};
use crate::square::Square;
use crate::types::{Color, PieceKind};

verus! {

// Piece-square tables (Tomasz Michniewski's widely used "simplified
// evaluation function" values, in centipawns), each written as commonly
// published: row 0 is rank 8 (a8..h8), row 7 is rank 1 (a1..h1). They
// reward pieces for standing on squares that are typically good for them
// — knights toward the center, a king tucked in a corner behind pawns —
// on top of the flat material count.

/// The pawn table, row 0 being rank 8.
pub open spec fn pawn_table() -> Seq<i32> {
    seq![
        0i32, 0i32, 0i32, 0i32, 0i32, 0i32, 0i32, 0i32,
        50i32, 50i32, 50i32, 50i32, 50i32, 50i32, 50i32, 50i32,
        10i32, 10i32, 20i32, 30i32, 30i32, 20i32, 10i32, 10i32,
        5i32, 5i32, 10i32, 25i32, 25i32, 10i32, 5i32, 5i32,
        0i32, 0i32, 0i32, 20i32, 20i32, 0i32, 0i32, 0i32,
        5i32, -5i32, -10i32, 0i32, 0i32, -10i32, -5i32, 5i32,
        5i32, 10i32, 10i32, -20i32, -20i32, 10i32, 10i32, 5i32,
        0i32, 0i32, 0i32, 0i32, 0i32, 0i32, 0i32, 0i32,
    ]
}

/// The knight table, row 0 being rank 8.
pub open spec fn knight_table() -> Seq<i32> {
    seq![
        -50i32, -40i32, -30i32, -30i32, -30i32, -30i32, -40i32, -50i32,
        -40i32, -20i32, 0i32, 0i32, 0i32, 0i32, -20i32, -40i32,
        -30i32, 0i32, 10i32, 15i32, 15i32, 10i32, 0i32, -30i32,
        -30i32, 5i32, 15i32, 20i32, 20i32, 15i32, 5i32, -30i32,
        -30i32, 0i32, 15i32, 20i32, 20i32, 15i32, 0i32, -30i32,
        -30i32, 5i32, 10i32, 15i32, 15i32, 10i32, 5i32, -30i32,
        -40i32, -20i32, 0i32, 5i32, 5i32, 0i32, -20i32, -40i32,
        -50i32, -40i32, -30i32, -30i32, -30i32, -30i32, -40i32, -50i32,
    ]
}

/// The bishop table, row 0 being rank 8.
pub open spec fn bishop_table() -> Seq<i32> {
    seq![
        -20i32, -10i32, -10i32, -10i32, -10i32, -10i32, -10i32, -20i32,
        -10i32, 0i32, 0i32, 0i32, 0i32, 0i32, 0i32, -10i32,
        -10i32, 0i32, 5i32, 10i32, 10i32, 5i32, 0i32, -10i32,
        -10i32, 5i32, 5i32, 10i32, 10i32, 5i32, 5i32, -10i32,
        -10i32, 0i32, 10i32, 10i32, 10i32, 10i32, 0i32, -10i32,
        -10i32, 10i32, 10i32, 10i32, 10i32, 10i32, 10i32, -10i32,
        -10i32, 5i32, 0i32, 0i32, 0i32, 0i32, 5i32, -10i32,
        -20i32, -10i32, -10i32, -10i32, -10i32, -10i32, -10i32, -20i32,
    ]
}

/// The rook table, row 0 being rank 8.
pub open spec fn rook_table() -> Seq<i32> {
    seq![
        0i32, 0i32, 0i32, 0i32, 0i32, 0i32, 0i32, 0i32,
        5i32, 10i32, 10i32, 10i32, 10i32, 10i32, 10i32, 5i32,
        -5i32, 0i32, 0i32, 0i32, 0i32, 0i32, 0i32, -5i32,
        -5i32, 0i32, 0i32, 0i32, 0i32, 0i32, 0i32, -5i32,
        -5i32, 0i32, 0i32, 0i32, 0i32, 0i32, 0i32, -5i32,
        -5i32, 0i32, 0i32, 0i32, 0i32, 0i32, 0i32, -5i32,
        -5i32, 0i32, 0i32, 0i32, 0i32, 0i32, 0i32, -5i32,
        0i32, 0i32, 0i32, 5i32, 5i32, 0i32, 0i32, 0i32,
    ]
}

/// The queen table, row 0 being rank 8.
pub open spec fn queen_table() -> Seq<i32> {
    seq![
        -20i32, -10i32, -10i32, -5i32, -5i32, -10i32, -10i32, -20i32,
        -10i32, 0i32, 0i32, 0i32, 0i32, 0i32, 0i32, -10i32,
        -10i32, 0i32, 5i32, 5i32, 5i32, 5i32, 0i32, -10i32,
        -5i32, 0i32, 5i32, 5i32, 5i32, 5i32, 0i32, -5i32,
        0i32, 0i32, 5i32, 5i32, 5i32, 5i32, 0i32, -5i32,
        -10i32, 5i32, 5i32, 5i32, 5i32, 5i32, 0i32, -10i32,
        -10i32, 0i32, 5i32, 0i32, 0i32, 0i32, 0i32, -10i32,
        -20i32, -10i32, -10i32, -5i32, -5i32, -10i32, -10i32, -20i32,
    ]
}

/// The king table, row 0 being rank 8.
pub open spec fn king_table() -> Seq<i32> {
    seq![
        -30i32, -40i32, -40i32, -50i32, -50i32, -40i32, -40i32, -30i32,
        -30i32, -40i32, -40i32, -50i32, -50i32, -40i32, -40i32, -30i32,
        -30i32, -40i32, -40i32, -50i32, -50i32, -40i32, -40i32, -30i32,
        -30i32, -40i32, -40i32, -50i32, -50i32, -40i32, -40i32, -30i32,
        -20i32, -30i32, -30i32, -40i32, -40i32, -30i32, -30i32, -20i32,
        -10i32, -20i32, -20i32, -20i32, -20i32, -20i32, -20i32, -10i32,
        20i32, 20i32, 0i32, 0i32, 0i32, 0i32, 20i32, 20i32,
        20i32, 30i32, 10i32, 0i32, 0i32, 10i32, 30i32, 20i32,
    ]
}

/// The table for a piece kind.
pub open spec fn pst_table(kind: PieceKind) -> Seq<i32> {
    match kind {
        PieceKind::Pawn => pawn_table(),
        PieceKind::Knight => knight_table(),
        PieceKind::Bishop => bishop_table(),
        PieceKind::Rook => rook_table(),
        PieceKind::Queen => queen_table(),
        PieceKind::King => king_table(),
    }
}

/// The table row read for `rank`: White reads the table top-down as
/// published, Black bottom-up, which mirrors it vertically.
pub open spec fn table_row(rank: int, color: Color) -> int {
    match color {
        Color::White => 7 - rank,
        Color::Black => rank,
    }
}

/// The table bonus of a piece of `kind` and `color` on (`file`, `rank`).
pub open spec fn bonus(kind: PieceKind, color: Color, file: int, rank: int) -> int {
    pst_table(kind)[table_row(rank, color) * 8 + file] as int
}

/// The piece-square bonus on (`file`, `rank`), positive for White.
pub open spec fn pst_term(b: Board) -> spec_fn(int, int) -> int {
    |f: int, r: int|
        match b.at(r * 8 + f) {
            Some(p) => signed(p, bonus(p.kind, p.color, f, r)),
            None => 0,
        }
}

/// Piece-square-table evaluation from White's perspective.
pub open spec fn pst_total(b: Board) -> int {
    grid_total(pst_term(b), 8)
}

/// Putting a piece on an empty square moves the table total by the entry
/// of that square in the piece's table, toward the piece's side. The
/// tables are written rank 8 first, so a White piece on rank `r` reads
/// row `7 - r` and a Black piece, seeing the board from the other side,
/// row `r`.
pub proof fn lemma_pst_of_added_piece(b: Board, i: int, p: Piece)
    requires
        0 <= i < 64,
        b.at(i) is None,
    ensures
        ({
            let entry = pst_table(p.kind)[(if p.color == Color::White { 7 - i / 8 } else { i / 8 }) * 8 + i % 8] as int;
            pst_total(b.with_cell(i, Some(p))) == pst_total(b) + if p.color == Color::White { entry } else { -entry }
        }),
{
    let b2 = b.with_cell(i, Some(p));
    let f0 = i % 8;
    let r0 = i / 8;
    assert forall|f: int, r: int| 0 <= f < 8 && 0 <= r < 8 && !(f == f0 && r == r0)
        implies #[trigger] pst_term(b2)(f, r) == pst_term(b)(f, r) by {
        assert(r * 8 + f != i);
        assert(b2.at(r * 8 + f) == b.at(r * 8 + f));
    }
    crate::eval::lemma_grid_total_update(pst_term(b), pst_term(b2), 8, f0, r0);
    assert(r0 * 8 + f0 == i);
    assert(b2.at(i) == Some(p));
}

/// A pawn one step from promotion is worth more on the table than one on
/// its starting rank, on every file and for either color; and a king on
/// its own back rank is worth more than one in the middle of the board.
pub proof fn lemma_tables_reward_progress_and_shelter(f: int)
    requires
        0 <= f < 8,
    ensures
        bonus(PieceKind::Pawn, Color::White, f, 6) > bonus(PieceKind::Pawn, Color::White, f, 1),
        bonus(PieceKind::Pawn, Color::Black, f, 1) > bonus(PieceKind::Pawn, Color::Black, f, 6),
        bonus(PieceKind::King, Color::White, f, 0) > bonus(PieceKind::King, Color::White, f, 3),
        bonus(PieceKind::King, Color::Black, f, 7) > bonus(PieceKind::King, Color::Black, f, 4),
{
}

/// Every table entry lies within 50 centipawns of zero.
pub proof fn lemma_tables_bounded(kind: PieceKind)
    ensures
        pst_table(kind).len() == 64,
        forall|i: int| 0 <= i < 64 ==> -50 <= #[trigger] pst_table(kind)[i] <= 50,
{
}

pub proof fn lemma_pst_bound(b: Board)
    ensures
        -3200 <= pst_total(b) <= 3200,
{
    assert forall|f: int, r: int| 0 <= f < 8 && 0 <= r < 8 implies -50 <= #[trigger] pst_term(b)(f, r) <= 50 by {
        match b.at(r * 8 + f) {
            Some(p) => {
                lemma_tables_bounded(p.kind);
                assert(0 <= table_row(r, p.color) * 8 + f < 64);
            },
            None => {},
        }
    }
    lemma_grid_total_bound(pst_term(b), 8, 50);
}

fn table_for(kind: PieceKind) -> (t: [i32; 64])
    ensures
        t@ == pst_table(kind),
{
    let t: [i32; 64] = match kind {
        PieceKind::Pawn => [
            0, 0, 0, 0, 0, 0, 0, 0,
            50, 50, 50, 50, 50, 50, 50, 50,
            10, 10, 20, 30, 30, 20, 10, 10,
            5, 5, 10, 25, 25, 10, 5, 5,
            0, 0, 0, 20, 20, 0, 0, 0,
            5, -5, -10, 0, 0, -10, -5, 5,
            5, 10, 10, -20, -20, 10, 10, 5,
            0, 0, 0, 0, 0, 0, 0, 0,
        ],
        PieceKind::Knight => [
            -50, -40, -30, -30, -30, -30, -40, -50,
            -40, -20, 0, 0, 0, 0, -20, -40,
            -30, 0, 10, 15, 15, 10, 0, -30,
            -30, 5, 15, 20, 20, 15, 5, -30,
            -30, 0, 15, 20, 20, 15, 0, -30,
            -30, 5, 10, 15, 15, 10, 5, -30,
            -40, -20, 0, 5, 5, 0, -20, -40,
            -50, -40, -30, -30, -30, -30, -40, -50,
        ],
        PieceKind::Bishop => [
            -20, -10, -10, -10, -10, -10, -10, -20,
            -10, 0, 0, 0, 0, 0, 0, -10,
            -10, 0, 5, 10, 10, 5, 0, -10,
            -10, 5, 5, 10, 10, 5, 5, -10,
            -10, 0, 10, 10, 10, 10, 0, -10,
            -10, 10, 10, 10, 10, 10, 10, -10,
            -10, 5, 0, 0, 0, 0, 5, -10,
            -20, -10, -10, -10, -10, -10, -10, -20,
        ],
        PieceKind::Rook => [
            0, 0, 0, 0, 0, 0, 0, 0,
            5, 10, 10, 10, 10, 10, 10, 5,
            -5, 0, 0, 0, 0, 0, 0, -5,
            -5, 0, 0, 0, 0, 0, 0, -5,
            -5, 0, 0, 0, 0, 0, 0, -5,
            -5, 0, 0, 0, 0, 0, 0, -5,
            -5, 0, 0, 0, 0, 0, 0, -5,
            0, 0, 0, 5, 5, 0, 0, 0,
        ],
        PieceKind::Queen => [
            -20, -10, -10, -5, -5, -10, -10, -20,
            -10, 0, 0, 0, 0, 0, 0, -10,
            -10, 0, 5, 5, 5, 5, 0, -10,
            -5, 0, 5, 5, 5, 5, 0, -5,
            0, 0, 5, 5, 5, 5, 0, -5,
            -10, 5, 5, 5, 5, 5, 0, -10,
            -10, 0, 5, 0, 0, 0, 0, -10,
            -20, -10, -10, -5, -5, -10, -10, -20,
        ],
        PieceKind::King => [
            -30, -40, -40, -50, -50, -40, -40, -30,
            -30, -40, -40, -50, -50, -40, -40, -30,
            -30, -40, -40, -50, -50, -40, -40, -30,
            -30, -40, -40, -50, -50, -40, -40, -30,
            -20, -30, -30, -40, -40, -30, -30, -20,
            -10, -20, -20, -20, -20, -20, -20, -10,
            20, 20, 0, 0, 0, 0, 20, 20,
            20, 30, 10, 0, 0, 10, 30, 20,
        ],
    };
    assert(t@ =~= pst_table(kind));
    t
}

/// Looks up `sq` in `table`, which is laid out rank-8-first. White reads
/// the table top-down as published; Black reads it bottom-up, which
/// mirrors it vertically — the standard trick for reusing one
/// White-oriented table for the side that starts on the opposite edge.
fn lookup(table: &[i32; 64], sq: Square, color: Color) -> (v: i32)
    requires
        sq.valid(),
    ensures
        v == table@[table_row(sq.rank as int, color) * 8 + sq.file],
{
    let row = match color {
        Color::White => 7 - sq.rank,
        Color::Black => sq.rank,
    };
    table[row as usize * 8 + sq.file as usize]
}

/// Piece-square-table evaluation, from White's perspective, in centipawns.
/// Added to material score to reward pieces for standing on good squares,
/// not just for existing.
pub fn score(board: &Board) -> (total: i32)
    ensures
        total == pst_total(*board),
{
    let ghost term = pst_term(*board);
    let mut total: i32 = 0;
    let mut rank: u8 = 0;
    while rank < 8
        invariant
            rank <= 8,
            term == pst_term(*board),
            total == grid_total(term, rank as int),
            -400 * rank <= total <= 400 * rank,
        decreases 8 - rank,
    {
        let mut file: u8 = 0;
        while file < 8
            invariant
                rank < 8,
                file <= 8,
                term == pst_term(*board),
                total == grid_total(term, rank as int) + crate::eval::row_total(term, rank as int, file as int),
                -400 * rank - 50 * file <= total <= 400 * rank + 50 * file,
            decreases 8 - file,
        {
            let sq = Square::new(file, rank);
            if let Some(piece) = board.get(sq) {
                let table = table_for(piece.kind);
                let value = lookup(&table, sq, piece.color);
                proof {
                    lemma_tables_bounded(piece.kind);
                    assert(0 <= table_row(rank as int, piece.color) * 8 + file < 64);
                }
                total += if piece.color == Color::White { value } else { -value };
            }
            file += 1;
        }
        rank += 1;
    }
    total
}

} // verus!
