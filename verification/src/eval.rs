use vstd::prelude::*;
use crate::board::{Board, Piece};
use crate::pst;
use crate::square::Square;
use crate::types::{Color, PieceKind};

verus! {

pub const PAWN_VALUE: i32 = 100;
pub const KNIGHT_VALUE: i32 = 320;
pub const BISHOP_VALUE: i32 = 330;
pub const ROOK_VALUE: i32 = 500;
pub const QUEEN_VALUE: i32 = 900;

/// Centipawn value of a piece kind.
pub open spec fn value_of(kind: PieceKind) -> int {
    match kind {
        PieceKind::Pawn => PAWN_VALUE as int,
        PieceKind::Knight => KNIGHT_VALUE as int,
        PieceKind::Bishop => BISHOP_VALUE as int,
        PieceKind::Rook => ROOK_VALUE as int,
        PieceKind::Queen => QUEEN_VALUE as int,
        PieceKind::King => 0,
    }
}

/// `v` counted for White and against Black, as `p`'s color says.
pub open spec fn signed(p: Piece, v: int) -> int {
    if p.color == Color::White { v } else { -v }
}

/// The sum of `term(file, rank)` over files `0..n` of `rank`.
pub open spec fn row_total(term: spec_fn(int, int) -> int, rank: int, n: int) -> int
    decreases n,
{
    if n <= 0 { 0 } else { row_total(term, rank, n - 1) + term(n - 1, rank) }
}

/// The sum of `term(file, rank)` over all files of ranks `0..n`.
pub open spec fn grid_total(term: spec_fn(int, int) -> int, n: int) -> int
    decreases n,
{
    if n <= 0 { 0 } else { grid_total(term, n - 1) + row_total(term, n - 1, 8) }
}

/// A sum over the board's squares whose terms are bounded by `m` stays
/// within the bound times the number of squares summed.
pub proof fn lemma_row_total_bound(term: spec_fn(int, int) -> int, rank: int, n: int, m: int)
    requires
        0 <= n <= 8,
        forall|f: int| 0 <= f < 8 ==> -m <= #[trigger] term(f, rank) <= m,
    ensures
        -m * n <= row_total(term, rank, n) <= m * n,
    decreases n,
{
    if n > 0 {
        lemma_row_total_bound(term, rank, n - 1, m);
        assert(-m * n == -m * (n - 1) - m) by (nonlinear_arith);
        assert(m * n == m * (n - 1) + m) by (nonlinear_arith);
    }
}

pub proof fn lemma_grid_total_bound(term: spec_fn(int, int) -> int, n: int, m: int)
    requires
        0 <= n <= 8,
        forall|f: int, r: int| 0 <= f < 8 && 0 <= r < 8 ==> -m <= #[trigger] term(f, r) <= m,
    ensures
        -m * 8 * n <= grid_total(term, n) <= m * 8 * n,
    decreases n,
{
    if n > 0 {
        lemma_grid_total_bound(term, n - 1, m);
        lemma_row_total_bound(term, n - 1, 8, m);
        assert(-m * 8 * n == -m * 8 * (n - 1) - m * 8) by (nonlinear_arith);
        assert(m * 8 * n == m * 8 * (n - 1) + m * 8) by (nonlinear_arith);
    }
}

/// Changing one term of a rank's sum changes the sum by exactly that
/// term's change.
pub proof fn lemma_row_total_update(t1: spec_fn(int, int) -> int, t2: spec_fn(int, int) -> int, rank: int, n: int, f0: int)
    requires
        0 <= n <= 8,
        forall|f: int| 0 <= f < 8 && f != f0 ==> #[trigger] t2(f, rank) == t1(f, rank),
    ensures
        row_total(t2, rank, n) == row_total(t1, rank, n) + if 0 <= f0 < n { t2(f0, rank) - t1(f0, rank) } else { 0 },
    decreases n,
{
    if n > 0 {
        lemma_row_total_update(t1, t2, rank, n - 1, f0);
    }
}

/// Changing one term of a board sum changes the sum by exactly that
/// term's change.
pub proof fn lemma_grid_total_update(t1: spec_fn(int, int) -> int, t2: spec_fn(int, int) -> int, n: int, f0: int, r0: int)
    requires
        0 <= n <= 8,
        0 <= f0 < 8,
        forall|f: int, r: int| 0 <= f < 8 && 0 <= r < 8 && !(f == f0 && r == r0) ==> #[trigger] t2(f, r) == t1(f, r),
    ensures
        grid_total(t2, n) == grid_total(t1, n) + if 0 <= r0 < n { t2(f0, r0) - t1(f0, r0) } else { 0 },
    decreases n,
{
    if n > 0 {
        lemma_grid_total_update(t1, t2, n - 1, f0, r0);
        if n - 1 == r0 {
            lemma_row_total_update(t1, t2, r0, 8, f0);
        } else {
            assert forall|f: int| 0 <= f < 8 && f != -1 implies #[trigger] t2(f, n - 1) == t1(f, n - 1) by {}
            lemma_row_total_update(t1, t2, n - 1, 8, -1);
        }
    }
}

/// The material on (`file`, `rank`), positive for White.
pub open spec fn material_term(b: Board) -> spec_fn(int, int) -> int {
    |f: int, r: int|
        match b.at(r * 8 + f) {
            Some(p) => signed(p, value_of(p.kind)),
            None => 0,
        }
}

/// Material balance from White's perspective, in centipawns.
pub open spec fn material(b: Board) -> int {
    grid_total(material_term(b), 8)
}

/// Full static evaluation from White's perspective.
pub open spec fn evaluation(b: Board) -> int {
    material(b) + pst::pst_total(b)
}

pub proof fn lemma_material_bound(b: Board)
    ensures
        -57600 <= material(b) <= 57600,
{
    lemma_grid_total_bound(material_term(b), 8, 900);
}

/// Putting a piece on an empty square moves the material balance by the
/// piece's worth toward its side: 100 centipawns for a pawn, 320 for a
/// knight, 330 for a bishop, 500 for a rook, 900 for a queen and nothing
/// for a king.
pub proof fn lemma_material_of_added_piece(b: Board, i: int, p: Piece)
    requires
        0 <= i < 64,
        b.at(i) is None,
    ensures
        ({
            let worth = match p.kind {
                PieceKind::Pawn => 100int,
                PieceKind::Knight => 320int,
                PieceKind::Bishop => 330int,
                PieceKind::Rook => 500int,
                PieceKind::Queen => 900int,
                PieceKind::King => 0int,
            };
            material(b.with_cell(i, Some(p))) == material(b) + if p.color == Color::White { worth } else { -worth }
        }),
{
    let b2 = b.with_cell(i, Some(p));
    let f0 = i % 8;
    let r0 = i / 8;
    assert forall|f: int, r: int| 0 <= f < 8 && 0 <= r < 8 && !(f == f0 && r == r0)
        implies #[trigger] material_term(b2)(f, r) == material_term(b)(f, r) by {
        assert(r * 8 + f != i);
        assert(b2.at(r * 8 + f) == b.at(r * 8 + f));
    }
    lemma_grid_total_update(material_term(b), material_term(b2), 8, f0, r0);
    assert(r0 * 8 + f0 == i);
    assert(b2.at(i) == Some(p));
}

/// Centipawn value of a piece kind, independent of color or position.
///
/// Exposed beyond this module so move ordering can rank captures by the
/// same material scale the evaluation uses.
pub fn piece_value(kind: PieceKind) -> (v: i32)
    ensures
        v == value_of(kind),
{
    match kind {
        PieceKind::Pawn => PAWN_VALUE,
        PieceKind::Knight => KNIGHT_VALUE,
        PieceKind::Bishop => BISHOP_VALUE,
        PieceKind::Rook => ROOK_VALUE,
        PieceKind::Queen => QUEEN_VALUE,
        PieceKind::King => 0,
    }
}

/// Material-only evaluation, from White's perspective, in centipawns.
pub fn material_score(board: &Board) -> (score: i32)
    ensures
        score == material(*board),
{
    let ghost term = material_term(*board);
    let mut score: i32 = 0;
    let mut rank: u8 = 0;
    while rank < 8
        invariant
            rank <= 8,
            term == material_term(*board),
            score == grid_total(term, rank as int),
            -7200 * rank <= score <= 7200 * rank,
        decreases 8 - rank,
    {
        let mut file: u8 = 0;
        while file < 8
            invariant
                rank < 8,
                file <= 8,
                term == material_term(*board),
                score == grid_total(term, rank as int) + row_total(term, rank as int, file as int),
                -7200 * rank - 900 * file <= score <= 7200 * rank + 900 * file,
            decreases 8 - file,
        {
            if let Some(piece) = board.get(Square::new(file, rank)) {
                let value = piece_value(piece.kind);
                score += if piece.color == Color::White { value } else { -value };
            }
            file += 1;
        }
        rank += 1;
    }
    score
}

/// Full static evaluation, from White's perspective, in centipawns: raw
/// material plus a piece-square-table bonus for standing on good squares.
pub fn evaluate(board: &Board) -> (score: i32)
    ensures
        score == evaluation(*board),
{
    proof {
        lemma_material_bound(*board);
        pst::lemma_pst_bound(*board);
    }
    material_score(board) + pst::score(board)
}


// ---------------------------------------------------------------------------
// Color symmetry
// ---------------------------------------------------------------------------

/// The same piece kind in the other color.
pub open spec fn flip_piece(p: Option<Piece>) -> Option<Piece> {
    match p {
        Some(x) => Some(Piece { kind: x.kind, color: x.color.flip() }),
        None => None,
    }
}

/// `b` is `a` with the colors swapped and the ranks reversed: whatever
/// stands on (`file`, `rank`) of `a` stands, in the other color, on
/// (`file`, `7 - rank`) of `b`.
pub open spec fn mirrored(a: Board, b: Board) -> bool {
    forall|f: int, r: int| 0 <= f < 8 && 0 <= r < 8 ==> #[trigger] b.at(r * 8 + f) == flip_piece(a.at((7 - r) * 8 + f))
}

proof fn lemma_row_flip(t1: spec_fn(int, int) -> int, t2: spec_fn(int, int) -> int, r: int, n: int)
    requires
        0 <= r < 8,
        0 <= n <= 8,
        forall|f: int, q: int| 0 <= f < 8 && 0 <= q < 8 ==> #[trigger] t2(f, q) == -t1(f, 7 - q),
    ensures
        row_total(t2, r, n) == -row_total(t1, 7 - r, n),
    decreases n,
{
    if n > 0 {
        lemma_row_flip(t1, t2, r, n - 1);
        assert(t2(n - 1, r) == -t1(n - 1, 7 - r));
    }
}

/// Summing terms that negate each other across the board's horizontal
/// midline gives opposite totals.
pub proof fn lemma_grid_flip(t1: spec_fn(int, int) -> int, t2: spec_fn(int, int) -> int)
    requires
        forall|f: int, q: int| 0 <= f < 8 && 0 <= q < 8 ==> #[trigger] t2(f, q) == -t1(f, 7 - q),
    ensures
        grid_total(t2, 8) == -grid_total(t1, 8),
{
    assert forall|q: int| 0 <= q < 8 implies #[trigger] row_total(t2, q, 8) == -row_total(t1, 7 - q, 8) by {
        lemma_row_flip(t1, t2, q, 8);
    }
    assert(row_total(t2, 0, 8) == -row_total(t1, 7, 8));
    assert(row_total(t2, 1, 8) == -row_total(t1, 6, 8));
    assert(row_total(t2, 2, 8) == -row_total(t1, 5, 8));
    assert(row_total(t2, 3, 8) == -row_total(t1, 4, 8));
    assert(row_total(t2, 4, 8) == -row_total(t1, 3, 8));
    assert(row_total(t2, 5, 8) == -row_total(t1, 2, 8));
    assert(row_total(t2, 6, 8) == -row_total(t1, 1, 8));
    assert(row_total(t2, 7, 8) == -row_total(t1, 0, 8));
    reveal_with_fuel(grid_total, 9);
}

/// Swapping colors and reversing the ranks negates the material balance.
pub proof fn lemma_material_mirror(a: Board, b: Board)
    requires
        mirrored(a, b),
    ensures
        material(b) == -material(a),
{
    assert forall|f: int, q: int| 0 <= f < 8 && 0 <= q < 8 implies #[trigger] material_term(b)(f, q) == -material_term(a)(f, 7 - q) by {
        assert(b.at(q * 8 + f) == flip_piece(a.at((7 - q) * 8 + f)));
    }
    lemma_grid_flip(material_term(a), material_term(b));
}

/// Evaluation is color-blind: swapping colors and reversing the ranks
/// negates material, piece-square bonus and their sum.
pub proof fn lemma_evaluation_mirror(a: Board, b: Board)
    requires
        mirrored(a, b),
    ensures
        material(b) == -material(a),
        pst::pst_total(b) == -pst::pst_total(a),
        evaluation(b) == -evaluation(a),
{
    lemma_material_mirror(a, b);
    assert forall|f: int, q: int| 0 <= f < 8 && 0 <= q < 8 implies #[trigger] pst::pst_term(b)(f, q) == -pst::pst_term(a)(f, 7 - q) by {
        assert(b.at(q * 8 + f) == flip_piece(a.at((7 - q) * 8 + f)));
    }
    lemma_grid_flip(pst::pst_term(a), pst::pst_term(b));
}

} // verus!
