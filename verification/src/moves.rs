use vstd::prelude::*;
use crate::square::{Square, square_name};
use crate::types::PieceKind;

verus! {

/// How a move relocates pieces beyond the moving piece itself.
#[derive(Debug, Clone, Copy, PartialEq, Eq, Structural)]
pub enum MoveKind {
    Normal,
    CastleKingside,
    CastleQueenside,
    EnPassant,
}

/// A single chess move: origin square, destination square, an optional
/// promotion piece for pawn moves reaching the back rank, and the kind of
/// move (castling and en passant move or remove a second piece).
#[derive(Debug, Clone, Copy, PartialEq, Eq, Structural)]
pub struct Move {
    pub from: Square,
    pub to: Square,
    pub promotion: Option<PieceKind>,
    pub kind: MoveKind,
}

/// The lower-case letter naming a piece kind in coordinate notation.
pub open spec fn kind_letter(k: PieceKind) -> char {
    match k {
        PieceKind::Pawn => 'p',
        PieceKind::Knight => 'n',
        PieceKind::Bishop => 'b',
        PieceKind::Rook => 'r',
        PieceKind::Queen => 'q',
        PieceKind::King => 'k',
    }
}

/// Coordinate (long algebraic) notation of a move: origin, destination and
/// the promotion letter if any, e.g. `e2e4` or `e7e8q`.
pub open spec fn uci_name(mv: Move) -> Seq<char> {
    square_name(mv.from) + square_name(mv.to) + match mv.promotion {
        Some(k) => seq![kind_letter(k)],
        None => Seq::<char>::empty(),
    }
}

fn kind_letter_exec(k: PieceKind) -> (c: char)
    ensures
        c == kind_letter(k),
{
    match k {
        PieceKind::Pawn => 'p',
        PieceKind::Knight => 'n',
        PieceKind::Bishop => 'b',
        PieceKind::Rook => 'r',
        PieceKind::Queen => 'q',
        PieceKind::King => 'k',
    }
}

impl Move {
    /// Both squares lie on the board.
    pub open spec fn valid(self) -> bool {
        self.from.valid() && self.to.valid()
    }

    pub fn new(from: Square, to: Square) -> (mv: Self)
        ensures
            mv.from == from,
            mv.to == to,
            mv.promotion.is_none(),
            mv.kind == MoveKind::Normal,
    {
        Move { from, to, promotion: None, kind: MoveKind::Normal }
    }

    /// The move in coordinate notation, e.g. `e2e4` or `e7e8q`.
    pub fn to_uci(self) -> (s: String)
        requires
            self.valid(),
        ensures
            s@ == uci_name(self),
    {
        let mut s = self.from.to_algebraic();
        let t = self.to.to_algebraic();
        s.append(t.as_str());
        match self.promotion {
            Some(k) => crate::text::push_char(&mut s, kind_letter_exec(k)),
            None => {},
        }
        assert(s@ =~= uci_name(self));
        s
    }
}


// ---------------------------------------------------------------------------
// Enumerating moves
// ---------------------------------------------------------------------------

/// How many move shapes there are: origin, destination, promotion (none or
/// one of six kinds) and move kind (four).
pub open spec fn move_space() -> nat {
    64 * 64 * 7 * 4
}

pub open spec fn promo_code(p: Option<PieceKind>) -> int {
    match p {
        None => 0,
        Some(PieceKind::Pawn) => 1,
        Some(PieceKind::Knight) => 2,
        Some(PieceKind::Bishop) => 3,
        Some(PieceKind::Rook) => 4,
        Some(PieceKind::Queen) => 5,
        Some(PieceKind::King) => 6,
    }
}

pub open spec fn promo_of(c: int) -> Option<PieceKind> {
    if c == 0 { None }
    else if c == 1 { Some(PieceKind::Pawn) }
    else if c == 2 { Some(PieceKind::Knight) }
    else if c == 3 { Some(PieceKind::Bishop) }
    else if c == 4 { Some(PieceKind::Rook) }
    else if c == 5 { Some(PieceKind::Queen) }
    else { Some(PieceKind::King) }
}

pub open spec fn kind_code(k: MoveKind) -> int {
    match k {
        MoveKind::Normal => 0,
        MoveKind::CastleKingside => 1,
        MoveKind::CastleQueenside => 2,
        MoveKind::EnPassant => 3,
    }
}

pub open spec fn kind_of(c: int) -> MoveKind {
    if c == 0 { MoveKind::Normal }
    else if c == 1 { MoveKind::CastleKingside }
    else if c == 2 { MoveKind::CastleQueenside }
    else { MoveKind::EnPassant }
}

/// The number of a move with both squares on the board.
pub open spec fn move_code(m: Move) -> int {
    ((m.from.idx() * 64 + m.to.idx()) * 7 + promo_code(m.promotion)) * 4 + kind_code(m.kind)
}

/// The move with number `u`.
pub open spec fn candidate(u: int) -> Move {
    let k = u % 4;
    let p = (u / 4) % 7;
    let t = (u / 28) % 64;
    let f = u / 1792;
    Move { from: Square::of_index(f), to: Square::of_index(t), promotion: promo_of(p), kind: kind_of(k) }
}

pub proof fn lemma_move_code(m: Move)
    requires
        m.valid(),
    ensures
        0 <= move_code(m) < move_space(),
        candidate(move_code(m)) == m,
{
    let f = m.from.idx();
    let t = m.to.idx();
    let p = promo_code(m.promotion);
    let k = kind_code(m.kind);
    let u = move_code(m);
    assert(0 <= f < 64 && 0 <= t < 64 && 0 <= p < 7 && 0 <= k < 4);
    assert(u == f * 1792 + t * 28 + p * 4 + k);
    assert(u % 4 == k && u / 4 == f * 448 + t * 7 + p) by (nonlinear_arith)
        requires u == f * 1792 + t * 28 + p * 4 + k, 0 <= k < 4, 0 <= p < 7, 0 <= t < 64, 0 <= f;
    assert((u / 4) % 7 == p) by (nonlinear_arith)
        requires u / 4 == f * 448 + t * 7 + p, 0 <= p < 7, 0 <= t, 0 <= f;
    assert(u / 28 == f * 64 + t) by (nonlinear_arith)
        requires u == f * 1792 + t * 28 + p * 4 + k, 0 <= k < 4, 0 <= p < 7, 0 <= t < 64, 0 <= f;
    assert((u / 28) % 64 == t && u / 1792 == f) by (nonlinear_arith)
        requires u / 28 == f * 64 + t, u == f * 1792 + t * 28 + p * 4 + k, 0 <= k < 4, 0 <= p < 7, 0 <= t < 64, 0 <= f;
    assert(u < move_space()) by (nonlinear_arith)
        requires u == f * 1792 + t * 28 + p * 4 + k, 0 <= k < 4, 0 <= p < 7, 0 <= t < 64, 0 <= f < 64;
    assert(Square::of_index(f) == m.from);
    assert(Square::of_index(t) == m.to);
}


pub proof fn lemma_candidate(u: int)
    requires
        0 <= u < move_space(),
    ensures
        candidate(u).valid(),
        move_code(candidate(u)) == u,
{
    let m = candidate(u);
    let k = u % 4;
    let p = (u / 4) % 7;
    let t = (u / 28) % 64;
    let f = u / 1792;
    assert(0 <= f < 64) by (nonlinear_arith)
        requires 0 <= u < 64 * 64 * 7 * 4, f == u / 1792;
    assert(u == f * 1792 + t * 28 + p * 4 + k) by (nonlinear_arith)
        requires k == u % 4, p == (u / 4) % 7, t == (u / 28) % 64, f == u / 1792, 0 <= u;
    assert(promo_code(promo_of(p)) == p);
    assert(kind_code(kind_of(k)) == k);
    assert(m.from.idx() == f);
    assert(m.to.idx() == t);
}

// ---------------------------------------------------------------------------
// Summing over moves
// ---------------------------------------------------------------------------

/// The sum of `f` over the moves numbered `0..k` that satisfy `p`.
pub open spec fn code_sum(p: spec_fn(Move) -> bool, f: spec_fn(Move) -> nat, k: int) -> nat
    decreases k,
{
    if k <= 0 {
        0
    } else {
        code_sum(p, f, k - 1) + if p(candidate(k - 1)) { f(candidate(k - 1)) } else { 0 }
    }
}

/// The sum of `f` over the moves of `s`.
pub open spec fn seq_sum(s: Seq<Move>, f: spec_fn(Move) -> nat) -> nat
    decreases s.len(),
{
    if s.len() == 0 {
        0
    } else {
        seq_sum(s.drop_last(), f) + f(s.last())
    }
}

/// Taking one move `x` out of `p` takes its term out of the sum.
proof fn lemma_code_sum_remove(p: spec_fn(Move) -> bool, f: spec_fn(Move) -> nat, x: Move, k: int)
    requires
        x.valid(),
        p(x),
        0 <= k <= move_space(),
    ensures
        code_sum(p, f, k) == code_sum(|m: Move| p(m) && m != x, f, k) + if move_code(x) < k { f(x) } else { 0 },
    decreases k,
{
    if k > 0 {
        lemma_code_sum_remove(p, f, x, k - 1);
        lemma_candidate(k - 1);
        lemma_move_code(x);
    }
}

/// Summing over a list without repeats that holds exactly the moves of
/// `p` is summing over the moves of `p` by number.
pub proof fn lemma_seq_sum_codes(s: Seq<Move>, p: spec_fn(Move) -> bool, f: spec_fn(Move) -> nat)
    requires
        s.no_duplicates(),
        forall|m: Move| #[trigger] s.contains(m) <==> p(m),
        forall|m: Move| #[trigger] p(m) ==> m.valid(),
    ensures
        seq_sum(s, f) == code_sum(p, f, move_space() as int),
    decreases s.len(),
{
    if s.len() == 0 {
        assert forall|m: Move| !#[trigger] p(m) by {
            if p(m) {
                assert(s.contains(m));
            }
        }
        lemma_code_sum_empty(p, f, move_space() as int);
    } else {
        let x = s.last();
        let t = s.drop_last();
        let q = |m: Move| p(m) && m != x;
        assert(s.contains(x));
        assert forall|m: Move| #[trigger] t.contains(m) <==> q(m) by {
            if t.contains(m) {
                let j = choose|j: int| 0 <= j < t.len() && t[j] == m;
                assert(s[j] == m);
                assert(s[s.len() - 1] == x);
                assert(s.contains(m));
                assert(m != x);
                assert(q(m));
            }
            if q(m) {
                assert(p(m) && m != x);
                assert(s.contains(m));
                let j = choose|j: int| 0 <= j < s.len() && s[j] == m;
                assert(j != s.len() - 1);
                assert(t[j] == m);
                assert(t.contains(m));
            }
        }
        assert(t.no_duplicates()) by {
            assert forall|a: int, c: int| 0 <= a < t.len() && 0 <= c < t.len() && a != c implies t[a] != t[c] by {
                assert(t[a] == s[a] && t[c] == s[c]);
            }
        }
        lemma_seq_sum_codes(t, q, f);
        lemma_code_sum_remove(p, f, x, move_space() as int);
        lemma_move_code(x);
    }
}

proof fn lemma_code_sum_empty(p: spec_fn(Move) -> bool, f: spec_fn(Move) -> nat, k: int)
    requires
        forall|m: Move| !#[trigger] p(m),
    ensures
        code_sum(p, f, k) == 0,
    decreases k,
{
    if k > 0 {
        lemma_code_sum_empty(p, f, k - 1);
    }
}

} // verus!
