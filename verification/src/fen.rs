use vstd::prelude::*;
use crate::board::{Board, Piece};
use crate::movegen::king_of;
use crate::moves::{Move, uci_name};
use crate::square::{Square, square_from_name};
use crate::text::{
    chars_of, lemma_pieces_nonempty, parse_u32, parse_u32_exec, pieces, split_slashes, split_words,
    texts, words, is_digit, digit_value, separates,
};
use crate::types::{CastlingRights, Color, PieceKind};

verus! {

/// Why a FEN string was refused.
#[derive(Debug, Clone, Copy, PartialEq, Eq, Structural)]
pub enum FenError {
    /// There is no piece placement field.
    MissingPlacement,
    /// The piece placement does not have 8 ranks.
    RankCount,
    /// A piece stands past the eighth file of its rank.
    TooManySquares,
    /// A placement character is neither a digit nor a piece letter.
    BadPiece,
    /// A rank does not cover exactly 8 squares.
    RankWidth,
    /// A color has more than one king, or the side to move has none.
    KingCount(Color),
    /// The side to move is neither `w` nor `b`.
    BadSide,
    /// The en passant field is neither `-` nor a square name.
    BadEnPassant,
    /// The halfmove clock is not a `u32`.
    BadHalfmove,
    /// The fullmove number is not a `u32`.
    BadFullmove,
}

// ---------------------------------------------------------------------------
// Piece letters
// ---------------------------------------------------------------------------

/// The lower-case letter of a piece kind.
pub open spec fn kind_char(k: PieceKind) -> char {
    match k {
        PieceKind::Pawn => 'p',
        PieceKind::Knight => 'n',
        PieceKind::Bishop => 'b',
        PieceKind::Rook => 'r',
        PieceKind::Queen => 'q',
        PieceKind::King => 'k',
    }
}

/// The FEN letter of a piece: upper case for White, lower case for Black.
pub open spec fn piece_char(p: Piece) -> char {
    if p.color == Color::White {
        (kind_char(p.kind) as int - 32) as char
    } else {
        kind_char(p.kind)
    }
}

/// The piece a FEN letter names, if it names one.
pub open spec fn piece_of_char(c: char) -> Option<Piece> {
    let color = if 'A' <= c <= 'Z' { Color::White } else { Color::Black };
    let lower = if 'A' <= c <= 'Z' { (c as int + 32) as char } else { c };
    if lower == 'p' {
        Some(Piece { kind: PieceKind::Pawn, color })
    } else if lower == 'n' {
        Some(Piece { kind: PieceKind::Knight, color })
    } else if lower == 'b' {
        Some(Piece { kind: PieceKind::Bishop, color })
    } else if lower == 'r' {
        Some(Piece { kind: PieceKind::Rook, color })
    } else if lower == 'q' {
        Some(Piece { kind: PieceKind::Queen, color })
    } else if lower == 'k' {
        Some(Piece { kind: PieceKind::King, color })
    } else {
        None
    }
}

pub proof fn lemma_piece_char(p: Piece)
    ensures
        piece_of_char(piece_char(p)) == Some(p),
        !is_digit(piece_char(p)),
        piece_char(p) != '/',
        'A' <= piece_char(p) <= 'z',
{
}

/// A promotion is named by the FEN letter of the piece promoted to, in
/// lower case: read back as a FEN letter, the last character of the
/// move's coordinate name names that kind of piece.
pub proof fn lemma_promotion_letter(m: Move, k: PieceKind)
    requires
        m.promotion == Some(k),
    ensures
        uci_name(m).len() == 5,
        uci_name(m)[4] == kind_char(k),
        piece_of_char(uci_name(m)[4]) == Some(Piece { kind: k, color: Color::Black }),
{
}

/// The FEN letter of `piece`.
pub fn piece_symbol(piece: Piece) -> (c: char)
    ensures
        c == piece_char(piece),
{
    let lower = match piece.kind {
        PieceKind::Pawn => 'p',
        PieceKind::Knight => 'n',
        PieceKind::Bishop => 'b',
        PieceKind::Rook => 'r',
        PieceKind::Queen => 'q',
        PieceKind::King => 'k',
    };
    if piece.color == Color::White {
        ((lower as u8) - 32) as char
    } else {
        lower
    }
}

fn piece_from_char(c: char) -> (p: Option<Piece>)
    ensures
        p == piece_of_char(c),
{
    let upper = 'A' <= c && c <= 'Z';
    let color = if upper { Color::White } else { Color::Black };
    let lower = if upper { ((c as u8) + 32) as char } else { c };
    let kind = if lower == 'p' {
        PieceKind::Pawn
    } else if lower == 'n' {
        PieceKind::Knight
    } else if lower == 'b' {
        PieceKind::Bishop
    } else if lower == 'r' {
        PieceKind::Rook
    } else if lower == 'q' {
        PieceKind::Queen
    } else if lower == 'k' {
        PieceKind::King
    } else {
        return None;
    };
    Some(Piece { kind, color })
}

// ---------------------------------------------------------------------------
// Reading a rank
// ---------------------------------------------------------------------------

/// The state of reading one rank: the error met (if any), the file
/// reached, and the eight cells so far.
pub type RankScan = (Option<FenError>, int, Seq<Option<Piece>>);

/// Reading one more placement character: a digit skips that many files,
/// a piece letter fills the current file, and the first error stops the
/// reading.
pub open spec fn scan_step(st: RankScan, c: char) -> RankScan {
    if st.0 is Some {
        st
    } else if is_digit(c) {
        (None, st.1 + digit_value(c), st.2)
    } else if st.1 >= 8 {
        (Some(FenError::TooManySquares), st.1, st.2)
    } else {
        match piece_of_char(c) {
            None => (Some(FenError::BadPiece), st.1, st.2),
            Some(p) => (None, st.1 + 1, st.2.update(st.1, Some(p))),
        }
    }
}

pub open spec fn scan_from(st: RankScan, s: Seq<char>) -> RankScan
    decreases s.len(),
{
    if s.len() == 0 {
        st
    } else {
        scan_step(scan_from(st, s.drop_last()), s.last())
    }
}

/// Eight empty cells.
pub open spec fn empty_rank() -> Seq<Option<Piece>> {
    Seq::new(8, |i: int| None::<Piece>)
}

/// The state after reading the whole rank text `s`.
pub open spec fn scan_rank(s: Seq<char>) -> RankScan {
    scan_from((None, 0, empty_rank()), s)
}

/// What reading the rank text `s` reports.
pub open spec fn rank_error(s: Seq<char>) -> Option<FenError> {
    let st = scan_rank(s);
    if st.0 is Some {
        st.0
    } else if st.1 != 8 {
        Some(FenError::RankWidth)
    } else {
        None
    }
}

/// The first error among the first `n` ranks, top rank first.
pub open spec fn ranks_error(ranks: Seq<Seq<char>>, n: int) -> Option<FenError>
    decreases n,
{
    if n <= 0 {
        None
    } else if ranks_error(ranks, n - 1) is Some {
        ranks_error(ranks, n - 1)
    } else {
        rank_error(ranks[n - 1])
    }
}

/// Once stopped, reading leaves the state as it is.
proof fn lemma_scan_stopped(st: RankScan, s: Seq<char>)
    requires
        st.0 is Some,
    ensures
        scan_from(st, s) == st,
    decreases s.len(),
{
    if s.len() > 0 {
        lemma_scan_stopped(st, s.drop_last());
    }
}

/// Reading `a + b` reads `a`, then `b`.
pub proof fn lemma_scan_concat(st: RankScan, a: Seq<char>, b: Seq<char>)
    ensures
        scan_from(st, a + b) == scan_from(scan_from(st, a), b),
    decreases b.len(),
{
    if b.len() == 0 {
        assert(a + b == a);
    } else {
        lemma_scan_concat(st, a, b.drop_last());
        assert((a + b).drop_last() == a + b.drop_last());
    }
}

/// A reading that stopped on a prefix stopped on the whole text.
proof fn lemma_scan_prefix_stopped(s: Seq<char>, j: int)
    requires
        0 <= j <= s.len(),
        scan_rank(s.take(j)).0 is Some,
    ensures
        scan_rank(s) == scan_rank(s.take(j)),
{
    lemma_scan_concat((None, 0, empty_rank()), s.take(j), s.skip(j));
    assert(s.take(j) + s.skip(j) == s);
    lemma_scan_stopped(scan_rank(s.take(j)), s.skip(j));
}

/// The cells a reading leaves stay within the eight files.
proof fn lemma_scan_shape(st: RankScan, s: Seq<char>)
    requires
        st.2.len() == 8,
        0 <= st.1,
    ensures
        scan_from(st, s).2.len() == 8,
        0 <= scan_from(st, s).1,
    decreases s.len(),
{
    if s.len() > 0 {
        lemma_scan_shape(st, s.drop_last());
    }
}

// ---------------------------------------------------------------------------
// The whole FEN
// ---------------------------------------------------------------------------

/// Field `k` of a FEN, or `default` when the FEN has fewer fields.
pub open spec fn field(f: Seq<Seq<char>>, k: int, default: Seq<char>) -> Seq<char> {
    if f.len() > k { f[k] } else { default }
}

/// The rank texts of the placement field, top rank first.
pub open spec fn fen_ranks(s: Seq<char>) -> Seq<Seq<char>> {
    pieces(words(s)[0], false)
}

/// The 64 cells the placement field describes, square index order.
pub open spec fn fen_cells(ranks: Seq<Seq<char>>) -> Seq<Option<Piece>> {
    Seq::new(64, |i: int| scan_rank(ranks[7 - i / 8]).2[i % 8])
}

/// The number of kings of color `c` among the first `n` cells.
pub open spec fn kings(cells: Seq<Option<Piece>>, c: Color, n: int) -> int
    decreases n,
{
    if n <= 0 {
        0
    } else {
        kings(cells, c, n - 1) + if cells[n - 1] == king_of(c) { 1int } else { 0int }
    }
}

pub open spec fn side_field(s: Seq<char>) -> Seq<char> {
    field(words(s), 1, seq!['w'])
}

pub open spec fn castling_field(s: Seq<char>) -> Seq<char> {
    field(words(s), 2, seq!['-'])
}

pub open spec fn en_passant_field(s: Seq<char>) -> Seq<char> {
    field(words(s), 3, seq!['-'])
}

pub open spec fn halfmove_field(s: Seq<char>) -> Seq<char> {
    field(words(s), 4, seq!['0'])
}

pub open spec fn fullmove_field(s: Seq<char>) -> Seq<char> {
    field(words(s), 5, seq!['1'])
}

/// The side to move a side field names.
pub open spec fn side_of(t: Seq<char>) -> Option<Color> {
    if t == seq!['w'] {
        Some(Color::White)
    } else if t == seq!['b'] {
        Some(Color::Black)
    } else {
        None
    }
}

/// The castling rights a castling field grants: each letter present.
pub open spec fn rights_of(t: Seq<char>) -> CastlingRights {
    CastlingRights {
        white_kingside: t.contains('K'),
        white_queenside: t.contains('Q'),
        black_kingside: t.contains('k'),
        black_queenside: t.contains('q'),
    }
}

/// Why `s` is refused as a FEN, checking in order: the placement, its
/// ranks, extra kings, the side to move, a missing king for the side to
/// move, the en passant square and the two counters. `None` when it is
/// accepted.
pub open spec fn fen_error(s: Seq<char>) -> Option<FenError> {
    let ranks = fen_ranks(s);
    let cells = fen_cells(ranks);
    if words(s).len() == 0 {
        Some(FenError::MissingPlacement)
    } else if ranks.len() != 8 {
        Some(FenError::RankCount)
    } else if ranks_error(ranks, 8) is Some {
        ranks_error(ranks, 8)
    } else if kings(cells, Color::White, 64) > 1 {
        Some(FenError::KingCount(Color::White))
    } else if kings(cells, Color::Black, 64) > 1 {
        Some(FenError::KingCount(Color::Black))
    } else if side_of(side_field(s)) is None {
        Some(FenError::BadSide)
    } else if kings(cells, side_of(side_field(s)).unwrap(), 64) == 0 {
        Some(FenError::KingCount(side_of(side_field(s)).unwrap()))
    } else if en_passant_field(s) != seq!['-'] && square_from_name(en_passant_field(s)) is None {
        Some(FenError::BadEnPassant)
    } else if parse_u32(halfmove_field(s)) is None {
        Some(FenError::BadHalfmove)
    } else if parse_u32(fullmove_field(s)) is None {
        Some(FenError::BadFullmove)
    } else {
        None
    }
}

/// `b` is the position an accepted FEN `s` describes: every square, the
/// side to move, the castling rights, the en passant target and both
/// counters.
pub open spec fn fen_describes(s: Seq<char>, b: Board) -> bool {
    &&& forall|i: int| 0 <= i < 64 ==> #[trigger] b.at(i) == fen_cells(fen_ranks(s))[i]
    &&& Some(b.side_to_move) == side_of(side_field(s))
    &&& b.castling == rights_of(castling_field(s))
    &&& b.en_passant == if en_passant_field(s) == seq!['-'] {
        None
    } else {
        square_from_name(en_passant_field(s))
    }
    &&& Some(b.halfmove_clock) == parse_u32(halfmove_field(s))
    &&& Some(b.fullmove_number) == parse_u32(fullmove_field(s))
}


// ---------------------------------------------------------------------------
// Reading a FEN
// ---------------------------------------------------------------------------

proof fn lemma_ranks_error_stays(ranks: Seq<Seq<char>>, i: int, n: int)
    requires
        0 <= i <= n,
        ranks_error(ranks, i) is Some,
    ensures
        ranks_error(ranks, n) == ranks_error(ranks, i),
    decreases n,
{
    if n > i {
        lemma_ranks_error_stays(ranks, i, n - 1);
    }
}

/// Reads one rank text into row `rank` of `board`, as FEN placement
/// describes it: digits skip empty files, letters place pieces.
fn read_rank(cs: &Vec<char>, rank: u8, board: &mut Board) -> (r: Result<(), FenError>)
    requires
        rank < 8,
        forall|f: int| 0 <= f < 8 ==> (#[trigger] old(board).at(rank * 8 + f)) is None,
    ensures
        r == match rank_error(cs@) {
            Some(e) => Err::<(), FenError>(e),
            None => Ok(()),
        },
        r is Ok ==> forall|i: int| 0 <= i < 64 ==> #[trigger] final(board).at(i) == if i / 8 == rank {
            scan_rank(cs@).2[i % 8]
        } else {
            old(board).at(i)
        },
        final(board).side_to_move == old(board).side_to_move,
        final(board).castling == old(board).castling,
        final(board).en_passant == old(board).en_passant,
        final(board).halfmove_clock == old(board).halfmove_clock,
        final(board).fullmove_number == old(board).fullmove_number,
{
    let ghost start = *old(board);
    // The file reached, held at 9 once it passes the board: past the eighth
    // file every outcome is already an error.
    let mut file: u8 = 0;
    let mut j: usize = 0;
    assert(cs@.take(0) =~= Seq::<char>::empty());
    assert forall|i: int| 0 <= i < 64 implies #[trigger] board.at(i) == if i / 8 == rank {
        scan_rank(cs@.take(0)).2[i % 8]
    } else {
        start.at(i)
    } by {
        if i / 8 == rank {
            assert(i == rank * 8 + i % 8);
        }
    }
    while j < cs.len()
        invariant
            j <= cs@.len(),
            start == *old(board),
            rank < 8,
            scan_rank(cs@.take(j as int)).0 is None,
            file as int == if scan_rank(cs@.take(j as int)).1 > 9 { 9 } else { scan_rank(cs@.take(j as int)).1 },
            0 <= scan_rank(cs@.take(j as int)).1,
            scan_rank(cs@.take(j as int)).2.len() == 8,
            forall|i: int| 0 <= i < 64 ==> #[trigger] board.at(i) == if i / 8 == rank {
                scan_rank(cs@.take(j as int)).2[i % 8]
            } else {
                start.at(i)
            },
            board.side_to_move == start.side_to_move,
            board.castling == start.castling,
            board.en_passant == start.en_passant,
            board.halfmove_clock == start.halfmove_clock,
            board.fullmove_number == start.fullmove_number,
            forall|f: int| 0 <= f < 8 ==> (#[trigger] start.at(rank * 8 + f)) is None,
        decreases cs@.len() - j,
    {
        let c = cs[j];
        let ghost before = scan_rank(cs@.take(j as int));
        assert(cs@.take(j as int + 1).drop_last() == cs@.take(j as int));
        assert(cs@.take(j as int + 1).last() == c);
        assert(scan_rank(cs@.take(j as int + 1)) == scan_step(before, c));
        if '0' <= c && c <= '9' {
            let d = (c as u8) - 48;
            assert(d as int == digit_value(c));
            file = if file + d > 9 { 9 } else { file + d };
        } else if file >= 8 {
            proof { lemma_scan_prefix_stopped(cs@, j as int + 1); }
            return Err(FenError::TooManySquares);
        } else {
            match piece_from_char(c) {
                None => {
                    proof { lemma_scan_prefix_stopped(cs@, j as int + 1); }
                    return Err(FenError::BadPiece);
                },
                Some(p) => {
                    let ghost prev = *board;
                    board.set(Square::new(file, rank), Some(p));
                    proof {
                        assert forall|i: int| 0 <= i < 64 implies #[trigger] board.at(i) == if i / 8 == rank {
                            scan_rank(cs@.take(j as int + 1)).2[i % 8]
                        } else {
                            start.at(i)
                        } by {
                            assert(prev.at(i) == if i / 8 == rank { before.2[i % 8] } else { start.at(i) });
                        }
                    }
                    file = file + 1;
                },
            }
        }
        j += 1;
    }
    assert(cs@.take(cs@.len() as int) == cs@);
    if file != 8 {
        return Err(FenError::RankWidth);
    }
    Ok(())
}

/// Whether `v` holds `c`.
fn has_char(v: &Vec<char>, c: char) -> (r: bool)
    ensures
        r == v@.contains(c),
{
    let mut i: usize = 0;
    while i < v.len()
        invariant
            i <= v@.len(),
            forall|k: int| 0 <= k < i ==> v@[k] != c,
        decreases v@.len() - i,
    {
        if v[i] == c {
            assert(v@[i as int] == c);
            return true;
        }
        i += 1;
    }
    false
}

/// Whether `v` is the one-character text `c`.
fn is_char(v: &Vec<char>, c: char) -> (r: bool)
    ensures
        r == (v@ == seq![c]),
{
    if v.len() == 1 && v[0] == c {
        assert(v@ =~= seq![c]);
        true
    } else {
        false
    }
}

/// Field `k` of `fields`, or the one-character text `default`.
fn field_or(fields: &Vec<Vec<char>>, k: usize, default: char) -> (v: Vec<char>)
    ensures
        v@ == field(texts(fields@), k as int, seq![default]),
{
    if k < fields.len() {
        fields[k].clone()
    } else {
        let v = vec![default];
        assert(v@ =~= seq![default]);
        v
    }
}

impl Board {
    /// Parses a FEN (Forsyth-Edwards Notation) position string.
    ///
    /// Only the piece placement is required; a missing side to move,
    /// castling field, en passant field, halfmove clock or fullmove number
    /// reads as `w`, `-`, `-`, `0` and `1`. Each color may have at most one
    /// king, and the side to move exactly one: the king of the side not to
    /// move may be left out, so that one side's moves can be set up and
    /// studied on their own (a piece pinned against the mover's king, say).
    /// A rank whose digits and pieces do not cover exactly eight files is
    /// refused, however long its run of digits.
    pub fn from_fen(fen: &str) -> (r: Result<Board, FenError>)
        ensures
            match r {
                Ok(b) => fen_error(fen@) is None && fen_describes(fen@, b),
                Err(e) => fen_error(fen@) == Some(e),
            },
    {
        let cs = chars_of(fen);
        let fields = split_words(&cs);
        let ghost w = words(fen@);
        if fields.len() == 0 {
            return Err(FenError::MissingPlacement);
        }
        assert(texts(fields@)[0] == fields@[0]@);
        let ranks = split_slashes(&fields[0]);
        let ghost rk = fen_ranks(fen@);
        assert(rk == texts(ranks@));
        if ranks.len() != 8 {
            return Err(FenError::RankCount);
        }
        let mut board = Board::empty();
        let mut i: usize = 0;
        while i < 8
            invariant
                i <= 8,
                ranks@.len() == 8,
                rk == texts(ranks@),
                rk == fen_ranks(fen@),
                words(fen@).len() > 0,
                rk.len() == 8,
                ranks_error(rk, i as int) is None,
                forall|k: int| 0 <= k < 64 ==> #[trigger] board.at(k) == if 7 - k / 8 < i {
                    scan_rank(rk[7 - k / 8]).2[k % 8]
                } else {
                    None
                },
                board.side_to_move == Color::White,
                !board.castling.white_kingside && !board.castling.white_queenside,
                !board.castling.black_kingside && !board.castling.black_queenside,
                board.en_passant.is_none(),
                board.halfmove_clock == 0,
                board.fullmove_number == 1,
            decreases 8 - i,
        {
            let rank = (7 - i) as u8;
            assert(rk[i as int] == ranks@[i as int]@);
            proof {
                assert forall|f: int| 0 <= f < 8 implies (#[trigger] board.at(rank * 8 + f)) is None by {
                    assert((rank * 8 + f) / 8 == rank);
                }
            }
            let ghost prev = board;
            match read_rank(&ranks[i], rank, &mut board) {
                Err(e) => {
                    proof { lemma_ranks_error_stays(rk, i as int + 1, 8); }
                    return Err(e);
                },
                Ok(()) => {},
            }
            proof {
                assert forall|k: int| 0 <= k < 64 implies #[trigger] board.at(k) == if 7 - k / 8 < i + 1 {
                    scan_rank(rk[7 - k / 8]).2[k % 8]
                } else {
                    None
                } by {
                    assert(prev.at(k) == if 7 - k / 8 < i { scan_rank(rk[7 - k / 8]).2[k % 8] } else { None });
                }
            }
            i += 1;
        }
        let ghost cells = fen_cells(rk);
        assert forall|k: int| 0 <= k < 64 implies #[trigger] board.at(k) == cells[k] by {}
        let mut white_kings: u32 = 0;
        let mut black_kings: u32 = 0;
        let mut k: usize = 0;
        while k < 64
            invariant
                k <= 64,
                forall|q: int| 0 <= q < 64 ==> #[trigger] board.at(q) == cells[q],
                white_kings == kings(cells, Color::White, k as int),
                black_kings == kings(cells, Color::Black, k as int),
                white_kings <= k,
                black_kings <= k,
            decreases 64 - k,
        {
            assert(board.at(k as int) == cells[k as int]);
            match board.squares[k] {
                Some(p) => {
                    if p.kind == PieceKind::King {
                        if p.color == Color::White {
                            white_kings += 1;
                        } else {
                            black_kings += 1;
                        }
                    }
                },
                None => {},
            }
            k += 1;
        }
        if white_kings > 1 {
            return Err(FenError::KingCount(Color::White));
        }
        if black_kings > 1 {
            return Err(FenError::KingCount(Color::Black));
        }
        let side_text = field_or(&fields, 1, 'w');
        let side = if is_char(&side_text, 'w') {
            Color::White
        } else if is_char(&side_text, 'b') {
            Color::Black
        } else {
            return Err(FenError::BadSide);
        };
        let mover_kings = match side {
            Color::White => white_kings,
            Color::Black => black_kings,
        };
        if mover_kings == 0 {
            return Err(FenError::KingCount(side));
        }
        board.side_to_move = side;
        let castling_text = field_or(&fields, 2, '-');
        board.castling = CastlingRights {
            white_kingside: has_char(&castling_text, 'K'),
            white_queenside: has_char(&castling_text, 'Q'),
            black_kingside: has_char(&castling_text, 'k'),
            black_queenside: has_char(&castling_text, 'q'),
        };
        let ep_text = field_or(&fields, 3, '-');
        board.en_passant = if is_char(&ep_text, '-') {
            None
        } else {
            let len = ep_text.len();
            assert(ep_text@.subrange(0, len as int) == ep_text@);
            match Square::from_chars(&ep_text, 0, len) {
                Some(sq) => Some(sq),
                None => {
                    return Err(FenError::BadEnPassant);
                },
            }
        };
        let half_text = field_or(&fields, 4, '0');
        board.halfmove_clock = match parse_u32_exec(&half_text) {
            Some(n) => n,
            None => {
                return Err(FenError::BadHalfmove);
            },
        };
        let full_text = field_or(&fields, 5, '1');
        board.fullmove_number = match parse_u32_exec(&full_text) {
            Some(n) => n,
            None => {
                return Err(FenError::BadFullmove);
            },
        };
        assert forall|q: int| 0 <= q < 64 implies #[trigger] board.at(q) == fen_cells(fen_ranks(fen@))[q] by {}
        Ok(board)
    }
}


// ---------------------------------------------------------------------------
// Writing a FEN
// ---------------------------------------------------------------------------

/// The cells of rank `rank` of `b`, file a first.
pub open spec fn row(b: Board, rank: int) -> Seq<Option<Piece>> {
    Seq::new(8, |f: int| b.at(rank * 8 + f))
}

/// The digit for a run of `run` empty files, if there is one.
pub open spec fn run_text(run: int) -> Seq<char> {
    if run > 0 { seq![crate::text::digit_char(run)] } else { Seq::<char>::empty() }
}

/// The FEN text of `cells[i..8]`, preceded by a run of `run` empty files:
/// each run of empty files as its length, each piece as its letter.
pub open spec fn encode(cells: Seq<Option<Piece>>, i: int, run: int) -> Seq<char>
    decreases 8 - i,
{
    if i >= 8 {
        run_text(run)
    } else if cells[i] is None {
        encode(cells, i + 1, run + 1)
    } else {
        run_text(run) + seq![piece_char(cells[i].unwrap())] + encode(cells, i + 1, 0)
    }
}

/// The FEN text of rank `rank` of `b`.
pub open spec fn rank_text(b: Board, rank: int) -> Seq<char> {
    encode(row(b, rank), 0, 0)
}

/// The FEN placement of ranks `rank` down to 1, separated by slashes.
pub open spec fn placement_text(b: Board, rank: int) -> Seq<char>
    decreases rank,
{
    if rank <= 0 {
        rank_text(b, 0)
    } else {
        rank_text(b, rank) + seq!['/'] + placement_text(b, rank - 1)
    }
}

pub open spec fn side_text(c: Color) -> Seq<char> {
    if c == Color::White { seq!['w'] } else { seq!['b'] }
}

/// The letters of the rights held, `KQkq` order, or `-` for none.
pub open spec fn castling_text(c: CastlingRights) -> Seq<char> {
    let t = (if c.white_kingside { seq!['K'] } else { Seq::<char>::empty() })
        + (if c.white_queenside { seq!['Q'] } else { Seq::<char>::empty() })
        + (if c.black_kingside { seq!['k'] } else { Seq::<char>::empty() })
        + (if c.black_queenside { seq!['q'] } else { Seq::<char>::empty() });
    if t.len() == 0 { seq!['-'] } else { t }
}

pub open spec fn en_passant_text(ep: Option<Square>) -> Seq<char> {
    match ep {
        None => seq!['-'],
        Some(sq) => crate::square::square_name(sq),
    }
}

/// The FEN of `b`: placement, side, castling, en passant, halfmove clock
/// and fullmove number, separated by single spaces.
pub open spec fn fen_text(b: Board) -> Seq<char> {
    placement_text(b, 7) + seq![' '] + side_text(b.side_to_move) + seq![' '] + castling_text(b.castling)
        + seq![' '] + en_passant_text(b.en_passant) + seq![' '] + crate::text::decimal_text(b.halfmove_clock as nat)
        + seq![' '] + crate::text::decimal_text(b.fullmove_number as nat)
}

/// Appends every character of `t` to `s`.
fn push_text(s: &mut String, t: &String)
    ensures
        final(s)@ == old(s)@ + t@,
{
    s.append(t.as_str());
}

/// Appends the FEN text of rank `rank` of `b` to `out`.
fn write_rank(b: &Board, rank: u8, out: &mut String)
    requires
        rank < 8,
    ensures
        final(out)@ == old(out)@ + rank_text(*b, rank as int),
{
    let ghost cells = row(*b, rank as int);
    let ghost base = old(out)@;
    let mut empty_run: u8 = 0;
    let mut file: u8 = 0;
    assert(out@ + encode(cells, 0, 0) == base + rank_text(*b, rank as int));
    while file < 8
        invariant
            file <= 8,
            empty_run <= file,
            rank < 8,
            cells == row(*b, rank as int),
            out@ + encode(cells, file as int, empty_run as int) == base + rank_text(*b, rank as int),
        decreases 8 - file,
    {
        let ghost o = out@;
        let ghost run = empty_run as int;
        match b.get(Square::new(file, rank)) {
            Some(piece) => {
                assert(cells[file as int] == Some(piece));
                assert(encode(cells, file as int, run) == run_text(run) + seq![piece_char(piece)] + encode(cells, file as int + 1, 0));
                if empty_run > 0 {
                    let c = ((48 + empty_run) as u8) as char;
                    assert(c == crate::text::digit_char(run));
                    crate::text::push_char(out, c);
                    empty_run = 0;
                }
                assert(out@ =~= o + run_text(run));
                crate::text::push_char(out, piece_symbol(piece));
                assert(out@ + encode(cells, file as int + 1, 0) =~= o + encode(cells, file as int, run));
            },
            None => {
                assert(cells[file as int] is None);
                assert(encode(cells, file as int, run) == encode(cells, file as int + 1, run + 1));
                empty_run += 1;
            },
        }
        file += 1;
    }
    let ghost o = out@;
    assert(encode(cells, 8, empty_run as int) == run_text(empty_run as int));
    if empty_run > 0 {
        let c = ((48 + empty_run) as u8) as char;
        assert(c == crate::text::digit_char(empty_run as int));
        crate::text::push_char(out, c);
    }
    assert(out@ =~= o + run_text(empty_run as int));
}

/// Appends the FEN castling field of `c` to `out`.
fn write_castling(c: CastlingRights, out: &mut String)
    ensures
        final(out)@ == old(out)@ + castling_text(c),
{
    let ghost base = old(out)@;
    if c.white_kingside {
        crate::text::push_char(out, 'K');
    }
    if c.white_queenside {
        crate::text::push_char(out, 'Q');
    }
    if c.black_kingside {
        crate::text::push_char(out, 'k');
    }
    if c.black_queenside {
        crate::text::push_char(out, 'q');
    }
    if !(c.white_kingside || c.white_queenside || c.black_kingside || c.black_queenside) {
        crate::text::push_char(out, '-');
    }
    assert(out@ =~= base + castling_text(c));
}

impl Board {
    /// Renders this position as a FEN (Forsyth-Edwards Notation) string.
    pub fn to_fen(&self) -> (s: String)
        requires
            self.en_passant matches Some(sq) ==> sq.valid(),
        ensures
            s@ == fen_text(*self),
    {
        let mut out = String::new();
        let mut i: u8 = 0;
        assert(out@ + placement_text(*self, 7) =~= placement_text(*self, 7));
        while i < 8
            invariant
                i <= 8,
                i < 8 ==> out@ + placement_text(*self, 7 - i) == placement_text(*self, 7),
                i == 8 ==> out@ == placement_text(*self, 7),
            decreases 8 - i,
        {
            let rank = 7 - i;
            let ghost base = out@;
            write_rank(self, rank, &mut out);
            if rank != 0 {
                crate::text::push_char(&mut out, '/');
                assert(placement_text(*self, rank as int) == rank_text(*self, rank as int) + seq!['/'] + placement_text(*self, rank as int - 1));
                assert(out@ + placement_text(*self, rank as int - 1) =~= base + placement_text(*self, rank as int));
            } else {
                assert(placement_text(*self, 0) == rank_text(*self, 0));
            }
            i += 1;
        }
        crate::text::push_char(&mut out, ' ');
        crate::text::push_char(&mut out, if self.side_to_move == Color::White { 'w' } else { 'b' });
        crate::text::push_char(&mut out, ' ');
        write_castling(self.castling, &mut out);
        crate::text::push_char(&mut out, ' ');
        match self.en_passant {
            Some(sq) => {
                let name = sq.to_algebraic();
                push_text(&mut out, &name);
            },
            None => {
                crate::text::push_char(&mut out, '-');
            },
        }
        crate::text::push_char(&mut out, ' ');
        let half = crate::text::u32_text(self.halfmove_clock);
        push_text(&mut out, &half);
        crate::text::push_char(&mut out, ' ');
        let full = crate::text::u32_text(self.fullmove_number);
        push_text(&mut out, &full);
        assert(out@ =~= fen_text(*self));
        out
    }
}


// ---------------------------------------------------------------------------
// Reading back what was written
// ---------------------------------------------------------------------------

/// No character of `s` separates pieces (whitespace or slash).
pub open spec fn no_sep(s: Seq<char>, on_space: bool) -> bool {
    forall|k: int| 0 <= k < s.len() ==> !separates(#[trigger] s[k], on_space)
}

/// A text without separators is a single piece.
proof fn lemma_pieces_single(a: Seq<char>, on_space: bool)
    requires
        no_sep(a, on_space),
    ensures
        pieces(a, on_space) == seq![a],
    decreases a.len(),
{
    if a.len() > 0 {
        assert(no_sep(a.drop_last(), on_space));
        lemma_pieces_single(a.drop_last(), on_space);
        assert(!separates(a.last(), on_space));
        assert(a.drop_last().push(a.last()) == a);
        assert(pieces(a, on_space) =~= seq![a]);
    } else {
        assert(a =~= Seq::<char>::empty());
    }
}

/// Splitting at a separator splits the pieces there.
proof fn lemma_pieces_concat(a: Seq<char>, x: char, b: Seq<char>, on_space: bool)
    requires
        separates(x, on_space),
    ensures
        pieces(a + seq![x] + b, on_space) == pieces(a, on_space) + pieces(b, on_space),
    decreases b.len(),
{
    if b.len() == 0 {
        assert(a + seq![x] + b == a + seq![x]);
        assert((a + seq![x]).drop_last() == a);
    } else {
        lemma_pieces_concat(a, x, b.drop_last(), on_space);
        assert((a + seq![x] + b).drop_last() == a + seq![x] + b.drop_last());
        assert((a + seq![x] + b).last() == b.last());
        lemma_pieces_nonempty(b.drop_last(), on_space);
        let p = pieces(a, on_space);
        let q = pieces(b.drop_last(), on_space);
        if separates(b.last(), on_space) {
            assert((p + q).push(Seq::<char>::empty()) =~= p + q.push(Seq::<char>::empty()));
        } else {
            assert((p + q).update((p + q).len() - 1, (p + q).last().push(b.last())) =~= p + q.update(q.len() - 1, q.last().push(b.last())));
        }
    }
}

proof fn lemma_filter_nonempty(s: Seq<Seq<char>>)
    requires
        forall|k: int| 0 <= k < s.len() ==> (#[trigger] s[k]).len() > 0,
    ensures
        s.filter(crate::text::nonempty_text()) == s,
    decreases s.len(),
{
    if s.len() > 0 {
        lemma_filter_nonempty(s.drop_last());
        s.drop_last().lemma_filter_push(s.last(), crate::text::nonempty_text());
        assert(s.drop_last().push(s.last()) == s);
    }
}

/// Reading the digit of a run then leaves the file after it.
proof fn lemma_scan_run(st_cells: Seq<Option<Piece>>, file: int, run: int)
    requires
        0 <= file,
        0 <= run,
        file + run <= 8,
    ensures
        scan_from((None, file, st_cells), run_text(run)) == (None::<FenError>, file + run, st_cells),
{
    if run > 0 {
        let c = crate::text::digit_char(run);
        assert(c as int == 48 + run);
        let st: RankScan = (None, file, st_cells);
        assert(run_text(run).drop_last() =~= Seq::<char>::empty());
        assert(scan_from(st, run_text(run).drop_last()) == st);
        assert(run_text(run).last() == c);
    }
}

/// Reading the FEN text of `cells[i..8]`, after a run of `run` empty
/// files, fills the remaining cells as `cells` has them.
proof fn lemma_scan_encode(cells: Seq<Option<Piece>>, i: int, run: int, st_cells: Seq<Option<Piece>>)
    requires
        cells.len() == 8,
        st_cells.len() == 8,
        0 <= run <= i <= 8,
        forall|f: int| 0 <= f < i - run ==> st_cells[f] == cells[f],
        forall|f: int| i - run <= f < 8 ==> (#[trigger] st_cells[f]) is None,
        forall|f: int| i - run <= f < i ==> (#[trigger] cells[f]) is None,
    ensures
        scan_from((None, i - run, st_cells), encode(cells, i, run)) == (None::<FenError>, 8int, cells),
    decreases 8 - i,
{
    if i >= 8 {
        lemma_scan_run(st_cells, i - run, run);
        assert(st_cells =~= cells);
    } else if cells[i] is None {
        lemma_scan_encode(cells, i + 1, run + 1, st_cells);
    } else {
        let p = cells[i].unwrap();
        let st0: RankScan = (None, i - run, st_cells);
        lemma_scan_concat(st0, run_text(run) + seq![piece_char(p)], encode(cells, i + 1, 0));
        lemma_scan_concat(st0, run_text(run), seq![piece_char(p)]);
        lemma_scan_run(st_cells, i - run, run);
        lemma_piece_char(p);
        let st1: RankScan = (None, i, st_cells);
        assert(seq![piece_char(p)].drop_last() =~= Seq::<char>::empty());
        assert(scan_from(st1, seq![piece_char(p)].drop_last()) == st1);
        assert(scan_from(st1, seq![piece_char(p)]) == scan_step(st1, piece_char(p)));
        let next = st_cells.update(i, Some(p));
        assert(scan_from(st1, seq![piece_char(p)]) == (None::<FenError>, i + 1, next));
        lemma_scan_encode(cells, i + 1, 0, next);
    }
}

/// A rank written as FEN reads back as that rank.
pub proof fn lemma_scan_rank_text(b: Board, rank: int)
    ensures
        scan_rank(rank_text(b, rank)) == (None::<FenError>, 8int, row(b, rank)),
{
    lemma_scan_encode(row(b, rank), 0, 0, empty_rank());
}

/// Rank text is made of digits and piece letters: no whitespace, no slash.
proof fn lemma_encode_chars(cells: Seq<Option<Piece>>, i: int, run: int)
    requires
        cells.len() == 8,
        0 <= run <= i <= 8,
    ensures
        no_sep(encode(cells, i, run), true),
        no_sep(encode(cells, i, run), false),
    decreases 8 - i,
{
    if i >= 8 {
        if run > 0 {
            assert(crate::text::digit_char(run) as int == 48 + run);
        }
    } else if cells[i] is None {
        lemma_encode_chars(cells, i + 1, run + 1);
    } else {
        lemma_encode_chars(cells, i + 1, 0);
        lemma_piece_char(cells[i].unwrap());
        if run > 0 {
            assert(crate::text::digit_char(run) as int == 48 + run);
        }
        let t = run_text(run) + seq![piece_char(cells[i].unwrap())] + encode(cells, i + 1, 0);
        assert forall|k: int| 0 <= k < t.len() implies !separates(#[trigger] t[k], true) && !separates(t[k], false) by {
            if k >= run_text(run).len() + 1 {
                assert(t[k] == encode(cells, i + 1, 0)[k - run_text(run).len() - 1]);
            }
        }
    }
}


/// The placement splits at its slashes into the rank texts, top rank
/// first, and holds no whitespace.
proof fn lemma_placement_pieces(b: Board, r: int)
    requires
        0 <= r <= 7,
    ensures
        pieces(placement_text(b, r), false) == Seq::new((r + 1) as nat, |k: int| rank_text(b, r - k)),
        no_sep(placement_text(b, r), true),
        placement_text(b, r).len() > 0,
    decreases r,
{
    lemma_encode_chars(row(b, r), 0, 0);
    lemma_pieces_single(rank_text(b, r), false);
    lemma_scan_rank_text(b, r);
    if rank_text(b, r).len() == 0 {
        assert(rank_text(b, r) == Seq::<char>::empty());
        assert(scan_rank(rank_text(b, r)) == (None::<FenError>, 0int, empty_rank()));
    }
    if r > 0 {
        lemma_placement_pieces(b, r - 1);
        lemma_pieces_concat(rank_text(b, r), '/', placement_text(b, r - 1), false);
        assert(seq![rank_text(b, r)] + Seq::new(r as nat, |k: int| rank_text(b, r - 1 - k))
            =~= Seq::new((r + 1) as nat, |k: int| rank_text(b, r - k)));
        let t = placement_text(b, r);
        assert forall|k: int| 0 <= k < t.len() implies !separates(#[trigger] t[k], true) by {
            let n = rank_text(b, r).len();
            if k > n {
                assert(t[k] == placement_text(b, r - 1)[k - n - 1]);
            }
        }
    } else {
        assert(seq![rank_text(b, 0)] =~= Seq::new(1, |k: int| rank_text(b, 0 - k)));
    }
}

/// The castling field reads back as the rights it was written from.
proof fn lemma_castling_text(c: CastlingRights)
    ensures
        rights_of(castling_text(c)) == c,
        no_sep(castling_text(c), true),
        castling_text(c).len() > 0,
{
    let e = Seq::<char>::empty();
    let a = if c.white_kingside { seq!['K'] } else { e };
    let b = if c.white_queenside { seq!['Q'] } else { e };
    let d = if c.black_kingside { seq!['k'] } else { e };
    let f = if c.black_queenside { seq!['q'] } else { e };
    let t = castling_text(c);
    assert forall|k: int| 0 <= k < t.len() implies (t[k] == 'K' || t[k] == 'Q' || t[k] == 'k' || t[k] == 'q' || t[k] == '-')
        && (#[trigger] t[k] == 'K' ==> c.white_kingside) && (t[k] == 'Q' ==> c.white_queenside)
        && (t[k] == 'k' ==> c.black_kingside) && (t[k] == 'q' ==> c.black_queenside) by {
        if (a + b + d + f).len() > 0 {
            let ab = a + b;
            let abd = ab + d;
            if k < abd.len() {
                if k < ab.len() {
                    if k < a.len() {
                        assert(t[k] == a[k]);
                    } else {
                        assert(t[k] == b[k - a.len()]);
                    }
                } else {
                    assert(t[k] == d[k - ab.len()]);
                }
            } else {
                assert(t[k] == f[k - abd.len()]);
            }
        }
    }
    if c.white_kingside {
        assert(t[0] == 'K');
    }
    if c.white_queenside {
        assert(t[a.len() as int] == 'Q');
    }
    if c.black_kingside {
        assert(t[(a + b).len() as int] == 'k');
    }
    if c.black_queenside {
        assert(t[(a + b + d).len() as int] == 'q');
    }
}

/// A square name reads back as its square.
proof fn lemma_square_name(sq: Square)
    requires
        sq.valid(),
    ensures
        square_from_name(crate::square::square_name(sq)) == Some(sq),
        no_sep(crate::square::square_name(sq), true),
        crate::square::square_name(sq).len() == 2,
{
    let n = crate::square::square_name(sq);
    assert(n[0] as int == 97 + sq.file);
    assert(n[1] as int == 49 + sq.rank);
}

/// The fields of a written FEN are its six parts.
proof fn lemma_fen_words(b: Board)
    requires
        b.en_passant matches Some(sq) ==> sq.valid(),
    ensures
        words(fen_text(b)) == seq![
            placement_text(b, 7),
            side_text(b.side_to_move),
            castling_text(b.castling),
            en_passant_text(b.en_passant),
            crate::text::decimal_text(b.halfmove_clock as nat),
            crate::text::decimal_text(b.fullmove_number as nat),
        ],
{
    let p = placement_text(b, 7);
    let sd = side_text(b.side_to_move);
    let c = castling_text(b.castling);
    let e = en_passant_text(b.en_passant);
    let h = crate::text::decimal_text(b.halfmove_clock as nat);
    let f = crate::text::decimal_text(b.fullmove_number as nat);
    lemma_placement_pieces(b, 7);
    lemma_castling_text(b.castling);
    crate::text::lemma_decimal_text(b.halfmove_clock as nat);
    crate::text::lemma_decimal_text(b.fullmove_number as nat);
    match b.en_passant {
        Some(sq) => { lemma_square_name(sq); },
        None => {},
    }
    assert(no_sep(sd, true));
    assert(no_sep(e, true));
    assert(no_sep(h, true));
    assert(no_sep(f, true));
    lemma_pieces_single(p, true);
    lemma_pieces_single(sd, true);
    lemma_pieces_single(c, true);
    lemma_pieces_single(e, true);
    lemma_pieces_single(h, true);
    lemma_pieces_single(f, true);
    let x1 = p + seq![' '] + sd;
    let x2 = x1 + seq![' '] + c;
    let x3 = x2 + seq![' '] + e;
    let x4 = x3 + seq![' '] + h;
    let x5 = x4 + seq![' '] + f;
    assert(x5 == fen_text(b));
    lemma_pieces_concat(p, ' ', sd, true);
    lemma_pieces_concat(x1, ' ', c, true);
    lemma_pieces_concat(x2, ' ', e, true);
    lemma_pieces_concat(x3, ' ', h, true);
    lemma_pieces_concat(x4, ' ', f, true);
    let all = seq![p, sd, c, e, h, f];
    assert(pieces(x5, true) =~= all);
    lemma_filter_nonempty(all);
}


proof fn lemma_ranks_ok(ranks: Seq<Seq<char>>, n: int)
    requires
        0 <= n <= ranks.len(),
        forall|k: int| 0 <= k < ranks.len() ==> rank_error(#[trigger] ranks[k]) is None,
    ensures
        ranks_error(ranks, n) is None,
    decreases n,
{
    if n > 0 {
        lemma_ranks_ok(ranks, n - 1);
    }
}

/// The positions FEN can describe: at most one king of each color, exactly
/// one for the side to move, and an en passant target on the board.
pub open spec fn fen_ready(b: Board) -> bool {
    &&& kings(b.squares@, Color::White, 64) <= 1
    &&& kings(b.squares@, Color::Black, 64) <= 1
    &&& kings(b.squares@, b.side_to_move, 64) == 1
    &&& (b.en_passant matches Some(sq) ==> sq.valid())
}

/// One FEN describes at most one position.
pub proof fn lemma_fen_describes_one(s: Seq<char>, b1: Board, b2: Board)
    requires
        fen_describes(s, b1),
        fen_describes(s, b2),
    ensures
        b1 == b2,
{
    assert forall|i: int| 0 <= i < 64 implies #[trigger] b1.at(i) == b2.at(i) by {
        assert(b1.at(i) == fen_cells(fen_ranks(s))[i]);
    }
    Board::lemma_ext(b1, b2);
}

/// Writing a position as FEN and reading it back gives the same position:
/// for every position FEN can describe, `to_fen`'s text is accepted and
/// describes that position and no other.
pub proof fn lemma_fen_round_trip(b: Board)
    requires
        fen_ready(b),
    ensures
        fen_error(fen_text(b)) is None,
        fen_describes(fen_text(b), b),
        forall|b2: Board| fen_describes(fen_text(b), b2) ==> b2 == b,
{
    let s = fen_text(b);
    lemma_fen_words(b);
    lemma_placement_pieces(b, 7);
    let ranks = fen_ranks(s);
    assert(ranks == Seq::new(8, |k: int| rank_text(b, 7 - k)));
    assert forall|k: int| 0 <= k < ranks.len() implies rank_error(#[trigger] ranks[k]) is None by {
        lemma_scan_rank_text(b, 7 - k);
    }
    lemma_ranks_ok(ranks, 8);
    let cells = fen_cells(ranks);
    assert forall|i: int| 0 <= i < 64 implies #[trigger] cells[i] == b.squares@[i] by {
        crate::board::lemma_index_split(i);
        lemma_scan_rank_text(b, i / 8);
        assert(ranks[7 - i / 8] == rank_text(b, i / 8));
    }
    assert(cells =~= b.squares@);
    lemma_castling_text(b.castling);
    crate::text::lemma_parse_decimal_text(b.halfmove_clock);
    crate::text::lemma_parse_decimal_text(b.fullmove_number);
    match b.en_passant {
        Some(sq) => {
            lemma_square_name(sq);
        },
        None => {},
    }
    assert(side_field(s) == side_text(b.side_to_move));
    assert forall|i: int| 0 <= i < 64 implies #[trigger] b.at(i) == fen_cells(fen_ranks(s))[i] by {}
    if b.side_to_move == Color::Black {
        assert(side_text(Color::Black)[0] != seq!['w'][0]);
    }
    assert(Some(b.side_to_move) == side_of(side_field(s)));
    assert(b.castling == rights_of(castling_field(s)));
    assert(b.en_passant == if en_passant_field(s) == seq!['-'] {
        None
    } else {
        square_from_name(en_passant_field(s))
    });
    assert(Some(b.halfmove_clock) == parse_u32(halfmove_field(s)));
    assert(Some(b.fullmove_number) == parse_u32(fullmove_field(s)));
    assert forall|b2: Board| fen_describes(fen_text(b), b2) implies b2 == b by {
        lemma_fen_describes_one(fen_text(b), b2, b);
    }
}

} // verus!
