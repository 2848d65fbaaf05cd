use vstd::prelude::*;
use crate::moves::{Move, MoveKind};
use crate::square::Square;
use crate::types::{CastlingRights, Color, PieceKind};

verus! {

#[derive(Debug, Clone, Copy, PartialEq, Eq, Structural)]
pub struct Piece {
    pub kind: PieceKind,
    pub color: Color,
}

/// Board state as a flat 8x8 array of optional pieces, plus the rest of a
/// chess position: side to move, castling rights, the en passant target
/// square (if any), and the two FEN move counters.
#[derive(Clone, Copy)]
pub struct Board {
    pub squares: [Option<Piece>; 64],
    pub side_to_move: Color,
    pub castling: CastlingRights,
    pub en_passant: Option<Square>,
    pub halfmove_clock: u32,
    pub fullmove_number: u32,
}

/// The piece kind standing on `file` of each side's back rank at the start.
pub open spec fn back_rank_kind(file: int) -> PieceKind {
    if file == 0 || file == 7 {
        PieceKind::Rook
    } else if file == 1 || file == 6 {
        PieceKind::Knight
    } else if file == 2 || file == 5 {
        PieceKind::Bishop
    } else if file == 3 {
        PieceKind::Queen
    } else {
        PieceKind::King
    }
}

/// The occupant of square index `i` in the standard starting position.
pub open spec fn start_cell(i: int) -> Option<Piece> {
    start_piece(i % 8, i / 8)
}

/// The occupant of (`file`, `rank`) in the standard starting position.
pub open spec fn start_piece(file: int, rank: int) -> Option<Piece> {
    if rank == 0 {
        Some(Piece { kind: back_rank_kind(file), color: Color::White })
    } else if rank == 1 {
        Some(Piece { kind: PieceKind::Pawn, color: Color::White })
    } else if rank == 6 {
        Some(Piece { kind: PieceKind::Pawn, color: Color::Black })
    } else if rank == 7 {
        Some(Piece { kind: back_rank_kind(file), color: Color::Black })
    } else {
        None
    }
}

/// The square at (`file`, `rank`), for coordinates on the board.
pub open spec fn sq(file: int, rank: int) -> Square {
    Square { file: file as u8, rank: rank as u8 }
}

/// Castling rights left after `mv` moves `moved`: a king move clears both
/// rights of its color, and a move from or to a corner clears the right
/// tied to the rook that starts there.
pub open spec fn rights_after(c: CastlingRights, mv: Move, moved: Piece) -> CastlingRights {
    let king_moved = moved.kind == PieceKind::King;
    let touches = |f: u8, r: u8| (mv.from.file == f && mv.from.rank == r) || (mv.to.file == f && mv.to.rank == r);
    CastlingRights {
        white_kingside: c.white_kingside && !(king_moved && moved.color == Color::White) && !touches(7, 0),
        white_queenside: c.white_queenside && !(king_moved && moved.color == Color::White) && !touches(0, 0),
        black_kingside: c.black_kingside && !(king_moved && moved.color == Color::Black) && !touches(7, 7),
        black_queenside: c.black_queenside && !(king_moved && moved.color == Color::Black) && !touches(0, 7),
    }
}

/// Every board index is its rank times eight plus its file.
pub proof fn lemma_index_split(i: int)
    requires
        0 <= i < 64,
    ensures
        i == (i / 8) * 8 + i % 8,
        0 <= i % 8 < 8,
        0 <= i / 8 < 8,
{
}

impl Board {
    /// The occupant of square index `i` (`0 <= i < 64`).
    #[verifier::inline]
    pub open spec fn at(self, i: int) -> Option<Piece> {
        self.squares@[i]
    }

    /// This board with square index `i` holding `p` and nothing else changed.
    pub open spec fn with_cell(self, i: int, p: Option<Piece>) -> Board {
        Board { squares: vstd::array::spec_array_update(self.squares, i, p), ..self }
    }

    /// This board with the same pieces and the given side to move, castling
    /// rights, en passant target and move counters.
    pub open spec fn with_state(
        self,
        side: Color,
        castling: CastlingRights,
        en_passant: Option<Square>,
        halfmove: u32,
        fullmove: u32,
    ) -> Board {
        Board {
            squares: self.squares,
            side_to_move: side,
            castling,
            en_passant,
            halfmove_clock: halfmove,
            fullmove_number: fullmove,
        }
    }

    /// Two boards with the same occupants and the same state are the same board.
    pub proof fn lemma_ext(a: Board, b: Board)
        requires
            forall|i: int| 0 <= i < 64 ==> #[trigger] a.at(i) == b.at(i),
            a.side_to_move == b.side_to_move,
            a.castling == b.castling,
            a.en_passant == b.en_passant,
            a.halfmove_clock == b.halfmove_clock,
            a.fullmove_number == b.fullmove_number,
        ensures
            a == b,
    {
        assert forall|i: int| 0 <= i < 64 implies a.squares[i] == b.squares[i] by {
            assert(a.at(i) == b.at(i));
        }
        assert(a.squares =~= b.squares);
    }

    /// The occupant of `s`.
    #[verifier::inline]
    pub open spec fn on(self, s: Square) -> Option<Piece> {
        self.at(s.idx())
    }

    pub fn empty() -> (b: Self)
        ensures
            forall|i: int| 0 <= i < 64 ==> (#[trigger] b.at(i)).is_none(),
            b.side_to_move == Color::White,
            !b.castling.white_kingside && !b.castling.white_queenside,
            !b.castling.black_kingside && !b.castling.black_queenside,
            b.en_passant.is_none(),
            b.halfmove_clock == 0,
            b.fullmove_number == 1,
    {
        Board {
            squares: [None; 64],
            side_to_move: Color::White,
            castling: CastlingRights::none(),
            en_passant: None,
            halfmove_clock: 0,
            fullmove_number: 1,
        }
    }

    /// Builds a board set up for the standard chess starting position.
    pub fn starting_position() -> (b: Self)
        ensures
            forall|i: int| 0 <= i < 64 ==> #[trigger] b.at(i) == start_cell(i),
            b.side_to_move == Color::White,
            b.castling.white_kingside && b.castling.white_queenside,
            b.castling.black_kingside && b.castling.black_queenside,
            b.en_passant.is_none(),
            b.halfmove_clock == 0,
            b.fullmove_number == 1,
    {
        let mut board = Board::empty();
        board.castling = CastlingRights::all();
        let back_rank = [
            PieceKind::Rook,
            PieceKind::Knight,
            PieceKind::Bishop,
            PieceKind::Queen,
            PieceKind::King,
            PieceKind::Bishop,
            PieceKind::Knight,
            PieceKind::Rook,
        ];
        assert(forall|f: int| 0 <= f < 8 ==> back_rank@[f] == back_rank_kind(f));
        let mut file: u8 = 0;
        while file < 8
            invariant
                file <= 8,
                forall|f: int| 0 <= f < 8 ==> back_rank@[f] == back_rank_kind(f),
                forall|f: int, r: int|
                    0 <= f < 8 && 0 <= r < 8 ==> #[trigger] board.at(r * 8 + f) == if f < file {
                        start_piece(f, r)
                    } else {
                        None
                    },
                board.side_to_move == Color::White,
                board.castling.white_kingside && board.castling.white_queenside,
                board.castling.black_kingside && board.castling.black_queenside,
                board.en_passant.is_none(),
                board.halfmove_clock == 0,
                board.fullmove_number == 1,
            decreases 8 - file,
        {
            let kind = back_rank[file as usize];
            board.set(Square::new(file, 0), Some(Piece { kind, color: Color::White }));
            board.set(Square::new(file, 1), Some(Piece { kind: PieceKind::Pawn, color: Color::White }));
            board.set(Square::new(file, 6), Some(Piece { kind: PieceKind::Pawn, color: Color::Black }));
            board.set(Square::new(file, 7), Some(Piece { kind, color: Color::Black }));
            file += 1;
        }
        assert forall|i: int| 0 <= i < 64 implies #[trigger] board.at(i) == start_cell(i) by {
            lemma_index_split(i);
            assert(board.at((i / 8) * 8 + i % 8) == start_piece(i % 8, i / 8));
        }
        board
    }

    pub fn get(&self, sq: Square) -> (p: Option<Piece>)
        requires
            sq.valid(),
        ensures
            p == self.on(sq),
    {
        self.squares[sq.index()]
    }

    pub fn set(&mut self, sq: Square, piece: Option<Piece>)
        requires
            sq.valid(),
        ensures
            *final(self) == old(self).with_cell(sq.idx(), piece),
    {
        self.squares[sq.index()] = piece;
    }

    /// Whether `mv` captures: its destination is occupied, or it is an en
    /// passant capture.
    pub open spec fn captures(self, mv: Move) -> bool {
        self.on(mv.to).is_some() || mv.kind == MoveKind::EnPassant
    }

    /// What `make_move` needs to run: squares on the board, a piece to move,
    /// and room in the move counters for the increments this move makes.
    pub open spec fn move_ok(self, mv: Move) -> bool {
        &&& mv.valid()
        &&& self.on(mv.from).is_some()
        &&& (self.on(mv.from).unwrap().kind == PieceKind::Pawn || self.captures(mv)
            || self.halfmove_clock < u32::MAX)
        &&& (self.side_to_move == Color::Black ==> self.fullmove_number < u32::MAX)
    }

    /// The pieces after `mv` relocates them: the moving piece (or its
    /// promotion) lands on the destination, a castling rook jumps over the
    /// king, and an en passant capture removes the pawn beside the origin.
    pub open spec fn cells_after(self, mv: Move) -> Board {
        let color = self.side_to_move;
        let piece = self.on(mv.from).unwrap();
        let r = mv.from.rank as int;
        let moved_extra = match mv.kind {
            MoveKind::EnPassant => self.with_cell(sq(mv.to.file as int, r).idx(), None),
            MoveKind::CastleKingside => self.with_cell(sq(5, r).idx(), self.on(sq(7, r))).with_cell(
                sq(7, r).idx(),
                None,
            ),
            MoveKind::CastleQueenside => self.with_cell(sq(3, r).idx(), self.on(sq(0, r))).with_cell(
                sq(0, r).idx(),
                None,
            ),
            MoveKind::Normal => self,
        };
        let placed = match mv.promotion {
            Some(k) => Piece { kind: k, color },
            None => piece,
        };
        moved_extra.with_cell(mv.from.idx(), None).with_cell(mv.to.idx(), Some(placed))
    }

    /// The position after playing `mv`.
    pub open spec fn after_move(self, mv: Move) -> Board {
        let color = self.side_to_move;
        let piece = self.on(mv.from).unwrap();
        let is_pawn = piece.kind == PieceKind::Pawn;
        let ep = if is_pawn && (mv.from.rank - mv.to.rank == 2 || mv.to.rank - mv.from.rank == 2) {
            Some(Square { file: mv.from.file, rank: ((mv.from.rank + mv.to.rank) / 2) as u8 })
        } else {
            None
        };
        let halfmove = if is_pawn || self.captures(mv) {
            0
        } else {
            (self.halfmove_clock + 1) as u32
        };
        let fullmove = if color == Color::Black {
            (self.fullmove_number + 1) as u32
        } else {
            self.fullmove_number
        };
        self.cells_after(mv).with_state(
            color.flip(),
            rights_after(self.castling, mv, piece),
            ep,
            halfmove,
            fullmove,
        )
    }

    /// Applies a move and returns the resulting position.
    ///
    /// Assumes `mv` is at least pseudo-legal for the side to move; callers
    /// filtering for full legality (no self-check) do so by calling this
    /// and then checking whether the moving side's king is attacked.
    pub fn make_move(&self, mv: Move) -> (next: Board)
        requires
            self.move_ok(mv),
        ensures
            next == self.after_move(mv),
    {
        let mut board = *self;
        let color = board.side_to_move;
        let piece = match board.get(mv.from) {
            Some(p) => p,
            None => { return *self; },  // unreachable: `move_ok` puts a piece on the origin
        };
        let is_pawn_move = piece.kind == PieceKind::Pawn;
        let is_capture = board.get(mv.to).is_some() || mv.kind == MoveKind::EnPassant;
        let ghost start = board;
        match mv.kind {
            MoveKind::EnPassant => {
                let captured = Square::new(mv.to.file, mv.from.rank);
                board.set(captured, None);
            },
            MoveKind::CastleKingside => {
                let rank = mv.from.rank;
                let rook = board.get(Square::new(7, rank));
                board.set(Square::new(5, rank), rook);
                board.set(Square::new(7, rank), None);
            },
            MoveKind::CastleQueenside => {
                let rank = mv.from.rank;
                let rook = board.get(Square::new(0, rank));
                board.set(Square::new(3, rank), rook);
                board.set(Square::new(0, rank), None);
            },
            MoveKind::Normal => {},
        }
        board.set(mv.from, None);
        let placed = match mv.promotion {
            Some(kind) => Piece { kind, color },
            None => piece,
        };
        board.set(mv.to, Some(placed));
        assert(board == start.cells_after(mv));
        board.update_castling_rights(mv, piece);
        let double_push = if mv.from.rank > mv.to.rank {
            mv.from.rank - mv.to.rank == 2
        } else {
            mv.to.rank - mv.from.rank == 2
        };
        board.en_passant = if is_pawn_move && double_push {
            Some(Square::new(mv.from.file, (mv.from.rank + mv.to.rank) / 2))
        } else {
            None
        };
        board.halfmove_clock = if is_pawn_move || is_capture {
            0
        } else {
            board.halfmove_clock + 1
        };
        if color == Color::Black {
            board.fullmove_number += 1;
        }
        board.side_to_move = color.opposite();
        board
    }

    /// Clears castling rights lost by this move: the king or a rook moving
    /// off its home square, or a rook being captured on its home square.
    fn update_castling_rights(&mut self, mv: Move, moved_piece: Piece)
        ensures
            *final(self) == old(self).with_state(
                old(self).side_to_move,
                rights_after(old(self).castling, mv, moved_piece),
                old(self).en_passant,
                old(self).halfmove_clock,
                old(self).fullmove_number,
            ),
    {
        if moved_piece.kind == PieceKind::King {
            match moved_piece.color {
                Color::White => {
                    self.castling.white_kingside = false;
                    self.castling.white_queenside = false;
                },
                Color::Black => {
                    self.castling.black_kingside = false;
                    self.castling.black_queenside = false;
                },
            }
        }
        let squares = [mv.from, mv.to];
        let mut k: usize = 0;
        while k < 2
            invariant
                k <= 2,
                squares@ == seq![mv.from, mv.to],
                self.squares == old(self).squares,
                self.side_to_move == old(self).side_to_move,
                self.en_passant == old(self).en_passant,
                self.halfmove_clock == old(self).halfmove_clock,
                self.fullmove_number == old(self).fullmove_number,
                ({
                    let done = |f: u8, r: u8| (k > 0 && mv.from.file == f && mv.from.rank == r) || (k > 1 && mv.to.file == f && mv.to.rank == r);
                    let king_moved = moved_piece.kind == PieceKind::King;
                    let c = old(self).castling;
                    &&& self.castling.white_kingside == (c.white_kingside && !(king_moved && moved_piece.color == Color::White) && !done(7, 0))
                    &&& self.castling.white_queenside == (c.white_queenside && !(king_moved && moved_piece.color == Color::White) && !done(0, 0))
                    &&& self.castling.black_kingside == (c.black_kingside && !(king_moved && moved_piece.color == Color::Black) && !done(7, 7))
                    &&& self.castling.black_queenside == (c.black_queenside && !(king_moved && moved_piece.color == Color::Black) && !done(0, 7))
                }),
            decreases 2 - k,
        {
            let s = squares[k];
            if s.file == 0 && s.rank == 0 {
                self.castling.white_queenside = false;
            } else if s.file == 7 && s.rank == 0 {
                self.castling.white_kingside = false;
            } else if s.file == 0 && s.rank == 7 {
                self.castling.black_queenside = false;
            } else if s.file == 7 && s.rank == 7 {
                self.castling.black_kingside = false;
            }
            k += 1;
        }
    }
}


/// The character a cell is drawn with: its piece letter, or `.` if empty.
pub open spec fn cell_char(p: Option<Piece>) -> char {
    match p {
        Some(x) => crate::fen::piece_char(x),
        None => '.',
    }
}

/// One drawn rank: each file's character followed by a space, then a
/// newline.
pub open spec fn line_text(b: Board, rank: int) -> Seq<char> {
    Seq::new(16, |k: int| if k % 2 == 0 { cell_char(b.at(rank * 8 + k / 2)) } else { ' ' }) + seq!['\n']
}

/// The drawing of ranks `rank` down to 1, top rank first.
pub open spec fn board_text(b: Board, rank: int) -> Seq<char>
    decreases rank + 1,
{
    if rank < 0 {
        Seq::<char>::empty()
    } else {
        line_text(b, rank) + board_text(b, rank - 1)
    }
}

impl Board {
    /// Draws the board as text, rank 8 first: one line per rank, each
    /// square as its piece letter (upper case for White) or `.`, each
    /// followed by a space.
    pub fn to_string(&self) -> (s: String)
        ensures
            s@ == board_text(*self, 7),
    {
        let mut out = String::new();
        let mut i: u8 = 0;
        assert(out@ + board_text(*self, 7) =~= board_text(*self, 7));
        while i < 8
            invariant
                i <= 8,
                out@ + board_text(*self, 7 - i) == board_text(*self, 7),
            decreases 8 - i,
        {
            let rank = 7 - i;
            let ghost base = out@;
            let mut file: u8 = 0;
            while file < 8
                invariant
                    file <= 8,
                    rank < 8,
                    out@ == base + line_text(*self, rank as int).take(2 * file),
                decreases 8 - file,
            {
                let symbol = match self.get(Square::new(file, rank)) {
                    Some(piece) => crate::fen::piece_symbol(piece),
                    None => '.',
                };
                let ghost o = out@;
                crate::text::push_char(&mut out, symbol);
                crate::text::push_char(&mut out, ' ');
                assert(line_text(*self, rank as int).take(2 * file + 2) =~= line_text(*self, rank as int).take(2 * file).push(symbol).push(' '));
                file += 1;
            }
            crate::text::push_char(&mut out, '\n');
            assert(line_text(*self, rank as int).take(16).push('\n') =~= line_text(*self, rank as int));
            assert(out@ + board_text(*self, rank as int - 1) =~= base + board_text(*self, rank as int));
            i += 1;
        }
        assert(board_text(*self, -1) == Seq::<char>::empty());
        assert(out@ =~= board_text(*self, 7));
        out
    }
}


/// A castling right is lost for good: no move grants one back, and a king
/// move takes both of its color's rights.
pub proof fn lemma_rights_only_shrink(b: Board, mv: Move)
    ensures
        b.after_move(mv).castling.white_kingside ==> b.castling.white_kingside,
        b.after_move(mv).castling.white_queenside ==> b.castling.white_queenside,
        b.after_move(mv).castling.black_kingside ==> b.castling.black_kingside,
        b.after_move(mv).castling.black_queenside ==> b.castling.black_queenside,
        b.on(mv.from) == Some(Piece { kind: PieceKind::King, color: Color::White }) ==> {
            &&& !b.after_move(mv).castling.white_kingside
            &&& !b.after_move(mv).castling.white_queenside
        },
        b.on(mv.from) == Some(Piece { kind: PieceKind::King, color: Color::Black }) ==> {
            &&& !b.after_move(mv).castling.black_kingside
            &&& !b.after_move(mv).castling.black_queenside
        },
{
}

} // verus!
