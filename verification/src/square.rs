use vstd::prelude::*;

verus! {

/// A single square on the 8x8 board, addressed by file (a-h) and rank (1-8).
#[derive(Debug, Clone, Copy, PartialEq, Eq, Structural)]
pub struct Square {
    pub file: u8,  // 0..=7 for a..=h
    pub rank: u8,  // 0..=7 for 1..=8
}

/// The name of a square in algebraic notation: a file letter then a rank digit.
pub open spec fn square_name(sq: Square) -> Seq<char> {
    seq![(97 + sq.file) as char, (49 + sq.rank) as char]
}

/// The square that a two-character algebraic name such as `e3` denotes.
pub open spec fn square_from_name(s: Seq<char>) -> Option<Square> {
    if s.len() == 2 && 'a' <= s[0] <= 'h' && '1' <= s[1] <= '8' {
        Some(Square { file: (s[0] as int - 97) as u8, rank: (s[1] as int - 49) as u8 })
    } else {
        None
    }
}

impl Square {
    /// Whether the square lies on the board.
    pub open spec fn valid(self) -> bool {
        self.file < 8 && self.rank < 8
    }

    /// Index into a flat 64-element board array (a1 = 0, h8 = 63).
    pub open spec fn idx(self) -> int {
        self.rank * 8 + self.file
    }

    /// The square with index `i` (`0 <= i < 64`).
    pub open spec fn of_index(i: int) -> Square {
        Square { file: (i % 8) as u8, rank: (i / 8) as u8 }
    }

    pub fn new(file: u8, rank: u8) -> (sq: Self)
        requires
            file < 8,
            rank < 8,
        ensures
            sq.file == file,
            sq.rank == rank,
    {
        Square { file, rank }
    }

    /// Index into a flat 64-element board array (a1 = 0, h8 = 63).
    pub fn index(self) -> (i: usize)
        ensures
            i == self.idx(),
    {
        (self.rank as usize) * 8 + self.file as usize
    }

    /// Parses an algebraic square name such as `e3`.
    pub fn from_algebraic(s: &str) -> (sq: Option<Square>)
        ensures
            sq == square_from_name(s@),
    {
        let cs = crate::text::chars_of(s);
        Self::from_chars(&cs, 0, cs.len())
    }

    /// Parses the algebraic square name held in `cs[start..end]`.
    pub fn from_chars(cs: &Vec<char>, start: usize, end: usize) -> (sq: Option<Square>)
        requires
            start <= end <= cs@.len(),
        ensures
            sq == square_from_name(cs@.subrange(start as int, end as int)),
    {
        let ghost w = cs@.subrange(start as int, end as int);
        if end - start != 2 {
            return None;
        }
        let f = cs[start];
        let r = cs[start + 1];
        assert(w[0] == f && w[1] == r);
        if 'a' <= f && f <= 'h' && '1' <= r && r <= '8' {
            let file = (f as u32 - 97) as u8;
            let rank = (r as u32 - 49) as u8;
            Some(Square { file, rank })
        } else {
            None
        }
    }

    /// The algebraic name of this square, e.g. `e3`.
    pub fn to_algebraic(self) -> (s: String)
        requires
            self.valid(),
        ensures
            s@ == square_name(self),
    {
        let mut s = String::new();
        crate::text::push_char(&mut s, (97 + self.file) as char);
        crate::text::push_char(&mut s, (49 + self.rank) as char);
        assert(s@ =~= square_name(self));
        s
    }
}

} // verus!
