use vstd::prelude::*;
use crate::board::Board;
use crate::movegen::{find_uci_move, has_king, in_check, is_in_check, legal, legal_moves, moves_playable};
use crate::moves::{Move, uci_name};
use crate::search::{MAX_DEPTH, Search, deepening_safe, has_legal, search_safe, value};
use crate::text::{chars_of, is_space, string_of};

verus! {

/// Time budget for each engine reply in terminal play mode, in
/// milliseconds. Short enough to keep the game moving in an interactive
/// terminal session.
pub const ENGINE_MOVE_TIME: u64 = 500;

/// Whether the game at a position is still ongoing or has ended.
#[derive(Debug, Clone, Copy, PartialEq, Eq, Structural)]
pub enum GameStatus {
    Ongoing,
    Checkmate,
    Stalemate,
}

/// The state of the game at `b`: ongoing while the side to move has a
/// legal move, otherwise checkmate if it is in check and stalemate if not.
pub open spec fn status_of(b: Board) -> GameStatus {
    if has_legal(b) {
        GameStatus::Ongoing
    } else if in_check(b, b.side_to_move) {
        GameStatus::Checkmate
    } else {
        GameStatus::Stalemate
    }
}

/// Classifies `board` by whether the side to move has a legal move, and if
/// not, whether that's because they're in check (checkmate) or not
/// (stalemate).
pub fn game_status(board: &Board) -> (st: GameStatus)
    requires
        has_king(*board, board.side_to_move),
        moves_playable(*board),
    ensures
        st == status_of(*board),
{
    let ghost b = *board;
    let moves = legal_moves(board);
    if moves.len() > 0 {
        assert(moves@.contains(moves@[0]));
        return GameStatus::Ongoing;
    }
    proof {
        if has_legal(b) {
            let m = choose|m: Move| #[trigger] legal(b, m);
            assert(moves@.contains(m));
        }
    }
    if is_in_check(board) {
        GameStatus::Checkmate
    } else {
        GameStatus::Stalemate
    }
}

/// `s` without its leading whitespace.
pub open spec fn trim_front(s: Seq<char>) -> Seq<char>
    decreases s.len(),
{
    if s.len() > 0 && is_space(s[0]) {
        trim_front(s.drop_first())
    } else {
        s
    }
}

/// `s` without its trailing whitespace.
pub open spec fn trim_back(s: Seq<char>) -> Seq<char>
    decreases s.len(),
{
    if s.len() > 0 && is_space(s.last()) {
        trim_back(s.drop_last())
    } else {
        s
    }
}

/// `s` without leading and trailing whitespace (as `str::trim` gives it).
pub open spec fn trim(s: Seq<char>) -> Seq<char> {
    trim_back(trim_front(s))
}

/// The characters of `cs` without leading and trailing whitespace.
fn trim_chars(cs: &Vec<char>) -> (t: Vec<char>)
    ensures
        t@ == trim(cs@),
{
    let n = cs.len();
    let mut a: usize = 0;
    assert(cs@.skip(0) == cs@);
    while a < n && crate::text::is_space_exec(cs[a])
        invariant
            a <= n,
            n == cs@.len(),
            trim_front(cs@) == trim_front(cs@.skip(a as int)),
        decreases n - a,
    {
        assert(cs@.skip(a as int).drop_first() == cs@.skip(a as int + 1));
        a += 1;
    }
    let ghost front = cs@.skip(a as int);
    assert(trim_front(front) == front);
    let mut e: usize = n;
    while e > a && crate::text::is_space_exec(cs[e - 1])
        invariant
            a <= e <= n,
            n == cs@.len(),
            front == cs@.skip(a as int),
            trim_back(front) == trim_back(cs@.subrange(a as int, e as int)),
        decreases e,
    {
        assert(cs@.subrange(a as int, e as int).drop_last() == cs@.subrange(a as int, e as int - 1));
        e -= 1;
    }
    assert(front == cs@.subrange(a as int, n as int));
    let mut t: Vec<char> = Vec::new();
    let mut k: usize = a;
    while k < e
        invariant
            a <= k <= e,
            e <= n,
            n == cs@.len(),
            t@ == cs@.subrange(a as int, k as int),
        decreases e - k,
    {
        t.push(cs[k]);
        k += 1;
        assert(t@ =~= cs@.subrange(a as int, k as int));
    }
    assert(trim_back(t@) == t@);
    t
}

/// Applies a human move given in coordinate algebraic notation (e.g.
/// `"e2e4"`, or `"e7e8q"` for a promotion — the same notation
/// `Move::to_uci` produces), rejecting anything that isn't a legal move
/// in `board` rather than trusting free-form input. Surrounding whitespace
/// is ignored; a refusal reads `illegal move: ` followed by the input.
pub fn apply_human_move(board: &Board, input: &str) -> (r: Result<Board, String>)
    requires
        moves_playable(*board),
    ensures
        match r {
            Ok(next) => exists|m: Move| {
                &&& #[trigger] legal(*board, m)
                &&& uci_name(m) == trim(input@)
                &&& next == board.after_move(m)
            },
            Err(e) => {
                &&& forall|m: Move| #[trigger] legal(*board, m) ==> uci_name(m) != trim(input@)
                &&& e@ == "illegal move: "@ + input@
            },
        },
{
    let cs = chars_of(input);
    let trimmed = string_of(&trim_chars(&cs));
    match find_uci_move(board, trimmed.as_str()) {
        Some(mv) => Ok(board.make_move(mv)),
        None => {
            let mut message = "illegal move: ".to_owned();
            message.append(input);
            Err(message)
        },
    }
}

/// Has the engine choose and play a reply within `ENGINE_MOVE_TIME`.
/// Returns `None` if the side to move has no legal move (checkmate or
/// stalemate should already have ended the game before this is called).
pub fn engine_reply(board: &Board) -> (r: Option<(Move, Board)>)
    requires
        search_safe(*board, 1),
        deepening_safe(*board),
    ensures
        r is None <==> !has_legal(*board),
        r matches Some((mv, next)) ==> {
            &&& legal(*board, mv)
            &&& next == board.after_move(mv)
            &&& exists|d: nat| 1 <= d <= MAX_DEPTH && #[trigger] value(*board, d, 0)
                == -value(board.after_move(mv), (d - 1) as nat, 1)
        },
{
    let mut search = Search::new();
    match search.find_best_move(board, ENGINE_MOVE_TIME) {
        Some((mv, _)) => Some((mv, board.make_move(mv))),
        None => None,
    }
}

} // verus!
