use vstd::prelude::*;
use crate::board::{Board, start_cell};
use crate::fen::{fen_describes, fen_error};
use crate::movegen::{find_uci_move, legal};
use crate::moves::{Move, uci_name};
use crate::play::ENGINE_MOVE_TIME;
use crate::position::{is_sound, lemma_playable_moves, lemma_uci_names_unique, sound};
use crate::text::{chars_of, parse_u32, parse_u32_exec, same_text, split_words, string_of, texts, words};
use crate::types::Color;

verus! {

/// What the engine does with one line of UCI input.
pub enum UciCommand {
    /// `uci`: identify the engine.
    Identify,
    /// `isready`: answer `readyok`.
    Ready,
    /// `ucinewgame`: forget the current game.
    NewGame,
    /// `position ...`: track this position from now on.
    SetPosition(Board),
    /// `go ...`: search the tracked position for this many milliseconds.
    Go(u64),
    /// `stop`: nothing is searching while a line is read, so nothing to do.
    Stop,
    /// `quit`: leave the command loop.
    Quit,
    /// Anything else, including a position that cannot be set up.
    Ignore,
}

/// The number of moves the remaining time is shared over when `go` names
/// no `movestogo` (or names zero).
pub const DEFAULT_MOVES_TO_GO: u32 = 30;

/// The line is the single word `w`, with nothing before or after it but
/// white space.
pub open spec fn only_word(t: Seq<Seq<char>>, w: Seq<char>) -> bool {
    t.len() == 1 && t[0] == w
}

/// The first token is `w`.
pub open spec fn first_is(t: Seq<Seq<char>>, w: Seq<char>) -> bool {
    t.len() > 0 && t[0] == w
}

/// The number after the first `name` among tokens `i..`: `None` when no
/// `name` is followed by a token, or when that token is not a `u32`.
pub open spec fn param_from(t: Seq<Seq<char>>, name: Seq<char>, i: int) -> Option<u32>
    decreases t.len() - i,
{
    if i < 0 || i + 1 >= t.len() {
        None
    } else if t[i] == name {
        parse_u32(t[i + 1])
    } else {
        param_from(t, name, i + 1)
    }
}

/// The number after the first `name` of a `go` command.
pub open spec fn param(t: Seq<Seq<char>>, name: Seq<char>) -> Option<u32> {
    param_from(t, name, 1)
}

/// The search time a `go` command asks for, in milliseconds: its
/// `movetime`; otherwise the mover's remaining time (`wtime` or `btime`)
/// shared over `movestogo` moves (30 when absent or zero); otherwise the
/// engine's default move time.
pub open spec fn go_budget(t: Seq<Seq<char>>, side: Color) -> u64 {
    let clock = if side == Color::White { param(t, "wtime"@) } else { param(t, "btime"@) };
    let moves_to_go = match param(t, "movestogo"@) {
        Some(n) => if n > 0 { n as int } else { DEFAULT_MOVES_TO_GO as int },
        None => DEFAULT_MOVES_TO_GO as int,
    };
    match param(t, "movetime"@) {
        Some(n) => n as u64,
        None => match clock {
            Some(c) => (c as int / moves_to_go) as u64,
            None => ENGINE_MOVE_TIME,
        },
    }
}

/// The tokens joined by single spaces.
pub open spec fn joined(t: Seq<Seq<char>>) -> Seq<char>
    decreases t.len(),
{
    if t.len() == 0 {
        Seq::empty()
    } else if t.len() == 1 {
        t[0]
    } else {
        joined(t.drop_last()) + seq![' '] + t.last()
    }
}

/// The index of the first `moves` token from index `i` on (the length
/// when there is none).
pub open spec fn moves_index(t: Seq<Seq<char>>, i: int) -> int
    decreases t.len() - i,
{
    if i >= t.len() || i < 0 {
        t.len() as int
    } else if t[i] == "moves"@ {
        i
    } else {
        moves_index(t, i + 1)
    }
}

/// The position reached by playing the moves named `names` in turn from
/// `b`, each one the legal move of that name from a sound position; `None`
/// as soon as one cannot be played.
pub open spec fn play_names(b: Board, names: Seq<Seq<char>>) -> Option<Board>
    decreases names.len(),
{
    if names.len() == 0 {
        Some(b)
    } else if sound(b) && exists|m: Move| #[trigger] legal(b, m) && uci_name(m) == names[0] {
        let m = choose|m: Move| #[trigger] legal(b, m) && uci_name(m) == names[0];
        play_names(b.after_move(m), names.drop_first())
    } else {
        None
    }
}

/// `b` is the standard starting position.
pub open spec fn is_start(b: Board) -> bool {
    &&& forall|i: int| 0 <= i < 64 ==> #[trigger] b.at(i) == start_cell(i)
    &&& b.side_to_move == Color::White
    &&& b.castling.white_kingside && b.castling.white_queenside
    &&& b.castling.black_kingside && b.castling.black_queenside
    &&& b.en_passant.is_none()
    &&& b.halfmove_clock == 0
    &&& b.fullmove_number == 1
}

/// `base` is the position a `position` command starts from: the starting
/// position for `startpos`, or what the FEN fields after `fen` (up to
/// `moves`) describe, read without error.
pub open spec fn position_base(t: Seq<Seq<char>>, base: Board) -> bool {
    let k = moves_index(t, 2);
    ||| (t.len() > 1 && t[1] == "startpos"@ && is_start(base))
    ||| (t.len() > 1 && t[1] == "fen"@ && {
        let fen = joined(t.subrange(2, k));
        &&& fen_error(fen) is None
        &&& fen_describes(fen, base)
    })
}

/// The move names of a `position` command: the tokens after `moves`.
pub open spec fn move_names(t: Seq<Seq<char>>) -> Seq<Seq<char>> {
    let k = moves_index(t, 2);
    if k < t.len() { t.subrange(k + 1, t.len() as int) } else { Seq::empty() }
}


/// Whether `token` is the text `word`.
fn is_word(token: &Vec<char>, word: &str) -> (r: bool)
    ensures
        r == (token@ == word@),
{
    let w = chars_of(word);
    same_text(token, &w)
}

/// The number after the first `name` among `tokens[i..]`.
fn find_param(tokens: &Vec<Vec<char>>, name: &str, i: usize) -> (r: Option<u32>)
    requires
        i <= tokens@.len(),
    ensures
        r == param_from(texts(tokens@), name@, i as int),
    decreases tokens@.len() - i,
{
    let ghost t = texts(tokens@);
    if i >= tokens.len() || i + 1 >= tokens.len() {
        return None;
    }
    assert(t[i as int] == tokens@[i as int]@);
    assert(t[i as int + 1] == tokens@[i as int + 1]@);
    if is_word(&tokens[i], name) {
        parse_u32_exec(&tokens[i + 1])
    } else {
        find_param(tokens, name, i + 1)
    }
}

/// The search time a `go` command asks for (see `go_budget`).
fn read_go(tokens: &Vec<Vec<char>>, side: Color) -> (ms: u64)
    requires
        tokens@.len() >= 1,
    ensures
        ms == go_budget(texts(tokens@), side),
{
    let movetime = find_param(tokens, "movetime", 1);
    let clock = match side {
        Color::White => find_param(tokens, "wtime", 1),
        Color::Black => find_param(tokens, "btime", 1),
    };
    let moves_to_go = match find_param(tokens, "movestogo", 1) {
        Some(n) => if n > 0 { n } else { DEFAULT_MOVES_TO_GO },
        None => DEFAULT_MOVES_TO_GO,
    };
    match movetime {
        Some(n) => n as u64,
        None => match clock {
            Some(c) => (c / moves_to_go) as u64,
            None => ENGINE_MOVE_TIME,
        },
    }
}

/// The first `moves` token at index `i` or later.
fn find_moves(tokens: &Vec<Vec<char>>, i: usize) -> (k: usize)
    requires
        i <= tokens@.len(),
    ensures
        k == moves_index(texts(tokens@), i as int),
        i <= k <= tokens@.len(),
    decreases tokens@.len() - i,
{
    if i >= tokens.len() {
        return tokens.len();
    }
    assert(texts(tokens@)[i as int] == tokens@[i as int]@);
    if is_word(&tokens[i], "moves") {
        i
    } else {
        find_moves(tokens, i + 1)
    }
}

/// Tokens `from..to` joined by single spaces.
fn join_tokens(tokens: &Vec<Vec<char>>, from: usize, to: usize) -> (s: String)
    requires
        from <= to <= tokens@.len(),
    ensures
        s@ == joined(texts(tokens@).subrange(from as int, to as int)),
{
    let ghost t = texts(tokens@);
    let mut out: Vec<char> = Vec::new();
    let mut i: usize = from;
    assert(t.subrange(from as int, from as int) =~= Seq::<Seq<char>>::empty());
    while i < to
        invariant
            from <= i <= to,
            to <= tokens@.len(),
            t == texts(tokens@),
            out@ == joined(t.subrange(from as int, i as int)),
        decreases to - i,
    {
        let ghost before = out@;
        let ghost part = t.subrange(from as int, i as int + 1);
        assert(part.drop_last() =~= t.subrange(from as int, i as int));
        assert(part.last() == tokens@[i as int]@);
        if i > from {
            out.push(' ');
        }
        let word = &tokens[i];
        let mut k: usize = 0;
        let ghost mid = out@;
        while k < word.len()
            invariant
                k <= word@.len(),
                out@ == mid + word@.take(k as int),
            decreases word@.len() - k,
        {
            out.push(word[k]);
            k += 1;
            assert(out@ =~= mid + word@.take(k as int));
        }
        assert(word@.take(word@.len() as int) == word@);
        if i > from {
            assert(out@ =~= joined(part));
        } else {
            assert(part =~= seq![tokens@[i as int]@]);
            assert(out@ =~= joined(part));
        }
        i += 1;
    }
    string_of(&out)
}

/// Plays the moves named by `tokens[i..]` from `board`.
fn play_tokens(board: Board, tokens: &Vec<Vec<char>>, i: usize) -> (r: Option<Board>)
    requires
        i <= tokens@.len(),
    ensures
        r == play_names(board, texts(tokens@).subrange(i as int, tokens@.len() as int)),
    decreases tokens@.len() - i,
{
    let ghost names = texts(tokens@).subrange(i as int, tokens@.len() as int);
    if i >= tokens.len() {
        return Some(board);
    }
    assert(names[0] == tokens@[i as int]@);
    assert(names.drop_first() =~= texts(tokens@).subrange(i as int + 1, tokens@.len() as int));
    if !is_sound(&board) {
        return None;
    }
    proof { lemma_playable_moves(board); }
    let name = string_of(&tokens[i]);
    match find_uci_move(&board, name.as_str()) {
        Some(mv) => {
            proof {
                let m = choose|m: Move| #[trigger] legal(board, m) && uci_name(m) == names[0];
                lemma_uci_names_unique(board, m, mv);
            }
            let next = board.make_move(mv);
            play_tokens(next, tokens, i + 1)
        },
        None => None,
    }
}

/// Reads one line of UCI input against the tracked position `board`.
///
/// `position startpos [moves ...]` and `position fen <fields> [moves ...]`
/// set up a position and play the named moves, each of which must be legal
/// in turn; a position that cannot be read or played is ignored. `go`
/// asks for a search of the time `go_budget` gives.
pub fn read_command(board: &Board, line: &str) -> (c: UciCommand)
    ensures
        ({
            let t = words(line@);
            match c {
                UciCommand::Identify => only_word(t, "uci"@),
                UciCommand::Ready => only_word(t, "isready"@),
                UciCommand::NewGame => only_word(t, "ucinewgame"@),
                UciCommand::Stop => only_word(t, "stop"@),
                UciCommand::Quit => only_word(t, "quit"@),
                UciCommand::Go(ms) => first_is(t, "go"@) && ms == go_budget(t, board.side_to_move),
                UciCommand::SetPosition(b) => first_is(t, "position"@)
                    && exists|base: Board| position_base(t, base) && play_names(base, move_names(t)) == Some(b),
                UciCommand::Ignore => {
                    &&& !only_word(t, "uci"@) && !only_word(t, "isready"@) && !only_word(t, "ucinewgame"@)
                    &&& !only_word(t, "stop"@) && !only_word(t, "quit"@) && !first_is(t, "go"@)
                    &&& first_is(t, "position"@) ==> forall|base: Board| #[trigger] position_base(t, base)
                        ==> play_names(base, move_names(t)) is None
                },
            }
        }),
{
    proof {
        reveal_strlit("uci");
        reveal_strlit("isready");
        reveal_strlit("ucinewgame");
        reveal_strlit("stop");
        reveal_strlit("quit");
        reveal_strlit("go");
        reveal_strlit("position");
        reveal_strlit("startpos");
        reveal_strlit("fen");
    }
    let cs = chars_of(line);
    let tokens = split_words(&cs);
    let ghost t = words(line@);
    assert(t == texts(tokens@));
    if tokens.len() == 0 {
        return UciCommand::Ignore;
    }
    assert(t[0] == tokens@[0]@);
    let first = &tokens[0];
    if tokens.len() == 1 && is_word(first, "uci") {
        return UciCommand::Identify;
    }
    if tokens.len() == 1 && is_word(first, "isready") {
        return UciCommand::Ready;
    }
    if tokens.len() == 1 && is_word(first, "ucinewgame") {
        return UciCommand::NewGame;
    }
    if tokens.len() == 1 && is_word(first, "stop") {
        return UciCommand::Stop;
    }
    if tokens.len() == 1 && is_word(first, "quit") {
        return UciCommand::Quit;
    }
    if is_word(first, "go") {
        return UciCommand::Go(read_go(&tokens, board.side_to_move));
    }
    if !is_word(first, "position") {
        return UciCommand::Ignore;
    }
    assert(first_is(t, "position"@));
    let k = if tokens.len() >= 2 { find_moves(&tokens, 2) } else { tokens.len() };
    assert(tokens.len() >= 2 ==> t[1] == tokens@[1]@);
    let base = if tokens.len() >= 2 && is_word(&tokens[1], "startpos") {
        Board::starting_position()
    } else if tokens.len() >= 2 && is_word(&tokens[1], "fen") {
        let fen = join_tokens(&tokens, 2, k);
        match Board::from_fen(fen.as_str()) {
            Ok(b) => b,
            Err(_) => {
                proof {
                    assert forall|base: Board| #[trigger] position_base(t, base) implies play_names(base, move_names(t)) is None by {
                        assert(t[1] != "startpos"@);
                    }
                }
                return UciCommand::Ignore;
            },
        }
    } else {
        return UciCommand::Ignore;
    };
    let ghost names = move_names(t);
    assert(position_base(t, base));
    let start = if k < tokens.len() { k + 1 } else { tokens.len() };
    assert(names == texts(tokens@).subrange(start as int, tokens@.len() as int));
    match play_tokens(base, &tokens, start) {
        Some(b) => {
            assert(position_base(t, base) && play_names(base, move_names(t)) == Some(b));
            UciCommand::SetPosition(b)
        },
        None => {
            proof {
                assert forall|other: Board| #[trigger] position_base(t, other) implies play_names(other, names) is None by {
                    lemma_same_base(t, base, other);
                }
            }
            UciCommand::Ignore
        },
    }
}

/// A `position` command starts from one position at most.
proof fn lemma_same_base(t: Seq<Seq<char>>, a: Board, b: Board)
    requires
        position_base(t, a),
        position_base(t, b),
    ensures
        a == b,
{
    reveal_strlit("startpos");
    reveal_strlit("fen");
    assert("startpos"@.len() == 8 && "fen"@.len() == 3);
    let k = moves_index(t, 2);
    if t[1] == "startpos"@ {
        assert(t[1] != "fen"@);
        Board::lemma_ext(a, b);
    } else {
        assert(t[1] == "fen"@);
        let fen = joined(t.subrange(2, k));
        crate::fen::lemma_fen_describes_one(fen, a, b);
    }
}

} // verus!
