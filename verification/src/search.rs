use vstd::prelude::*;
use crate::board::Board;
use crate::eval::{lemma_material_bound, material, material_score};
use crate::history::HistoryTable;
use crate::killers::KillerMoves;
use crate::movegen::{has_king, in_check, is_in_check, king_of, legal, legal_in, legal_moves, move_order, moves_playable};
use crate::moves::{Move, candidate, lemma_move_code, move_code, move_space};
use crate::ordering::{is_capture, lemma_stably_sorted_contains, order_moves, order_moves_for_search, scorable, search_key, stably_sorted};
use crate::position::{
    capture_measure, lemma_capture_measure, lemma_capture_shrinks, lemma_count_bounds, lemma_legal_move_keeps_sound,
    lemma_playable_moves, lemma_pseudo_shape, piece_count, sound,
};
use crate::types::Color;
use std::time::{Duration, Instant};

verus! {

/// Score magnitude assigned to a checkmate found at the root (ply 0).
/// Mates found deeper in the tree score `MATE_SCORE - ply`, so the search
/// always prefers a shorter forced mate over a longer one.
pub const MATE_SCORE: i32 = 1_000_000;

/// The deepest iteration of iterative deepening.
pub const MAX_DEPTH: u32 = 64;

#[verifier::external_type_specification]
#[verifier::external_body]
pub struct ExInstant(std::time::Instant);

/// Reads the monotonic clock (`std::time::Instant::now`). Nothing is
/// promised of the reading.
#[verifier::external_body]
fn clock_now() -> Instant {
    Instant::now()
}

/// The time passed since `start` (`Instant::elapsed`). It depends on the
/// clock, so nothing is promised of it.
#[verifier::external_body]
fn elapsed_since(start: &Instant) -> Duration {
    start.elapsed()
}

/// The whole milliseconds of `d` (`Duration::as_millis`). A `Duration` is
/// opaque here, so the contract cannot say which number that is, and says
/// nothing.
#[verifier::external_body]
fn whole_millis(d: Duration) -> u128 {
    d.as_millis()
}

// ---------------------------------------------------------------------------
// The values the search computes
// ---------------------------------------------------------------------------

/// Below every score a search can return.
pub open spec fn neg_inf() -> int {
    i32::MIN as int
}

/// Material, sign-flipped so it reads as "how good is this position for
/// the side to move" rather than always from White's perspective.
pub open spec fn leaf_score(b: Board) -> int {
    if b.side_to_move == Color::White { material(b) } else { -material(b) }
}

/// The side to move has a legal move.
pub open spec fn has_legal(b: Board) -> bool {
    exists|m: Move| #[trigger] legal(b, m)
}

/// A legal move that captures.
pub open spec fn legal_capture(b: Board, m: Move) -> bool {
    legal(b, m) && b.captures(m)
}

pub open spec fn max(a: int, b: int) -> int {
    if a >= b { a } else { b }
}

/// The quiescence value: the side to move may stand pat on the material
/// count or make any legal capture, and the opponent answers the same way.
pub open spec fn qvalue(b: Board) -> int
    decreases capture_measure(b), move_space() + 1,
{
    max(leaf_score(b), best_capture(b, move_space() as int))
}

/// The best negated quiescence value over the legal captures numbered
/// `0..k` (below every score if there is none).
pub open spec fn best_capture(b: Board, k: int) -> int
    decreases capture_measure(b), k,
{
    if k <= 0 {
        neg_inf()
    } else {
        let m = candidate(k - 1);
        let prev = best_capture(b, k - 1);
        if legal_capture(b, m) && 0 <= capture_measure(b.after_move(m)) < capture_measure(b) {
            max(prev, -qvalue(b.after_move(m)))
        } else {
            prev
        }
    }
}

/// The negamax value of `b` searched `depth` plies deep, `ply` plies from
/// the root: a checkmated side scores `-(MATE_SCORE - ply)`, a stalemated
/// one 0, a position at depth 0 its quiescence value, and any other
/// position the best negated value over its legal moves.
pub open spec fn value(b: Board, depth: nat, ply: int) -> int
    decreases depth, move_space() + 1,
{
    if !has_legal(b) {
        if in_check(b, b.side_to_move) { -(MATE_SCORE - ply) } else { 0 }
    } else if depth == 0 {
        qvalue(b)
    } else {
        best_child(b, depth, ply, move_space() as int)
    }
}

/// The best negated child value over the legal moves numbered `0..k`.
pub open spec fn best_child(b: Board, depth: nat, ply: int, k: int) -> int
    decreases depth, k,
{
    if depth == 0 || k <= 0 {
        neg_inf()
    } else {
        let m = candidate(k - 1);
        let prev = best_child(b, depth, ply, k - 1);
        if legal(b, m) {
            max(prev, -value(b.after_move(m), (depth - 1) as nat, ply + 1))
        } else {
            prev
        }
    }
}

/// Fail-soft alpha-beta: a result at or below `alpha` bounds the true value
/// from above, one at or above `beta` bounds it from below, and one
/// strictly inside the window is the true value.
pub open spec fn fail_soft(r: int, v: int, alpha: int, beta: int) -> bool {
    &&& r <= alpha ==> v <= r
    &&& r >= beta ==> v >= r
    &&& (alpha < r && r < beta) ==> r == v
}

/// The largest magnitude a search value reaches.
pub open spec fn value_bound() -> int {
    i32::MAX as int - 1
}

pub proof fn lemma_best_child(b: Board, depth: nat, ply: int, k: int)
    requires
        depth > 0,
        0 <= k <= move_space(),
    ensures
        forall|m: Move| legal(b, m) && m.valid() && move_code(m) < k ==>
            -value(b.after_move(m), (depth - 1) as nat, ply + 1) <= #[trigger] best_child(b, depth, ply, k),
        best_child(b, depth, ply, k) == neg_inf() || exists|u: int| 0 <= u < k && legal(b, candidate(u))
            && best_child(b, depth, ply, k) == -value(b.after_move(#[trigger] candidate(u)), (depth - 1) as nat, ply + 1),
    decreases k,
{
    if k > 0 {
        lemma_best_child(b, depth, ply, k - 1);
        assert forall|m: Move| legal(b, m) && m.valid() && move_code(m) < k implies
            -value(b.after_move(m), (depth - 1) as nat, ply + 1) <= #[trigger] best_child(b, depth, ply, k) by {
            lemma_move_code(m);
            if move_code(m) < k - 1 {
                assert(-value(b.after_move(m), (depth - 1) as nat, ply + 1) <= best_child(b, depth, ply, k - 1));
            }
        }
        if best_child(b, depth, ply, k) != best_child(b, depth, ply, k - 1) {
            assert(best_child(b, depth, ply, k) == -value(b.after_move(candidate(k - 1)), (depth - 1) as nat, ply + 1));
        }
    }
}

pub proof fn lemma_best_capture(b: Board, k: int)
    requires
        0 <= k <= move_space(),
    ensures
        forall|m: Move| legal_capture(b, m) && m.valid() && move_code(m) < k && 0 <= capture_measure(b.after_move(m)) < capture_measure(b) ==>
            -qvalue(b.after_move(m)) <= #[trigger] best_capture(b, k),
        best_capture(b, k) == neg_inf() || exists|u: int| 0 <= u < k && legal_capture(b, candidate(u))
            && best_capture(b, k) == -qvalue(b.after_move(#[trigger] candidate(u))),
    decreases k,
{
    if k > 0 {
        lemma_best_capture(b, k - 1);
        assert forall|m: Move| legal_capture(b, m) && m.valid() && move_code(m) < k && 0 <= capture_measure(b.after_move(m)) < capture_measure(b) implies
            -qvalue(b.after_move(m)) <= #[trigger] best_capture(b, k) by {
            lemma_move_code(m);
            if move_code(m) < k - 1 {
                assert(-qvalue(b.after_move(m)) <= best_capture(b, k - 1));
            }
        }
        if best_capture(b, k) != best_capture(b, k - 1) {
            assert(best_capture(b, k) == -qvalue(b.after_move(candidate(k - 1))));
        }
    }
}

pub proof fn lemma_qvalue_bound(b: Board)
    ensures
        -57600 <= qvalue(b) <= 57600,
        -57600 <= leaf_score(b) <= 57600,
    decreases capture_measure(b), move_space() + 1,
{
    lemma_material_bound(b);
    lemma_best_capture_bound(b, move_space() as int);
}

pub proof fn lemma_best_capture_bound(b: Board, k: int)
    ensures
        neg_inf() <= best_capture(b, k) <= 57600,
    decreases capture_measure(b), k,
{
    if k > 0 {
        lemma_best_capture_bound(b, k - 1);
        let m = candidate(k - 1);
        if legal_capture(b, m) && 0 <= capture_measure(b.after_move(m)) < capture_measure(b) {
            lemma_qvalue_bound(b.after_move(m));
        }
    }
}

pub proof fn lemma_value_bound(b: Board, depth: nat, ply: int)
    requires
        0 <= ply,
        ply + depth <= i32::MAX,
    ensures
        -value_bound() <= value(b, depth, ply) <= value_bound(),
    decreases depth, move_space() + 1,
{
    if !has_legal(b) {
    } else if depth == 0 {
        lemma_qvalue_bound(b);
    } else {
        lemma_best_child_bound(b, depth, ply, move_space() as int);
        let m = choose|m: Move| #[trigger] legal(b, m);
        lemma_best_child(b, depth, ply, move_space() as int);
        lemma_legal_valid(b, m);
        lemma_move_code(m);
        lemma_value_bound(b.after_move(m), (depth - 1) as nat, ply + 1);
    }
}

pub proof fn lemma_best_child_bound(b: Board, depth: nat, ply: int, k: int)
    requires
        0 <= ply,
        ply + depth <= i32::MAX,
    ensures
        neg_inf() <= best_child(b, depth, ply, k) <= value_bound(),
    decreases depth, k,
{
    if depth > 0 && k > 0 {
        lemma_best_child_bound(b, depth, ply, k - 1);
        let m = candidate(k - 1);
        if legal(b, m) {
            lemma_value_bound(b.after_move(m), (depth - 1) as nat, ply + 1);
        }
    }
}

/// A checkmated side scores `-(MATE_SCORE - ply)` at any depth, so the
/// side delivering mate scores a shorter forced mate above a longer one.
pub proof fn lemma_shorter_mate_preferred(b1: Board, d1: nat, ply1: int, b2: Board, d2: nat, ply2: int)
    requires
        !has_legal(b1),
        in_check(b1, b1.side_to_move),
        !has_legal(b2),
        in_check(b2, b2.side_to_move),
        ply1 < ply2,
    ensures
        value(b1, d1, ply1) == -(MATE_SCORE - ply1),
        value(b2, d2, ply2) == -(MATE_SCORE - ply2),
        -value(b1, d1, ply1) > -value(b2, d2, ply2),
{
}

/// Legal moves have both squares on the board.
pub proof fn lemma_legal_valid(b: Board, m: Move)
    requires
        legal(b, m),
    ensures
        m.valid(),
{
}


// ---------------------------------------------------------------------------
// Searching
// ---------------------------------------------------------------------------

/// Room in the move counters for a search `depth` plies deep plus the
/// captures of its quiescence search.
pub open spec fn search_room(b: Board, depth: int) -> bool {
    b.halfmove_clock + depth + 66 < u32::MAX && b.fullmove_number + depth + 66 < u32::MAX
}

/// Room in the move counters for a quiescence search: it only captures, so
/// the halfmove clock resets, and it captures at most every piece.
pub open spec fn quiet_room(b: Board) -> bool {
    b.halfmove_clock + 2 < u32::MAX && b.fullmove_number + piece_count(b) + 2 < u32::MAX
}

/// Iterative deepening goes on past a completed `depth` when that depth is
/// below `MAX_DEPTH`, the move counters of `b` leave room for one ply
/// more, and the `elapsed_ms` milliseconds spent so far are under the
/// budget of `budget_ms`.
pub open spec fn deepen_allowed(elapsed_ms: int, budget_ms: int, depth: int, b: Board) -> bool {
    depth < MAX_DEPTH && search_room(b, depth + 1) && elapsed_ms < budget_ms
}

/// The clock readings of one run of iterative deepening on `b`: each of
/// `trail` (read after depth 1, 2, ...) let it go one depth deeper, and
/// `last`, read after the final depth, did not.
pub open spec fn deepening_run(trail: Seq<u128>, last: u128, budget_ms: u64, b: Board) -> bool {
    &&& forall|k: int| 0 <= k < trail.len() ==> deepen_allowed(#[trigger] trail[k] as int, budget_ms as int, k + 1, b)
    &&& !deepen_allowed(last as int, budget_ms as int, trail.len() + 1int, b)
}

/// Decides whether iterative deepening on `board` starts another depth
/// after completing `depth`, `elapsed_ms` milliseconds into a budget of
/// `budget_ms`.
pub fn should_deepen(elapsed_ms: u128, budget_ms: u64, depth: u32, board: &Board) -> (r: bool)
    ensures
        r == deepen_allowed(elapsed_ms as int, budget_ms as int, depth as int, *board),
{
    depth < MAX_DEPTH
        && (board.halfmove_clock as u64) + (depth as u64) + 67 < u32::MAX as u64
        && (board.fullmove_number as u64) + (depth as u64) + 67 < u32::MAX as u64
        && elapsed_ms < budget_ms as u128
}

/// Every position a capture search from `b` reaches can have its moves
/// generated and played.
pub open spec fn quiet_safe(b: Board) -> bool
    decreases capture_measure(b),
{
    &&& moves_playable(b)
    &&& forall|m: Move| #[trigger] legal_capture(b, m) && 0 <= capture_measure(b.after_move(m)) < capture_measure(b)
        ==> quiet_safe(b.after_move(m))
}

/// Every position a search `depth` plies deep from `b` reaches can have
/// its moves generated and played, and has a king to test for check where
/// it has no legal move.
pub open spec fn search_safe(b: Board, depth: nat) -> bool
    decreases depth,
{
    &&& moves_playable(b)
    &&& (!has_legal(b) ==> has_king(b, b.side_to_move))
    &&& (depth == 0 ==> quiet_safe(b))
    &&& (depth > 0 ==> forall|m: Move| #[trigger] legal(b, m) ==> search_safe(b.after_move(m), (depth - 1) as nat))
}

/// Every search iterative deepening may run from `b`, whatever the clock
/// reads, is safe: that of each depth up to `MAX_DEPTH` for which the move
/// counters leave room.
pub open spec fn deepening_safe(b: Board) -> bool {
    forall|d: nat| 1 <= d <= MAX_DEPTH && search_room(b, d as int) ==> #[trigger] search_safe(b, d)
}

/// A capture from a sound position with room for a capture search leads
/// to another such position.
proof fn lemma_sound_capture(b: Board, m: Move)
    requires
        sound(b),
        quiet_room(b),
        legal_capture(b, m),
    ensures
        sound(b.after_move(m)),
        quiet_room(b.after_move(m)),
{
    lemma_count_bounds(b, 64);
    lemma_pseudo_shape(b, m);
    lemma_capture_shrinks(b, m);
    lemma_legal_move_keeps_sound(b, m);
    lemma_count_bounds(b.after_move(m), 64);
}

/// A capture search from a sound position with room in its counters never
/// meets a position it cannot play.
pub proof fn lemma_sound_quiet_safe(b: Board)
    requires
        sound(b),
        quiet_room(b),
    ensures
        quiet_safe(b),
    decreases capture_measure(b),
{
    lemma_playable_moves(b);
    assert forall|m: Move| #[trigger] legal_capture(b, m) && 0 <= capture_measure(b.after_move(m)) < capture_measure(b)
        implies quiet_safe(b.after_move(m)) by {
        lemma_sound_capture(b, m);
        lemma_sound_quiet_safe(b.after_move(m));
    }
}

/// A search of a sound position with room in its counters never meets a
/// position it cannot play.
pub proof fn lemma_sound_search_safe(b: Board, depth: nat)
    requires
        sound(b),
        search_room(b, depth as int),
    ensures
        search_safe(b, depth),
    decreases depth,
{
    lemma_playable_moves(b);
    assert(has_king(b, b.side_to_move)) by {
        let i = choose|i: int| 0 <= i < 64 && b.at(i) == king_of(b.side_to_move)
            && forall|j: int| 0 <= j < 64 && #[trigger] b.at(j) == king_of(b.side_to_move) ==> j == i;
    }
    if depth == 0 {
        lemma_count_bounds(b, 64);
        lemma_sound_quiet_safe(b);
    } else {
        assert forall|m: Move| #[trigger] legal(b, m) implies search_safe(b.after_move(m), (depth - 1) as nat) by {
            lemma_legal_move_keeps_sound(b, m);
            lemma_sound_search_safe(b.after_move(m), (depth - 1) as nat);
        }
    }
}

/// Iterative deepening from a sound position with room for one ply never
/// meets a position it cannot play.
pub proof fn lemma_sound_deepening_safe(b: Board)
    requires
        sound(b),
        search_room(b, 1),
    ensures
        search_safe(b, 1),
        deepening_safe(b),
{
    lemma_sound_search_safe(b, 1);
    assert forall|d: nat| 1 <= d <= MAX_DEPTH && search_room(b, d as int) implies #[trigger] search_safe(b, d) by {
        lemma_sound_search_safe(b, d);
    }
}

/// Material score, sign-flipped so it reads as "how good is this position
/// for the side to move" rather than always from White's perspective.
fn perspective_score(board: &Board) -> (s: i32)
    ensures
        s == leaf_score(*board),
{
    proof { lemma_material_bound(*board); }
    match board.side_to_move {
        Color::White => material_score(board),
        Color::Black => -material_score(board),
    }
}

/// A legal move of a position whose moves can be played can be scored and
/// played.
proof fn lemma_legal_in_search(b: Board, m: Move)
    requires
        moves_playable(b),
        legal(b, m),
    ensures
        m.valid(),
        scorable(b, m),
        b.move_ok(m),
{
}

/// The legal captures of a position, most valuable victim first.
fn ordered_captures(board: &Board) -> (caps: Vec<Move>)
    requires
        moves_playable(*board),
    ensures
        forall|m: Move| #[trigger] caps@.contains(m) <==> legal_capture(*board, m),
        forall|j: int| 0 <= j < caps@.len() ==> legal_capture(*board, #[trigger] caps@[j]),
{
    let ghost b = *board;
    let all = legal_moves(board);
    let mut caps: Vec<Move> = Vec::new();
    let mut i: usize = 0;
    while i < all.len()
        invariant
            i <= all@.len(),
            moves_playable(b),
            b == *board,
            forall|m: Move| #[trigger] all@.contains(m) <==> legal(b, m),
            forall|m: Move| #[trigger] caps@.contains(m) <==> (legal_capture(b, m) && exists|j: int| 0 <= j < i && all@[j] == m),
            forall|j: int| 0 <= j < caps@.len() ==> legal_capture(b, #[trigger] caps@[j]),
        decreases all@.len() - i,
    {
        let m = all[i];
        assert(all@.contains(m));
        proof { lemma_legal_in_search(b, m); }
        let ghost before = caps@;
        if is_capture(board, m) {
            caps.push(m);
        }
        proof {
            assert forall|x: Move| #[trigger] caps@.contains(x) <==> (legal_capture(b, x) && exists|j: int| 0 <= j < i + 1 && all@[j] == x) by {
                if caps@.contains(x) && !before.contains(x) {
                    let a = choose|a: int| 0 <= a < caps@.len() && caps@[a] == x;
                    assert(a == before.len());
                }
                if before.contains(x) {
                    let a = choose|a: int| 0 <= a < before.len() && before[a] == x;
                    assert(caps@[a] == x);
                }
                if legal_capture(b, x) && exists|j: int| 0 <= j < i + 1 && all@[j] == x {
                    let j = choose|j: int| 0 <= j < i + 1 && all@[j] == x;
                    if j == i {
                        assert(caps@[caps@.len() - 1] == x);
                    }
                }
            }
        }
        i += 1;
    }
    proof {
        assert forall|m: Move| #[trigger] caps@.contains(m) <==> legal_capture(b, m) by {
            if legal_capture(b, m) {
                assert(all@.contains(m));
                let j = choose|j: int| 0 <= j < all@.len() && all@[j] == m;
            }
        }
        assert forall|j: int| 0 <= j < caps@.len() implies scorable(b, #[trigger] caps@[j]) by {
            lemma_legal_in_search(b, caps@[j]);
        }
    }
    let ghost unordered = caps@;
    order_moves(board, &mut caps);
    proof {
        lemma_stably_sorted_contains(caps@, unordered, |m: Move| crate::ordering::mvv_lva(b, m));
        assert forall|j: int| 0 <= j < caps@.len() implies legal_capture(b, #[trigger] caps@[j]) by {
            assert(caps@.contains(caps@[j]));
        }
    }
    caps
}

/// A legal capture lowers the capture measure and leads to a position
/// whose capture search is safe too, and its value bounds the position's
/// quiescence value.
proof fn lemma_capture_step(b: Board, m: Move)
    requires
        quiet_safe(b),
        legal_capture(b, m),
    ensures
        b.move_ok(m),
        quiet_safe(b.after_move(m)),
        0 <= capture_measure(b.after_move(m)) < capture_measure(b),
        -qvalue(b.after_move(m)) <= best_capture(b, move_space() as int),
        best_capture(b, move_space() as int) <= qvalue(b),
{
    lemma_legal_in_search(b, m);
    lemma_capture_measure(b, m);
    lemma_best_capture(b, move_space() as int);
    lemma_move_code(m);
}

/// After every capture has been tried without a cutoff, the best score is
/// bounded by, or equal to, the quiescence value.
proof fn lemma_quiesce_done(b: Board, caps: Seq<Move>, stand_pat: int, best: int, alpha0: int)
    requires
        quiet_safe(b),
        stand_pat == leaf_score(b),
        best >= stand_pat,
        forall|m: Move| #[trigger] caps.contains(m) <==> legal_capture(b, m),
        forall|j: int| 0 <= j < caps.len() ==> -qvalue(b.after_move(#[trigger] caps[j])) <= best,
        best > alpha0 ==> (best == stand_pat || exists|j: int| 0 <= j < caps.len() && -qvalue(b.after_move(#[trigger] caps[j])) == best),
    ensures
        qvalue(b) <= best,
        best > alpha0 ==> qvalue(b) == best,
{
    lemma_best_capture(b, move_space() as int);
    lemma_qvalue_bound(b);
    let bc = best_capture(b, move_space() as int);
    assert(bc <= best) by {
        if bc != neg_inf() {
            let u = choose|u: int| 0 <= u < move_space() as int && legal_capture(b, candidate(u))
                && best_capture(b, move_space() as int) == -qvalue(b.after_move(#[trigger] candidate(u)));
            assert(caps.contains(candidate(u)));
            let j = choose|j: int| 0 <= j < caps.len() && caps[j] == candidate(u);
        }
    }
    if best > alpha0 && best != stand_pat {
        let j = choose|j: int| 0 <= j < caps.len() && -qvalue(b.after_move(#[trigger] caps[j])) == best;
        assert(caps.contains(caps[j]));
        lemma_capture_step(b, caps[j]);
    }
}

/// Quiescence search: stand pat on the material count, or try the legal
/// captures (most valuable victim first) with fail-soft alpha-beta.
pub fn quiesce(board: &Board, alpha: i32, beta: i32) -> (score: i32)
    requires
        quiet_safe(*board),
        alpha > i32::MIN,
        beta > i32::MIN,
    ensures
        score > i32::MIN,
        alpha < beta ==> fail_soft(score as int, qvalue(*board), alpha as int, beta as int),
    decreases capture_measure(*board),
{
    let ghost b = *board;
    let ghost alpha0 = alpha as int;
    proof {
        lemma_qvalue_bound(b);
    }
    let stand_pat = perspective_score(board);
    if stand_pat >= beta {
        return stand_pat;
    }
    let mut low = if stand_pat > alpha { stand_pat } else { alpha };
    let mut best = stand_pat;
    let caps = ordered_captures(board);
    let mut i: usize = 0;
    while i < caps.len()
        invariant
            i <= caps@.len(),
            quiet_safe(b),
            b == *board,
            beta > i32::MIN,
            forall|j: int| 0 <= j < caps@.len() ==> legal_capture(b, #[trigger] caps@[j]),
            best as int >= stand_pat as int,
            stand_pat == leaf_score(b),
            stand_pat < beta,
            low as int == max(alpha0, best as int),
            alpha0 > i32::MIN,
            alpha0 == alpha as int,
            alpha0 < beta ==> low < beta,
            alpha0 < beta ==> forall|j: int| 0 <= j < i ==> -qvalue(b.after_move(#[trigger] caps@[j])) <= best,
            alpha0 < beta ==> (best > alpha0 ==> (best == stand_pat || exists|j: int| 0 <= j < i && -qvalue(b.after_move(#[trigger] caps@[j])) == best)),
        decreases caps@.len() - i,
    {
        let mv = caps[i];
        proof { lemma_capture_step(b, mv); }
        let next = board.make_move(mv);
        let ghost alpha_before = low;
        let ghost best_before = best;
        let r = quiesce(&next, -beta, -low);
        let score = -r;
        let ghost vc = qvalue(next);
        assert(alpha0 < beta ==> fail_soft(r as int, vc, -beta, -alpha_before));
        if score > best {
            best = score;
        }
        if best > low {
            low = best;
        }
        if low >= beta {
            proof {
                if alpha0 < beta {
                    assert(score > best_before);
                    assert(best == score);
                    assert(score >= beta);
                    assert(-vc >= score);
                    assert(qvalue(b) >= -vc);
                }
            }
            return best;
        }
        proof {
            if alpha0 < beta {
                assert forall|j: int| 0 <= j < i + 1 implies -qvalue(b.after_move(#[trigger] caps@[j])) <= best by {
                    if j == i {
                        assert(-vc <= best);
                    }
                }
                if best > alpha0 {
                    if best == score && score > best_before {
                        assert(score > alpha_before);
                        assert(r == vc);
                        assert(-qvalue(b.after_move(caps@[i as int])) == best);
                    }
                }
            }
        }
        i += 1;
    }
    proof {
        if alpha0 < beta {
            lemma_quiesce_done(b, caps@, stand_pat as int, best as int, alpha0);
        }
    }
    best
}


/// A legal move of a sound position with room to search leads to a sound
/// position with room for one ply less, and its value bounds the
/// position's best child value.
proof fn lemma_child_step(b: Board, m: Move, depth: nat, ply: int)
    requires
        search_safe(b, depth),
        depth > 0,
        legal(b, m),
    ensures
        b.move_ok(m),
        scorable(b, m),
        search_safe(b.after_move(m), (depth - 1) as nat),
        -value(b.after_move(m), (depth - 1) as nat, ply + 1) <= best_child(b, depth, ply, move_space() as int),
        value(b, depth, ply) == best_child(b, depth, ply, move_space() as int),
{
    lemma_legal_in_search(b, m);
    lemma_best_child(b, depth, ply, move_space() as int);
    lemma_move_code(m);
    assert(has_legal(b));
}

/// After every legal move has been searched without a cutoff, the best
/// score bounds the position's value, and equals it once above `alpha0`.
proof fn lemma_negamax_done(b: Board, moves: Seq<Move>, depth: nat, ply: int, best: int, alpha0: int)
    requires
        search_safe(b, depth),
        depth > 0,
        has_legal(b),
        best > neg_inf(),
        forall|m: Move| #[trigger] moves.contains(m) <==> legal(b, m),
        forall|j: int| 0 <= j < moves.len() ==> -value(b.after_move(#[trigger] moves[j]), (depth - 1) as nat, ply + 1) <= best,
        best > alpha0 ==> exists|j: int| 0 <= j < moves.len() && -value(b.after_move(#[trigger] moves[j]), (depth - 1) as nat, ply + 1) == best,
    ensures
        value(b, depth, ply) <= best,
        best > alpha0 ==> value(b, depth, ply) == best,
{
    lemma_best_child(b, depth, ply, move_space() as int);
    let bc = best_child(b, depth, ply, move_space() as int);
    assert(value(b, depth, ply) == bc);
    assert(bc <= best) by {
        if bc != neg_inf() {
            let u = choose|u: int| 0 <= u < move_space() as int && legal(b, candidate(u))
                && best_child(b, depth, ply, move_space() as int) == -value(b.after_move(#[trigger] candidate(u)), (depth - 1) as nat, ply + 1);
            assert(moves.contains(candidate(u)));
            let j = choose|j: int| 0 <= j < moves.len() && moves[j] == candidate(u);
        }
    }
    if best > alpha0 {
        let j = choose|j: int| 0 <= j < moves.len() && -value(b.after_move(#[trigger] moves[j]), (depth - 1) as nat, ply + 1) == best;
        assert(moves.contains(moves[j]));
        lemma_child_step(b, moves[j], depth, ply);
    }
}

/// Holds the state a single search shares across its whole tree: the
/// killer moves of each ply and the history scores of quiet moves.
///
/// A fresh `Search` should be created per root search rather than reused
/// across unrelated positions: the killer table is keyed by ply and tuned
/// to the tree currently being explored.
pub struct Search {
    killers: KillerMoves,
    history: HistoryTable,
}

impl Search {
    /// What a search may change in its tables: the killers of plies from
    /// `ply` on, and history scores, which only grow.
    pub open spec fn keeps_tables(&self, after: Search, ply: int) -> bool {
        &&& forall|p: int| p < ply ==> #[trigger] after.killer_table().killers_at(p) == self.killer_table().killers_at(p)
        &&& forall|i: int, j: int| 0 <= i < 64 && 0 <= j < 64 ==> #[trigger] after.history_table().score_of(i, j)
            >= self.history_table().score_of(i, j)
    }

    /// The killers of a ply after `m` is stored there.
    pub open spec fn promoted(ks: Seq<Option<Move>>, m: Move) -> Seq<Option<Move>> {
        if ks[0] == Some(m) { ks } else { seq![Some(m), ks[0]] }
    }

    /// The tables after a beta cutoff by `m` at `ply`, `depth` plies from
    /// the leaves: a quiet move is promoted to the front killer of the ply
    /// and its history score has grown by at least `depth * depth` (the
    /// bonus is skipped where it would pass `i32::MAX`); a capture leaves
    /// the killers of the ply as they were.
    pub open spec fn cutoff_recorded(&self, after: Search, b: Board, m: Move, ply: int, depth: int) -> bool {
        if b.captures(m) {
            after.killer_table().killers_at(ply) == self.killer_table().killers_at(ply)
        } else {
            let f = m.from.idx();
            let t = m.to.idx();
            &&& after.killer_table().killers_at(ply) == Search::promoted(self.killer_table().killers_at(ply), m)
            &&& (after.history_table().score_of(f, t) >= self.history_table().score_of(f, t) + depth * depth
                || after.history_table().score_of(f, t) + depth * depth > i32::MAX)
        }
    }

    /// Changes that keep the tables of plies before `ply` compose, and
    /// keep those of any earlier ply too.
    pub proof fn lemma_keeps_trans(a: Search, b: Search, c: Search, ply: int, ply2: int)
        requires
            a.keeps_tables(b, ply),
            b.keeps_tables(c, ply2),
            ply <= ply2,
        ensures
            a.keeps_tables(c, ply),
    {
        assert forall|i: int, j: int| 0 <= i < 64 && 0 <= j < 64 implies #[trigger] c.history_table().score_of(i, j)
            >= a.history_table().score_of(i, j) by {
            assert(b.history_table().score_of(i, j) >= a.history_table().score_of(i, j));
        }
    }

    /// The killer and history tables are well formed.
    pub closed spec fn wf(&self) -> bool {
        self.killers.wf() && self.history.wf()
    }

    /// The killer moves this search has recorded.
    pub closed spec fn killer_table(&self) -> KillerMoves {
        self.killers
    }

    /// The history scores this search has recorded.
    pub closed spec fn history_table(&self) -> HistoryTable {
        self.history
    }

    /// A search with no killer moves and all history scores zero.
    pub fn new() -> (s: Self)
        ensures
            s.wf(),
            forall|ply: int| #[trigger] s.killer_table().killers_at(ply) == seq![None::<Move>, None::<Move>],
            forall|i: int, j: int| 0 <= i < 64 && 0 <= j < 64 ==> #[trigger] s.history_table().score_of(i, j) == 0,
    {
        Search { killers: KillerMoves::new(), history: HistoryTable::new() }
    }

    /// Negamax search with fail-soft alpha-beta pruning.
    ///
    /// Returns the score of `board` from the perspective of the side to
    /// move, in centipawns. `ply` is the distance from the root, used to
    /// make mate scores decay with depth so shorter forced mates are
    /// preferred over longer ones. At depth 0 the search extends into a
    /// capture-only quiescence search. Moves are tried captures first, then
    /// killers, then quiet moves by history; a quiet move that causes a
    /// beta cutoff becomes a killer of its ply and gains history score.
    /// A position without a legal move scores its mate or stalemate score
    /// whatever the window. Any position is searched whose reachable
    /// positions can have their moves played (`search_safe`).
    #[verifier::rlimit(40)]
    pub fn negamax(&mut self, board: &Board, depth: u32, ply: u32, alpha: i32, beta: i32) -> (score: i32)
        requires
            old(self).wf(),
            search_safe(*board, depth as nat),
            ply + depth <= i32::MAX,
            alpha > i32::MIN,
            beta > i32::MIN,
        ensures
            final(self).wf(),
            old(self).keeps_tables(*final(self), ply as int),
            final(self).killer_table().killers_at(ply as int) != old(self).killer_table().killers_at(ply as int) ==> {
                &&& (score >= beta || alpha >= beta)
                &&& exists|m: Move| #[trigger] legal(*board, m) && !board.captures(m)
                    && final(self).killer_table().killers_at(ply as int)
                    == Search::promoted(old(self).killer_table().killers_at(ply as int), m)
            },
            score > i32::MIN,
            alpha < beta ==> fail_soft(score as int, value(*board, depth as nat, ply as int), alpha as int, beta as int),
            !has_legal(*board) ==> score == value(*board, depth as nat, ply as int),
            depth > 0 && has_legal(*board) && alpha < beta && score >= beta ==> exists|m: Move| #[trigger] legal(*board, m)
                && old(self).cutoff_recorded(*final(self), *board, m, ply as int, depth as int),
        decreases depth,
    {
        let ghost b = *board;
        let ghost alpha0 = alpha as int;
        let ghost entry = *self;
        let mut moves = legal_moves(board);
        if moves.len() == 0 {
            proof {
                if has_legal(b) {
                    let m = choose|m: Move| #[trigger] legal(b, m);
                    assert(moves@.contains(m));
                }
            }
            return if is_in_check(board) {
                -(MATE_SCORE - ply as i32)
            } else {
                0
            };
        }
        proof {
            assert(moves@.contains(moves@[0]));
            assert(has_legal(b));
        }
        if depth == 0 {
            return quiesce(board, alpha, beta);
        }
        proof {
            assert forall|j: int| 0 <= j < moves@.len() implies scorable(b, #[trigger] moves@[j]) by {
                assert(moves@.contains(moves@[j]));
                lemma_legal_in_search(b, moves@[j]);
            }
        }
        let ghost unordered = moves@;
        let killers = self.killers.get(ply);
        order_moves_for_search(board, &mut moves, killers, &self.history);
        proof {
            lemma_stably_sorted_contains(moves@, unordered, |m: Move| crate::ordering::search_key(b, killers@, self.history@, m));
        }
        let mut best: i32 = i32::MIN + 1;
        let mut low: i32 = alpha;
        let mut i: usize = 0;
        while i < moves.len()
            invariant
                i <= moves@.len(),
                self.wf(),
                entry == *old(self),
                entry.keeps_tables(*self, ply as int),
                self.killer_table().killers_at(ply as int) == entry.killer_table().killers_at(ply as int),
                search_safe(b, depth as nat),
                depth > 0,
                has_legal(b),
                b == *board,
                ply + depth <= i32::MAX,
                beta > i32::MIN,
                alpha0 == alpha as int,
                alpha0 > i32::MIN,
                forall|m: Move| #[trigger] moves@.contains(m) <==> legal(b, m),
                best > i32::MIN,
                low as int == max(alpha0, best as int),
                alpha0 < beta ==> low < beta,
                alpha0 < beta ==> forall|j: int| 0 <= j < i ==> -value(b.after_move(#[trigger] moves@[j]), (depth - 1) as nat, ply + 1) <= best,
                alpha0 < beta ==> (best > alpha0 ==> exists|j: int| 0 <= j < i && -value(b.after_move(#[trigger] moves@[j]), (depth - 1) as nat, ply + 1) == best),
            decreases moves@.len() - i,
        {
            let mv = moves[i];
            proof {
                assert(moves@.contains(mv));
                lemma_child_step(b, mv, depth as nat, ply as int);
            }
            let next = board.make_move(mv);
            let ghost low_before = low;
            let ghost best_before = best;
            let ghost before_child = *self;
            let r = self.negamax(&next, depth - 1, ply + 1, -beta, -low);
            proof {
                Search::lemma_keeps_trans(entry, before_child, *self, ply as int, ply as int + 1);
                assert(self.killer_table().killers_at(ply as int) == before_child.killer_table().killers_at(ply as int));
            }
            let score = -r;
            let ghost vc = value(next, (depth - 1) as nat, ply + 1);
            assert(alpha0 < beta ==> fail_soft(r as int, vc, -beta, -low_before));
            if score > best {
                best = score;
            }
            if best > low {
                low = best;
            }
            if low >= beta {
                let ghost before_cutoff = *self;
                assert(moves@.contains(mv));
                if !is_capture(board, mv) {
                    let ghost mid = *self;
                    self.killers.store(ply, mv);
                    assert(mid.keeps_tables(*self, ply as int));
                    assert(self.killer_table().killers_at(ply as int)
                        == Search::promoted(entry.killer_table().killers_at(ply as int), mv));
                    let ghost f = mv.from.idx();
                    let ghost t = mv.to.idx();
                    assert(self.history_table().score_of(f, t) >= entry.history_table().score_of(f, t));
                    if depth <= 46340 {
                        assert(depth * depth <= 2147395600) by (nonlinear_arith)
                            requires depth <= 46340;
                        let bonus = (depth * depth) as i32;
                        if self.history.get(mv) <= i32::MAX - bonus {
                            let ghost stored = *self;
                            self.history.record(mv, depth);
                            assert(stored.keeps_tables(*self, ply as int));
                            proof { Search::lemma_keeps_trans(mid, stored, *self, ply as int, ply as int); }
                        }
                    } else {
                        assert(depth * depth > i32::MAX) by (nonlinear_arith)
                            requires depth > 46340;
                    }
                    assert(entry.cutoff_recorded(*self, b, mv, ply as int, depth as int));
                } else {
                    assert(entry.cutoff_recorded(*self, b, mv, ply as int, depth as int));
                }
                proof {
                    assert(before_cutoff.keeps_tables(*self, ply as int));
                    Search::lemma_keeps_trans(entry, before_cutoff, *self, ply as int, ply as int);
                    if self.killer_table().killers_at(ply as int) != entry.killer_table().killers_at(ply as int) {
                        assert(legal(b, mv) && !b.captures(mv));
                    }
                }
                proof {
                    if alpha0 < beta {
                        assert(score > best_before);
                        assert(-vc >= score);
                        assert(value(b, depth as nat, ply as int) >= -vc);
                    }
                }
                return best;
            }
            proof {
                if alpha0 < beta {
                    assert forall|j: int| 0 <= j < i + 1 implies -value(b.after_move(#[trigger] moves@[j]), (depth - 1) as nat, ply + 1) <= best by {
                        if j == i {
                            assert(-vc <= best);
                        }
                    }
                    if best > alpha0 && best == score && score > best_before {
                        assert(score > low_before);
                        assert(-value(b.after_move(moves@[i as int]), (depth - 1) as nat, ply + 1) == best);
                    }
                }
            }
            i += 1;
        }
        proof {
            if alpha0 < beta {
                lemma_negamax_done(b, moves@, depth as nat, ply as int, best as int, alpha0);
                assert(best < beta);
            }
        }
        best
    }
}

impl Search {
    /// Searches every legal move of the root `depth` plies deep, captures
    /// first, then killers, then quiet moves by history, and returns the
    /// first move of best score together with that score: among moves of
    /// equal value, the one of higher search key, and among those the one
    /// generated first.
    #[verifier::rlimit(40)]
    pub fn root_search(&mut self, board: &Board, depth: u32) -> (res: (Move, i32))
        requires
            old(self).wf(),
            search_safe(*board, depth as nat),
            1 <= depth <= i32::MAX,
            has_legal(*board),
        ensures
            final(self).wf(),
            old(self).keeps_tables(*final(self), 1),
            legal(*board, res.0),
            res.1 == value(*board, depth as nat, 0),
            res.1 == -value(board.after_move(res.0), (depth - 1) as nat, 1),
            forall|m: Move| #[trigger] legal(*board, m) && m != res.0
                && -value(board.after_move(m), (depth - 1) as nat, 1) == res.1 ==> {
                let ks = old(self).killer_table().killers_at(0);
                let h = old(self).history_table()@;
                let order = move_order(*board).filter(legal_in(*board));
                ||| search_key(*board, ks, h, m) < search_key(*board, ks, h, res.0)
                ||| (search_key(*board, ks, h, m) == search_key(*board, ks, h, res.0)
                    && exists|a: int, c: int| 0 <= a < c < order.len() && order[a] == res.0 && order[c] == m)
            },
    {
        let ghost b = *board;
        let mut moves = legal_moves(board);
        proof {
            let m = choose|m: Move| #[trigger] legal(b, m);
            assert(moves@.contains(m));
            assert forall|j: int| 0 <= j < moves@.len() implies scorable(b, #[trigger] moves@[j]) by {
                assert(moves@.contains(moves@[j]));
                lemma_legal_in_search(b, moves@[j]);
            }
        }
        let ghost unordered = moves@;
        let ghost entry = *self;
        let killers = self.killers.get(0);
        let ghost h0 = self.history@;
        order_moves_for_search(board, &mut moves, killers, &self.history);
        proof {
            lemma_stably_sorted_contains(moves@, unordered, |m: Move| crate::ordering::search_key(b, killers@, self.history@, m));
            assert(moves@.len() > 0) by {
                let m = choose|m: Move| #[trigger] legal(b, m);
                assert(unordered.contains(m));
            }
        }
        let mut best: i32 = i32::MIN + 1;
        let mut best_index: usize = 0;
        let mut i: usize = 0;
        while i < moves.len()
            invariant
                i <= moves@.len(),
                moves@.len() > 0,
                best_index < moves@.len(),
                self.wf(),
                search_safe(b, depth as nat),
                1 <= depth <= i32::MAX,
                has_legal(b),
                b == *board,
                forall|m: Move| #[trigger] moves@.contains(m) <==> legal(b, m),
                best > i32::MIN,
                best as int <= value_bound(),
                i == 0 ==> best == i32::MIN + 1,
                i > 0 ==> best as int >= -value_bound(),
                i > 0 ==> forall|j: int| 0 <= j < best_index ==> -value(b.after_move(#[trigger] moves@[j]), (depth - 1) as nat, 1) < best,
                unordered == move_order(b).filter(legal_in(b)),
                unordered.no_duplicates(),
                stably_sorted(moves@, unordered, |m: Move| search_key(b, killers@, h0, m)),
                killers@ == old(self).killer_table().killers_at(0),
                h0 == old(self).history_table()@,
                entry == *old(self),
                entry.keeps_tables(*self, 1),
                i > 0 ==> best_index < i && -value(b.after_move(moves@[best_index as int]), (depth - 1) as nat, 1) == best,
                forall|j: int| 0 <= j < i ==> -value(b.after_move(#[trigger] moves@[j]), (depth - 1) as nat, 1) <= best,
            decreases moves@.len() - i,
        {
            let mv = moves[i];
            proof {
                assert(moves@.contains(mv));
                lemma_child_step(b, mv, depth as nat, 0);
                lemma_value_bound(b.after_move(mv), (depth - 1) as nat, 1);
            }
            let next = board.make_move(mv);
            let ghost before_child = *self;
            let r = self.negamax(&next, depth - 1, 1, -i32::MAX, -best);
            proof { Search::lemma_keeps_trans(entry, before_child, *self, 1, 1); }
            let score = -r;
            let ghost vc = value(next, (depth - 1) as nat, 1);
            assert(fail_soft(r as int, vc, -i32::MAX as int, -best as int));
            let ghost old_best = best;
            if score > best {
                best = score;
                best_index = i;
            }
            proof {
                if best_index == i && i > 0 && best != old_best {
                    assert forall|j: int| 0 <= j < best_index implies -value(b.after_move(#[trigger] moves@[j]), (depth - 1) as nat, 1) < best by {
                        assert(-value(b.after_move(moves@[j]), (depth - 1) as nat, 1) <= old_best);
                    }
                }
                assert forall|j: int| 0 <= j < i + 1 implies -value(b.after_move(#[trigger] moves@[j]), (depth - 1) as nat, 1) <= best by {
                    if j == i {
                        assert(-vc <= best);
                    }
                }
            }
            i += 1;
        }
        proof {
            assert(moves@.contains(moves@[best_index as int]));
            assert(-value(b.after_move(moves@[best_index as int]), (depth - 1) as nat, 1) == best);
            lemma_negamax_done(b, moves@, depth as nat, 0, best as int, i32::MIN as int + 1);
            let chosen = moves@[best_index as int];
            let key = |m: Move| search_key(b, killers@, h0, m);
            assert forall|m: Move| #[trigger] legal(b, m) && m != chosen
                && -value(b.after_move(m), (depth - 1) as nat, 1) == best implies {
                ||| key(m) < key(chosen)
                ||| (key(m) == key(chosen) && exists|a: int, c: int| 0 <= a < c < unordered.len() && unordered[a] == chosen && unordered[c] == m)
            } by {
                assert(moves@.contains(m));
                let j = choose|j: int| 0 <= j < moves@.len() && moves@[j] == m;
                assert(j != best_index);
                if j < best_index {
                    assert(-value(b.after_move(moves@[j]), (depth - 1) as nat, 1) < best);
                }
                assert(key(moves@[best_index as int]) >= key(moves@[j]));
                if key(m) == key(chosen) {
                    crate::ordering::lemma_stable_order(moves@, unordered, key, best_index as int, j);
                }
            }
        }
        (moves[best_index], best)
    }

    /// Iterative deepening: searches the root at depth 1, 2, 3, ... and
    /// keeps the result of the deepest completed depth. Depth 1 is always
    /// searched; after each depth the clock is read and `should_deepen`
    /// decides whether to search one depth more, so a depth already
    /// underway is allowed to finish. Returns `None` exactly when the side
    /// to move has no legal move.
    pub fn find_best_move(&mut self, board: &Board, budget_ms: u64) -> (res: Option<(Move, i32)>)
        requires
            old(self).wf(),
            search_safe(*board, 1),
            deepening_safe(*board),
        ensures
            final(self).wf(),
            old(self).keeps_tables(*final(self), 1),
            res is None <==> !has_legal(*board),
            res matches Some((mv, s)) ==> {
                &&& legal(*board, mv)
                &&& exists|trail: Seq<u128>, last: u128| #[trigger] deepening_run(trail, last, budget_ms, *board)
                    && trail.len() + 1 <= MAX_DEPTH
                    && value(*board, (trail.len() + 1) as nat, 0) == s
                    && s == -value(board.after_move(mv), trail.len() as nat, 1)
            },
    {
        let ghost b = *board;
        let moves = legal_moves(board);
        if moves.len() == 0 {
            proof {
                if has_legal(b) {
                    let m = choose|m: Move| #[trigger] legal(b, m);
                    assert(moves@.contains(m));
                }
            }
            return None;
        }
        proof {
            assert(moves@.contains(moves@[0]));
        }
        let start = clock_now();
        let mut depth: u32 = 1;
        let ghost entry = *self;
        let mut best = self.root_search(board, 1);
        let ghost mut trail: Seq<u128> = Seq::empty();
        let ghost mut last: u128 = 0;
        loop
            invariant
                self.wf(),
                entry == *old(self),
                entry.keeps_tables(*self, 1),
                deepening_safe(b),
                b == *board,
                has_legal(b),
                1 <= depth <= MAX_DEPTH,
                trail.len() + 1 == depth,
                forall|k: int| 0 <= k < trail.len() ==> deepen_allowed(#[trigger] trail[k] as int, budget_ms as int, k + 1, b),
                legal(b, best.0),
                best.1 == value(b, depth as nat, 0),
                best.1 == -value(b.after_move(best.0), (depth - 1) as nat, 1),
            ensures
                self.wf(),
                entry.keeps_tables(*self, 1),
                legal(b, best.0),
                deepening_run(trail, last, budget_ms, b),
                trail.len() + 1 == depth <= MAX_DEPTH,
                best.1 == value(b, depth as nat, 0),
                best.1 == -value(b.after_move(best.0), (depth - 1) as nat, 1),
            decreases MAX_DEPTH - depth,
        {
            let elapsed = whole_millis(elapsed_since(&start));
            if !should_deepen(elapsed, budget_ms, depth, board) {
                proof { last = elapsed; }
                break;
            }
            proof {
                trail = trail.push(elapsed);
                assert(search_safe(b, (depth + 1) as nat));
            }
            depth += 1;
            let ghost before = *self;
            best = self.root_search(board, depth);
            proof { Search::lemma_keeps_trans(entry, before, *self, 1, 1); }
        }
        assert(deepening_run(trail, last, budget_ms, b));
        Some(best)
    }
}

impl Default for Search {
    fn default() -> (s: Self)
        ensures
            s.wf(),
            forall|ply: int| #[trigger] s.killer_table().killers_at(ply) == seq![None::<Move>, None::<Move>],
            forall|i: int, j: int| 0 <= i < 64 && 0 <= j < 64 ==> #[trigger] s.history_table().score_of(i, j) == 0,
    {
        Self::new()
    }
}

} // verus!
