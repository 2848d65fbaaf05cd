use vstd::prelude::*;
use crate::board::Board;
use crate::eval::{piece_value, value_of};
use crate::history::HistoryTable;
use crate::moves::{Move, MoveKind};
use crate::types::PieceKind;

verus! {

broadcast use vstd::seq_lib::group_seq_properties;

/// The moves whose key is `k`.
pub open spec fn key_is(key: spec_fn(Move) -> int, k: int) -> spec_fn(Move) -> bool {
    |x: Move| key(x) == k
}

/// Keys never increase along `s`.
pub open spec fn sorted_desc(s: Seq<Move>, key: spec_fn(Move) -> int) -> bool {
    forall|i: int, j: int| 0 <= i < j < s.len() ==> key(#[trigger] s[i]) >= key(#[trigger] s[j])
}

/// `s` is `orig` sorted by descending key, stably: moves of equal key keep
/// their relative order.
pub open spec fn stably_sorted(s: Seq<Move>, orig: Seq<Move>, key: spec_fn(Move) -> int) -> bool {
    &&& s.len() == orig.len()
    &&& sorted_desc(s, key)
    &&& forall|k: int| #[trigger] s.filter(key_is(key, k)) == orig.filter(key_is(key, k))
}

/// A stable reordering holds the same moves.
pub proof fn lemma_stably_sorted_contains(s: Seq<Move>, orig: Seq<Move>, key: spec_fn(Move) -> int)
    requires
        stably_sorted(s, orig, key),
    ensures
        forall|m: Move| #[trigger] s.contains(m) <==> orig.contains(m),
{
    assert forall|m: Move| #[trigger] s.contains(m) <==> orig.contains(m) by {
        let p = key_is(key, key(m));
        assert(s.filter(p) == orig.filter(p));
        if s.contains(m) {
            let i = choose|i: int| 0 <= i < s.len() && s[i] == m;
            s.lemma_filter_contains(p, i);
            orig.lemma_filter_contains_rev(p, m);
        }
        if orig.contains(m) {
            let i = choose|i: int| 0 <= i < orig.len() && orig[i] == m;
            orig.lemma_filter_contains(p, i);
            s.lemma_filter_contains_rev(p, m);
        }
    }
}

/// Stable insertion sort by descending key: each move is inserted after
/// every move whose key is at least its own.
fn stable_sort_desc(moves: &Vec<Move>, keys: &Vec<i64>, Ghost(key): Ghost<spec_fn(Move) -> int>) -> (out: Vec<Move>)
    requires
        keys@.len() == moves@.len(),
        forall|i: int| 0 <= i < moves@.len() ==> keys@[i] == key(#[trigger] moves@[i]),
    ensures
        stably_sorted(out@, moves@, key),
{
    broadcast use vstd::seq_lib::group_filter_ensures;
    let mut out: Vec<Move> = Vec::new();
    let mut out_keys: Vec<i64> = Vec::new();
    let mut i: usize = 0;
    while i < moves.len()
        invariant
            i <= moves@.len(),
            keys@.len() == moves@.len(),
            forall|j: int| 0 <= j < moves@.len() ==> keys@[j] == key(#[trigger] moves@[j]),
            out_keys@.len() == out@.len(),
            out@.len() == i,
            forall|j: int| 0 <= j < out@.len() ==> out_keys@[j] == key(#[trigger] out@[j]),
            sorted_desc(out@, key),
            forall|k: int| #[trigger] out@.filter(key_is(key, k)) == moves@.take(i as int).filter(key_is(key, k)),
        decreases moves@.len() - i,
    {
        let m = moves[i];
        let km = keys[i];
        let mut p: usize = 0;
        while p < out.len() && out_keys[p] >= km
            invariant
                p <= out@.len(),
                out_keys@.len() == out@.len(),
                forall|j: int| 0 <= j < p ==> out_keys@[j] >= km,
            decreases out@.len() - p,
        {
            p += 1;
        }
        let ghost old_out = out@;
        proof {
            assert forall|j: int| p <= j < old_out.len() implies key(#[trigger] old_out[j]) < km by {
                assert(out_keys@[p as int] < km);
                if j > p {
                    assert(key(old_out[p as int]) >= key(old_out[j]));
                }
            }
        }
        out.insert(p, m);
        out_keys.insert(p, km);
        proof {
            let pre = old_out.take(p as int);
            let post = old_out.skip(p as int);
            assert(old_out == pre + post);
            assert(out@ == pre + seq![m] + post);
            assert forall|j: int| 0 <= j < out@.len() implies out_keys@[j] == key(#[trigger] out@[j]) by {
                if j < p {
                } else if j == p {
                } else {
                    assert(out@[j] == old_out[j - 1]);
                }
            }
            assert forall|a: int, c: int| 0 <= a < c < out@.len() implies key(#[trigger] out@[a]) >= key(#[trigger] out@[c]) by {
                if c < p {
                    assert(out@[a] == old_out[a] && out@[c] == old_out[c]);
                } else if c == p {
                    assert(out@[a] == old_out[a]);
                } else if a == p {
                    assert(out@[c] == old_out[c - 1]);
                } else if a < p {
                    assert(out@[a] == old_out[a]);
                    assert(out@[c] == old_out[c - 1]);
                } else {
                    assert(out@[a] == old_out[a - 1]);
                    assert(out@[c] == old_out[c - 1]);
                }
            }
            assert(moves@.take(i + 1) == moves@.take(i as int).push(m));
            assert forall|k: int| #[trigger] out@.filter(key_is(key, k)) == moves@.take(i + 1).filter(key_is(key, k)) by {
                let pk = key_is(key, k);
                moves@.take(i as int).lemma_filter_push(m, pk);
                assert(old_out.filter(pk) == pre.filter(pk) + post.filter(pk));
                assert(out@.filter(pk) == pre.filter(pk) + seq![m].filter(pk) + post.filter(pk)) by {
                    assert((pre + seq![m]).filter(pk) == pre.filter(pk) + seq![m].filter(pk));
                }
                seq![].lemma_filter_push(m, pk);
                assert(seq![m] == Seq::<Move>::empty().push(m));
                assert(Seq::<Move>::empty().filter(pk) =~= Seq::<Move>::empty());
                if key(m) == k {
                    assert(post.filter(pk) =~= Seq::<Move>::empty()) by {
                        let r = post.filter(pk);
                        if r.len() > 0 {
                            assert(pk(r[0]));
                            assert(r.contains(r[0]));
                            post.lemma_filter_contains_rev(pk, r[0]);
                            assert(post.contains(r[0]));
                            let j = choose|j: int| 0 <= j < post.len() && post[j] == r[0];
                            assert(old_out[j + p] == r[0]);
                        }
                    }
                    assert(out@.filter(pk) =~= old_out.filter(pk).push(m));
                } else {
                    assert(out@.filter(pk) =~= old_out.filter(pk));
                }
            }
        }
        i += 1;
    }
    assert(moves@.take(moves@.len() as int) =~= moves@);
    out
}

/// The piece a move captures, if any.
pub open spec fn victim(b: Board, m: Move) -> Option<PieceKind> {
    if m.kind == MoveKind::EnPassant {
        Some(PieceKind::Pawn)
    } else {
        match b.on(m.to) {
            Some(p) => Some(p.kind),
            None => None,
        }
    }
}

/// Most-valuable-victim / least-valuable-attacker rank of a move: the
/// victim's value times 1000, more than any attacker is worth, less the
/// attacker's value; zero for quiet moves.
pub open spec fn mvv_lva(b: Board, m: Move) -> int {
    match victim(b, m) {
        Some(v) => value_of(v) * 1000 - value_of(b.on(m.from).unwrap().kind),
        None => 0,
    }
}

/// What scoring a move needs: its squares on the board, and a piece on the
/// origin of a capture.
pub open spec fn scorable(b: Board, m: Move) -> bool {
    m.valid() && (victim(b, m) is Some ==> b.on(m.from) is Some)
}

/// Whether `mv` captures: its destination is occupied, or it is an en
/// passant capture.
pub fn is_capture(board: &Board, mv: Move) -> (c: bool)
    requires
        mv.valid(),
    ensures
        c == board.captures(mv),
{
    board.get(mv.to).is_some() || mv.kind == MoveKind::EnPassant
}

fn capture_victim(board: &Board, mv: Move) -> (v: Option<PieceKind>)
    requires
        mv.valid(),
    ensures
        v == victim(*board, mv),
{
    if mv.kind == MoveKind::EnPassant {
        return Some(PieceKind::Pawn);
    }
    match board.get(mv.to) {
        Some(p) => Some(p.kind),
        None => None,
    }
}

/// Ranks a capture by victim value scaled above attacker value, so the
/// victim dominates the ordering and the attacker only breaks ties among
/// equal-victim captures. Quiet moves score 0 and sort after every capture.
fn mvv_lva_score(board: &Board, mv: Move) -> (s: i32)
    requires
        scorable(*board, mv),
    ensures
        s == mvv_lva(*board, mv),
{
    let victim = match capture_victim(board, mv) {
        Some(v) => v,
        None => { return 0; },
    };
    let attacker = match board.get(mv.from) {
        Some(p) => p,
        None => { return 0; },  // unreachable: `scorable` puts a piece on a capture's origin
    };
    piece_value(victim) * 1000 - piece_value(attacker.kind)
}

/// Sorts `moves` so alpha-beta explores the most promising ones first.
///
/// Captures sort ahead of quiet moves, ranked by MVV-LVA (most valuable
/// victim, least valuable attacker): a pawn taking a queen sorts before a
/// queen taking a pawn, since the former is far more likely to hold up
/// after the opponent's reply. Quiet moves keep their generation order.
pub fn order_moves(board: &Board, moves: &mut Vec<Move>)
    requires
        forall|i: int| 0 <= i < old(moves)@.len() ==> scorable(*board, #[trigger] old(moves)@[i]),
    ensures
        stably_sorted(final(moves)@, old(moves)@, |m: Move| mvv_lva(*board, m)),
{
    let ghost key = |m: Move| mvv_lva(*board, m);
    let mut keys: Vec<i64> = Vec::new();
    let mut i: usize = 0;
    while i < moves.len()
        invariant
            i <= moves@.len(),
            moves@ == old(moves)@,
            keys@.len() == i,
            forall|j: int| 0 <= j < moves@.len() ==> scorable(*board, #[trigger] moves@[j]),
            forall|j: int| 0 <= j < i ==> keys@[j] == mvv_lva(*board, #[trigger] moves@[j]),
        decreases moves@.len() - i,
    {
        let s = mvv_lva_score(board, moves[i]);
        keys.push(s as i64);
        i += 1;
    }
    let sorted = stable_sort_desc(moves, &keys, Ghost(key));
    *moves = sorted;
}

/// The spacing of the search-order tiers, above any in-tier score.
pub const TIER: i64 = 0x2_0000_0000;

/// The tier a move sorts in during search: captures first, then the two
/// killer moves of the ply, then the remaining quiet moves.
pub open spec fn search_key(b: Board, killers: Seq<Option<Move>>, history: Seq<Seq<i32>>, m: Move) -> int {
    if b.captures(m) {
        2 * TIER as int + mvv_lva(b, m)
    } else if killers[0] == Some(m) {
        TIER as int + 1
    } else if killers[1] == Some(m) {
        TIER as int
    } else {
        history[m.from.idx()][m.to.idx()] as int
    }
}

fn search_key_exec(board: &Board, killers: &[Option<Move>; 2], history: &HistoryTable, mv: Move) -> (k: i64)
    requires
        scorable(*board, mv),
        history.wf(),
    ensures
        k == search_key(*board, killers@, history@, mv),
{
    if is_capture(board, mv) {
        2 * TIER + mvv_lva_score(board, mv) as i64
    } else if killers[0] == Some(mv) {
        TIER + 1
    } else if killers[1] == Some(mv) {
        TIER
    } else {
        history.get(mv) as i64
    }
}

/// Orders moves for the search: captures by MVV-LVA first, then the ply's
/// killer moves (most recent first), then quiet moves by history score,
/// each tier strictly ahead of the next and each sort stable.
pub fn order_moves_for_search(board: &Board, moves: &mut Vec<Move>, killers: [Option<Move>; 2], history: &HistoryTable)
    requires
        forall|i: int| 0 <= i < old(moves)@.len() ==> scorable(*board, #[trigger] old(moves)@[i]),
        history.wf(),
    ensures
        stably_sorted(final(moves)@, old(moves)@, |m: Move| search_key(*board, killers@, history@, m)),
{
    let ghost key = |m: Move| search_key(*board, killers@, history@, m);
    let mut keys: Vec<i64> = Vec::new();
    let mut i: usize = 0;
    while i < moves.len()
        invariant
            i <= moves@.len(),
            moves@ == old(moves)@,
            keys@.len() == i,
            history.wf(),
            forall|j: int| 0 <= j < moves@.len() ==> scorable(*board, #[trigger] moves@[j]),
            forall|j: int| 0 <= j < i ==> keys@[j] == search_key(*board, killers@, history@, #[trigger] moves@[j]),
        decreases moves@.len() - i,
    {
        let s = search_key_exec(board, &killers, history, moves[i]);
        keys.push(s);
        i += 1;
    }
    let sorted = stable_sort_desc(moves, &keys, Ghost(key));
    *moves = sorted;
}


// ---------------------------------------------------------------------------
// What the orderings promise
// ---------------------------------------------------------------------------

/// A capture of anything but a king outranks every quiet move in MVV-LVA:
/// after `order_moves`, no quiet move comes before such a capture.
pub proof fn lemma_captures_before_quiet(b: Board, s: Seq<Move>, orig: Seq<Move>)
    requires
        stably_sorted(s, orig, |m: Move| mvv_lva(b, m)),
        forall|i: int| 0 <= i < s.len() ==> scorable(b, #[trigger] s[i]),
    ensures
        forall|i: int, j: int| 0 <= i < j < s.len() && #[trigger] b.captures(s[j]) && victim(b, s[j]) != Some(PieceKind::King)
            ==> #[trigger] b.captures(s[i]),
{
    assert forall|i: int, j: int| 0 <= i < j < s.len() && #[trigger] b.captures(s[j]) && victim(b, s[j]) != Some(PieceKind::King)
        implies #[trigger] b.captures(s[i]) by {
        let key = |m: Move| mvv_lva(b, m);
        assert(key(s[i]) >= key(s[j]));
        assert(mvv_lva(b, s[j]) >= 700);
    }
}

/// The victim dominates the MVV-LVA rank: the capture of a more valuable
/// piece outranks the capture of a less valuable one, whatever the two
/// attackers are worth, so the attacker only breaks ties between equal
/// victims.
pub proof fn lemma_victim_dominates(b: Board, m1: Move, m2: Move)
    requires
        victim(b, m1) is Some,
        victim(b, m2) is Some,
        b.on(m1.from) is Some,
        b.on(m2.from) is Some,
        value_of(victim(b, m1).unwrap()) > value_of(victim(b, m2).unwrap()),
    ensures
        mvv_lva(b, m1) > mvv_lva(b, m2),
{
}

/// A quiet move ranks 0 in MVV-LVA, and the capture of anything but a king
/// ranks above 0.
pub proof fn lemma_mvv_lva_sign(b: Board, m: Move)
    requires
        victim(b, m) is Some ==> b.on(m.from) is Some,
    ensures
        victim(b, m) is None ==> mvv_lva(b, m) == 0,
        (victim(b, m) is Some && victim(b, m) != Some(PieceKind::King)) ==> mvv_lva(b, m) > 0,
{
}

/// The victim dominates the MVV-LVA order: after `order_moves`, no capture
/// comes before the capture of a more valuable piece, whatever the two
/// attackers are worth.
pub proof fn lemma_victim_first(b: Board, s: Seq<Move>, orig: Seq<Move>)
    requires
        stably_sorted(s, orig, |m: Move| mvv_lva(b, m)),
        forall|i: int| 0 <= i < s.len() ==> scorable(b, #[trigger] s[i]),
    ensures
        forall|i: int, j: int| 0 <= i < j < s.len() && #[trigger] victim(b, s[i]) is Some && #[trigger] victim(b, s[j]) is Some
            ==> value_of(victim(b, s[i]).unwrap()) >= value_of(victim(b, s[j]).unwrap()),
{
    assert forall|i: int, j: int| 0 <= i < j < s.len() && #[trigger] victim(b, s[i]) is Some && #[trigger] victim(b, s[j]) is Some
        implies value_of(victim(b, s[i]).unwrap()) >= value_of(victim(b, s[j]).unwrap()) by {
        let key = |m: Move| mvv_lva(b, m);
        assert(key(s[i]) >= key(s[j]));
    }
}

/// Among captures of the same kind of piece, the cheaper attacker comes
/// first after `order_moves`.
pub proof fn lemma_cheaper_attacker_first(b: Board, s: Seq<Move>, orig: Seq<Move>)
    requires
        stably_sorted(s, orig, |m: Move| mvv_lva(b, m)),
        forall|i: int| 0 <= i < s.len() ==> scorable(b, #[trigger] s[i]),
    ensures
        forall|i: int, j: int| 0 <= i < j < s.len() && victim(b, s[i]) is Some && #[trigger] victim(b, s[i]) == #[trigger] victim(b, s[j])
            ==> value_of(b.on(s[i].from).unwrap().kind) <= value_of(b.on(s[j].from).unwrap().kind),
{
    assert forall|i: int, j: int| 0 <= i < j < s.len() && victim(b, s[i]) is Some && #[trigger] victim(b, s[i]) == #[trigger] victim(b, s[j])
        implies value_of(b.on(s[i].from).unwrap().kind) <= value_of(b.on(s[j].from).unwrap().kind) by {
        let key = |m: Move| mvv_lva(b, m);
        assert(key(s[i]) >= key(s[j]));
    }
}

/// The tier a move sorts in during search: 3 for captures, 2 for the
/// ply's first killer, 1 for its second, 0 for other quiet moves.
pub open spec fn search_tier(b: Board, killers: Seq<Option<Move>>, m: Move) -> int {
    if b.captures(m) {
        3
    } else if killers[0] == Some(m) {
        2
    } else if killers[1] == Some(m) {
        1
    } else {
        0
    }
}

/// Each tier of the search order is strictly ahead of the ones below it,
/// whatever the history scores: captures, then the first killer, then
/// the second, then the other quiet moves.
pub proof fn lemma_search_tiers(b: Board, killers: Seq<Option<Move>>, history: Seq<Seq<i32>>, s: Seq<Move>, orig: Seq<Move>)
    requires
        stably_sorted(s, orig, |m: Move| search_key(b, killers, history, m)),
        forall|i: int| 0 <= i < s.len() ==> scorable(b, #[trigger] s[i]),
    ensures
        forall|i: int, j: int| 0 <= i < j < s.len() ==> search_tier(b, killers, #[trigger] s[i]) >= search_tier(b, killers, #[trigger] s[j]),
{
    assert forall|i: int, j: int| 0 <= i < j < s.len() implies search_tier(b, killers, #[trigger] s[i]) >= search_tier(b, killers, #[trigger] s[j]) by {
        let key = |m: Move| search_key(b, killers, history, m);
        assert(key(s[i]) >= key(s[j]));
        lemma_key_in_tier(b, killers, history, s[i]);
        lemma_key_in_tier(b, killers, history, s[j]);
    }
}

/// The search key of a move lies in its tier's band.
proof fn lemma_key_in_tier(b: Board, killers: Seq<Option<Move>>, history: Seq<Seq<i32>>, m: Move)
    requires
        scorable(b, m),
    ensures
        search_tier(b, killers, m) == 3 ==> search_key(b, killers, history, m) >= 2 * TIER - 900,
        search_tier(b, killers, m) == 2 ==> search_key(b, killers, history, m) == TIER + 1,
        search_tier(b, killers, m) == 1 ==> search_key(b, killers, history, m) == TIER,
        search_tier(b, killers, m) == 0 ==> search_key(b, killers, history, m) < TIER,
{
}


/// Where two kept elements land in a filtered sequence: in the order they
/// stood, each after the kept elements before it.
proof fn lemma_filter_positions(t: Seq<Move>, p: spec_fn(Move) -> bool, i: int, j: int)
    requires
        0 <= i < j < t.len(),
        p(t[i]),
        p(t[j]),
    ensures
        t.take(i).filter(p).len() < t.take(j).filter(p).len(),
        t.take(j).filter(p).len() < t.filter(p).len(),
        t.filter(p)[t.take(i).filter(p).len() as int] == t[i],
        t.filter(p)[t.take(j).filter(p).len() as int] == t[j],
{
    lemma_filter_position(t, p, i);
    lemma_filter_position(t, p, j);
    let mid = t.subrange(i, j);
    assert(t.take(j) == t.take(i) + mid);
    Seq::filter_distributes_over_add(t.take(i), mid, p);
    assert(mid == seq![t[i]] + mid.drop_first());
    Seq::filter_distributes_over_add(seq![t[i]], mid.drop_first(), p);
    assert(seq![t[i]].filter(p) == seq![t[i]]) by {
        Seq::<Move>::empty().lemma_filter_push(t[i], p);
        assert(Seq::<Move>::empty().push(t[i]) == seq![t[i]]);
    }
}

proof fn lemma_filter_position(t: Seq<Move>, p: spec_fn(Move) -> bool, i: int)
    requires
        0 <= i < t.len(),
        p(t[i]),
    ensures
        t.take(i).filter(p).len() < t.filter(p).len(),
        t.filter(p)[t.take(i).filter(p).len() as int] == t[i],
{
    let rest = t.skip(i + 1);
    assert(t == t.take(i) + seq![t[i]] + rest);
    Seq::filter_distributes_over_add(t.take(i) + seq![t[i]], rest, p);
    Seq::filter_distributes_over_add(t.take(i), seq![t[i]], p);
    assert(seq![t[i]].filter(p) == seq![t[i]]) by {
        Seq::<Move>::empty().lemma_filter_push(t[i], p);
        assert(Seq::<Move>::empty().push(t[i]) == seq![t[i]]);
    }
}

/// Filtering keeps a sequence free of repeats.
proof fn lemma_filter_no_dups(t: Seq<Move>, p: spec_fn(Move) -> bool)
    requires
        t.no_duplicates(),
    ensures
        t.filter(p).no_duplicates(),
    decreases t.len(),
{
    broadcast use vstd::seq_lib::group_filter_ensures;
    if t.len() > 0 {
        let u = t.drop_last();
        assert(u.no_duplicates()) by {
            assert forall|a: int, c: int| 0 <= a < u.len() && 0 <= c < u.len() && a != c implies u[a] != u[c] by {
                assert(u[a] == t[a] && u[c] == t[c]);
            }
        }
        lemma_filter_no_dups(u, p);
        u.lemma_filter_push(t.last(), p);
        assert(u.push(t.last()) == t);
        if p(t.last()) {
            let f = u.filter(p);
            assert(!f.contains(t.last())) by {
                if f.contains(t.last()) {
                    let a = choose|a: int| 0 <= a < f.len() && f[a] == t.last();
                    u.lemma_filter_contains_rev(p, f[a]);
                    assert(u.contains(f[a]));
                    let c = choose|c: int| 0 <= c < u.len() && u[c] == f[a];
                    assert(t[c] == t[t.len() - 1]);
                }
            }
            let g = f.push(t.last());
            assert forall|a: int, c: int| 0 <= a < g.len() && 0 <= c < g.len() && a != c implies g[a] != g[c] by {
                if a == f.len() {
                    assert(f.contains(g[c]));
                } else if c == f.len() {
                    assert(f.contains(g[a]));
                } else {
                    assert(g[a] == f[a] && g[c] == f[c]);
                }
            }
        }
    }
}

/// A stable sort keeps moves of equal key in their original order: if two
/// moves of the same key stand at `i < j` after sorting, the first stood
/// before the second in `orig`.
pub proof fn lemma_stable_order(s: Seq<Move>, orig: Seq<Move>, key: spec_fn(Move) -> int, i: int, j: int)
    requires
        stably_sorted(s, orig, key),
        orig.no_duplicates(),
        0 <= i < j < s.len(),
        key(s[i]) == key(s[j]),
    ensures
        exists|a: int, c: int| 0 <= a < c < orig.len() && orig[a] == s[i] && orig[c] == s[j],
{
    broadcast use vstd::seq_lib::group_filter_ensures;
    let p = key_is(key, key(s[i]));
    let f = s.filter(p);
    assert(f == orig.filter(p));
    lemma_filter_positions(s, p, i, j);
    let a1 = s.take(i).filter(p).len() as int;
    let b1 = s.take(j).filter(p).len() as int;
    lemma_filter_no_dups(orig, p);
    assert(f.contains(f[a1]));
    assert(f.contains(f[b1]));
    orig.lemma_filter_contains_rev(p, f[a1]);
    orig.lemma_filter_contains_rev(p, f[b1]);
    let x = choose|x: int| 0 <= x < orig.len() && orig[x] == f[a1];
    let y = choose|y: int| 0 <= y < orig.len() && orig[y] == f[b1];
    assert(f[a1] != f[b1]);
    assert(x != y);
    if y < x {
        lemma_filter_positions(orig, p, y, x);
        let a2 = orig.take(y).filter(p).len() as int;
        let b2 = orig.take(x).filter(p).len() as int;
        assert(f[a2] == f[b1]);
        assert(f[b2] == f[a1]);
    }
}

} // verus!
