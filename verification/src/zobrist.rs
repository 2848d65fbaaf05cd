use vstd::prelude::*;
use crate::board::{Board, Piece};
use crate::square::Square;
use crate::types::{CastlingRights, Color, PieceKind};

verus! {

/// The seed of the key generator.
pub const ZOBRIST_SEED: u64 = 0x2545F4914F6CDD1D;

/// The step SplitMix64 adds to its state for every output.
pub const SPLITMIX_GAMMA: u64 = 0x9E3779B97F4A7C15;

/// The number of keys: one per piece/color/square combination, plus one for
/// side to move, four for castling rights and eight for the en passant file.
pub const KEY_COUNT: usize = 781;

/// SplitMix64's output function, applied to a state.
pub open spec fn mix(z: u64) -> u64 {
    let z1 = (z ^ (z >> 30)).wrapping_mul(0xBF58476D1CE4E5B9);
    let z2 = (z1 ^ (z1 >> 27)).wrapping_mul(0x94D049BB133111EB);
    z2 ^ (z2 >> 31)
}

/// The generator state after `n` steps from the seed.
pub open spec fn state_after(n: nat) -> u64
    decreases n,
{
    if n == 0 {
        ZOBRIST_SEED
    } else {
        state_after((n - 1) as nat).wrapping_add(SPLITMIX_GAMMA)
    }
}

/// Key number `n` (from 0) of the fixed-seed SplitMix64 sequence: the same
/// on every run, so a position always hashes the same.
pub open spec fn key(n: nat) -> u64 {
    mix(state_after(n + 1))
}

pub open spec fn color_number(c: Color) -> int {
    match c {
        Color::White => 0,
        Color::Black => 1,
    }
}

pub open spec fn kind_number(k: PieceKind) -> int {
    match k {
        PieceKind::Pawn => 0,
        PieceKind::Knight => 1,
        PieceKind::Bishop => 2,
        PieceKind::Rook => 3,
        PieceKind::Queen => 4,
        PieceKind::King => 5,
    }
}

/// The number of the key for piece `p` on square index `i`: keys run by
/// color, then kind, then square.
pub open spec fn piece_key_number(p: Piece, i: int) -> int {
    (color_number(p.color) * 6 + kind_number(p.kind)) * 64 + i
}

/// The XOR of the keys of the pieces on square indices `0..n`.
pub open spec fn pieces_hash(b: Board, n: int) -> u64
    decreases n,
{
    if n <= 0 {
        0
    } else {
        pieces_hash(b, n - 1) ^ match b.at(n - 1) {
            Some(p) => key(piece_key_number(p, n - 1) as nat),
            None => 0u64,
        }
    }
}

/// The Zobrist hash of a position: the XOR of the keys of its pieces, of
/// Black to move, of each castling right held and of the en passant file.
pub open spec fn zobrist(b: Board) -> u64 {
    let h0 = pieces_hash(b, 64);
    let h1 = if b.side_to_move == Color::Black { h0 ^ key(768) } else { h0 };
    let h2 = if b.castling.white_kingside { h1 ^ key(769) } else { h1 };
    let h3 = if b.castling.white_queenside { h2 ^ key(770) } else { h2 };
    let h4 = if b.castling.black_kingside { h3 ^ key(771) } else { h3 };
    let h5 = if b.castling.black_queenside { h4 ^ key(772) } else { h4 };
    match b.en_passant {
        Some(sq) => h5 ^ key((773 + sq.file) as nat),
        None => h5,
    }
}

/// A small, fixed-seed PRNG (SplitMix64) used only to fill the key tables.
/// Determinism matters more than randomness quality here: the same seed
/// must produce the same keys on every run, or a position hashed by one
/// run of the engine wouldn't match the same position hashed by another.
fn splitmix64(state: &mut u64) -> (r: u64)
    ensures
        *final(state) == old(state).wrapping_add(SPLITMIX_GAMMA),
        r == mix(*final(state)),
{
    *state = state.wrapping_add(0x9E3779B97F4A7C15);
    let mut z = *state;
    z = (z ^ (z >> 30)).wrapping_mul(0xBF58476D1CE4E5B9);
    z = (z ^ (z >> 27)).wrapping_mul(0x94D049BB133111EB);
    z ^ (z >> 31)
}

/// Every key, in order.
fn keys() -> (ks: Vec<u64>)
    ensures
        ks@.len() == KEY_COUNT,
        forall|n: int| 0 <= n < KEY_COUNT ==> #[trigger] ks@[n] == key(n as nat),
{
    let mut state: u64 = ZOBRIST_SEED;
    let mut ks: Vec<u64> = Vec::new();
    while ks.len() < KEY_COUNT
        invariant
            ks@.len() <= KEY_COUNT,
            state == state_after(ks@.len()),
            forall|n: int| 0 <= n < ks@.len() ==> #[trigger] ks@[n] == key(n as nat),
        decreases KEY_COUNT - ks@.len(),
    {
        let k = splitmix64(&mut state);
        ks.push(k);
    }
    ks
}

fn color_index(color: Color) -> (i: usize)
    ensures
        i == color_number(color),
{
    match color {
        Color::White => 0,
        Color::Black => 1,
    }
}

fn kind_index(kind: PieceKind) -> (i: usize)
    ensures
        i == kind_number(kind),
{
    match kind {
        PieceKind::Pawn => 0,
        PieceKind::Knight => 1,
        PieceKind::Bishop => 2,
        PieceKind::Rook => 3,
        PieceKind::Queen => 4,
        PieceKind::King => 5,
    }
}

/// Computes a Zobrist hash of `board`'s position: pieces, side to move,
/// castling rights, and en passant target. Two boards with the same hash
/// are (almost certainly) the same position; used to key the
/// transposition table.
pub fn hash(board: &Board) -> (h: u64)
    requires
        board.en_passant matches Some(sq) ==> sq.file < 8,
    ensures
        h == zobrist(*board),
{
    let ks = keys();
    let mut h: u64 = 0;
    let mut rank: u8 = 0;
    while rank < 8
        invariant
            rank <= 8,
            ks@.len() == KEY_COUNT,
            forall|n: int| 0 <= n < KEY_COUNT ==> #[trigger] ks@[n] == key(n as nat),
            h == pieces_hash(*board, rank * 8),
        decreases 8 - rank,
    {
        let mut file: u8 = 0;
        while file < 8
            invariant
                file <= 8,
                rank < 8,
                ks@.len() == KEY_COUNT,
                forall|n: int| 0 <= n < KEY_COUNT ==> #[trigger] ks@[n] == key(n as nat),
                h == pieces_hash(*board, rank * 8 + file),
            decreases 8 - file,
        {
            let sq = Square::new(file, rank);
            let ghost before = h;
            if let Some(piece) = board.get(sq) {
                let n = (color_index(piece.color) * 6 + kind_index(piece.kind)) * 64 + sq.index();
                h ^= ks[n];
            } else {
                assert(before ^ 0u64 == before) by (bit_vector);
            }
            assert(pieces_hash(*board, rank * 8 + file + 1) == pieces_hash(*board, rank * 8 + file) ^ match board.at(
                rank * 8 + file,
            ) {
                Some(p) => key(piece_key_number(p, rank * 8 + file) as nat),
                None => 0u64,
            });
            file += 1;
        }
        rank += 1;
    }
    if board.side_to_move == Color::Black {
        h ^= ks[768];
    }
    if board.castling.white_kingside {
        h ^= ks[769];
    }
    if board.castling.white_queenside {
        h ^= ks[770];
    }
    if board.castling.black_kingside {
        h ^= ks[771];
    }
    if board.castling.black_queenside {
        h ^= ks[772];
    }
    if let Some(ep) = board.en_passant {
        h ^= ks[773 + ep.file as usize];
    }
    h
}

// ---------------------------------------------------------------------------
// Distinct keys
// ---------------------------------------------------------------------------

/// The number of values a `u64` holds.
pub open spec fn word() -> int {
    0x1_0000_0000_0000_0000
}

/// Multiplying by a number that has an inverse modulo 2^64 loses nothing:
/// two words whose products agree modulo 2^64 are equal.
proof fn lemma_mul_cancel(x: int, y: int, c: int, ci: int)
    requires
        0 <= x < word(),
        0 <= y < word(),
        (c * ci) % word() == 1,
        (x * c) % word() == (y * c) % word(),
    ensures
        x == y,
{
    let m = word();
    vstd::arithmetic::div_mod::lemma_mul_mod_noop_left(x * c, ci, m);
    vstd::arithmetic::div_mod::lemma_mul_mod_noop_left(y * c, ci, m);
    vstd::arithmetic::mul::lemma_mul_is_associative(x, c, ci);
    vstd::arithmetic::mul::lemma_mul_is_associative(y, c, ci);
    vstd::arithmetic::div_mod::lemma_mul_mod_noop_right(x, c * ci, m);
    vstd::arithmetic::div_mod::lemma_mul_mod_noop_right(y, c * ci, m);
    vstd::arithmetic::div_mod::lemma_small_mod(x as nat, m as nat);
    vstd::arithmetic::div_mod::lemma_small_mod(y as nat, m as nat);
}

/// SplitMix64's output function never maps two states to one output.
pub proof fn lemma_mix_injective(x: u64, y: u64)
    requires
        mix(x) == mix(y),
    ensures
        x == y,
{
    let x0 = x ^ (x >> 30);
    let y0 = y ^ (y >> 30);
    let x1 = x0.wrapping_mul(0xBF58476D1CE4E5B9);
    let y1 = y0.wrapping_mul(0xBF58476D1CE4E5B9);
    let x2 = x1 ^ (x1 >> 27);
    let y2 = y1 ^ (y1 >> 27);
    let x3 = x2.wrapping_mul(0x94D049BB133111EB);
    let y3 = y2.wrapping_mul(0x94D049BB133111EB);
    assert(x3 ^ (x3 >> 31) == y3 ^ (y3 >> 31) ==> x3 == y3) by (bit_vector);
    assert(0xBF58476D1CE4E5B9int * 0x96DE1B173F119089int % word() == 1);
    assert(0x94D049BB133111EBint * 0x319642B2D24D8EC3int % word() == 1);
    lemma_mul_cancel(x2 as int, y2 as int, 0x94D049BB133111EBint, 0x319642B2D24D8EC3int);
    assert(x1 ^ (x1 >> 27) == y1 ^ (y1 >> 27) ==> x1 == y1) by (bit_vector);
    lemma_mul_cancel(x0 as int, y0 as int, 0xBF58476D1CE4E5B9int, 0x96DE1B173F119089int);
    assert(x ^ (x >> 30) == y ^ (y >> 30) ==> x == y) by (bit_vector);
}

/// The generator state after `n` steps is the seed plus `n` steps, modulo
/// 2^64.
proof fn lemma_state_after(n: nat)
    ensures
        state_after(n) as int == (ZOBRIST_SEED + n * SPLITMIX_GAMMA) % word(),
    decreases n,
{
    if n > 0 {
        lemma_state_after((n - 1) as nat);
        let m = word();
        let prev = state_after((n - 1) as nat);
        assert(state_after(n) as int == (prev + SPLITMIX_GAMMA) % m);
        vstd::arithmetic::div_mod::lemma_add_mod_noop(ZOBRIST_SEED + (n - 1) * SPLITMIX_GAMMA, SPLITMIX_GAMMA as int, m);
        vstd::arithmetic::div_mod::lemma_small_mod(SPLITMIX_GAMMA as nat, m as nat);
        vstd::arithmetic::div_mod::lemma_mod_twice(ZOBRIST_SEED + (n - 1) * SPLITMIX_GAMMA, m);
        assert((n - 1) * SPLITMIX_GAMMA + SPLITMIX_GAMMA == n * SPLITMIX_GAMMA) by (nonlinear_arith);
    }
}

/// The generator never returns to a state within 2^64 steps.
proof fn lemma_states_distinct(a: nat, b: nat)
    requires
        a < b < word(),
    ensures
        state_after(a) != state_after(b),
{
    let m = word();
    lemma_state_after(a);
    lemma_state_after(b);
    if state_after(a) == state_after(b) {
        let d = b - a;
        let big = ZOBRIST_SEED + b * SPLITMIX_GAMMA;
        let small = ZOBRIST_SEED + a * SPLITMIX_GAMMA;
        assert(big - small == d * SPLITMIX_GAMMA) by (nonlinear_arith)
            requires big == ZOBRIST_SEED + b * SPLITMIX_GAMMA, small == ZOBRIST_SEED + a * SPLITMIX_GAMMA, d == b - a;
        vstd::arithmetic::div_mod::lemma_sub_mod_noop(big, small, m);
        assert((d * SPLITMIX_GAMMA) % m == (0 * SPLITMIX_GAMMA) % m);
        assert(0x9E3779B97F4A7C15int * 0xF1DE83E19937733Dint % word() == 1);
        lemma_mul_cancel(d, 0, SPLITMIX_GAMMA as int, 0xF1DE83E19937733Dint);
    }
}

/// Keys of different numbers differ.
pub proof fn lemma_keys_distinct(a: nat, b: nat)
    requires
        a != b,
        a < KEY_COUNT,
        b < KEY_COUNT,
    ensures
        key(a) != key(b),
{
    if key(a) == key(b) {
        lemma_mix_injective(state_after(a + 1), state_after(b + 1));
        if a < b {
            lemma_states_distinct(a + 1, b + 1);
        } else {
            lemma_states_distinct(b + 1, a + 1);
        }
    }
}

/// Each piece on each square has a key number of its own, below the keys
/// of the side to move, castling and en passant.
pub proof fn lemma_piece_key_numbers_distinct(p: Piece, i: int, q: Piece, j: int)
    requires
        0 <= i < 64,
        0 <= j < 64,
        p != q || i != j,
    ensures
        piece_key_number(p, i) != piece_key_number(q, j),
        0 <= piece_key_number(p, i) < 768,
{
}

/// The key a square contributes to the hash: its piece's key, or nothing.
pub open spec fn square_key(b: Board, i: int) -> u64 {
    match b.at(i) {
        Some(p) => key(piece_key_number(p, i) as nat),
        None => 0u64,
    }
}

proof fn lemma_xor_regroup(x: u64, s: u64, y: u64, t: u64)
    by (bit_vector)
    ensures
        (x ^ s) ^ (y ^ t) == (x ^ y) ^ (s ^ t),
        x ^ 0 == x,
        x ^ x == 0,
{
}

/// The hashes of the pieces of two boards that agree outside squares `i`
/// and `j` differ by the keys on those two squares.
proof fn lemma_pieces_hash_diff(a: Board, b: Board, n: int, i: int, j: int)
    requires
        0 <= n <= 64,
        0 <= i < 64,
        0 <= j < 64,
        forall|k: int| 0 <= k < 64 && k != i && k != j ==> #[trigger] a.at(k) == b.at(k),
        i != j,
    ensures
        pieces_hash(a, n) ^ pieces_hash(b, n) == (if i < n { square_key(a, i) ^ square_key(b, i) } else { 0u64 })
            ^ (if j < n { square_key(a, j) ^ square_key(b, j) } else { 0u64 }),
    decreases n,
{
    if n > 0 {
        lemma_pieces_hash_diff(a, b, n - 1, i, j);
        let k = n - 1;
        assert(pieces_hash(a, n) == pieces_hash(a, k) ^ square_key(a, k));
        assert(pieces_hash(b, n) == pieces_hash(b, k) ^ square_key(b, k));
        let ha = pieces_hash(a, k);
        let hb = pieces_hash(b, k);
        let sa = square_key(a, k);
        let sb = square_key(b, k);
        let t = sa ^ sb;
        let di = if i < k { square_key(a, i) ^ square_key(b, i) } else { 0u64 };
        let dj = if j < k { square_key(a, j) ^ square_key(b, j) } else { 0u64 };
        assert(ha ^ hb == di ^ dj);
        assert((ha ^ sa) ^ (hb ^ sb) == (ha ^ hb) ^ t) by (bit_vector)
            requires t == sa ^ sb;
        if k == i {
            assert(di == 0u64);
            assert((0u64 ^ dj) ^ t == t ^ dj) by (bit_vector);
        } else if k == j {
            assert(dj == 0u64);
            assert((di ^ 0u64) ^ t == di ^ t) by (bit_vector);
        } else {
            assert(sa == sb);
            assert(t == 0u64) by (bit_vector)
                requires t == sa ^ sb, sa == sb;
            assert((di ^ dj) ^ 0u64 == di ^ dj) by (bit_vector);
        }
    } else {
        assert(0u64 ^ 0u64 == 0u64) by (bit_vector);
    }
}

/// Equal hashes of two positions with the same side to move, castling
/// rights and en passant target mean equal hashes of their pieces.
proof fn lemma_same_state_same_pieces_hash(a: Board, b: Board)
    requires
        a.side_to_move == b.side_to_move,
        a.castling == b.castling,
        a.en_passant == b.en_passant,
        zobrist(a) == zobrist(b),
    ensures
        pieces_hash(a, 64) == pieces_hash(b, 64),
{
    assert(forall|x: u64, y: u64, k: u64| #[trigger] (x ^ k) == #[trigger] (y ^ k) ==> x == y) by (bit_vector);
}

/// A piece's key depends on its square: moving one piece to an empty
/// square, with nothing else changed, changes the hash.
pub proof fn lemma_moving_a_piece_changes_the_hash(a: Board, b: Board, i: int, j: int)
    requires
        0 <= i < 64,
        0 <= j < 64,
        i != j,
        a.at(i) is Some,
        a.at(j) is None,
        b.at(j) == a.at(i),
        b.at(i) is None,
        forall|k: int| 0 <= k < 64 && k != i && k != j ==> #[trigger] a.at(k) == b.at(k),
        a.side_to_move == b.side_to_move,
        a.castling == b.castling,
        a.en_passant == b.en_passant,
    ensures
        zobrist(a) != zobrist(b),
{
    let p = a.at(i).unwrap();
    lemma_pieces_hash_diff(a, b, 64, i, j);
    lemma_piece_key_numbers_distinct(p, i, p, j);
    let ki = key(piece_key_number(p, i) as nat);
    let kj = key(piece_key_number(p, j) as nat);
    lemma_keys_distinct(piece_key_number(p, i) as nat, piece_key_number(p, j) as nat);
    assert(square_key(a, i) == ki && square_key(b, i) == 0 && square_key(a, j) == 0 && square_key(b, j) == kj);
    assert((ki ^ 0u64) ^ (0u64 ^ kj) != 0u64) by (bit_vector)
        requires ki != kj;
    if zobrist(a) == zobrist(b) {
        lemma_same_state_same_pieces_hash(a, b);
        let h = pieces_hash(a, 64);
        lemma_xor_regroup(h, 0, 0, 0);
    }
}

/// No key is zero: the generator's state never comes back to zero within
/// the keys, and its output function maps only zero to zero.
pub proof fn lemma_keys_nonzero(n: nat)
    requires
        n < KEY_COUNT,
    ensures
        key(n) != 0,
{
    let k = n + 1;
    let m = word();
    lemma_state_after(k);
    if state_after(k) == 0 {
        let x = ZOBRIST_SEED + k * SPLITMIX_GAMMA;
        let gi = 0xF1DE83E19937733Dint;
        assert(x % m == 0);
        vstd::arithmetic::div_mod::lemma_mul_mod_noop_left(x, gi, m);
        assert((x * gi) % m == 0);
        assert(x * gi == ZOBRIST_SEED * gi + k * (SPLITMIX_GAMMA * gi)) by (nonlinear_arith)
            requires x == ZOBRIST_SEED + k * SPLITMIX_GAMMA;
        vstd::arithmetic::div_mod::lemma_add_mod_noop(ZOBRIST_SEED * gi, k * (SPLITMIX_GAMMA * gi), m);
        vstd::arithmetic::div_mod::lemma_mul_mod_noop_right(k as int, SPLITMIX_GAMMA * gi, m);
        assert(0x9E3779B97F4A7C15int * 0xF1DE83E19937733Dint % word() == 1);
        assert(0x2545F4914F6CDD1Dint * 0xF1DE83E19937733Dint % word() == 0x4232DB54AA7FB6E9int);
        vstd::arithmetic::div_mod::lemma_small_mod(k, m as nat);
        vstd::arithmetic::div_mod::lemma_small_mod((0x4232DB54AA7FB6E9int + k) as nat, m as nat);
    }
    if key(n) == 0 {
        assert(0u64 ^ (0u64 >> 30) == 0u64 && 0u64 ^ (0u64 >> 27) == 0u64 && 0u64 ^ (0u64 >> 31) == 0u64) by (bit_vector);
        assert(mix(0) == 0);
        lemma_mix_injective(state_after(k), 0);
    }
}

/// The key a flag of the position contributes: key `n` when the flag is
/// set, nothing otherwise.
pub open spec fn flag_key(on: bool, n: nat) -> u64 {
    if on { key(n) } else { 0u64 }
}

/// The key the en passant target contributes.
pub open spec fn en_passant_key(b: Board) -> u64 {
    match b.en_passant {
        Some(sq) => key((773 + sq.file) as nat),
        None => 0u64,
    }
}

proof fn lemma_xor_chain(h: u64, g: u64, a1: u64, a2: u64, a3: u64, a4: u64, a5: u64, a6: u64, b1: u64, b2: u64, b3: u64, b4: u64, b5: u64, b6: u64)
    by (bit_vector)
    ensures
        ((((((h ^ a1) ^ a2) ^ a3) ^ a4) ^ a5) ^ a6) ^ ((((((g ^ b1) ^ b2) ^ b3) ^ b4) ^ b5) ^ b6)
            == (h ^ g) ^ ((a1 ^ b1) ^ ((a2 ^ b2) ^ ((a3 ^ b3) ^ ((a4 ^ b4) ^ ((a5 ^ b5) ^ (a6 ^ b6)))))),
{
}

proof fn lemma_xor_basics(x: u64, y: u64)
    by (bit_vector)
    ensures
        x ^ 0 == x,
        0 ^ x == x,
        x ^ x == 0,
        (x ^ y == 0) == (x == y),
{
}

/// The hashes of two boards differ by the keys of the pieces and the flags
/// in which they differ.
proof fn lemma_zobrist_difference(a: Board, b: Board)
    ensures
        zobrist(a) ^ zobrist(b) == (pieces_hash(a, 64) ^ pieces_hash(b, 64)) ^ (
            (flag_key(a.side_to_move == Color::Black, 768) ^ flag_key(b.side_to_move == Color::Black, 768)) ^ (
            (flag_key(a.castling.white_kingside, 769) ^ flag_key(b.castling.white_kingside, 769)) ^ (
            (flag_key(a.castling.white_queenside, 770) ^ flag_key(b.castling.white_queenside, 770)) ^ (
            (flag_key(a.castling.black_kingside, 771) ^ flag_key(b.castling.black_kingside, 771)) ^ (
            (flag_key(a.castling.black_queenside, 772) ^ flag_key(b.castling.black_queenside, 772)) ^ (
            en_passant_key(a) ^ en_passant_key(b))))))),
{
    let ha = pieces_hash(a, 64);
    let hb = pieces_hash(b, 64);
    let a1 = flag_key(a.side_to_move == Color::Black, 768);
    let a2 = flag_key(a.castling.white_kingside, 769);
    let a3 = flag_key(a.castling.white_queenside, 770);
    let a4 = flag_key(a.castling.black_kingside, 771);
    let a5 = flag_key(a.castling.black_queenside, 772);
    let a6 = en_passant_key(a);
    let b1 = flag_key(b.side_to_move == Color::Black, 768);
    let b2 = flag_key(b.castling.white_kingside, 769);
    let b3 = flag_key(b.castling.white_queenside, 770);
    let b4 = flag_key(b.castling.black_kingside, 771);
    let b5 = flag_key(b.castling.black_queenside, 772);
    let b6 = en_passant_key(b);
    lemma_xor_basics(ha, 0);
    lemma_xor_basics(hb, 0);
    lemma_xor_basics(((((ha ^ a1) ^ a2) ^ a3) ^ a4) ^ a5, 0);
    lemma_xor_basics(((((hb ^ b1) ^ b2) ^ b3) ^ b4) ^ b5, 0);
    assert(zobrist(a) == ((((((ha ^ a1) ^ a2) ^ a3) ^ a4) ^ a5) ^ a6)) by {
        lemma_xor_basics(ha ^ a1, 0);
        lemma_xor_basics((ha ^ a1) ^ a2, 0);
        lemma_xor_basics(((ha ^ a1) ^ a2) ^ a3, 0);
        lemma_xor_basics((((ha ^ a1) ^ a2) ^ a3) ^ a4, 0);
    }
    assert(zobrist(b) == ((((((hb ^ b1) ^ b2) ^ b3) ^ b4) ^ b5) ^ b6)) by {
        lemma_xor_basics(hb ^ b1, 0);
        lemma_xor_basics((hb ^ b1) ^ b2, 0);
        lemma_xor_basics(((hb ^ b1) ^ b2) ^ b3, 0);
        lemma_xor_basics((((hb ^ b1) ^ b2) ^ b3) ^ b4, 0);
    }
    lemma_xor_chain(ha, hb, a1, a2, a3, a4, a5, a6, b1, b2, b3, b4, b5, b6);
}

proof fn lemma_xor_one_left(p: u64, d1: u64, d2: u64, d3: u64, d4: u64, d5: u64, d6: u64)
    by (bit_vector)
    ensures
        (p == 0 && d2 == 0 && d3 == 0 && d4 == 0 && d5 == 0 && d6 == 0) ==> p ^ (d1 ^ (d2 ^ (d3 ^ (d4 ^ (d5 ^ d6))))) == d1,
        (p == 0 && d1 == 0 && d3 == 0 && d4 == 0 && d5 == 0 && d6 == 0) ==> p ^ (d1 ^ (d2 ^ (d3 ^ (d4 ^ (d5 ^ d6))))) == d2,
        (p == 0 && d1 == 0 && d2 == 0 && d4 == 0 && d5 == 0 && d6 == 0) ==> p ^ (d1 ^ (d2 ^ (d3 ^ (d4 ^ (d5 ^ d6))))) == d3,
        (p == 0 && d1 == 0 && d2 == 0 && d3 == 0 && d5 == 0 && d6 == 0) ==> p ^ (d1 ^ (d2 ^ (d3 ^ (d4 ^ (d5 ^ d6))))) == d4,
        (p == 0 && d1 == 0 && d2 == 0 && d3 == 0 && d4 == 0 && d6 == 0) ==> p ^ (d1 ^ (d2 ^ (d3 ^ (d4 ^ (d5 ^ d6))))) == d5,
        (p == 0 && d1 == 0 && d2 == 0 && d3 == 0 && d4 == 0 && d5 == 0) ==> p ^ (d1 ^ (d2 ^ (d3 ^ (d4 ^ (d5 ^ d6))))) == d6,
{
}

/// Exactly one of the four castling rights differs between `x` and `y`.
pub open spec fn one_right_differs(x: CastlingRights, y: CastlingRights) -> bool {
    let d1 = x.white_kingside != y.white_kingside;
    let d2 = x.white_queenside != y.white_queenside;
    let d3 = x.black_kingside != y.black_kingside;
    let d4 = x.black_queenside != y.black_queenside;
    (if d1 { 1int } else { 0int }) + (if d2 { 1int } else { 0int }) + (if d3 { 1int } else { 0int }) + (if d4 { 1int } else { 0int }) == 1
}

/// The file of the en passant target, if there is one.
pub open spec fn en_passant_file(b: Board) -> Option<u8> {
    match b.en_passant {
        Some(sq) => Some(sq.file),
        None => None,
    }
}

/// The hash tells apart positions that differ in one flag only: the side
/// to move, a single castling right, or the file of the en passant target
/// (the target's rank follows from the side to move).
pub proof fn lemma_flags_change_the_hash(a: Board, b: Board)
    requires
        forall|k: int| 0 <= k < 64 ==> #[trigger] a.at(k) == b.at(k),
        a.en_passant matches Some(sq) ==> sq.file < 8,
        b.en_passant matches Some(sq) ==> sq.file < 8,
        ({
            ||| (a.side_to_move != b.side_to_move && a.castling == b.castling && a.en_passant == b.en_passant)
            ||| (a.side_to_move == b.side_to_move && one_right_differs(a.castling, b.castling) && a.en_passant == b.en_passant)
            ||| (a.side_to_move == b.side_to_move && a.castling == b.castling && en_passant_file(a) != en_passant_file(b))
        }),
    ensures
        zobrist(a) != zobrist(b),
{
    lemma_pieces_hash_same(a, b, 64);
    lemma_zobrist_difference(a, b);
    let p = pieces_hash(a, 64) ^ pieces_hash(b, 64);
    let d1 = flag_key(a.side_to_move == Color::Black, 768) ^ flag_key(b.side_to_move == Color::Black, 768);
    let d2 = flag_key(a.castling.white_kingside, 769) ^ flag_key(b.castling.white_kingside, 769);
    let d3 = flag_key(a.castling.white_queenside, 770) ^ flag_key(b.castling.white_queenside, 770);
    let d4 = flag_key(a.castling.black_kingside, 771) ^ flag_key(b.castling.black_kingside, 771);
    let d5 = flag_key(a.castling.black_queenside, 772) ^ flag_key(b.castling.black_queenside, 772);
    let d6 = en_passant_key(a) ^ en_passant_key(b);
    lemma_xor_basics(pieces_hash(a, 64), pieces_hash(b, 64));
    lemma_xor_basics(flag_key(a.side_to_move == Color::Black, 768), flag_key(b.side_to_move == Color::Black, 768));
    lemma_xor_basics(flag_key(a.castling.white_kingside, 769), flag_key(b.castling.white_kingside, 769));
    lemma_xor_basics(flag_key(a.castling.white_queenside, 770), flag_key(b.castling.white_queenside, 770));
    lemma_xor_basics(flag_key(a.castling.black_kingside, 771), flag_key(b.castling.black_kingside, 771));
    lemma_xor_basics(flag_key(a.castling.black_queenside, 772), flag_key(b.castling.black_queenside, 772));
    lemma_xor_basics(en_passant_key(a), en_passant_key(b));
    lemma_xor_one_left(p, d1, d2, d3, d4, d5, d6);
    lemma_keys_nonzero(768);
    lemma_keys_nonzero(769);
    lemma_keys_nonzero(770);
    lemma_keys_nonzero(771);
    lemma_keys_nonzero(772);
    match a.en_passant {
        Some(sa) => {
            lemma_keys_nonzero((773 + sa.file) as nat);
            match b.en_passant {
                Some(sb) => {
                    if sa.file != sb.file {
                        lemma_keys_distinct((773 + sa.file) as nat, (773 + sb.file) as nat);
                    }
                },
                None => {},
            }
        },
        None => {},
    }
    match b.en_passant {
        Some(sb) => { lemma_keys_nonzero((773 + sb.file) as nat); },
        None => {},
    }
    lemma_xor_basics(zobrist(a), zobrist(b));
}

/// The hash depends on the position alone: boards with the same pieces,
/// side to move, castling rights and en passant target hash the same,
/// whatever their move counters.
pub proof fn lemma_hash_of_position(a: Board, b: Board)
    requires
        forall|i: int| 0 <= i < 64 ==> #[trigger] a.at(i) == b.at(i),
        a.side_to_move == b.side_to_move,
        a.castling == b.castling,
        a.en_passant == b.en_passant,
    ensures
        zobrist(a) == zobrist(b),
{
    lemma_pieces_hash_same(a, b, 64);
}

proof fn lemma_pieces_hash_same(a: Board, b: Board, n: int)
    requires
        n <= 64,
        forall|i: int| 0 <= i < 64 ==> #[trigger] a.at(i) == b.at(i),
    ensures
        pieces_hash(a, n) == pieces_hash(b, n),
    decreases n,
{
    if n > 0 {
        lemma_pieces_hash_same(a, b, n - 1);
        assert(a.at(n - 1) == b.at(n - 1));
    }
}

} // verus!
