//! Zobrist hashing. The keys are the SplitMix64 sequence from a fixed seed:
//! piece keys first ([color][piece][square]), then the 16 castling keys, the
//! 8 en-passant file keys and the side-to-move key. Because SplitMix64's
//! state only advances by a constant, the k-th key has a closed form and is
//! computed on demand.

use crate::types::{Color, PieceType, Square, color_index, piece_index};
use vstd::prelude::*;

verus! {

pub const SEED: u64 = 0x0052_415a_4f52_2121;  // "RAZOR!!"

pub const GAMMA: u64 = 0x9e37_79b9_7f4a_7c15;

pub const NUM_KEYS: u64 = 793;

/// SplitMix64's output function.
pub open spec fn mix_spec(z: u64) -> u64 {
    let z1 = (z ^ (z >> 30)).wrapping_mul(0xbf58_476d_1ce4_e5b9);
    let z2 = (z1 ^ (z1 >> 27)).wrapping_mul(0x94d0_49bb_1331_11eb);
    z2 ^ (z2 >> 31)
}

/// SplitMix64 state after `n` steps from the seed.
pub open spec fn state_after(n: int) -> u64 {
    ((SEED as int + n * (GAMMA as int)) % 0x1_0000_0000_0000_0000) as u64
}

/// The k-th key of the sequence (0-based).
pub open spec fn key_at(k: int) -> u64 {
    mix_spec(state_after(k + 1))
}

pub open spec fn piece_key_index(c: Color, pt: PieceType, sq: int) -> int {
    color_index(c) * 384 + piece_index(pt) * 64 + sq
}

pub open spec fn piece_key_spec(c: Color, pt: PieceType, sq: int) -> u64 {
    key_at(piece_key_index(c, pt, sq))
}

pub open spec fn castling_key_spec(rights: int) -> u64 {
    key_at(768 + rights)
}

pub open spec fn ep_key_spec(file: int) -> u64 {
    key_at(784 + file)
}

pub open spec fn side_key_spec() -> u64 {
    key_at(792)
}

fn mix(z: u64) -> (r: u64)
    ensures
        r == mix_spec(z),
{
    let z1 = (z ^ (z >> 30)).wrapping_mul(0xbf58_476d_1ce4_e5b9);
    let z2 = (z1 ^ (z1 >> 27)).wrapping_mul(0x94d0_49bb_1331_11eb);
    z2 ^ (z2 >> 31)
}

/// One SplitMix64 step: advance the state, return its mix.
pub(crate) fn splitmix64(state: &mut u64) -> (r: u64)
    ensures
        *final(state) == old(state).wrapping_add(GAMMA),
        r == mix_spec(*final(state)),
{
    *state = state.wrapping_add(GAMMA);
    mix(*state)
}

proof fn lemma_state_step(n: int)
    requires
        0 <= n,
    ensures
        state_after(n).wrapping_add(GAMMA) == state_after(n + 1),
{
    let m: int = 0x1_0000_0000_0000_0000;
    let a = SEED as int + n * (GAMMA as int);
    vstd::arithmetic::div_mod::lemma_add_mod_noop(a, GAMMA as int, m);
    assert((a % m + (GAMMA as int) % m) % m == (a + GAMMA as int) % m);
    assert((GAMMA as int) % m == GAMMA as int);
    assert(a + GAMMA as int == SEED as int + (n + 1) * (GAMMA as int)) by (nonlinear_arith)
        requires
            a == SEED as int + n * (GAMMA as int),
    ;
}

/// The closed-form state as the wrapping arithmetic computes it.
proof fn lemma_state_wrapping(n: u64)
    requires
        n < 794,
    ensures
        state_after(n as int) == SEED.wrapping_add(n.wrapping_mul(GAMMA)),
{
    let m: int = 0x1_0000_0000_0000_0000;
    assert(n * (GAMMA as int) < m * m) by (nonlinear_arith)
        requires
            n < 794,
            GAMMA < m,
    ;
    vstd::arithmetic::div_mod::lemma_add_mod_noop(SEED as int, n * (GAMMA as int), m);
    assert((SEED as int) % m == SEED as int);
}

/// The steps of SplitMix64 can be undone: each xor-shift loses no bit, and
/// each odd multiplier has an inverse modulo 2^64.
proof fn lemma_steps_invertible(x: u64, y: u64)
    by (bit_vector)
    ensures
        x ^ (x >> 30) == y ^ (y >> 30) ==> x == y,
        x ^ (x >> 27) == y ^ (y >> 27) ==> x == y,
        x ^ (x >> 31) == y ^ (y >> 31) ==> x == y,
        x.wrapping_mul(0xbf58_476d_1ce4_e5b9).wrapping_mul(0x96de_1b17_3f11_9089) == x,
        y.wrapping_mul(0xbf58_476d_1ce4_e5b9).wrapping_mul(0x96de_1b17_3f11_9089) == y,
        x.wrapping_mul(0x94d0_49bb_1331_11eb).wrapping_mul(0x3196_42b2_d24d_8ec3) == x,
        y.wrapping_mul(0x94d0_49bb_1331_11eb).wrapping_mul(0x3196_42b2_d24d_8ec3) == y,
        x.wrapping_mul(0x9e37_79b9_7f4a_7c15).wrapping_mul(0xf1de_83e1_9937_733d) == x,
        y.wrapping_mul(0x9e37_79b9_7f4a_7c15).wrapping_mul(0xf1de_83e1_9937_733d) == y,
        0x0052_415a_4f52_2121u64.wrapping_add(x) == 0x0052_415a_4f52_2121u64.wrapping_add(y) ==> x == y,
{
}

/// SplitMix64's output function loses nothing: distinct states give
/// distinct outputs.
proof fn lemma_mix_injective(x: u64, y: u64)
    requires
        mix_spec(x) == mix_spec(y),
    ensures
        x == y,
{
    let c0 = x ^ (x >> 30);
    let d0 = y ^ (y >> 30);
    let a1 = c0.wrapping_mul(0xbf58_476d_1ce4_e5b9);
    let b1 = d0.wrapping_mul(0xbf58_476d_1ce4_e5b9);
    let c1 = a1 ^ (a1 >> 27);
    let d1 = b1 ^ (b1 >> 27);
    let a2 = c1.wrapping_mul(0x94d0_49bb_1331_11eb);
    let b2 = d1.wrapping_mul(0x94d0_49bb_1331_11eb);
    lemma_steps_invertible(a2, b2);
    lemma_steps_invertible(c1, d1);
    lemma_steps_invertible(a1, b1);
    lemma_steps_invertible(c0, d0);
    lemma_steps_invertible(x, y);
}

/// Every key of the table differs from every other.
pub proof fn lemma_keys_distinct(i: int, j: int)
    requires
        0 <= i < j < NUM_KEYS,
    ensures
        key_at(i) != key_at(j),
{
    let a = (i + 1) as u64;
    let b = (j + 1) as u64;
    lemma_state_wrapping(a);
    lemma_state_wrapping(b);
    if key_at(i) == key_at(j) {
        lemma_mix_injective(state_after(i + 1), state_after(j + 1));
        lemma_steps_invertible(a.wrapping_mul(GAMMA), b.wrapping_mul(GAMMA));
        lemma_steps_invertible(a, b);
        assert(false);
    }
}

/// The k-th key, computed from the closed-form state.
pub fn key(k: u64) -> (r: u64)
    requires
        k < NUM_KEYS,
    ensures
        r == key_at(k as int),
{
    let n: u64 = k + 1;
    let st = SEED.wrapping_add(n.wrapping_mul(GAMMA));
    proof {
        let m: int = 0x1_0000_0000_0000_0000;
        assert(n * (GAMMA as int) < m * m) by (nonlinear_arith)
            requires
                n < 794,
                GAMMA < m,
        ;
        vstd::arithmetic::div_mod::lemma_add_mod_noop(SEED as int, n * (GAMMA as int), m);
        assert((SEED as int) % m == SEED as int);
    }
    mix(st)
}

pub fn piece_key(c: Color, pt: PieceType, sq: Square) -> (r: u64)
    requires
        sq < 64,
    ensures
        r == piece_key_spec(c, pt, sq as int),
{
    let k = c.idx() as u64 * 384 + pt.idx() as u64 * 64 + sq as u64;
    key(k)
}

pub fn castling_key(rights: u8) -> (r: u64)
    requires
        rights < 16,
    ensures
        r == castling_key_spec(rights as int),
{
    key(768 + rights as u64)
}

pub fn ep_key(file: u8) -> (r: u64)
    requires
        file < 8,
    ensures
        r == ep_key_spec(file as int),
{
    key(784 + file as u64)
}

pub fn side_key() -> (r: u64)
    ensures
        r == side_key_spec(),
{
    key(792)
}

/// The whole key table, in generation order.
pub struct Keys {
    /// index color * 384 + piece * 64 + square
    pub piece: Vec<u64>,
    /// indexed by castling rights 0..16
    pub castling: Vec<u64>,
    /// indexed by en-passant file
    pub ep_file: Vec<u64>,
    pub side_to_move: u64,
}

/// Generate the table by running SplitMix64 from the seed, one key per step.
/// Every entry equals the closed form the position code uses.
pub fn generate() -> (keys: Keys)
    ensures
        keys.piece@.len() == 768,
        keys.castling@.len() == 16,
        keys.ep_file@.len() == 8,
        forall|i: int| 0 <= i < 768 ==> #[trigger] keys.piece@[i] == key_at(i),
        forall|i: int| 0 <= i < 16 ==> #[trigger] keys.castling@[i] == key_at(768 + i),
        forall|i: int| 0 <= i < 8 ==> #[trigger] keys.ep_file@[i] == key_at(784 + i),
        keys.side_to_move == key_at(792),
{
    let mut state = SEED;
    proof {
        assert(state_after(0) == SEED);
    }
    let mut piece: Vec<u64> = Vec::new();
    let mut i: usize = 0;
    while i < 768
        invariant
            0 <= i <= 768,
            piece@.len() == i,
            state == state_after(i as int),
            forall|j: int| 0 <= j < i ==> #[trigger] piece@[j] == key_at(j),
        decreases 768 - i,
    {
        proof {
            lemma_state_step(i as int);
        }
        let v = splitmix64(&mut state);
        piece.push(v);
        i += 1;
    }
    let mut castling: Vec<u64> = Vec::new();
    let mut i: usize = 0;
    while i < 16
        invariant
            0 <= i <= 16,
            castling@.len() == i,
            state == state_after(768 + i),
            forall|j: int| 0 <= j < i ==> #[trigger] castling@[j] == key_at(768 + j),
        decreases 16 - i,
    {
        proof {
            lemma_state_step(768 + i);
        }
        let v = splitmix64(&mut state);
        castling.push(v);
        i += 1;
    }
    let mut ep_file: Vec<u64> = Vec::new();
    let mut i: usize = 0;
    while i < 8
        invariant
            0 <= i <= 8,
            ep_file@.len() == i,
            state == state_after(784 + i),
            forall|j: int| 0 <= j < i ==> #[trigger] ep_file@[j] == key_at(784 + j),
        decreases 8 - i,
    {
        proof {
            lemma_state_step(784 + i);
        }
        let v = splitmix64(&mut state);
        ep_file.push(v);
        i += 1;
    }
    proof {
        lemma_state_step(792);
    }
    let side_to_move = splitmix64(&mut state);
    Keys { piece, castling, ep_file, side_to_move }
}

} // verus!
