//! Bitboards and attack generation. A bitboard is a `u64` whose bit `s` is set
//! when square `s` is in the set. Leaper attacks come from the piece's jump
//! deltas; slider attacks walk each ray until the first occupied square.

use crate::types::{Color, Square, file_of, file_spec, rank_of, rank_spec};
use vstd::prelude::*;

verus! {

pub type Bitboard = u64;

pub const FILE_A: Bitboard = 0x0101_0101_0101_0101;
pub const FILE_H: Bitboard = 0x8080_8080_8080_8080;
pub const RANK_1: Bitboard = 0xff;
pub const RANK_2: Bitboard = 0xff00;
pub const RANK_7: Bitboard = 0x00ff_0000_0000_0000;
pub const RANK_8: Bitboard = 0xff00_0000_0000_0000;

// ---------------------------------------------------------------------------
// Bit model
// ---------------------------------------------------------------------------
/// Square `s` is a member of bitboard `b`.
pub open spec fn in_bb(b: u64, s: int) -> bool {
    0 <= s < 64 && (b >> (s as u64)) & 1 == 1
}

/// One bit of the bitwise operations, and of the constants.
proof fn lemma_bit_ops(a: u64, b: u64, t: u64)
    by (bit_vector)
    requires
        t < 64,
    ensures
        (((a | b) >> t) & 1 == 1) == (((a >> t) & 1 == 1) || ((b >> t) & 1 == 1)),
        (((a & b) >> t) & 1 == 1) == (((a >> t) & 1 == 1) && ((b >> t) & 1 == 1)),
        (((a ^ b) >> t) & 1 == 1) == (((a >> t) & 1 == 1) != ((b >> t) & 1 == 1)),
        (((!a) >> t) & 1 == 1) == !((a >> t) & 1 == 1),
        (0u64 >> t) & 1 == 0,
        (0xffff_ffff_ffff_ffffu64 >> t) & 1 == 1,
{
}

pub broadcast proof fn lemma_has_or(a: u64, b: u64, s: int)
    ensures
        #[trigger] in_bb(a | b, s) == (in_bb(a, s) || in_bb(b, s)),
{
    if 0 <= s < 64 {
        lemma_bit_ops(a, b, s as u64);
    }
}

pub broadcast proof fn lemma_has_and(a: u64, b: u64, s: int)
    ensures
        #[trigger] in_bb(a & b, s) == (in_bb(a, s) && in_bb(b, s)),
{
    if 0 <= s < 64 {
        lemma_bit_ops(a, b, s as u64);
    }
}

pub broadcast proof fn lemma_has_xor(a: u64, b: u64, s: int)
    ensures
        #[trigger] in_bb(a ^ b, s) == (0 <= s < 64 && (in_bb(a, s) != in_bb(b, s))),
{
    if 0 <= s < 64 {
        lemma_bit_ops(a, b, s as u64);
    }
}

pub broadcast proof fn lemma_has_not(a: u64, s: int)
    ensures
        #[trigger] in_bb(!a, s) == (0 <= s < 64 && !in_bb(a, s)),
{
    if 0 <= s < 64 {
        lemma_bit_ops(a, a, s as u64);
    }
}

pub broadcast proof fn lemma_has_bit(t: u64, s: int)
    requires
        t < 64,
    ensures
        #[trigger] in_bb(1u64 << t, s) == (s == t),
{
    if 0 <= s < 64 {
        let u = s as u64;
        assert(t < 64 && u < 64 ==> ((((1u64 << t) >> u) & 1 == 1) == (u == t))) by (bit_vector);
    }
}

pub broadcast proof fn lemma_has_zero(s: int)
    ensures
        !#[trigger] in_bb(0u64, s),
{
    if 0 <= s < 64 {
        lemma_bit_ops(0, 0, s as u64);
    }
}

pub broadcast proof fn lemma_has_all(s: int)
    ensures
        #[trigger] in_bb(0xffff_ffff_ffff_ffffu64, s) == (0 <= s < 64),
{
    if 0 <= s < 64 {
        lemma_bit_ops(0, 0, s as u64);
    }
}

pub broadcast proof fn lemma_or_zero(a: u64)
    ensures
        #[trigger] (a | 0) == a,
        (0 | a) == a,
{
    assert(a | 0 == a && 0 | a == a) by (bit_vector);
}

/// Testing one bit with a mask.
pub broadcast proof fn lemma_and_bit(a: u64, t: u64)
    requires
        t < 64,
    ensures
        (#[trigger] (a & (1u64 << t)) != 0) == in_bb(a, t as int),
{
    assert(t < 64 ==> ((a & (1u64 << t)) != 0) == ((a >> t) & 1 == 1)) by (bit_vector);
}

pub broadcast group group_bits {
    lemma_or_zero,
    lemma_and_bit,
    lemma_has_or,
    lemma_has_and,
    lemma_has_xor,
    lemma_has_not,
    lemma_has_bit,
    lemma_has_zero,
    lemma_has_all,
}

/// Two bitboards with the same members are equal.
pub proof fn lemma_bits_ext(a: u64, b: u64)
    requires
        forall|s: int| 0 <= s < 64 ==> in_bb(a, s) == in_bb(b, s),
    ensures
        a == b,
{
    broadcast use vstd::std_specs::bits::axiom_u64_trailing_zeros;

    if a != b {
        let x = a ^ b;
        assert(a != b ==> a ^ b != 0) by (bit_vector);
        let t = x.trailing_zeros();
        assert(t < 64);
        assert((x >> (t as u64)) & 1 == 1);
        lemma_has_xor(a, b, t as int);
        assert(in_bb(x, t as int));
        assert(false);
    }
}

/// A bitboard is empty exactly when it has no member.
pub proof fn lemma_bits_empty(a: u64)
    ensures
        (a == 0) == (forall|s: int| 0 <= s < 64 ==> !#[trigger] in_bb(a, s)),
{
    broadcast use group_bits;

    if forall|s: int| 0 <= s < 64 ==> !#[trigger] in_bb(a, s) {
        lemma_bits_ext(a, 0);
    }
}

// ---------------------------------------------------------------------------
// Single squares, lsb, iteration
// ---------------------------------------------------------------------------
pub open spec fn bb_spec(sq: int) -> u64 {
    1u64 << (sq as u64)
}

pub fn bb(sq: Square) -> (r: Bitboard)
    requires
        sq < 64,
    ensures
        r == bb_spec(sq as int),
        forall|s: int| #[trigger] in_bb(r, s) == (s == sq),
{
    broadcast use group_bits;

    1u64 << sq
}

/// Index of the lowest set bit (64 for the empty board).
pub open spec fn lsb_spec(b: u64) -> int {
    vstd::std_specs::bits::u64_trailing_zeros(b) as int
}

pub proof fn lemma_lsb(b: u64)
    requires
        b != 0,
    ensures
        0 <= lsb_spec(b) < 64,
        in_bb(b, lsb_spec(b)),
        forall|s: int| 0 <= s < lsb_spec(b) ==> !#[trigger] in_bb(b, s),
{
    broadcast use vstd::std_specs::bits::axiom_u64_trailing_zeros;

    let t = lsb_spec(b);
    assert forall|s: int| 0 <= s < t implies !#[trigger] in_bb(b, s) by {
        let u = s as u64;
        assert((b >> u) & 1u64 == 0u64);
    }
}

pub fn lsb(b: Bitboard) -> (r: Square)
    requires
        b != 0,
    ensures
        r == lsb_spec(b),
        r < 64,
        in_bb(b, r as int),
        forall|s: int| 0 <= s < r ==> !#[trigger] in_bb(b, s),
{
    proof {
        lemma_lsb(b);
    }
    b.trailing_zeros() as Square
}

/// The bitboard with its lowest set bit cleared.
pub proof fn lemma_clear_lsb(b: u64)
    requires
        b != 0,
    ensures
        forall|s: int| #[trigger]
            in_bb(b & (((b) - 1) as u64), s) == (in_bb(b, s) && s != lsb_spec(b)),
        (b & (((b) - 1) as u64)) < b,
{
    broadcast use group_bits;
    broadcast use vstd::std_specs::bits::axiom_u64_trailing_zeros;

    lemma_lsb(b);
    let t = lsb_spec(b) as u64;
    assert(b != 0 ==> (b & (((b) - 1) as u64)) < b) by (bit_vector);
    assert forall|s: int| #[trigger] in_bb(b & (((b) - 1) as u64), s) == (in_bb(b, s) && s != lsb_spec(b)) by {
        if 0 <= s < 64 {
            let u = s as u64;
            assert(b != 0 && t < 64 && (b >> t) & 1 == 1 && b << (64 - t) as u64 == 0 && u < 64 ==> (((
            (b & (((b) - 1) as u64)) >> u) & 1 == 1) == (((b >> u) & 1 == 1) && u != t))) by (bit_vector);
        }
    }
}

pub fn pop_lsb(b: &mut Bitboard) -> (r: Square)
    requires
        *old(b) != 0,
    ensures
        r == lsb_spec(*old(b)),
        r < 64,
        in_bb(*old(b), r as int),
        *final(b) == *old(b) & (((*old(b)) - 1) as u64),
        *final(b) < *old(b),
        forall|s: int| #[trigger] in_bb(*final(b), s) == (in_bb(*old(b), s) && s != r),
        forall|s: int| 0 <= s < r ==> !#[trigger] in_bb(*old(b), s),
{
    let sq = lsb(*b);
    proof {
        lemma_clear_lsb(*b);
    }
    *b = *b & (*b - 1);
    sq
}

/// Iterate over the set squares of a bitboard, lowest first.
pub struct BitIter(pub Bitboard);

impl BitIter {
    /// The lowest remaining square, removed from the set; `None` when empty.
    pub fn next(&mut self) -> (r: Option<Square>)
        ensures
            old(self).0 == 0 ==> r.is_none() && final(self).0 == 0,
            old(self).0 != 0 ==> r == Some(lsb_spec(old(self).0) as u8) && final(self).0 == old(
                self,
            ).0 & ((old(self).0 - 1) as u64),
            forall|s: int| #[trigger]
                in_bb(final(self).0, s) == (in_bb(old(self).0, s) && Some(s as u8) != r),
    {
        broadcast use group_bits;

        if self.0 == 0 {
            None
        } else {
            let mut b = self.0;
            let sq = pop_lsb(&mut b);
            self.0 = b;
            Some(sq)
        }
    }
}

pub fn shift_north(b: Bitboard) -> (r: Bitboard)
    ensures
        r == b << 8,
        forall|s: int| #[trigger] in_bb(r, s) == (8 <= s < 64 && in_bb(b, s - 8)),
{
    proof {
        assert forall|s: int| #[trigger] in_bb(b << 8, s) == (8 <= s < 64 && in_bb(b, s - 8)) by {
            if 0 <= s < 64 {
                let u = s as u64;
                if s >= 8 {
                    let v = (s - 8) as u64;
                    assert(u < 64 && u >= 8 && v == u - 8 ==> ((((b << 8) >> u) & 1 == 1) == (((b
                        >> v) & 1) == 1))) by (bit_vector);
                } else {
                    assert(u < 8 ==> ((b << 8) >> u) & 1 == 0) by (bit_vector);
                }
            }
        }
    }
    b << 8
}

pub fn shift_south(b: Bitboard) -> (r: Bitboard)
    ensures
        r == b >> 8,
        forall|s: int| #[trigger] in_bb(r, s) == (0 <= s < 56 && in_bb(b, s + 8)),
{
    proof {
        assert forall|s: int| #[trigger] in_bb(b >> 8, s) == (0 <= s < 56 && in_bb(b, s + 8)) by {
            if 0 <= s < 64 {
                let u = s as u64;
                if s < 56 {
                    let v = (s + 8) as u64;
                    assert(u < 56 && v == u + 8 ==> ((((b >> 8) >> u) & 1 == 1) == (((b >> v) & 1)
                        == 1))) by (bit_vector);
                } else {
                    assert(u < 64 && u >= 56 ==> ((b >> 8) >> u) & 1 == 0) by (bit_vector);
                }
            }
        }
    }
    b >> 8
}

/// Number of members of a bitboard.
/// The squares of `b`, lowest first.
pub open spec fn bits_seq(b: u64) -> Seq<int>
    decreases b,
{
    if b == 0 {
        Seq::empty()
    } else {
        proof {
            lemma_clear_lsb(b);
        }
        seq![lsb_spec(b)] + bits_seq(b & (((b) - 1) as u64))
    }
}

pub open spec fn popcount_spec(b: u64) -> nat
    decreases b,
{
    if b == 0 {
        0
    } else {
        proof {
            lemma_clear_lsb(b);
        }
        1 + popcount_spec(b & (((b) - 1) as u64))
    }
}

pub fn popcount(b: Bitboard) -> (r: u32)
    ensures
        r == popcount_spec(b),
        r <= 64,
{
    let mut x = b;
    let mut n: u32 = 0;
    proof {
        lemma_popcount_bound(b);
    }
    while x != 0
        invariant
            n + popcount_spec(x) == popcount_spec(b),
            popcount_spec(b) <= 64,
        decreases x,
    {
        proof {
            lemma_clear_lsb(x);
        }
        x = x & (x - 1);
        n = n + 1;
    }
    n
}

/// A bitboard has at most 64 members.
pub proof fn lemma_popcount_bound(b: u64)
    ensures
        popcount_spec(b) <= 64 - lsb_spec(b) || b == 0,
        popcount_spec(b) <= 64,
    decreases b,
{
    broadcast use vstd::std_specs::bits::axiom_u64_trailing_zeros;

    if b != 0 {
        lemma_clear_lsb(b);
        let c = b & (((b) - 1) as u64);
        lemma_popcount_bound(c);
        lemma_lsb(b);
        if c != 0 {
            lemma_lsb(c);
            // the next lowest member lies above the removed one
            assert(in_bb(c, lsb_spec(c)));
            assert(lsb_spec(c) != lsb_spec(b));
            if lsb_spec(c) < lsb_spec(b) {
                assert(!in_bb(b, lsb_spec(c)));
            }
        }
    }
}

/// A bitboard has one member exactly when clearing its lowest bit empties
/// it; that member is the lowest bit.
pub proof fn lemma_popcount_one(b: u64)
    ensures
        (popcount_spec(b) == 1) == (b != 0 && forall|t: int| #[trigger] in_bb(b, t) ==> t == lsb_spec(b)),
{
    broadcast use group_bits;

    if b != 0 {
        lemma_clear_lsb(b);
        let c = b & (((b) - 1) as u64);
        lemma_bits_empty(c);
        if popcount_spec(b) == 1 {
            assert(popcount_spec(c) == 0);
            if c != 0 {
                assert(popcount_spec(c) >= 1);
            }
            assert forall|t: int| #[trigger] in_bb(b, t) implies t == lsb_spec(b) by {
                if t != lsb_spec(b) {
                    assert(in_bb(c, t));
                }
            }
        }
        if forall|t: int| #[trigger] in_bb(b, t) ==> t == lsb_spec(b) {
            assert forall|s: int| 0 <= s < 64 implies !#[trigger] in_bb(c, s) by {}
            assert(c == 0);
            assert(popcount_spec(0u64) == 0);
            assert(popcount_spec(b) == 1 + popcount_spec(c));
        }
    } else {
        assert(popcount_spec(0u64) == 0);
    }
}

// ---------------------------------------------------------------------------
// Leaper attacks
// ---------------------------------------------------------------------------
/// The bit for the square `(file + df, rank + dr)` from `sq`, or empty when
/// that lands off the board.
pub open spec fn delta_bit(sq: int, df: int, dr: int) -> u64 {
    let nf = file_spec(sq) + df;
    let nr = rank_spec(sq) + dr;
    if 0 <= nf < 8 && 0 <= nr < 8 {
        bb_spec(nr * 8 + nf)
    } else {
        0
    }
}

/// Union of the delta bits of the first `n` deltas.
pub open spec fn leaper_spec(sq: int, deltas: Seq<(i8, i8)>, n: int) -> u64
    decreases n,
{
    if n <= 0 {
        0
    } else {
        leaper_spec(sq, deltas, n - 1) | delta_bit(sq, deltas[n - 1].0 as int, deltas[n - 1].1 as int)
    }
}

pub fn leaper_attacks(sq: u8, deltas: &[(i8, i8)]) -> (r: Bitboard)
    requires
        sq < 64,
    ensures
        r == leaper_spec(sq as int, deltas@, deltas@.len() as int),
{
    let f = (sq & 7) as i8;
    let r = (sq >> 3) as i8;
    proof {
        assert(sq & 7 == sq % 8 && sq >> 3 == sq / 8) by (bit_vector);
    }
    let mut acc: u64 = 0;
    let mut i: usize = 0;
    while i < deltas.len()
        invariant
            0 <= i <= deltas@.len(),
            acc == leaper_spec(sq as int, deltas@, i as int),
            f == file_spec(sq as int),
            r == rank_spec(sq as int),
            sq < 64,
        decreases deltas@.len() - i,
    {
        let (df, dr) = deltas[i];
        let nf = f as i16 + df as i16;
        let nr = r as i16 + dr as i16;
        if nf >= 0 && nf < 8 && nr >= 0 && nr < 8 {
            acc = acc | (1u64 << ((nr * 8 + nf) as u64));
        } else {
            acc = acc | 0;
            proof {
                lemma_or_zero(acc);
            }
        }
        i += 1;
    }
    acc
}

pub open spec fn knight_deltas() -> Seq<(i8, i8)> {
    seq![(1i8, 2i8), (2i8, 1i8), (2i8, -1i8), (1i8, -2i8), (-1i8, -2i8), (-2i8, -1i8), (-2i8, 1i8), (-1i8, 2i8)]
}

pub open spec fn king_deltas() -> Seq<(i8, i8)> {
    seq![(0i8, 1i8), (1i8, 1i8), (1i8, 0i8), (1i8, -1i8), (0i8, -1i8), (-1i8, -1i8), (-1i8, 0i8), (-1i8, 1i8)]
}

pub open spec fn pawn_deltas(c: Color) -> Seq<(i8, i8)> {
    match c {
        Color::White => seq![(-1i8, 1i8), (1i8, 1i8)],
        Color::Black => seq![(-1i8, -1i8), (1i8, -1i8)],
    }
}

#[verifier::opaque]
pub open spec fn knight_spec(sq: int) -> u64 {
    leaper_spec(sq, knight_deltas(), 8)
}

#[verifier::opaque]
pub open spec fn king_spec(sq: int) -> u64 {
    leaper_spec(sq, king_deltas(), 8)
}

#[verifier::opaque]
pub open spec fn pawn_spec(c: Color, sq: int) -> u64 {
    leaper_spec(sq, pawn_deltas(c), 2)
}

pub fn knight_attacks(sq: Square) -> (r: Bitboard)
    requires
        sq < 64,
    ensures
        r == knight_spec(sq as int),
{
    let d: [(i8, i8); 8] = [(1, 2), (2, 1), (2, -1), (1, -2), (-1, -2), (-2, -1), (-2, 1), (-1, 2)];
    assert(d@ == knight_deltas());
    proof {
        reveal(knight_spec);
    }
    leaper_attacks(sq, &d)
}

pub fn king_attacks(sq: Square) -> (r: Bitboard)
    requires
        sq < 64,
    ensures
        r == king_spec(sq as int),
{
    let d: [(i8, i8); 8] = [(0, 1), (1, 1), (1, 0), (1, -1), (0, -1), (-1, -1), (-1, 0), (-1, 1)];
    assert(d@ == king_deltas());
    proof {
        reveal(king_spec);
    }
    leaper_attacks(sq, &d)
}

pub fn pawn_attacks(c: Color, sq: Square) -> (r: Bitboard)
    requires
        sq < 64,
    ensures
        r == pawn_spec(c, sq as int),
{
    match c {
        Color::White => {
            let d: [(i8, i8); 2] = [(-1, 1), (1, 1)];
            assert(d@ == pawn_deltas(c));
            proof {
                reveal(pawn_spec);
            }
            leaper_attacks(sq, &d)
        },
        Color::Black => {
            let d: [(i8, i8); 2] = [(-1, -1), (1, -1)];
            assert(d@ == pawn_deltas(c));
            proof {
                reveal(pawn_spec);
            }
            leaper_attacks(sq, &d)
        },
    }
}

// ---------------------------------------------------------------------------
// Slider attacks
// ---------------------------------------------------------------------------
/// Squares a slider standing on `(f, r)` sees along `(df, dr)`, up to and
/// including the first occupied square; `fuel` bounds the walk (a ray on an
/// 8x8 board has at most 7 squares, so 8 is always enough).
pub open spec fn ray_spec(f: int, r: int, df: int, dr: int, occ: u64, fuel: nat) -> u64
    decreases fuel,
{
    if fuel == 0 {
        0
    } else {
        let nf = f + df;
        let nr = r + dr;
        if !(0 <= nf < 8 && 0 <= nr < 8) {
            0
        } else {
            let s = nr * 8 + nf;
            if in_bb(occ, s) {
                bb_spec(s)
            } else {
                bb_spec(s) | ray_spec(nf, nr, df, dr, occ, (fuel - 1) as nat)
            }
        }
    }
}

/// Union of the rays along the first `n` deltas.
pub open spec fn slider_spec(sq: int, occ: u64, deltas: Seq<(i8, i8)>, n: int) -> u64
    decreases n,
{
    if n <= 0 {
        0
    } else {
        slider_spec(sq, occ, deltas, n - 1) | ray_spec(
            file_spec(sq),
            rank_spec(sq),
            deltas[n - 1].0 as int,
            deltas[n - 1].1 as int,
            occ,
            8,
        )
    }
}

/// Rook directions as (file, rank) steps.
pub const ROOK_DELTAS: [(i8, i8); 4] = [(0, 1), (1, 0), (0, -1), (-1, 0)];

/// Bishop directions as (file, rank) steps.
pub const BISHOP_DELTAS: [(i8, i8); 4] = [(1, 1), (1, -1), (-1, -1), (-1, 1)];

pub open spec fn rook_deltas() -> Seq<(i8, i8)> {
    seq![(0i8, 1i8), (1i8, 0i8), (0i8, -1i8), (-1i8, 0i8)]
}

pub open spec fn bishop_deltas() -> Seq<(i8, i8)> {
    seq![(1i8, 1i8), (1i8, -1i8), (-1i8, -1i8), (-1i8, 1i8)]
}

#[verifier::opaque]
pub open spec fn rook_spec(sq: int, occ: u64) -> u64 {
    slider_spec(sq, occ, rook_deltas(), 4)
}

#[verifier::opaque]
pub open spec fn bishop_spec(sq: int, occ: u64) -> u64 {
    slider_spec(sq, occ, bishop_deltas(), 4)
}

pub open spec fn queen_spec(sq: int, occ: u64) -> u64 {
    rook_spec(sq, occ) | bishop_spec(sq, occ)
}

/// Two occupancies that agree everywhere but on `x`.
pub open spec fn same_but(occ: u64, occ2: u64, x: int) -> bool {
    forall|s: int| 0 <= s < 64 && s != x ==> #[trigger] in_bb(occ, s) == in_bb(occ2, s)
}

/// A ray walked from `j` steps past `(f0, r0)` never comes back to
/// `(f0, r0)`, so what stands there does not matter to it.
proof fn lemma_ray_behind(
    f0: int,
    r0: int,
    j: int,
    df: int,
    dr: int,
    occ: u64,
    occ2: u64,
    fuel: nat,
)
    requires
        0 <= f0 < 8,
        0 <= r0 < 8,
        j >= 0,
        -1 <= df <= 1,
        -1 <= dr <= 1,
        df != 0 || dr != 0,
        same_but(occ, occ2, r0 * 8 + f0),
    ensures
        ray_spec(f0 + j * df, r0 + j * dr, df, dr, occ, fuel) == ray_spec(
            f0 + j * df,
            r0 + j * dr,
            df,
            dr,
            occ2,
            fuel,
        ),
    decreases fuel,
{
    if fuel > 0 {
        let nf = f0 + j * df + df;
        let nr = r0 + j * dr + dr;
        assert(nf == f0 + (j + 1) * df && nr == r0 + (j + 1) * dr) by (nonlinear_arith)
            requires
                nf == f0 + j * df + df,
                nr == r0 + j * dr + dr,
        ;
        if 0 <= nf < 8 && 0 <= nr < 8 {
            let s = nr * 8 + nf;
            if s == r0 * 8 + f0 {
                assert(nr == r0 && nf == f0);
                assert((j + 1) * df == 0 && (j + 1) * dr == 0);
                assert(df == 0 && dr == 0) by (nonlinear_arith)
                    requires
                        (j + 1) * df == 0,
                        (j + 1) * dr == 0,
                        j >= 0,
                ;
            }
            assert(in_bb(occ, s) == in_bb(occ2, s));
            lemma_ray_behind(f0, r0, j + 1, df, dr, occ, occ2, (fuel - 1) as nat);
        }
    }
}

proof fn lemma_slider_own_square(sq: int, occ: u64, occ2: u64, deltas: Seq<(i8, i8)>, n: int)
    requires
        0 <= sq < 64,
        same_but(occ, occ2, sq),
        0 <= n <= deltas.len(),
        forall|i: int|
            0 <= i < deltas.len() ==> -1 <= (#[trigger] deltas[i]).0 <= 1 && -1 <= deltas[i].1 <= 1 && (
            deltas[i].0 != 0 || deltas[i].1 != 0),
    ensures
        slider_spec(sq, occ, deltas, n) == slider_spec(sq, occ2, deltas, n),
    decreases n,
{
    if n > 0 {
        lemma_slider_own_square(sq, occ, occ2, deltas, n - 1);
        let d = deltas[n - 1];
        let f0 = file_spec(sq);
        let r0 = rank_spec(sq);
        assert(r0 * 8 + f0 == sq);
        lemma_ray_behind(f0, r0, 0, d.0 as int, d.1 as int, occ, occ2, 8);
        assert(f0 + 0 * (d.0 as int) == f0 && r0 + 0 * (d.1 as int) == r0);
    }
}

/// What a slider on `sq` attacks does not depend on whether `sq` itself is
/// occupied.
pub proof fn lemma_sliders_own_square(sq: int, occ: u64, occ2: u64)
    requires
        0 <= sq < 64,
        same_but(occ, occ2, sq),
    ensures
        rook_spec(sq, occ) == rook_spec(sq, occ2),
        bishop_spec(sq, occ) == bishop_spec(sq, occ2),
{
    reveal(rook_spec);
    reveal(bishop_spec);
    lemma_slider_own_square(sq, occ, occ2, rook_deltas(), 4);
    lemma_slider_own_square(sq, occ, occ2, bishop_deltas(), 4);
}

proof fn lemma_or_assoc(a: u64, b: u64, c: u64)
    ensures
        (a | b) | c == a | (b | c),
        a | 0 == a,
{
    assert((a | b) | c == a | (b | c) && a | 0 == a) by (bit_vector);
}

/// Slider attacks by ray walking: every ray stops at (and includes) the first
/// occupied square.
pub fn slider_attacks_slow(sq: Square, occ: Bitboard, deltas: &[(i8, i8)]) -> (r: Bitboard)
    requires
        sq < 64,
    ensures
        r == slider_spec(sq as int, occ, deltas@, deltas@.len() as int),
{
    let f = file_of(sq) as i8;
    let r = rank_of(sq) as i8;
    let mut acc: u64 = 0;
    let mut i: usize = 0;
    broadcast use lemma_or_zero;
    while i < deltas.len()
        invariant
            0 <= i <= deltas@.len(),
            acc == slider_spec(sq as int, occ, deltas@, i as int),
            f == file_spec(sq as int),
            r == rank_spec(sq as int),
            0 <= f < 8,
            0 <= r < 8,
        decreases deltas@.len() - i,
    {
        let (df, dr) = deltas[i];
        let ghost target = ray_spec(f as int, r as int, df as int, dr as int, occ, 8);
        let mut ray: u64 = 0;
        let mut cf: i16 = f as i16;
        let mut cr: i16 = r as i16;
        let mut fuel: u8 = 8;
        proof {
            lemma_or_zero(target);
            assert forall|x: u64| #[trigger] (x | 0) == x by {
                lemma_or_zero(x);
            }
        }
        // ray | ray_spec(from the current square, remaining fuel) == target
        while fuel > 0
            invariant_except_break
                ray | ray_spec(cf as int, cr as int, df as int, dr as int, occ, fuel as nat)
                    == target,
            invariant
                -8 <= cf < 8,
                -8 <= cr < 8,
                0 <= fuel <= 8,
                target == ray_spec(f as int, r as int, df as int, dr as int, occ, 8),
                forall|x: u64| #[trigger] (x | 0) == x,
            ensures
                ray == target,
            decreases fuel,
        {
            let nf = cf + df as i16;
            let nr = cr + dr as i16;
            if !(nf >= 0 && nf < 8 && nr >= 0 && nr < 8) {
                proof {
                    lemma_or_assoc(ray, 0, 0);
                }
                break;
            }
            let s = (nr * 8 + nf) as u8;
            let bit = 1u64 << s;
            proof {
                lemma_or_assoc(ray, bit, ray_spec(nf as int, nr as int, df as int, dr as int, occ, (fuel - 1) as nat));
            }
            ray = ray | bit;
            if occ & bit != 0 {
                proof {
                    lemma_and_bit(occ, s as u64);

                    assert(in_bb(occ, s as int));
                }
                break;
            }
            proof {
                lemma_and_bit(occ, s as u64);
                assert(!in_bb(occ, s as int));
            }
            cf = nf;
            cr = nr;
            fuel = fuel - 1;
            proof {
                lemma_or_assoc(ray, 0, 0);
            }
        }
        acc = acc | ray;
        i += 1;
    }
    acc
}

pub fn rook_attacks(sq: Square, occ: Bitboard) -> (r: Bitboard)
    requires
        sq < 64,
    ensures
        r == rook_spec(sq as int, occ),
{
    let d = ROOK_DELTAS;
    assert(d@ == rook_deltas());
    proof {
        reveal(rook_spec);
    }
    slider_attacks_slow(sq, occ, &d)
}

pub fn bishop_attacks(sq: Square, occ: Bitboard) -> (r: Bitboard)
    requires
        sq < 64,
    ensures
        r == bishop_spec(sq as int, occ),
{
    let d = BISHOP_DELTAS;
    assert(d@ == bishop_deltas());
    proof {
        reveal(bishop_spec);
    }
    slider_attacks_slow(sq, occ, &d)
}

pub fn queen_attacks(sq: Square, occ: Bitboard) -> (r: Bitboard)
    requires
        sq < 64,
    ensures
        r == queen_spec(sq as int, occ),
{
    rook_attacks(sq, occ) | bishop_attacks(sq, occ)
}

// ---------------------------------------------------------------------------
// Between / through lines (for pins and check evasion)
// ---------------------------------------------------------------------------
/// Squares strictly between a and b if they share a line, else empty.
pub open spec fn between_spec(a: int, b: int) -> u64 {
    if in_bb(bishop_spec(a, 0), b) {
        bishop_spec(a, bb_spec(b)) & bishop_spec(b, bb_spec(a))
    } else if in_bb(rook_spec(a, 0), b) {
        rook_spec(a, bb_spec(b)) & rook_spec(b, bb_spec(a))
    } else {
        0
    }
}

/// Full line through a and b (both included) if they share a line, else empty.
pub open spec fn line_through_spec(a: int, b: int) -> u64 {
    if in_bb(bishop_spec(a, 0), b) {
        (bishop_spec(a, 0) & bishop_spec(b, 0)) | bb_spec(a) | bb_spec(b)
    } else if in_bb(rook_spec(a, 0), b) {
        (rook_spec(a, 0) & rook_spec(b, 0)) | bb_spec(a) | bb_spec(b)
    } else {
        0
    }
}

/// Squares strictly beyond b on the ray from a through b, if aligned, else
/// empty: the shadow b casts away from a.
pub open spec fn ray_past_spec(a: int, b: int) -> u64 {
    if in_bb(bishop_spec(a, 0), b) {
        bishop_spec(a, 0) & !bishop_spec(a, bb_spec(b))
    } else if in_bb(rook_spec(a, 0), b) {
        rook_spec(a, 0) & !rook_spec(a, bb_spec(b))
    } else {
        0
    }
}

pub fn between(a: Square, b: Square) -> (r: Bitboard)
    requires
        a < 64,
        b < 64,
    ensures
        r == between_spec(a as int, b as int),
{
    if bishop_attacks(a, 0) & bb(b) != 0 {
        proof {
            lemma_and_bit(bishop_spec(a as int, 0), b as u64);
        }
        bishop_attacks(a, bb(b)) & bishop_attacks(b, bb(a))
    } else if rook_attacks(a, 0) & bb(b) != 0 {
        proof {
            lemma_and_bit(bishop_spec(a as int, 0), b as u64);
            lemma_and_bit(rook_spec(a as int, 0), b as u64);
        }
        rook_attacks(a, bb(b)) & rook_attacks(b, bb(a))
    } else {
        proof {
            lemma_and_bit(bishop_spec(a as int, 0), b as u64);
            lemma_and_bit(rook_spec(a as int, 0), b as u64);
        }
        0
    }
}

pub fn line_through(a: Square, b: Square) -> (r: Bitboard)
    requires
        a < 64,
        b < 64,
    ensures
        r == line_through_spec(a as int, b as int),
{
    if bishop_attacks(a, 0) & bb(b) != 0 {
        proof {
            lemma_and_bit(bishop_spec(a as int, 0), b as u64);
        }
        (bishop_attacks(a, 0) & bishop_attacks(b, 0)) | bb(a) | bb(b)
    } else if rook_attacks(a, 0) & bb(b) != 0 {
        proof {
            lemma_and_bit(bishop_spec(a as int, 0), b as u64);
            lemma_and_bit(rook_spec(a as int, 0), b as u64);
        }
        (rook_attacks(a, 0) & rook_attacks(b, 0)) | bb(a) | bb(b)
    } else {
        proof {
            lemma_and_bit(bishop_spec(a as int, 0), b as u64);
            lemma_and_bit(rook_spec(a as int, 0), b as u64);
        }
        0
    }
}

pub fn ray_past(a: Square, b: Square) -> (r: Bitboard)
    requires
        a < 64,
        b < 64,
    ensures
        r == ray_past_spec(a as int, b as int),
{
    if bishop_attacks(a, 0) & bb(b) != 0 {
        proof {
            lemma_and_bit(bishop_spec(a as int, 0), b as u64);
        }
        bishop_attacks(a, 0) & !bishop_attacks(a, bb(b))
    } else if rook_attacks(a, 0) & bb(b) != 0 {
        proof {
            lemma_and_bit(bishop_spec(a as int, 0), b as u64);
            lemma_and_bit(rook_spec(a as int, 0), b as u64);
        }
        rook_attacks(a, 0) & !rook_attacks(a, bb(b))
    } else {
        proof {
            lemma_and_bit(bishop_spec(a as int, 0), b as u64);
            lemma_and_bit(rook_spec(a as int, 0), b as u64);
        }
        0
    }
}

} // verus!
