//! NNUE evaluation: a threat network `((piece + attacker-quadrant threat)
//! features -> HIDDEN) x 2 -> 1` with SCReLU activation and material-count
//! output buckets.
//!
//! Two accumulators are kept, one per board perspective (not per side to
//! move): `w` indexes features as if White were to move, `b` as if Black were.
//! Piece and threat features are both summed into `w` / `b`, in 16-bit
//! two's-complement arithmetic.
//!
//! Piece features are king-bucketed (16 mirrored buckets): the row of a piece is
//! `768 * bucket(king) + (side * 384 + 64 * piece + square)`, with the square's
//! file mirrored when the perspective's king stands on files e..h. Threat
//! features are king-independent: an enemy (attacker, victim) pair, kings
//! excluded, keyed by the attacker's piece, the 2x2 board quadrant of the
//! attacker, the victim's piece and the victim's square. The black
//! perspective mirrors every square vertically (`sq ^ 56`).

use crate::bitboard::{
    Bitboard, bb, bb_spec, bishop_attacks, bits_seq, line_through, line_through_spec, lsb, lsb_spec, pop_lsb,
    ray_past, ray_past_spec, bishop_spec, in_bb, king_attacks, king_spec,
    knight_attacks, knight_spec, pawn_attacks, pawn_spec, popcount_spec, queen_attacks, queen_spec, rook_attacks,
    rook_spec,
};
use crate::eval::Score;
use crate::position::{EMPTY, Position, castle_rook_squares, code_color, code_of, code_piece, ep_victim_sq};
use crate::types::{
    CAPTURE, CASTLE_KING, CASTLE_QUEEN, Color, DOUBLE_PUSH, EN_PASSANT, Move, PieceType, QUIET, Square,
    move_flags, move_from, move_to, opposite, piece_index, promo_piece_spec,
};
use vstd::prelude::*;

verus! {

pub const HIDDEN: usize = 768;

pub const NUM_KING_BUCKETS: usize = 16;

/// King-bucketed piece rows (16-bit weights).
pub const NUM_PIECE: usize = 12288;

/// Enemy-only attacker-quadrant threat rows (8-bit weights).
pub const NUM_THREAT: usize = 6400;

/// Threat rows follow all piece rows in the feature numbering.
pub const THREAT_OFF: usize = NUM_PIECE;

pub const NUM_FEAT: usize = NUM_PIECE + NUM_THREAT;

pub const NUM_OUTPUT_BUCKETS: usize = 8;

pub const QA: i32 = 255;

pub const QB: i32 = 64;

pub const SCALE: i32 = 400;

/// Number of 16-bit words in each part of a network file.
pub const PIECE_WORDS: usize = NUM_PIECE * HIDDEN;

pub const THREAT_WORDS: usize = NUM_THREAT * HIDDEN;

pub const OUTPUT_WORDS: usize = NUM_OUTPUT_BUCKETS * 2 * HIDDEN;

/// Word offsets of the parts of a network file.
pub const BIAS_AT: usize = NUM_FEAT * HIDDEN;

pub const OUTPUT_AT: usize = BIAS_AT + HIDDEN;

pub const OUT_BIAS_AT: usize = OUTPUT_AT + OUTPUT_WORDS;

/// Minimum length in bytes of a network file; up to 63 bytes of padding may
/// follow.
pub const NET_BYTES: usize = 2 * (OUT_BIAS_AT + NUM_OUTPUT_BUCKETS);

// ---------------------------------------------------------------------------
// 16-bit two's-complement arithmetic
// ---------------------------------------------------------------------------
/// `x` reduced to the 16-bit two's-complement range.
pub open spec fn wrap16(x: int) -> int {
    if x % 65536 > 32767 {
        x % 65536 - 65536
    } else {
        x % 65536
    }
}

pub proof fn lemma_wrap16_small(x: int)
    requires
        -32768 <= x <= 32767,
    ensures
        wrap16(x) == x,
{
    if x >= 0 {
        vstd::arithmetic::div_mod::lemma_small_mod(x as nat, 65536);
    } else {
        vstd::arithmetic::div_mod::lemma_mod_add_multiples_vanish(x, 65536);
        vstd::arithmetic::div_mod::lemma_small_mod((x + 65536) as nat, 65536);
    }
}

/// Reducing an operand first does not change a reduced sum.
pub proof fn lemma_wrap16_add(x: int, y: int)
    ensures
        wrap16(wrap16(x) + y) == wrap16(x + y),
{
    let m = x % 65536;
    vstd::arithmetic::div_mod::lemma_add_mod_noop(x, y, 65536);
    vstd::arithmetic::div_mod::lemma_mod_bound(x, 65536);
    vstd::arithmetic::div_mod::lemma_small_mod(m as nat, 65536);
    vstd::arithmetic::div_mod::lemma_add_mod_noop(m, y, 65536);
    if m > 32767 {
        vstd::arithmetic::div_mod::lemma_mod_sub_multiples_vanish(m + y, 65536);
        assert(wrap16(x) + y == -65536 + (m + y));
    }
}

/// `a + b` in 16-bit two's-complement arithmetic.
pub fn add16(a: i16, b: i16) -> (r: i16)
    ensures
        r == wrap16(a + b),
{
    let r = a.wrapping_add(b);
    proof {
        let s = a + b;
        if s > 32767 {
            lemma_wrap16_small(s - 65536);
            lemma_wrap16_add(s - 65536, 65536);
            vstd::arithmetic::div_mod::lemma_mod_self_0(65536);
            lemma_wrap16_small(0);
            lemma_wrap16_add(65536, s - 65536);
        } else if s < -32768 {
            lemma_wrap16_small(s + 65536);
            lemma_wrap16_add(-65536, s + 65536);
            vstd::arithmetic::div_mod::lemma_mod_multiples_basic(-1, 65536);
        } else {
            lemma_wrap16_small(s);
        }
    }
    r
}

/// `a - b` in 16-bit two's-complement arithmetic.
pub fn sub16(a: i16, b: i16) -> (r: i16)
    ensures
        r == wrap16(a - b),
{
    let r = a.wrapping_sub(b);
    proof {
        let s = a - b;
        if s > 32767 {
            lemma_wrap16_small(s - 65536);
            lemma_wrap16_add(65536, s - 65536);
            vstd::arithmetic::div_mod::lemma_mod_self_0(65536);
            lemma_wrap16_small(0);
        } else if s < -32768 {
            lemma_wrap16_small(s + 65536);
            lemma_wrap16_add(-65536, s + 65536);
            vstd::arithmetic::div_mod::lemma_mod_multiples_basic(-1, 65536);
        } else {
            lemma_wrap16_small(s);
        }
    }
    r
}

/// `a * b` in 16-bit two's-complement arithmetic.
pub fn mul16(a: i16, b: i16) -> (r: i16)
    ensures
        r == wrap16(a * b),
{
    a.wrapping_mul(b)
}

// ---------------------------------------------------------------------------
// Network file
// ---------------------------------------------------------------------------
/// Little-endian 16-bit two's-complement value of two bytes.
pub open spec fn le_i16_spec(lo: u8, hi: u8) -> int {
    let u = lo as int + 256 * hi as int;
    if u >= 32768 {
        u - 65536
    } else {
        u
    }
}

/// The `i`-th 16-bit word of a byte string.
pub open spec fn word_at(b: Seq<u8>, i: int) -> int {
    le_i16_spec(b[2 * i], b[2 * i + 1])
}

pub open spec fn clamp127(x: int) -> int {
    if x < -127 {
        -127
    } else if x > 127 {
        127
    } else {
        x
    }
}

/// Why a byte string is not a network.
#[derive(Clone, Copy, PartialEq, Eq, Structural, Debug)]
pub enum NetError {
    /// The length is not that of this layout (plus at most 63 bytes of padding).
    Length,
    /// An output weight lies outside -127..=127, the range the evaluation's
    /// 16-bit products are exact for.
    OutputWeight,
}

pub struct Network {
    /// `NUM_PIECE` rows of `HIDDEN` weights, row-major.
    pub piece_weights: Vec<i16>,
    /// `NUM_THREAT` rows of `HIDDEN` weights, row-major, clamped to 8 bits.
    pub threat_weights: Vec<i8>,
    pub feature_bias: Vec<i16>,
    /// One row of `2 * HIDDEN` weights per output bucket: the side to move's
    /// half first.
    pub output_weights: Vec<i16>,
    pub output_bias: Vec<i16>,
}

impl Network {
    pub open spec fn wf(&self) -> bool {
        &&& self.piece_weights@.len() == PIECE_WORDS
        &&& self.threat_weights@.len() == THREAT_WORDS
        &&& self.feature_bias@.len() == HIDDEN
        &&& self.output_weights@.len() == OUTPUT_WORDS
        &&& self.output_bias@.len() == NUM_OUTPUT_BUCKETS
        &&& forall|i: int|
            0 <= i < OUTPUT_WORDS ==> -127 <= #[trigger] self.output_weights@[i] <= 127
    }

    /// Weight `k` of piece row `f`.
    pub open spec fn pw(&self, f: int, k: int) -> int {
        self.piece_weights@[f * HIDDEN + k] as int
    }

    /// Weight `k` of threat row `f`.
    pub open spec fn tw(&self, f: int, k: int) -> int {
        self.threat_weights@[f * HIDDEN + k] as int
    }

    /// What `from_bytes` reads from `b`, when `b` has a valid length.
    pub open spec fn read_from(&self, b: Seq<u8>) -> bool {
        &&& forall|i: int| 0 <= i < PIECE_WORDS ==> #[trigger] self.piece_weights@[i] == word_at(b, i)
        &&& forall|i: int|
            0 <= i < THREAT_WORDS ==> #[trigger] self.threat_weights@[i] == clamp127(
                word_at(b, PIECE_WORDS + i),
            )
        &&& forall|i: int| 0 <= i < HIDDEN ==> #[trigger] self.feature_bias@[i] == word_at(b, BIAS_AT + i)
        &&& forall|i: int|
            0 <= i < OUTPUT_WORDS ==> #[trigger] self.output_weights@[i] == word_at(b, OUTPUT_AT + i)
        &&& forall|i: int|
            0 <= i < NUM_OUTPUT_BUCKETS ==> #[trigger] self.output_bias@[i] == word_at(
                b,
                OUT_BIAS_AT + i,
            )
    }
}

pub open spec fn length_ok(b: Seq<u8>) -> bool {
    NET_BYTES <= b.len() < NET_BYTES + 64
}

pub open spec fn output_weights_ok(b: Seq<u8>) -> bool {
    forall|i: int| 0 <= i < OUTPUT_WORDS ==> -127 <= #[trigger] word_at(b, OUTPUT_AT + i) <= 127
}

/// Reads the 16-bit word at byte offset `*at` and advances past it.
fn rd_i16(bytes: &[u8], at: &mut usize) -> (r: i16)
    requires
        *old(at) + 1 < bytes@.len(),
    ensures
        r == le_i16_spec(bytes@[*old(at) as int], bytes@[*old(at) + 1]),
        *final(at) == *old(at) + 2,
{
    let v: i32 = bytes[*at] as i32 + 256 * (bytes[*at + 1] as i32);
    *at = *at + 2;
    if v >= 32768 {
        (v - 65536) as i16
    } else {
        v as i16
    }
}

/// Reads `n` words starting at word `first`.
fn read_words(bytes: &[u8], first: usize, n: usize) -> (r: Vec<i16>)
    requires
        2 * (first + n) <= bytes@.len(),
    ensures
        r@.len() == n,
        forall|i: int| 0 <= i < n ==> #[trigger] r@[i] == word_at(bytes@, first + i),
{
    let len = bytes.len();
    assert(2 * first <= len);
    let mut v: Vec<i16> = Vec::with_capacity(n);
    let mut at: usize = 2 * first;
    let mut i: usize = 0;
    while i < n
        invariant
            2 * (first + n) <= bytes@.len(),
            at == 2 * (first + i),
            i <= n,
            v@.len() == i,
            forall|j: int| 0 <= j < i ==> #[trigger] v@[j] == word_at(bytes@, first + j),
        decreases n - i,
    {
        let w = rd_i16(bytes, &mut at);
        v.push(w);
        i += 1;
    }
    v
}

impl Network {
    /// Parses a network file: all feature rows as little-endian 16-bit words
    /// (piece rows, then threat rows), the feature bias, the output weights
    /// bucket by bucket, and the output biases. Threat weights are clamped to
    /// -127..=127 and kept as 8-bit values.
    pub fn from_bytes(bytes: &[u8]) -> (r: Result<Network, NetError>)
        ensures
            !length_ok(bytes@) ==> r == Err::<Network, NetError>(NetError::Length),
            length_ok(bytes@) && !output_weights_ok(bytes@) ==> r == Err::<Network, NetError>(
                NetError::OutputWeight,
            ),
            length_ok(bytes@) && output_weights_ok(bytes@) ==> r is Ok,
            r matches Ok(net) ==> net.wf() && net.read_from(bytes@),
    {
        if bytes.len() < NET_BYTES || bytes.len() >= NET_BYTES + 64 {
            return Err(NetError::Length);
        }
        let piece_weights = read_words(bytes, 0, PIECE_WORDS);
        let mut threat_weights: Vec<i8> = Vec::with_capacity(THREAT_WORDS);
        let mut at: usize = 2 * PIECE_WORDS;
        let mut i: usize = 0;
        while i < THREAT_WORDS
            invariant
                length_ok(bytes@),
                at == 2 * (PIECE_WORDS + i),
                i <= THREAT_WORDS,
                threat_weights@.len() == i,
                forall|j: int|
                    0 <= j < i ==> #[trigger] threat_weights@[j] == clamp127(
                        word_at(bytes@, PIECE_WORDS + j),
                    ),
            decreases THREAT_WORDS - i,
        {
            let w = rd_i16(bytes, &mut at);
            let c: i16 = if w < -127 {
                -127
            } else if w > 127 {
                127
            } else {
                w
            };
            threat_weights.push(c as i8);
            i += 1;
        }
        let feature_bias = read_words(bytes, BIAS_AT, HIDDEN);
        let output_weights = read_words(bytes, OUTPUT_AT, OUTPUT_WORDS);
        let mut j: usize = 0;
        while j < OUTPUT_WORDS
            invariant
                length_ok(bytes@),
                j <= OUTPUT_WORDS,
                output_weights@.len() == OUTPUT_WORDS,
                forall|t: int|
                    0 <= t < OUTPUT_WORDS ==> #[trigger] output_weights@[t] == word_at(
                        bytes@,
                        OUTPUT_AT + t,
                    ),
                forall|t: int| 0 <= t < j ==> -127 <= #[trigger] output_weights@[t] <= 127,
            decreases OUTPUT_WORDS - j,
        {
            let w = output_weights[j];
            if w < -127 || w > 127 {
                proof {
                    assert(!(-127 <= word_at(bytes@, OUTPUT_AT + j) <= 127));
                }
                return Err(NetError::OutputWeight);
            }
            j += 1;
        }
        let output_bias = read_words(bytes, OUT_BIAS_AT, NUM_OUTPUT_BUCKETS);
        proof {
            assert forall|t: int| 0 <= t < OUTPUT_WORDS implies -127 <= #[trigger] word_at(
                bytes@,
                OUTPUT_AT + t,
            ) <= 127 by {
                assert(output_weights@[t] == word_at(bytes@, OUTPUT_AT + t));
            }
        }
        Ok(Network { piece_weights, threat_weights, feature_bias, output_weights, output_bias })
    }
}

// ---------------------------------------------------------------------------
// Feature indices
// ---------------------------------------------------------------------------
/// `sq ^ 56`: the square mirrored vertically.
pub open spec fn flip_rank(sq: int) -> int {
    8 * (7 - sq / 8) + sq % 8
}

/// `sq ^ 7`: the square mirrored horizontally.
pub open spec fn flip_file(sq: int) -> int {
    8 * (sq / 8) + (7 - sq % 8)
}

/// A square as the given perspective sees it.
pub open spec fn orient(persp: Color, sq: int) -> int {
    if persp == Color::White {
        sq
    } else {
        flip_rank(sq)
    }
}

/// Files a..d keep their index, files e..h fold back onto d..a.
pub open spec fn fold_file(f: int) -> int {
    if f < 4 {
        f
    } else {
        7 - f
    }
}

/// The king bucket of an (oriented) king square: two ranks by four folded
/// files.
pub open spec fn king_bucket(sq: int) -> int {
    ((sq / 8) / 2) * 4 + fold_file(sq % 8)
}

pub open spec fn king_base(sq: int) -> int {
    768 * king_bucket(sq)
}

/// 7 (mirror the piece files) when the king stands on files e..h, else 0.
pub open spec fn king_flip(sq: int) -> int {
    if sq % 8 > 3 {
        7
    } else {
        0
    }
}

/// A valid king context: the first row of a bucket and a file mirror.
pub open spec fn ctx_ok(base: int, flip: int) -> bool {
    &&& 0 <= base <= 768 * 15
    &&& base % 768 == 0
    &&& (flip == 0 || flip == 7)
}

/// The piece row of a `col` piece of type `pt` on `sq`, seen from `persp`
/// under the king context `(base, flip)`.
pub open spec fn piece_feat(persp: Color, col: Color, pt: int, sq: int, base: int, flip: int) -> int {
    let o = orient(persp, sq);
    base + (if col == persp {
        0int
    } else {
        384int
    }) + 64 * pt + (if flip == 7 {
        flip_file(o)
    } else {
        o
    })
}

/// The 2x2 board quadrant of a square: rank half times two plus file half.
pub open spec fn att_quad_spec(sq: int) -> int {
    2 * (sq / 32) + (if sq % 8 >= 4 {
        1int
    } else {
        0int
    })
}

/// The threat row (counted from the first threat row) of an attacker of type
/// `att_pt` on `att_sq` threatening a victim of type `vic_pt` on `vic_sq`,
/// seen from `persp`.
pub open spec fn thr_feat(persp: Color, att_pt: int, vic_pt: int, att_sq: int, vic_sq: int) -> int {
    ((att_pt * 4 + att_quad_spec(orient(persp, att_sq))) * 5 + vic_pt) * 64 + orient(persp, vic_sq)
}

/// `(768 * bucket, flip)` for a king on the (oriented) square `king_sq`.
fn king_ctx(king_sq: Square) -> (r: (usize, usize))
    requires
        king_sq < 64,
    ensures
        r.0 == king_base(king_sq as int),
        r.1 == king_flip(king_sq as int),
        ctx_ok(r.0 as int, r.1 as int),
{
    let ks = king_sq as usize;
    let f = ks % 8;
    let fold = if f < 4 {
        f
    } else {
        7 - f
    };
    let bucket = ((ks / 8) / 2) * 4 + fold;
    (768 * bucket, if f > 3 {
        7
    } else {
        0
    })
}

/// The mirrored square `sq ^ 56`.
fn flip_rank_sq(sq: Square) -> (r: Square)
    requires
        sq < 64,
    ensures
        r == flip_rank(sq as int),
        r < 64,
{
    8 * (7 - sq / 8) + sq % 8
}

/// The king contexts of both perspectives: the white one from the white king,
/// the black one from the black king mirrored as the black perspective sees it.
fn king_ctx_both(pos: &Position) -> (r: (usize, usize, usize, usize))
    requires
        pos.wf(),
    ensures
        r.0 == king_base(ctx_sq(*pos, Color::White)),
        r.1 == king_flip(ctx_sq(*pos, Color::White)),
        r.2 == king_base(ctx_sq(*pos, Color::Black)),
        r.3 == king_flip(ctx_sq(*pos, Color::Black)),
        ctx_ok(r.0 as int, r.1 as int),
        ctx_ok(r.2 as int, r.3 as int),
{
    let (wk_base, wk_flip) = king_ctx(pos.king_sq(Color::White));
    let (bk_base, bk_flip) = king_ctx(flip_rank_sq(pos.king_sq(Color::Black)));
    (wk_base, wk_flip, bk_base, bk_flip)
}

/// The square keying a perspective's king context.
pub open spec fn ctx_sq(pos: Position, persp: Color) -> int {
    orient(persp, pos.king_sq_spec(persp))
}

/// Row index of `sq` after an optional file mirror (`flip` is 0 or 7).
fn mirror_sq(sq: usize, flip: usize) -> (r: usize)
    requires
        sq < 64,
        flip == 0 || flip == 7,
    ensures
        r == (if flip == 7 {
            flip_file(sq as int)
        } else {
            sq as int
        }),
        r < 64,
{
    if flip == 7 {
        8 * (sq / 8) + (7 - sq % 8)
    } else {
        sq
    }
}

/// White-perspective piece row under the white king context.
fn wp_feat(col: Color, pt: usize, sq: Square, wk_base: usize, wk_flip: usize) -> (r: usize)
    requires
        pt < 6,
        sq < 64,
        ctx_ok(wk_base as int, wk_flip as int),
    ensures
        r == piece_feat(Color::White, col, pt as int, sq as int, wk_base as int, wk_flip as int),
        r < NUM_PIECE,
{
    let side: usize = if col == Color::White {
        0
    } else {
        384
    };
    wk_base + side + 64 * pt + mirror_sq(sq as usize, wk_flip)
}

/// Black-perspective piece row under the black king context.
fn bp_feat(col: Color, pt: usize, sq: Square, bk_base: usize, bk_flip: usize) -> (r: usize)
    requires
        pt < 6,
        sq < 64,
        ctx_ok(bk_base as int, bk_flip as int),
    ensures
        r == piece_feat(Color::Black, col, pt as int, sq as int, bk_base as int, bk_flip as int),
        r < NUM_PIECE,
{
    let side: usize = if col == Color::Black {
        0
    } else {
        384
    };
    bk_base + side + 64 * pt + mirror_sq(flip_rank_sq(sq) as usize, bk_flip)
}

fn att_quad(sq: Square) -> (r: usize)
    requires
        sq < 64,
    ensures
        r == att_quad_spec(sq as int),
        r < 4,
{
    let s = sq as usize;
    2 * (s / 32) + (if s % 8 >= 4 {
        1
    } else {
        0
    })
}

/// White-perspective threat row.
fn thr_feat_w(att_pt: usize, vic_pt: usize, att_sq: Square, vic_sq: Square) -> (r: usize)
    requires
        att_pt < 5,
        vic_pt < 5,
        att_sq < 64,
        vic_sq < 64,
    ensures
        r == thr_feat(Color::White, att_pt as int, vic_pt as int, att_sq as int, vic_sq as int),
        r < NUM_THREAT,
{
    ((att_pt * 4 + att_quad(att_sq)) * 5 + vic_pt) * 64 + vic_sq as usize
}

/// Black-perspective threat row: attacker and victim squares mirrored.
fn thr_feat_b(att_pt: usize, vic_pt: usize, att_sq: Square, vic_sq: Square) -> (r: usize)
    requires
        att_pt < 5,
        vic_pt < 5,
        att_sq < 64,
        vic_sq < 64,
    ensures
        r == thr_feat(Color::Black, att_pt as int, vic_pt as int, att_sq as int, vic_sq as int),
        r < NUM_THREAT,
{
    ((att_pt * 4 + att_quad(flip_rank_sq(att_sq))) * 5 + vic_pt) * 64 + flip_rank_sq(vic_sq) as usize
}

// ---------------------------------------------------------------------------
// Threats
// ---------------------------------------------------------------------------
/// Squares attacked by a `c` piece of type index `pt` on `from`.
pub open spec fn piece_attacks_spec(pt: int, c: Color, from: int, occ: u64) -> u64 {
    if pt == 0 {
        pawn_spec(c, from)
    } else if pt == 1 {
        knight_spec(from)
    } else if pt == 2 {
        bishop_spec(from, occ)
    } else if pt == 3 {
        rook_spec(from, occ)
    } else if pt == 4 {
        queen_spec(from, occ)
    } else {
        king_spec(from)
    }
}

fn piece_attacks(pt: usize, c: Color, from: Square, occ: u64) -> (r: Bitboard)
    requires
        from < 64,
    ensures
        r == piece_attacks_spec(pt as int, c, from as int, occ),
{
    match pt {
        0 => pawn_attacks(c, from),
        1 => knight_attacks(from),
        2 => bishop_attacks(from, occ),
        3 => rook_attacks(from, occ),
        4 => queen_attacks(from, occ),
        _ => king_attacks(from),
    }
}

/// The piece on `from` threatens the piece on `to`: both are there, neither
/// is a king, they differ in color, and `to` is among the squares the piece on
/// `from` attacks on the current board.
pub open spec fn threat_at(pos: Position, from: int, to: int) -> bool {
    let a = pos.mailbox[from];
    let v = pos.mailbox[to];
    &&& a != EMPTY
    &&& v != EMPTY
    &&& code_piece(a) != PieceType::King
    &&& code_piece(v) != PieceType::King
    &&& code_color(a) != code_color(v)
    &&& in_bb(
        piece_attacks_spec(piece_index(code_piece(a)), code_color(a), from, pos.occupied_spec()),
        to,
    )
}

/// Piece rows of the pieces on squares `0..n`, in square order.
pub open spec fn piece_feats(pos: Position, persp: Color, base: int, flip: int, n: int) -> Seq<int>
    decreases n,
{
    if n <= 0 {
        Seq::empty()
    } else {
        let prev = piece_feats(pos, persp, base, flip, n - 1);
        let m = pos.mailbox[n - 1];
        if m == EMPTY {
            prev
        } else {
            prev.push(
                piece_feat(persp, code_color(m), piece_index(code_piece(m)), n - 1, base, flip),
            )
        }
    }
}

/// Threat rows of the threats among the square pairs `0..n`, pair `p`
/// standing for attacker square `p / 64` and victim square `p % 64`.
pub open spec fn threat_feats(pos: Position, persp: Color, n: int) -> Seq<int>
    decreases n,
{
    if n <= 0 {
        Seq::empty()
    } else {
        let prev = threat_feats(pos, persp, n - 1);
        let from = (n - 1) / 64;
        let to = (n - 1) % 64;
        if threat_at(pos, from, to) {
            prev.push(
                thr_feat(
                    persp,
                    piece_index(code_piece(pos.mailbox[from])),
                    piece_index(code_piece(pos.mailbox[to])),
                    from,
                    to,
                ),
            )
        } else {
            prev
        }
    }
}

/// Lane `k` summed over the piece rows `fs`.
pub open spec fn psum(net: &Network, fs: Seq<int>, k: int) -> int
    decreases fs.len(),
{
    if fs.len() == 0 {
        0
    } else {
        psum(net, fs.drop_last(), k) + net.pw(fs.last(), k)
    }
}

/// Lane `k` summed over the threat rows `fs`.
pub open spec fn tsum(net: &Network, fs: Seq<int>, k: int) -> int
    decreases fs.len(),
{
    if fs.len() == 0 {
        0
    } else {
        tsum(net, fs.drop_last(), k) + net.tw(fs.last(), k)
    }
}

/// Lane `k` of the perspective's accumulator as an exact integer: the bias
/// plus the rows of every piece and every threat on the board.
pub open spec fn exact_lane(net: &Network, pos: Position, persp: Color, k: int) -> int {
    let ks = ctx_sq(pos, persp);
    net.feature_bias@[k] + psum(
        net,
        piece_feats(pos, persp, king_base(ks), king_flip(ks), 64),
        k,
    ) + tsum(net, threat_feats(pos, persp, 4096), k)
}

pub proof fn lemma_psum_push(net: &Network, fs: Seq<int>, f: int, k: int)
    ensures
        psum(net, fs.push(f), k) == psum(net, fs, k) + net.pw(f, k),
{
    assert(fs.push(f).drop_last() =~= fs);
}

pub proof fn lemma_tsum_push(net: &Network, fs: Seq<int>, f: int, k: int)
    ensures
        tsum(net, fs.push(f), k) == tsum(net, fs, k) + net.tw(f, k),
{
    assert(fs.push(f).drop_last() =~= fs);
}

// ---------------------------------------------------------------------------
// Accumulator
// ---------------------------------------------------------------------------
/// `dst[k] += weights[row][k]` over a piece row, in 16-bit arithmetic.
fn add_row_i16(dst: &mut Vec<i16>, weights: &Vec<i16>, row: usize)
    requires
        old(dst)@.len() == HIDDEN,
        weights@.len() == PIECE_WORDS,
        row < NUM_PIECE,
    ensures
        final(dst)@.len() == HIDDEN,
        forall|k: int|
            0 <= k < HIDDEN ==> #[trigger] final(dst)@[k] == wrap16(
                old(dst)@[k] + weights@[row * HIDDEN + k],
            ),
{
    let base = row * HIDDEN;
    let mut k: usize = 0;
    while k < HIDDEN
        invariant
            dst@.len() == HIDDEN,
            weights@.len() == PIECE_WORDS,
            row < NUM_PIECE,
            base == row * HIDDEN,
            k <= HIDDEN,
            forall|j: int|
                0 <= j < k ==> #[trigger] dst@[j] == wrap16(old(dst)@[j] + weights@[row * HIDDEN + j]),
            forall|j: int| k <= j < HIDDEN ==> #[trigger] dst@[j] == old(dst)@[j],
        decreases HIDDEN - k,
    {
        let v = add16(dst[k], weights[base + k]);
        dst.set(k, v);
        k += 1;
    }
}

/// `dst[k] += weights[row][k]` over a threat row, widening the 8-bit weight.
fn add_row_i8(dst: &mut Vec<i16>, weights: &Vec<i8>, row: usize)
    requires
        old(dst)@.len() == HIDDEN,
        weights@.len() == THREAT_WORDS,
        row < NUM_THREAT,
    ensures
        final(dst)@.len() == HIDDEN,
        forall|k: int|
            0 <= k < HIDDEN ==> #[trigger] final(dst)@[k] == wrap16(
                old(dst)@[k] + weights@[row * HIDDEN + k],
            ),
{
    let base = row * HIDDEN;
    let mut k: usize = 0;
    while k < HIDDEN
        invariant
            dst@.len() == HIDDEN,
            weights@.len() == THREAT_WORDS,
            row < NUM_THREAT,
            base == row * HIDDEN,
            k <= HIDDEN,
            forall|j: int|
                0 <= j < k ==> #[trigger] dst@[j] == wrap16(old(dst)@[j] + weights@[row * HIDDEN + j]),
            forall|j: int| k <= j < HIDDEN ==> #[trigger] dst@[j] == old(dst)@[j],
        decreases HIDDEN - k,
    {
        let v = add16(dst[k], weights[base + k] as i16);
        dst.set(k, v);
        k += 1;
    }
}

/// The two perspective accumulators, with the king contexts their piece rows
/// are keyed by.
pub struct Accumulator {
    pub w: Vec<i16>,
    pub b: Vec<i16>,
    pub wk_base: usize,
    pub wk_flip: usize,
    pub bk_base: usize,
    pub bk_flip: usize,
}

impl Accumulator {
    pub open spec fn shape_ok(&self) -> bool {
        &&& self.w@.len() == HIDDEN
        &&& self.b@.len() == HIDDEN
        &&& ctx_ok(self.wk_base as int, self.wk_flip as int)
        &&& ctx_ok(self.bk_base as int, self.bk_flip as int)
    }

    /// The accumulator of `pos`: the king contexts of its kings, and every lane
    /// the 16-bit reduction of the exact sum of bias, piece rows and threat rows.
    pub open spec fn matches(&self, net: &Network, pos: Position) -> bool {
        &&& self.shape_ok()
        &&& self.wk_base == king_base(ctx_sq(pos, Color::White))
        &&& self.wk_flip == king_flip(ctx_sq(pos, Color::White))
        &&& self.bk_base == king_base(ctx_sq(pos, Color::Black))
        &&& self.bk_flip == king_flip(ctx_sq(pos, Color::Black))
        &&& forall|k: int|
            0 <= k < HIDDEN ==> #[trigger] self.w@[k] == wrap16(exact_lane(net, pos, Color::White, k))
        &&& forall|k: int|
            0 <= k < HIDDEN ==> #[trigger] self.b@[k] == wrap16(exact_lane(net, pos, Color::Black, k))
    }

    /// All-zero accumulator.
    pub fn zeroed() -> (r: Accumulator)
        ensures
            r.shape_ok(),
            forall|k: int| 0 <= k < HIDDEN ==> #[trigger] r.w@[k] == 0 && r.b@[k] == 0,
    {
        let mut w: Vec<i16> = Vec::with_capacity(HIDDEN);
        let mut i: usize = 0;
        while i < HIDDEN
            invariant
                i <= HIDDEN,
                w@.len() == i,
                forall|k: int| 0 <= k < i ==> #[trigger] w@[k] == 0,
            decreases HIDDEN - i,
        {
            w.push(0);
            i += 1;
        }
        let b = copy_lanes(&w);
        Accumulator { w, b, wk_base: 0, wk_flip: 0, bk_base: 0, bk_flip: 0 }
    }
}

/// A copy of a lane vector.
fn copy_lanes(v: &Vec<i16>) -> (r: Vec<i16>)
    ensures
        r@ == v@,
{
    let mut r: Vec<i16> = Vec::with_capacity(v.len());
    let mut i: usize = 0;
    while i < v.len()
        invariant
            i <= v@.len(),
            r@ == v@.subrange(0, i as int),
        decreases v@.len() - i,
    {
        r.push(v[i]);
        i += 1;
        proof {
            assert(r@ =~= v@.subrange(0, i as int));
        }
    }
    proof {
        assert(r@ =~= v@);
    }
    r
}

impl Accumulator {
    /// Adds the rows of a `col` piece of type `pt` on `sq` to both perspectives.
    fn add(&mut self, net: &Network, col: Color, pt: usize, sq: Square)
        requires
            old(self).shape_ok(),
            net.wf(),
            pt < 6,
            sq < 64,
        ensures
            final(self).shape_ok(),
            final(self).wk_base == old(self).wk_base,
            final(self).wk_flip == old(self).wk_flip,
            final(self).bk_base == old(self).bk_base,
            final(self).bk_flip == old(self).bk_flip,
            forall|k: int|
                0 <= k < HIDDEN ==> #[trigger] final(self).w@[k] == wrap16(
                    old(self).w@[k] + net.pw(
                        piece_feat(
                            Color::White,
                            col,
                            pt as int,
                            sq as int,
                            old(self).wk_base as int,
                            old(self).wk_flip as int,
                        ),
                        k,
                    ),
                ),
            forall|k: int|
                0 <= k < HIDDEN ==> #[trigger] final(self).b@[k] == wrap16(
                    old(self).b@[k] + net.pw(
                        piece_feat(
                            Color::Black,
                            col,
                            pt as int,
                            sq as int,
                            old(self).bk_base as int,
                            old(self).bk_flip as int,
                        ),
                        k,
                    ),
                ),
    {
        let fw = wp_feat(col, pt, sq, self.wk_base, self.wk_flip);
        let fb = bp_feat(col, pt, sq, self.bk_base, self.bk_flip);
        add_row_i16(&mut self.w, &net.piece_weights, fw);
        add_row_i16(&mut self.b, &net.piece_weights, fb);
    }

    /// Adds the rows of one threat to both perspectives.
    fn thr_add(&mut self, net: &Network, att_pt: usize, vic_pt: usize, asq: Square, vsq: Square)
        requires
            old(self).shape_ok(),
            net.wf(),
            att_pt < 5,
            vic_pt < 5,
            asq < 64,
            vsq < 64,
        ensures
            final(self).shape_ok(),
            final(self).wk_base == old(self).wk_base,
            final(self).wk_flip == old(self).wk_flip,
            final(self).bk_base == old(self).bk_base,
            final(self).bk_flip == old(self).bk_flip,
            forall|k: int|
                0 <= k < HIDDEN ==> #[trigger] final(self).w@[k] == wrap16(
                    old(self).w@[k] + net.tw(
                        thr_feat(Color::White, att_pt as int, vic_pt as int, asq as int, vsq as int),
                        k,
                    ),
                ),
            forall|k: int|
                0 <= k < HIDDEN ==> #[trigger] final(self).b@[k] == wrap16(
                    old(self).b@[k] + net.tw(
                        thr_feat(Color::Black, att_pt as int, vic_pt as int, asq as int, vsq as int),
                        k,
                    ),
                ),
    {
        let fw = thr_feat_w(att_pt, vic_pt, asq, vsq);
        let fb = thr_feat_b(att_pt, vic_pt, asq, vsq);
        add_row_i8(&mut self.w, &net.threat_weights, fw);
        add_row_i8(&mut self.b, &net.threat_weights, fb);
    }

    /// Adds the rows of every piece on the board, square by square.
    fn add_pieces(&mut self, net: &Network, pos: &Position)
        requires
            old(self).shape_ok(),
            net.wf(),
            pos.board_ok(),
        ensures
            final(self).shape_ok(),
            final(self).wk_base == old(self).wk_base && final(self).wk_flip == old(self).wk_flip,
            final(self).bk_base == old(self).bk_base && final(self).bk_flip == old(self).bk_flip,
            forall|k: int|
                0 <= k < HIDDEN ==> #[trigger] final(self).w@[k] == wrap16(
                    old(self).w@[k] + psum(
                        net,
                        piece_feats(*pos, Color::White, old(self).wk_base as int, old(self).wk_flip as int, 64),
                        k,
                    ),
                ),
            forall|k: int|
                0 <= k < HIDDEN ==> #[trigger] final(self).b@[k] == wrap16(
                    old(self).b@[k] + psum(
                        net,
                        piece_feats(*pos, Color::Black, old(self).bk_base as int, old(self).bk_flip as int, 64),
                        k,
                    ),
                ),
    {
        let ghost w0 = self.w@;
        let ghost b0 = self.b@;
        let ghost wkb = self.wk_base as int;
        let ghost wkf = self.wk_flip as int;
        let ghost bkb = self.bk_base as int;
        let ghost bkf = self.bk_flip as int;
        proof {
            assert forall|k: int| 0 <= k < HIDDEN implies #[trigger] self.w@[k] == wrap16(w0[k] + psum(net, piece_feats(*pos, Color::White, wkb, wkf, 0), k)) && self.b@[k] == wrap16(b0[k] + psum(net, piece_feats(*pos, Color::Black, bkb, bkf, 0), k)) by {
                lemma_wrap16_small(w0[k] as int);
                lemma_wrap16_small(b0[k] as int);
            }
        }
        let mut sq: u8 = 0;
        while sq < 64
            invariant
                net.wf(),
                pos.board_ok(),
                sq <= 64,
                self.shape_ok(),
                self.wk_base == old(self).wk_base && self.wk_flip == old(self).wk_flip,
                self.bk_base == old(self).bk_base && self.bk_flip == old(self).bk_flip,
                w0.len() == HIDDEN && b0.len() == HIDDEN,
                wkb == self.wk_base && wkf == self.wk_flip && bkb == self.bk_base && bkf == self.bk_flip,
                forall|k: int| 0 <= k < HIDDEN ==> #[trigger] self.w@[k] == wrap16(w0[k] + psum(net, piece_feats(*pos, Color::White, wkb, wkf, sq as int), k)),
                forall|k: int| 0 <= k < HIDDEN ==> #[trigger] self.b@[k] == wrap16(b0[k] + psum(net, piece_feats(*pos, Color::Black, bkb, bkf, sq as int), k)),
            decreases 64 - sq,
        {
            let ghost before = *self;
            if let Some((col, pt)) = pos.piece_on(sq) {
                self.add(net, col, pt.idx(), sq);
                proof {
                    let fw = piece_feat(Color::White, col, piece_index(pt), sq as int, wkb, wkf);
                    let fb = piece_feat(Color::Black, col, piece_index(pt), sq as int, bkb, bkf);
                    crate::position::lemma_code_parts(col, pt);
                    assert(piece_feats(*pos, Color::White, wkb, wkf, sq + 1) == piece_feats(*pos, Color::White, wkb, wkf, sq as int).push(fw));
                    assert(piece_feats(*pos, Color::Black, bkb, bkf, sq + 1) == piece_feats(*pos, Color::Black, bkb, bkf, sq as int).push(fb));
                    lemma_psum_push_all(net, piece_feats(*pos, Color::White, wkb, wkf, sq as int), fw);
                    lemma_psum_push_all(net, piece_feats(*pos, Color::Black, bkb, bkf, sq as int), fb);
                    assert forall|k: int| 0 <= k < HIDDEN implies #[trigger] self.w@[k] == wrap16(w0[k] + psum(net, piece_feats(*pos, Color::White, wkb, wkf, sq + 1), k)) by {
                        lemma_wrap16_add(w0[k] + psum(net, piece_feats(*pos, Color::White, wkb, wkf, sq as int), k), net.pw(fw, k));
                    }
                    assert forall|k: int| 0 <= k < HIDDEN implies #[trigger] self.b@[k] == wrap16(b0[k] + psum(net, piece_feats(*pos, Color::Black, bkb, bkf, sq + 1), k)) by {
                        lemma_wrap16_add(b0[k] + psum(net, piece_feats(*pos, Color::Black, bkb, bkf, sq as int), k), net.pw(fb, k));
                    }
                }
            } else {
                proof {
                    assert(piece_feats(*pos, Color::White, wkb, wkf, sq + 1) == piece_feats(*pos, Color::White, wkb, wkf, sq as int));
                    assert(piece_feats(*pos, Color::Black, bkb, bkf, sq + 1) == piece_feats(*pos, Color::Black, bkb, bkf, sq as int));
                }
            }
            sq += 1;
        }
    }

    /// Adds the rows of every threat whose attacker stands on `from`, victim
    /// square by victim square.
    fn add_threats_from(&mut self, net: &Network, pos: &Position, from: Square)
        requires
            old(self).shape_ok(),
            net.wf(),
            pos.board_ok(),
            from < 64,
        ensures
            final(self).shape_ok(),
            final(self).wk_base == old(self).wk_base && final(self).wk_flip == old(self).wk_flip,
            final(self).bk_base == old(self).bk_base && final(self).bk_flip == old(self).bk_flip,
            forall|k: int|
                0 <= k < HIDDEN ==> #[trigger] final(self).w@[k] == wrap16(
                    old(self).w@[k] + (tsum(net, threat_feats(*pos, Color::White, 64 * from + 64), k)
                        - tsum(net, threat_feats(*pos, Color::White, 64 * from), k)),
                ),
            forall|k: int|
                0 <= k < HIDDEN ==> #[trigger] final(self).b@[k] == wrap16(
                    old(self).b@[k] + (tsum(net, threat_feats(*pos, Color::Black, 64 * from + 64), k)
                        - tsum(net, threat_feats(*pos, Color::Black, 64 * from), k)),
                ),
    {
        let ghost w0 = self.w@;
        let ghost b0 = self.b@;
        let occ = pos.occupied();
        let (ok, ac, apt): (bool, Color, usize) = match pos.piece_on(from) {
            Some((c, pt)) => (pt != PieceType::King, c, pt.idx()),
            None => (false, Color::White, 0),
        };
        let tgt: u64 = if ok {
            piece_attacks(apt, ac, from, occ)
        } else {
            0
        };
        proof {
            if ok {
                crate::types::lemma_piece_index_roundtrip(code_piece(pos.mailbox[from as int]));
            }
            assert forall|k: int| 0 <= k < HIDDEN implies #[trigger] self.w@[k] == wrap16(w0[k] + (tsum(net, threat_feats(*pos, Color::White, 64 * from), k) - tsum(net, threat_feats(*pos, Color::White, 64 * from), k))) && self.b@[k] == wrap16(b0[k] + (tsum(net, threat_feats(*pos, Color::Black, 64 * from), k) - tsum(net, threat_feats(*pos, Color::Black, 64 * from), k))) by {
                lemma_wrap16_small(w0[k] as int);
                lemma_wrap16_small(b0[k] as int);
            }
        }
        let mut to: u8 = 0;
        while to < 64
            invariant
                net.wf(),
                pos.board_ok(),
                occ == pos.occupied_spec(),
                from < 64,
                to <= 64,
                ok ==> pos.mailbox[from as int] != EMPTY && code_piece(pos.mailbox[from as int])
                    != PieceType::King && ac == code_color(pos.mailbox[from as int]) && apt
                    == piece_index(code_piece(pos.mailbox[from as int])) && apt < 5 && tgt
                    == piece_attacks_spec(apt as int, ac, from as int, occ),
                !ok ==> pos.mailbox[from as int] == EMPTY || code_piece(pos.mailbox[from as int])
                    == PieceType::King,
                self.shape_ok(),
                self.wk_base == old(self).wk_base && self.wk_flip == old(self).wk_flip,
                self.bk_base == old(self).bk_base && self.bk_flip == old(self).bk_flip,
                w0.len() == HIDDEN && b0.len() == HIDDEN,
                forall|k: int| 0 <= k < HIDDEN ==> #[trigger] self.w@[k] == wrap16(w0[k] + (tsum(net, threat_feats(*pos, Color::White, 64 * from + to), k) - tsum(net, threat_feats(*pos, Color::White, 64 * from), k))),
                forall|k: int| 0 <= k < HIDDEN ==> #[trigger] self.b@[k] == wrap16(b0[k] + (tsum(net, threat_feats(*pos, Color::Black, 64 * from + to), k) - tsum(net, threat_feats(*pos, Color::Black, 64 * from), k))),
            decreases 64 - to,
        {
            let ghost p: int = 64 * from + to;
            let ghost before = *self;
            proof {
                vstd::arithmetic::div_mod::lemma_fundamental_div_mod_converse(p, 64, from as int, to as int);
            }
            let mut added = false;
            if ok && (tgt >> (to as u64)) & 1 == 1 {
                if let Some((vc, vpt)) = pos.piece_on(to) {
                    if vpt != PieceType::King && vc != ac {
                        self.thr_add(net, apt, vpt.idx(), from, to);
                        added = true;
                        proof {
                            assert(threat_at(*pos, from as int, to as int));
                            let fw = thr_feat(Color::White, apt as int, piece_index(vpt), from as int, to as int);
                            let fb = thr_feat(Color::Black, apt as int, piece_index(vpt), from as int, to as int);
                            assert(threat_feats(*pos, Color::White, p + 1) == threat_feats(*pos, Color::White, p).push(fw));
                            assert(threat_feats(*pos, Color::Black, p + 1) == threat_feats(*pos, Color::Black, p).push(fb));
                            lemma_tsum_push_all(net, threat_feats(*pos, Color::White, p), fw);
                            lemma_tsum_push_all(net, threat_feats(*pos, Color::Black, p), fb);
                            assert forall|k: int| 0 <= k < HIDDEN implies #[trigger] self.w@[k] == wrap16(w0[k] + (tsum(net, threat_feats(*pos, Color::White, p + 1), k) - tsum(net, threat_feats(*pos, Color::White, 64 * from), k))) by {
                                lemma_wrap16_add(w0[k] + (tsum(net, threat_feats(*pos, Color::White, p), k) - tsum(net, threat_feats(*pos, Color::White, 64 * from), k)), net.tw(fw, k));
                            }
                            assert forall|k: int| 0 <= k < HIDDEN implies #[trigger] self.b@[k] == wrap16(b0[k] + (tsum(net, threat_feats(*pos, Color::Black, p + 1), k) - tsum(net, threat_feats(*pos, Color::Black, 64 * from), k))) by {
                                lemma_wrap16_add(b0[k] + (tsum(net, threat_feats(*pos, Color::Black, p), k) - tsum(net, threat_feats(*pos, Color::Black, 64 * from), k)), net.tw(fb, k));
                            }
                        }
                    }
                }
            }
            if !added {
                proof {
                    assert(!threat_at(*pos, from as int, to as int));
                    assert(threat_feats(*pos, Color::White, p + 1) == threat_feats(*pos, Color::White, p));
                    assert(threat_feats(*pos, Color::Black, p + 1) == threat_feats(*pos, Color::Black, p));
                }
            }
            to += 1;
        }
    }

    /// Adds the rows of every threat on the board, attacker square by attacker
    /// square.
    fn add_threats(&mut self, net: &Network, pos: &Position)
        requires
            old(self).shape_ok(),
            net.wf(),
            pos.board_ok(),
        ensures
            final(self).shape_ok(),
            final(self).wk_base == old(self).wk_base && final(self).wk_flip == old(self).wk_flip,
            final(self).bk_base == old(self).bk_base && final(self).bk_flip == old(self).bk_flip,
            forall|k: int|
                0 <= k < HIDDEN ==> #[trigger] final(self).w@[k] == wrap16(
                    old(self).w@[k] + tsum(net, threat_feats(*pos, Color::White, 4096), k),
                ),
            forall|k: int|
                0 <= k < HIDDEN ==> #[trigger] final(self).b@[k] == wrap16(
                    old(self).b@[k] + tsum(net, threat_feats(*pos, Color::Black, 4096), k),
                ),
    {
        let ghost w0 = self.w@;
        let ghost b0 = self.b@;
        proof {
            assert forall|k: int| 0 <= k < HIDDEN implies #[trigger] self.w@[k] == wrap16(w0[k] + tsum(net, threat_feats(*pos, Color::White, 0), k)) && self.b@[k] == wrap16(b0[k] + tsum(net, threat_feats(*pos, Color::Black, 0), k)) by {
                lemma_wrap16_small(w0[k] as int);
                lemma_wrap16_small(b0[k] as int);
            }
        }
        let mut from: u8 = 0;
        while from < 64
            invariant
                net.wf(),
                pos.board_ok(),
                from <= 64,
                self.shape_ok(),
                self.wk_base == old(self).wk_base && self.wk_flip == old(self).wk_flip,
                self.bk_base == old(self).bk_base && self.bk_flip == old(self).bk_flip,
                w0.len() == HIDDEN && b0.len() == HIDDEN,
                forall|k: int| 0 <= k < HIDDEN ==> #[trigger] self.w@[k] == wrap16(w0[k] + tsum(net, threat_feats(*pos, Color::White, 64 * from), k)),
                forall|k: int| 0 <= k < HIDDEN ==> #[trigger] self.b@[k] == wrap16(b0[k] + tsum(net, threat_feats(*pos, Color::Black, 64 * from), k)),
            decreases 64 - from,
        {
            let ghost before = *self;
            self.add_threats_from(net, pos, from);
            proof {
                assert forall|k: int| 0 <= k < HIDDEN implies #[trigger] self.w@[k] == wrap16(w0[k] + tsum(net, threat_feats(*pos, Color::White, 64 * from + 64), k)) by {
                    lemma_wrap16_add(w0[k] + tsum(net, threat_feats(*pos, Color::White, 64 * from), k), tsum(net, threat_feats(*pos, Color::White, 64 * from + 64), k) - tsum(net, threat_feats(*pos, Color::White, 64 * from), k));
                }
                assert forall|k: int| 0 <= k < HIDDEN implies #[trigger] self.b@[k] == wrap16(b0[k] + tsum(net, threat_feats(*pos, Color::Black, 64 * from + 64), k)) by {
                    lemma_wrap16_add(b0[k] + tsum(net, threat_feats(*pos, Color::Black, 64 * from), k), tsum(net, threat_feats(*pos, Color::Black, 64 * from + 64), k) - tsum(net, threat_feats(*pos, Color::Black, 64 * from), k));
                }
            }
            from += 1;
        }
    }

    proof fn lemma_piece_feats_board(p1: Position, p2: Position, persp: Color, base: int, flip: int, n: int)
        requires
            p1.mailbox == p2.mailbox,
        ensures
            piece_feats(p1, persp, base, flip, n) == piece_feats(p2, persp, base, flip, n),
        decreases n,
    {
        if n > 0 {
            Self::lemma_piece_feats_board(p1, p2, persp, base, flip, n - 1);
        }
    }

    proof fn lemma_threat_feats_board(p1: Position, p2: Position, persp: Color, n: int)
        requires
            p1.mailbox == p2.mailbox,
            p1.piece_bb == p2.piece_bb,
            p1.color_bb == p2.color_bb,
        ensures
            threat_feats(p1, persp, n) == threat_feats(p2, persp, n),
        decreases n,
    {
        if n > 0 {
            Self::lemma_threat_feats_board(p1, p2, persp, n - 1);
        }
    }

    /// A rebuilt accumulator depends on the placement of the pieces only: two
    /// positions with the same board give the same king contexts and lanes,
    /// whoever is to move and whatever the rights and counters.
    pub proof fn lemma_refresh_placement(net: &Network, p1: Position, p2: Position, a1: Accumulator, a2: Accumulator)
        requires
            p1.wf(),
            p2.wf(),
            p1.mailbox@ == p2.mailbox@,
            a1.matches(net, p1),
            a2.matches(net, p2),
        ensures
            a1.w@ == a2.w@,
            a1.b@ == a2.b@,
            a1.wk_base == a2.wk_base && a1.wk_flip == a2.wk_flip,
            a1.bk_base == a2.bk_base && a1.bk_flip == a2.bk_flip,
    {
        p1.lemma_same_placement(p2);
        let (w1, w2) = (ctx_sq(p1, Color::White), ctx_sq(p1, Color::Black));
        Self::lemma_piece_feats_board(p1, p2, Color::White, king_base(w1), king_flip(w1), 64);
        Self::lemma_piece_feats_board(p1, p2, Color::Black, king_base(w2), king_flip(w2), 64);
        Self::lemma_threat_feats_board(p1, p2, Color::White, 4096);
        Self::lemma_threat_feats_board(p1, p2, Color::Black, 4096);
        assert(a1.w@ =~= a2.w@);
        assert(a1.b@ =~= a2.b@);
    }

    /// Full rebuild from a position: the king contexts, then every piece row,
    /// then every threat row.
    pub fn refresh(net: &Network, pos: &Position) -> (r: Accumulator)
        requires
            net.wf(),
            pos.wf(),
        ensures
            r.matches(net, *pos),
    {
        let (wk_base, wk_flip, bk_base, bk_flip) = king_ctx_both(pos);
        let mut acc = Accumulator {
            w: copy_lanes(&net.feature_bias),
            b: copy_lanes(&net.feature_bias),
            wk_base,
            wk_flip,
            bk_base,
            bk_flip,
        };
        let ghost a0 = acc;
        acc.add_pieces(net, pos);
        let ghost a1 = acc;
        acc.add_threats(net, pos);
        proof {
            let ghost pw = piece_feats(*pos, Color::White, wk_base as int, wk_flip as int, 64);
            let ghost pb = piece_feats(*pos, Color::Black, bk_base as int, bk_flip as int, 64);
            assert forall|k: int| 0 <= k < HIDDEN implies #[trigger] acc.w@[k] == wrap16(exact_lane(net, *pos, Color::White, k)) by {
                lemma_wrap16_add(a0.w@[k] + psum(net, pw, k), tsum(net, threat_feats(*pos, Color::White, 4096), k));
            }
            assert forall|k: int| 0 <= k < HIDDEN implies #[trigger] acc.b@[k] == wrap16(exact_lane(net, *pos, Color::Black, k)) by {
                lemma_wrap16_add(a0.b@[k] + psum(net, pb, k), tsum(net, threat_feats(*pos, Color::Black, 4096), k));
            }
        }
        acc
    }
}

pub proof fn lemma_psum_push_all(net: &Network, fs: Seq<int>, f: int)
    ensures
        forall|k: int| #[trigger] psum(net, fs.push(f), k) == psum(net, fs, k) + net.pw(f, k),
{
    assert forall|k: int| #[trigger] psum(net, fs.push(f), k) == psum(net, fs, k) + net.pw(f, k) by {
        lemma_psum_push(net, fs, f, k);
    }
}

pub proof fn lemma_tsum_push_all(net: &Network, fs: Seq<int>, f: int)
    ensures
        forall|k: int| #[trigger] tsum(net, fs.push(f), k) == tsum(net, fs, k) + net.tw(f, k),
{
    assert forall|k: int| #[trigger] tsum(net, fs.push(f), k) == tsum(net, fs, k) + net.tw(f, k) by {
        lemma_tsum_push(net, fs, f, k);
    }
}


// ---------------------------------------------------------------------------
// Output layer
// ---------------------------------------------------------------------------
/// Squared clipped ReLU: `clamp(x, 0, QA)^2`.
pub open spec fn screlu_spec(x: int) -> int {
    let y = if x < 0 {
        0
    } else if x > 255 {
        255
    } else {
        x
    };
    y * y
}

/// `sum_{i < n} screlu(lanes[i]) * w[off + i]`.
pub open spec fn dot_spec(lanes: Seq<int>, w: Seq<i16>, off: int, n: int) -> int
    decreases n,
{
    if n <= 0 {
        0
    } else {
        dot_spec(lanes, w, off, n - 1) + screlu_spec(lanes[n - 1]) * w[off + n - 1]
    }
}

/// Division rounding toward zero, as Rust's `/` does.
pub open spec fn tdiv(a: int, b: int) -> int {
    if a >= 0 {
        a / b
    } else {
        -((-a) / b)
    }
}

/// Output bucket for `n` occupied squares: `(n - 2) / 4`, at most 7.
pub open spec fn bucket_spec(n: int) -> int {
    let q = if n >= 2 {
        (n - 2) / 4
    } else {
        0
    };
    if q > 7 {
        7
    } else {
        q
    }
}

/// The output bucket grows by one for every four pieces from two pieces up,
/// to at most 7: with `n` pieces the bucket `b` is the one whose range
/// `4b + 2 ..= 4b + 5` holds `n` (bucket 0 below that, bucket 7 above).
pub proof fn law_bucket_by_piece_count(n: int)
    ensures
        0 <= bucket_spec(n) <= 7,
        bucket_spec(n) > 0 ==> n >= 4 * bucket_spec(n) + 2,
        bucket_spec(n) < 7 ==> n < 4 * bucket_spec(n) + 6,
{
}

/// Evaluation from the side to move's lanes `us` and the other side's lanes
/// `them` with `n` pieces on the board.
pub open spec fn eval_spec(net: &Network, us: Seq<int>, them: Seq<int>, n: int) -> int {
    let bkt = bucket_spec(n);
    let raw = dot_spec(us, net.output_weights@, bkt * 1536, 768) + dot_spec(
        them,
        net.output_weights@,
        bkt * 1536 + 768,
        768,
    );
    tdiv((tdiv(raw, QA as int) + net.output_bias@[bkt]) * SCALE as int, (QA * QB) as int)
}

/// The lanes of a 16-bit vector as integers.
pub open spec fn lanes_of(v: Seq<i16>) -> Seq<int> {
    Seq::new(v.len(), |i: int| v[i] as int)
}

proof fn lemma_dot_bound(lanes: Seq<int>, w: Seq<i16>, off: int, n: int)
    requires
        0 <= n,
        forall|i: int| 0 <= i < n ==> -127 <= #[trigger] w[off + i] <= 127,
    ensures
        -8258175 * n <= dot_spec(lanes, w, off, n) <= 8258175 * n,
    decreases n,
{
    if n > 0 {
        lemma_dot_bound(lanes, w, off, n - 1);
        let y = screlu_spec(lanes[n - 1]);
        let x = lanes[n - 1];
        let c = if x < 0 {
            0
        } else if x > 255 {
            255
        } else {
            x
        };
        assert(0 <= c * c <= 65025) by (nonlinear_arith)
            requires
                0 <= c <= 255,
        ;
        let t = w[off + n - 1] as int;
        assert(-127 <= t <= 127);
        assert(-8258175 <= y * t <= 8258175) by (nonlinear_arith)
            requires
                0 <= y <= 65025,
                -127 <= t <= 127,
        ;
    }
}

/// `sum_i screlu(acc[i]) * w[off + i]` over one perspective's lanes.
fn screlu_dot(acc: &Vec<i16>, w: &Vec<i16>, off: usize) -> (r: i64)
    requires
        acc@.len() == HIDDEN,
        off + HIDDEN <= w@.len(),
        forall|i: int| 0 <= i < HIDDEN ==> -127 <= #[trigger] w@[off + i] <= 127,
    ensures
        r == dot_spec(lanes_of(acc@), w@, off as int, HIDDEN as int),
        -8258175 * 768 <= r <= 8258175 * 768,
{
    let wl = w.len();
    let mut out: i64 = 0;
    let mut i: usize = 0;
    while i < HIDDEN
        invariant
            wl == w@.len(),
            acc@.len() == HIDDEN,
            off + HIDDEN <= w@.len(),
            forall|j: int| 0 <= j < HIDDEN ==> -127 <= #[trigger] w@[off + j] <= 127,
            i <= HIDDEN,
            out == dot_spec(lanes_of(acc@), w@, off as int, i as int),
        decreases HIDDEN - i,
    {
        proof {
            lemma_dot_bound(lanes_of(acc@), w@, off as int, i as int);
        }
        let x = acc[i];
        let c: i64 = if x < 0 {
            0
        } else if x > 255 {
            255
        } else {
            x as i64
        };
        let wi = w[off + i] as i64;
        assert(-127 <= wi <= 127);
        assert(0 <= c * c <= 65025) by (nonlinear_arith)
            requires
                0 <= c <= 255,
        ;
        assert(-8258175 <= c * c * wi <= 8258175) by (nonlinear_arith)
            requires
                0 <= c * c <= 65025,
                -127 <= wi <= 127,
        ;
        out = out + c * c * wi;
        i += 1;
        proof {
            assert(lanes_of(acc@)[i - 1] == x);
        }
    }
    proof {
        lemma_dot_bound(lanes_of(acc@), w@, off as int, HIDDEN as int);
    }
    out
}

/// Output bucket of a position by its piece count (MaterialCount<8>).
fn output_bucket(n: u32) -> (r: usize)
    ensures
        r == bucket_spec(n as int),
        r < NUM_OUTPUT_BUCKETS,
        r > 0 ==> n >= 4 * r + 2,
        r < 7 ==> n < 4 * r + 6,
{
    proof {
        law_bucket_by_piece_count(n as int);
    }
    let m = n as usize;
    let q = if m >= 2 {
        (m - 2) / 4
    } else {
        0
    };
    if q > 7 {
        7
    } else {
        q
    }
}

/// `a / b` rounding toward zero, for a positive `b`.
pub(crate) fn div_trunc(a: i64, b: i64) -> (r: i64)
    requires
        b > 0,
        a > i64::MIN,
    ensures
        r == tdiv(a as int, b as int),
{
    if a >= 0 {
        a / b
    } else {
        -((-a) / b)
    }
}

/// The output layer over two lane vectors: SCReLU dot products with the
/// bucket's weights, then dequantization to centipawns.
fn output(net: &Network, us: &Vec<i16>, them: &Vec<i16>, n: u32) -> (r: Score)
    requires
        net.wf(),
        us@.len() == HIDDEN,
        them@.len() == HIDDEN,
    ensures
        r == eval_spec(net, lanes_of(us@), lanes_of(them@), n as int),
{
    let bkt = output_bucket(n);
    let base = bkt * 1536;
    proof {
        assert forall|i: int| 0 <= i < HIDDEN implies -127 <= #[trigger] net.output_weights@[base + i] <= 127 by {
            assert(net.output_weights@[base + i] == net.output_weights@[(base + i) as int]);
        }
        assert forall|i: int| 0 <= i < HIDDEN implies -127 <= #[trigger] net.output_weights@[base + HIDDEN + i] <= 127 by {
            assert(net.output_weights@[base + HIDDEN + i] == net.output_weights@[(base + HIDDEN + i) as int]);
        }
    }
    let raw = screlu_dot(us, &net.output_weights, base) + screlu_dot(them, &net.output_weights, base + HIDDEN);
    let mut o = div_trunc(raw, QA as i64);
    proof {
        assert(-50000000 <= o <= 50000000);
    }
    o = o + net.output_bias[bkt] as i64;
    o = o * 400;
    let v = div_trunc(o, (QA * QB) as i64);
    proof {
        assert(-2000000 <= v <= 2000000);
    }
    v as Score
}

impl Accumulator {
    /// Evaluates from the side to move's perspective: the side to move's
    /// lanes against the first half of the bucket's output weights, the other
    /// side's against the second half.
    pub fn eval(&self, net: &Network, pos: &Position) -> (r: Score)
        requires
            self.shape_ok(),
            net.wf(),
        ensures
            r == (if pos.stm == Color::White {
                eval_spec(net, lanes_of(self.w@), lanes_of(self.b@), popcount_spec(pos.occupied_spec()) as int)
            } else {
                eval_spec(net, lanes_of(self.b@), lanes_of(self.w@), popcount_spec(pos.occupied_spec()) as int)
            }),
    {
        let n = crate::bitboard::popcount(pos.occupied());
        if pos.stm == Color::White {
            output(net, &self.w, &self.b, n)
        } else {
            output(net, &self.b, &self.w, n)
        }
    }
}

/// The lanes a full rebuild gives a perspective.
pub open spec fn refreshed_lanes(net: &Network, pos: Position, persp: Color) -> Seq<int> {
    Seq::new(HIDDEN as nat, |k: int| wrap16(exact_lane(net, pos, persp, k)))
}

/// The network's evaluation of a position, from the side to move's
/// perspective.
pub open spec fn evaluate_spec(net: &Network, pos: Position) -> int {
    let n = popcount_spec(pos.occupied_spec()) as int;
    if pos.stm == Color::White {
        eval_spec(net, refreshed_lanes(net, pos, Color::White), refreshed_lanes(net, pos, Color::Black), n)
    } else {
        eval_spec(net, refreshed_lanes(net, pos, Color::Black), refreshed_lanes(net, pos, Color::White), n)
    }
}

/// From-scratch evaluation: rebuild the accumulator, then evaluate it.
pub fn evaluate(net: &Network, pos: &Position) -> (r: Score)
    requires
        net.wf(),
        pos.wf(),
    ensures
        r == evaluate_spec(net, *pos),
{
    let acc = Accumulator::refresh(net, pos);
    proof {
        assert(lanes_of(acc.w@) =~= refreshed_lanes(net, *pos, Color::White));
        assert(lanes_of(acc.b@) =~= refreshed_lanes(net, *pos, Color::Black));
    }
    acc.eval(net, pos)
}

// ---------------------------------------------------------------------------
// Reference evaluation with exact threat sums
// ---------------------------------------------------------------------------
proof fn lemma_threat_feats_len(pos: Position, persp: Color, n: int)
    requires
        0 <= n,
    ensures
        threat_feats(pos, persp, n).len() <= n,
    decreases n,
{
    if n > 0 {
        lemma_threat_feats_len(pos, persp, n - 1);
    }
}

proof fn lemma_tsum_bound(net: &Network, fs: Seq<int>, k: int)
    requires
        net.wf(),
        0 <= k < HIDDEN,
        forall|i: int| 0 <= i < fs.len() ==> 0 <= #[trigger] fs[i] < NUM_THREAT,
    ensures
        -128 * fs.len() <= tsum(net, fs, k) <= 128 * fs.len(),
    decreases fs.len(),
{
    if fs.len() > 0 {
        let d = fs.drop_last();
        assert forall|i: int| 0 <= i < d.len() implies 0 <= #[trigger] d[i] < NUM_THREAT by {
            assert(d[i] == fs[i]);
        }
        lemma_tsum_bound(net, d, k);
        let f = fs.last();
        assert(0 <= f < NUM_THREAT);
        assert(0 <= f * HIDDEN + k < THREAT_WORDS) by (nonlinear_arith)
            requires
                0 <= f < NUM_THREAT,
                0 <= k < HIDDEN,
        ;
    }
}

proof fn lemma_threat_feats_rows(pos: Position, persp: Color, n: int)
    requires
        pos.board_ok(),
        0 <= n <= 4096,
    ensures
        forall|i: int|
            0 <= i < threat_feats(pos, persp, n).len() ==> 0 <= #[trigger] threat_feats(pos, persp, n)[i]
                < NUM_THREAT,
    decreases n,
{
    if n > 0 {
        lemma_threat_feats_rows(pos, persp, n - 1);
        let from = (n - 1) / 64;
        let to = (n - 1) % 64;
        let prev = threat_feats(pos, persp, n - 1);
        if threat_at(pos, from, to) {
            let ap = piece_index(code_piece(pos.mailbox[from]));
            let vp = piece_index(code_piece(pos.mailbox[to]));
            assert(0 <= ap < 5 && 0 <= vp < 5);
            let o = orient(persp, to);
            let q = att_quad_spec(orient(persp, from));
            assert(0 <= o < 64 && 0 <= q < 4);
            let f = thr_feat(persp, ap, vp, from, to);
            assert(0 <= f < NUM_THREAT);
            assert forall|i: int| 0 <= i < prev.push(f).len() implies 0 <= #[trigger] prev.push(f)[i] < NUM_THREAT by {
                if i < prev.len() {
                    assert(prev.push(f)[i] == prev[i]);
                }
            }
        }
    }
}

/// The lanes of a 32-bit vector as integers.
pub open spec fn lanes_of32(v: Seq<i32>) -> Seq<int> {
    Seq::new(v.len(), |i: int| v[i] as int)
}

/// Adds the exact threat rows of every threat whose attacker stands on `from`.
fn add_threats_exact_from(
    sw: &mut Vec<i32>,
    sb: &mut Vec<i32>,
    net: &Network,
    pos: &Position,
    from: Square,
    Ghost(base_w): Ghost<Seq<int>>,
    Ghost(base_b): Ghost<Seq<int>>,
)
    requires
        old(sw)@.len() == HIDDEN,
        old(sb)@.len() == HIDDEN,
        net.wf(),
        pos.board_ok(),
        from < 64,
        forall|k: int| 0 <= k < HIDDEN ==> -32768 <= #[trigger] base_w[k] <= 32767,
        forall|k: int| 0 <= k < HIDDEN ==> -32768 <= #[trigger] base_b[k] <= 32767,
        forall|k: int| 0 <= k < HIDDEN ==> #[trigger] old(sw)@[k] == base_w[k] + tsum(net, threat_feats(*pos, Color::White, 64 * from), k),
        forall|k: int| 0 <= k < HIDDEN ==> #[trigger] old(sb)@[k] == base_b[k] + tsum(net, threat_feats(*pos, Color::Black, 64 * from), k),
    ensures
        final(sw)@.len() == HIDDEN,
        final(sb)@.len() == HIDDEN,
        forall|k: int|
            0 <= k < HIDDEN ==> #[trigger] final(sw)@[k] == old(sw)@[k] + (tsum(
                net,
                threat_feats(*pos, Color::White, 64 * from + 64),
                k,
            ) - tsum(net, threat_feats(*pos, Color::White, 64 * from), k)),
        forall|k: int|
            0 <= k < HIDDEN ==> #[trigger] final(sb)@[k] == old(sb)@[k] + (tsum(
                net,
                threat_feats(*pos, Color::Black, 64 * from + 64),
                k,
            ) - tsum(net, threat_feats(*pos, Color::Black, 64 * from), k)),
{
    let ghost w0 = sw@;
    let ghost b0 = sb@;
    let occ = pos.occupied();
    let (ok, ac, apt): (bool, Color, usize) = match pos.piece_on(from) {
        Some((c, pt)) => (pt != PieceType::King, c, pt.idx()),
        None => (false, Color::White, 0),
    };
    let tgt: u64 = if ok {
        piece_attacks(apt, ac, from, occ)
    } else {
        0
    };
    proof {
        if ok {
            crate::types::lemma_piece_index_roundtrip(code_piece(pos.mailbox[from as int]));
        }
    }
    let mut to: u8 = 0;
    while to < 64
        invariant
            net.wf(),
            pos.board_ok(),
            occ == pos.occupied_spec(),
            from < 64,
            to <= 64,
            ok ==> pos.mailbox[from as int] != EMPTY && code_piece(pos.mailbox[from as int])
                != PieceType::King && ac == code_color(pos.mailbox[from as int]) && apt
                == piece_index(code_piece(pos.mailbox[from as int])) && apt < 5 && tgt
                == piece_attacks_spec(apt as int, ac, from as int, occ),
            !ok ==> pos.mailbox[from as int] == EMPTY || code_piece(pos.mailbox[from as int])
                == PieceType::King,
            sw@.len() == HIDDEN && sb@.len() == HIDDEN,
            w0.len() == HIDDEN && b0.len() == HIDDEN,
            forall|k: int| 0 <= k < HIDDEN ==> -32768 <= #[trigger] base_w[k] <= 32767,
            forall|k: int| 0 <= k < HIDDEN ==> -32768 <= #[trigger] base_b[k] <= 32767,
            forall|k: int| 0 <= k < HIDDEN ==> #[trigger] w0[k] == base_w[k] + tsum(net, threat_feats(*pos, Color::White, 64 * from), k),
            forall|k: int| 0 <= k < HIDDEN ==> #[trigger] b0[k] == base_b[k] + tsum(net, threat_feats(*pos, Color::Black, 64 * from), k),
            forall|k: int|
                0 <= k < HIDDEN ==> #[trigger] sw@[k] == w0[k] + (tsum(
                    net,
                    threat_feats(*pos, Color::White, 64 * from + to),
                    k,
                ) - tsum(net, threat_feats(*pos, Color::White, 64 * from), k)),
            forall|k: int|
                0 <= k < HIDDEN ==> #[trigger] sb@[k] == b0[k] + (tsum(
                    net,
                    threat_feats(*pos, Color::Black, 64 * from + to),
                    k,
                ) - tsum(net, threat_feats(*pos, Color::Black, 64 * from), k)),
        decreases 64 - to,
    {
        let ghost p: int = 64 * from + to;
        proof {
            vstd::arithmetic::div_mod::lemma_fundamental_div_mod_converse(p, 64, from as int, to as int);
        }
        let mut added = false;
        if ok && (tgt >> (to as u64)) & 1 == 1 {
            if let Some((vc, vpt)) = pos.piece_on(to) {
                if vpt != PieceType::King && vc != ac {
                    let fw = thr_feat_w(apt, vpt.idx(), from, to);
                    let fb = thr_feat_b(apt, vpt.idx(), from, to);
                    proof {
                        assert(threat_at(*pos, from as int, to as int));
                        assert(threat_feats(*pos, Color::White, p + 1) == threat_feats(*pos, Color::White, p).push(fw as int));
                        assert(threat_feats(*pos, Color::Black, p + 1) == threat_feats(*pos, Color::Black, p).push(fb as int));
                        lemma_tsum_push_all(net, threat_feats(*pos, Color::White, p), fw as int);
                        lemma_tsum_push_all(net, threat_feats(*pos, Color::Black, p), fb as int);
                        lemma_threat_feats_len(*pos, Color::White, p + 1);
                        lemma_threat_feats_len(*pos, Color::White, 64 * from);
                        lemma_threat_feats_rows(*pos, Color::White, p + 1);
                        lemma_threat_feats_rows(*pos, Color::White, 64 * from);
                        lemma_threat_feats_len(*pos, Color::Black, p + 1);
                        lemma_threat_feats_len(*pos, Color::Black, 64 * from);
                        lemma_threat_feats_rows(*pos, Color::Black, p + 1);
                        lemma_threat_feats_rows(*pos, Color::Black, 64 * from);
                        assert forall|j: int| 0 <= j < HIDDEN implies -2600000 <= #[trigger] sw@[j] <= 2600000 by {
                            lemma_threat_feats_len(*pos, Color::White, p);
                            lemma_threat_feats_rows(*pos, Color::White, p);
                            lemma_tsum_bound(net, threat_feats(*pos, Color::White, p), j);
                            assert(sw@[j] == base_w[j] + tsum(net, threat_feats(*pos, Color::White, p), j));
                        }
                        assert forall|j: int| 0 <= j < HIDDEN implies -2600000 <= #[trigger] sb@[j] <= 2600000 by {
                            lemma_threat_feats_len(*pos, Color::Black, p);
                            lemma_threat_feats_rows(*pos, Color::Black, p);
                            lemma_tsum_bound(net, threat_feats(*pos, Color::Black, p), j);
                            assert(sb@[j] == base_b[j] + tsum(net, threat_feats(*pos, Color::Black, p), j));
                        }
                    }
                    let ghost sw1 = sw@;
                    let ghost sb1 = sb@;
                    let wbase = fw * HIDDEN;
                    let bbase = fb * HIDDEN;
                    let mut k: usize = 0;
                    while k < HIDDEN
                        invariant
                            net.wf(),
                            fw < NUM_THREAT && fb < NUM_THREAT,
                            wbase == fw * HIDDEN && bbase == fb * HIDDEN,
                            k <= HIDDEN,
                            sw@.len() == HIDDEN && sb@.len() == HIDDEN,
                            sw1.len() == HIDDEN && sb1.len() == HIDDEN,
                            forall|j: int| 0 <= j < HIDDEN ==> -2600000 <= #[trigger] sw1[j] <= 2600000,
                            forall|j: int| 0 <= j < HIDDEN ==> -2600000 <= #[trigger] sb1[j] <= 2600000,
                            forall|j: int| 0 <= j < k ==> #[trigger] sw@[j] == sw1[j] + net.tw(fw as int, j),
                            forall|j: int| 0 <= j < k ==> #[trigger] sb@[j] == sb1[j] + net.tw(fb as int, j),
                            forall|j: int| k <= j < HIDDEN ==> #[trigger] sw@[j] == sw1[j],
                            forall|j: int| k <= j < HIDDEN ==> #[trigger] sb@[j] == sb1[j],
                        decreases HIDDEN - k,
                    {
                        let a = sw[k] + net.threat_weights[wbase + k] as i32;
                        sw.set(k, a);
                        let c = sb[k] + net.threat_weights[bbase + k] as i32;
                        sb.set(k, c);
                        k += 1;
                    }
                    added = true;
                }
            }
        }
        if !added {
            proof {
                assert(!threat_at(*pos, from as int, to as int));
                assert(threat_feats(*pos, Color::White, p + 1) == threat_feats(*pos, Color::White, p));
                assert(threat_feats(*pos, Color::Black, p + 1) == threat_feats(*pos, Color::Black, p));
            }
        }
        to += 1;
    }
}

/// A 16-bit lane vector widened to 32 bits.
fn widen(v: &Vec<i16>) -> (r: Vec<i32>)
    ensures
        r@.len() == v@.len(),
        forall|i: int| 0 <= i < v@.len() ==> #[trigger] r@[i] == v@[i] as i32,
{
    let mut r: Vec<i32> = Vec::with_capacity(v.len());
    let mut i: usize = 0;
    while i < v.len()
        invariant
            i <= v@.len(),
            r@.len() == i,
            forall|j: int| 0 <= j < i ==> #[trigger] r@[j] == v@[j] as i32,
        decreases v@.len() - i,
    {
        r.push(v[i] as i32);
        i += 1;
    }
    r
}

/// `sum_i screlu(acc[i]) * w[off + i]` over 32-bit lanes.
fn screlu_dot_i32(acc: &Vec<i32>, w: &Vec<i16>, off: usize) -> (r: i64)
    requires
        acc@.len() == HIDDEN,
        off + HIDDEN <= w@.len(),
        forall|i: int| 0 <= i < HIDDEN ==> -127 <= #[trigger] w@[off + i] <= 127,
    ensures
        r == dot_spec(lanes_of32(acc@), w@, off as int, HIDDEN as int),
        -8258175 * 768 <= r <= 8258175 * 768,
{
    let wl = w.len();
    let mut out: i64 = 0;
    let mut i: usize = 0;
    while i < HIDDEN
        invariant
            wl == w@.len(),
            acc@.len() == HIDDEN,
            off + HIDDEN <= w@.len(),
            forall|j: int| 0 <= j < HIDDEN ==> -127 <= #[trigger] w@[off + j] <= 127,
            i <= HIDDEN,
            out == dot_spec(lanes_of32(acc@), w@, off as int, i as int),
        decreases HIDDEN - i,
    {
        proof {
            lemma_dot_bound(lanes_of32(acc@), w@, off as int, i as int);
        }
        let x = acc[i];
        let c: i64 = if x < 0 {
            0
        } else if x > 255 {
            255
        } else {
            x as i64
        };
        let wi = w[off + i] as i64;
        assert(-127 <= wi <= 127);
        assert(0 <= c * c <= 65025) by (nonlinear_arith)
            requires
                0 <= c <= 255,
        ;
        assert(-8258175 <= c * c * wi <= 8258175) by (nonlinear_arith)
            requires
                0 <= c * c <= 65025,
                -127 <= wi <= 127,
        ;
        out = out + c * c * wi;
        i += 1;
        proof {
            assert(lanes_of32(acc@)[i - 1] == x);
        }
    }
    proof {
        lemma_dot_bound(lanes_of32(acc@), w@, off as int, HIDDEN as int);
    }
    out
}

/// The output layer over 32-bit lanes.
fn output_i32(net: &Network, us: &Vec<i32>, them: &Vec<i32>, n: u32) -> (r: Score)
    requires
        net.wf(),
        us@.len() == HIDDEN,
        them@.len() == HIDDEN,
    ensures
        r == eval_spec(net, lanes_of32(us@), lanes_of32(them@), n as int),
{
    let bkt = output_bucket(n);
    let base = bkt * 1536;
    proof {
        assert forall|i: int| 0 <= i < HIDDEN implies -127 <= #[trigger] net.output_weights@[base + i] <= 127 by {
            assert(net.output_weights@[base + i] == net.output_weights@[(base + i) as int]);
        }
        assert forall|i: int| 0 <= i < HIDDEN implies -127 <= #[trigger] net.output_weights@[base + HIDDEN + i] <= 127 by {
            assert(net.output_weights@[base + HIDDEN + i] == net.output_weights@[(base + HIDDEN + i) as int]);
        }
    }
    let raw = screlu_dot_i32(us, &net.output_weights, base) + screlu_dot_i32(them, &net.output_weights, base + HIDDEN);
    let mut o = div_trunc(raw, QA as i64);
    proof {
        assert(-50000000 <= o <= 50000000);
    }
    o = o + net.output_bias[bkt] as i64;
    o = o * 400;
    let v = div_trunc(o, (QA * QB) as i64);
    proof {
        assert(-2000000 <= v <= 2000000);
    }
    v as Score
}

/// Adds the exact threat rows of every threat on the board.
fn add_threats_exact(
    sw: &mut Vec<i32>,
    sb: &mut Vec<i32>,
    net: &Network,
    pos: &Position,
    Ghost(base_w): Ghost<Seq<int>>,
    Ghost(base_b): Ghost<Seq<int>>,
)
    requires
        old(sw)@.len() == HIDDEN,
        old(sb)@.len() == HIDDEN,
        net.wf(),
        pos.board_ok(),
        forall|k: int| 0 <= k < HIDDEN ==> -32768 <= #[trigger] base_w[k] <= 32767,
        forall|k: int| 0 <= k < HIDDEN ==> -32768 <= #[trigger] base_b[k] <= 32767,
        forall|k: int| 0 <= k < HIDDEN ==> #[trigger] old(sw)@[k] == base_w[k],
        forall|k: int| 0 <= k < HIDDEN ==> #[trigger] old(sb)@[k] == base_b[k],
    ensures
        final(sw)@.len() == HIDDEN,
        final(sb)@.len() == HIDDEN,
        forall|k: int|
            0 <= k < HIDDEN ==> #[trigger] final(sw)@[k] == base_w[k] + tsum(net, threat_feats(*pos, Color::White, 4096), k),
        forall|k: int|
            0 <= k < HIDDEN ==> #[trigger] final(sb)@[k] == base_b[k] + tsum(net, threat_feats(*pos, Color::Black, 4096), k),
{
    let mut from: u8 = 0;
    while from < 64
        invariant
            net.wf(),
            pos.board_ok(),
            from <= 64,
            sw@.len() == HIDDEN && sb@.len() == HIDDEN,
            forall|k: int| 0 <= k < HIDDEN ==> -32768 <= #[trigger] base_w[k] <= 32767,
            forall|k: int| 0 <= k < HIDDEN ==> -32768 <= #[trigger] base_b[k] <= 32767,
            forall|k: int|
                0 <= k < HIDDEN ==> #[trigger] sw@[k] == base_w[k] + tsum(net, threat_feats(*pos, Color::White, 64 * from), k),
            forall|k: int|
                0 <= k < HIDDEN ==> #[trigger] sb@[k] == base_b[k] + tsum(net, threat_feats(*pos, Color::Black, 64 * from), k),
        decreases 64 - from,
    {
        add_threats_exact_from(sw, sb, net, pos, from, Ghost(base_w), Ghost(base_b));
        from += 1;
    }
}

/// Lanes with the piece part reduced to 16 bits and the threat part exact.
pub open spec fn reference_lanes(net: &Network, pos: Position, persp: Color) -> Seq<int> {
    let ks = ctx_sq(pos, persp);
    let pf = piece_feats(pos, persp, king_base(ks), king_flip(ks), 64);
    Seq::new(
        HIDDEN as nat,
        |k: int| wrap16(net.feature_bias@[k] + psum(net, pf, k)) + tsum(net, threat_feats(pos, persp, 4096), k),
    )
}

pub open spec fn evaluate_reference_spec(net: &Network, pos: Position) -> int {
    let n = popcount_spec(pos.occupied_spec()) as int;
    if pos.stm == Color::White {
        eval_spec(net, reference_lanes(net, pos, Color::White), reference_lanes(net, pos, Color::Black), n)
    } else {
        eval_spec(net, reference_lanes(net, pos, Color::Black), reference_lanes(net, pos, Color::White), n)
    }
}

/// Reference evaluation: the piece accumulator in 16 bits, widened to 32, the
/// threat rows summed into it exactly, and the output layer over those lanes.
/// It agrees with `evaluate` whenever no 16-bit lane overflows.
pub fn evaluate_recompute_ref(net: &Network, pos: &Position) -> (r: Score)
    requires
        net.wf(),
        pos.wf(),
    ensures
        r == evaluate_reference_spec(net, *pos),
{
    let (wk_base, wk_flip, bk_base, bk_flip) = king_ctx_both(pos);
    let mut acc = Accumulator {
        w: copy_lanes(&net.feature_bias),
        b: copy_lanes(&net.feature_bias),
        wk_base,
        wk_flip,
        bk_base,
        bk_flip,
    };
    acc.add_pieces(net, pos);
    let mut sw = widen(&acc.w);
    let mut sb = widen(&acc.b);
    let ghost base_w = lanes_of(acc.w@);
    let ghost base_b = lanes_of(acc.b@);
    add_threats_exact(&mut sw, &mut sb, net, pos, Ghost(base_w), Ghost(base_b));
    proof {
        assert(lanes_of32(sw@) =~= reference_lanes(net, *pos, Color::White));
        assert(lanes_of32(sb@) =~= reference_lanes(net, *pos, Color::Black));
    }
    let n = crate::bitboard::popcount(pos.occupied());
    if pos.stm == Color::White {
        output_i32(net, &sw, &sb, n)
    } else {
        output_i32(net, &sb, &sw, n)
    }
}

/// Where no lane of either perspective leaves the 16-bit range, neither after
/// the piece rows nor after the threat rows, the folded 16-bit evaluation and
/// the reference evaluation agree.
pub proof fn lemma_folded_matches_reference(net: &Network, pos: Position)
    requires
        forall|persp: Color, k: int|
            0 <= k < HIDDEN ==> -32768 <= #[trigger] exact_lane(net, pos, persp, k) <= 32767,
        forall|persp: Color, k: int|
            0 <= k < HIDDEN ==> -32768 <= net.feature_bias@[k] + #[trigger] psum(
                net,
                piece_feats(
                    pos,
                    persp,
                    king_base(ctx_sq(pos, persp)),
                    king_flip(ctx_sq(pos, persp)),
                    64,
                ),
                k,
            ) <= 32767,
    ensures
        evaluate_spec(net, pos) == evaluate_reference_spec(net, pos),
{
    assert forall|persp: Color| #[trigger] refreshed_lanes(net, pos, persp) == reference_lanes(net, pos, persp) by {
        let ks = ctx_sq(pos, persp);
        let pf = piece_feats(pos, persp, king_base(ks), king_flip(ks), 64);
        assert forall|k: int| 0 <= k < HIDDEN implies #[trigger] refreshed_lanes(net, pos, persp)[k] == reference_lanes(net, pos, persp)[k] by {
            assert(-32768 <= exact_lane(net, pos, persp, k) <= 32767);
            assert(-32768 <= net.feature_bias@[k] + psum(net, pf, k) <= 32767);
            lemma_wrap16_small(exact_lane(net, pos, persp, k));
            lemma_wrap16_small(net.feature_bias@[k] + psum(net, pf, k));
        }
        assert(refreshed_lanes(net, pos, persp) =~= reference_lanes(net, pos, persp));
    }
    assert(refreshed_lanes(net, pos, Color::White) == reference_lanes(net, pos, Color::White));
    assert(refreshed_lanes(net, pos, Color::Black) == reference_lanes(net, pos, Color::Black));
}

// ---------------------------------------------------------------------------
// Signed column kernels
// ---------------------------------------------------------------------------
/// Lanes per tile of the column kernels; `NUM_TILES` tiles cover `HIDDEN`.
pub const TILE_H: usize = 128;

pub const NUM_TILES: usize = 6;

/// Lane `lane` of `sum_{i < n} sign[i] * row(idx[i])` over 16-bit rows.
pub open spec fn pdelta(w: Seq<i16>, idx: Seq<u16>, sign: Seq<i16>, n: int, lane: int) -> int
    decreases n,
{
    if n <= 0 {
        0
    } else {
        pdelta(w, idx, sign, n - 1, lane) + sign[n - 1] * w[idx[n - 1] * HIDDEN + lane]
    }
}

/// Lane `lane` of `sum_{i < n} sign[i] * row(idx[i])` over 8-bit rows.
pub open spec fn tdelta(w: Seq<i8>, idx: Seq<u16>, sign: Seq<i16>, n: int, lane: int) -> int
    decreases n,
{
    if n <= 0 {
        0
    } else {
        tdelta(w, idx, sign, n - 1, lane) + sign[n - 1] * w[idx[n - 1] * HIDDEN + lane]
    }
}

/// Every row index is below `rows`.
pub open spec fn rows_ok(idx: Seq<u16>, rows: int) -> bool {
    forall|i: int| 0 <= i < idx.len() ==> #[trigger] idx[i] < rows
}

/// `x + s * w` in 16-bit arithmetic: an add for `s == 1`, a subtract for
/// `s == -1`, a multiply-add otherwise.
fn fold_lane(x: i16, s: i16, w: i16) -> (r: i16)
    ensures
        r == wrap16(x + s * w),
{
    if s == 1 {
        assert(s * w == w) by (nonlinear_arith)
            requires
                s == 1,
        ;
        add16(x, w)
    } else if s == -1 {
        assert(s * w == -w) by (nonlinear_arith)
            requires
                s == -1,
        ;
        sub16(x, w)
    } else {
        let m = mul16(s, w);
        proof {
            lemma_wrap16_add(s * w, x as int);
        }
        add16(x, m)
    }
}

/// Folds every listed signed 16-bit column into one tile starting at lane `off`.
fn fold_piece_cols(tile: &mut Vec<i16>, off: usize, w: &Vec<i16>, idx: &Vec<u16>, sign: &Vec<i16>)
    requires
        old(tile)@.len() == TILE_H,
        off + TILE_H <= HIDDEN,
        w@.len() == PIECE_WORDS,
        idx@.len() == sign@.len(),
        rows_ok(idx@, NUM_PIECE as int),
    ensures
        final(tile)@.len() == TILE_H,
        forall|j: int|
            0 <= j < TILE_H ==> #[trigger] final(tile)@[j] == wrap16(
                old(tile)@[j] + pdelta(w@, idx@, sign@, idx@.len() as int, off + j),
            ),
{
    let ghost t0 = tile@;
    let mut i: usize = 0;
    while i < idx.len()
        invariant
            tile@.len() == TILE_H,
            t0.len() == TILE_H,
            off + TILE_H <= HIDDEN,
            w@.len() == PIECE_WORDS,
            idx@.len() == sign@.len(),
            rows_ok(idx@, NUM_PIECE as int),
            i <= idx@.len(),
            forall|j: int|
                0 <= j < TILE_H ==> #[trigger] tile@[j] == wrap16(t0[j] + pdelta(w@, idx@, sign@, i as int, off + j)),
        decreases idx@.len() - i,
    {
        let s = sign[i];
        let ghost mid = tile@;
        if s != 0 {
            let row = idx[i] as usize;
            assert(row < NUM_PIECE);
            let base = row * HIDDEN + off;
            let mut j: usize = 0;
            while j < TILE_H
                invariant
                    tile@.len() == TILE_H,
                    mid.len() == TILE_H,
                    w@.len() == PIECE_WORDS,
                    row < NUM_PIECE,
                    off + TILE_H <= HIDDEN,
                    base == row * HIDDEN + off,
                    j <= TILE_H,
                    forall|l: int| 0 <= l < j ==> #[trigger] tile@[l] == wrap16(mid[l] + s * w@[base + l]),
                    forall|l: int| j <= l < TILE_H ==> #[trigger] tile@[l] == mid[l],
                decreases TILE_H - j,
            {
                let y = fold_lane(tile[j], s, w[base + j]);
                tile.set(j, y);
                j += 1;
            }
        }
        proof {
            assert forall|j: int| 0 <= j < TILE_H implies #[trigger] tile@[j] == wrap16(
                t0[j] + pdelta(w@, idx@, sign@, i + 1, off + j),
            ) by {
                let prev = pdelta(w@, idx@, sign@, i as int, off + j);
                let row = idx@[i as int] as int;
                assert(row * HIDDEN + (off + j) == row * HIDDEN + off + j);
                if s != 0 {
                    assert(tile@[j] == wrap16(mid[j] + s * w@[row * HIDDEN + off + j]));
                    lemma_wrap16_add(t0[j] + prev, s * w@[row * HIDDEN + off + j]);
                } else {
                    assert(s * w@[row * HIDDEN + off + j] == 0);
                }
            }
        }
        i += 1;
    }
}

/// Folds every listed signed 8-bit column, widened, into one tile.
fn fold_threat_cols(tile: &mut Vec<i16>, off: usize, w: &Vec<i8>, idx: &Vec<u16>, sign: &Vec<i16>)
    requires
        old(tile)@.len() == TILE_H,
        off + TILE_H <= HIDDEN,
        w@.len() == THREAT_WORDS,
        idx@.len() == sign@.len(),
        rows_ok(idx@, NUM_THREAT as int),
    ensures
        final(tile)@.len() == TILE_H,
        forall|j: int|
            0 <= j < TILE_H ==> #[trigger] final(tile)@[j] == wrap16(
                old(tile)@[j] + tdelta(w@, idx@, sign@, idx@.len() as int, off + j),
            ),
{
    let ghost t0 = tile@;
    let mut i: usize = 0;
    while i < idx.len()
        invariant
            tile@.len() == TILE_H,
            t0.len() == TILE_H,
            off + TILE_H <= HIDDEN,
            w@.len() == THREAT_WORDS,
            idx@.len() == sign@.len(),
            rows_ok(idx@, NUM_THREAT as int),
            i <= idx@.len(),
            forall|j: int|
                0 <= j < TILE_H ==> #[trigger] tile@[j] == wrap16(t0[j] + tdelta(w@, idx@, sign@, i as int, off + j)),
        decreases idx@.len() - i,
    {
        let s = sign[i];
        let ghost mid = tile@;
        if s != 0 {
            let row = idx[i] as usize;
            assert(row < NUM_THREAT);
            let base = row * HIDDEN + off;
            let mut j: usize = 0;
            while j < TILE_H
                invariant
                    tile@.len() == TILE_H,
                    mid.len() == TILE_H,
                    w@.len() == THREAT_WORDS,
                    row < NUM_THREAT,
                    off + TILE_H <= HIDDEN,
                    base == row * HIDDEN + off,
                    j <= TILE_H,
                    forall|l: int| 0 <= l < j ==> #[trigger] tile@[l] == wrap16(mid[l] + s * w@[base + l]),
                    forall|l: int| j <= l < TILE_H ==> #[trigger] tile@[l] == mid[l],
                decreases TILE_H - j,
            {
                let y = fold_lane(tile[j], s, w[base + j] as i16);
                tile.set(j, y);
                j += 1;
            }
        }
        proof {
            assert forall|j: int| 0 <= j < TILE_H implies #[trigger] tile@[j] == wrap16(
                t0[j] + tdelta(w@, idx@, sign@, i + 1, off + j),
            ) by {
                let prev = tdelta(w@, idx@, sign@, i as int, off + j);
                let row = idx@[i as int] as int;
                assert(row * HIDDEN + (off + j) == row * HIDDEN + off + j);
                if s != 0 {
                    assert(tile@[j] == wrap16(mid[j] + s * w@[row * HIDDEN + off + j]));
                    lemma_wrap16_add(t0[j] + prev, s * w@[row * HIDDEN + off + j]);
                } else {
                    assert(s * w@[row * HIDDEN + off + j] == 0);
                }
            }
        }
        i += 1;
    }
}

/// Lanes `off .. off + TILE_H` of `v`.
fn load_tile(v: &Vec<i16>, off: usize) -> (r: Vec<i16>)
    requires
        off + TILE_H <= v@.len(),
    ensures
        r@.len() == TILE_H,
        forall|j: int| 0 <= j < TILE_H ==> #[trigger] r@[j] == v@[off + j],
{
    let vl = v.len();
    let mut r: Vec<i16> = Vec::with_capacity(TILE_H);
    let mut j: usize = 0;
    while j < TILE_H
        invariant
            vl == v@.len(),
            off + TILE_H <= v@.len(),
            j <= TILE_H,
            r@.len() == j,
            forall|l: int| 0 <= l < j ==> #[trigger] r@[l] == v@[off + l],
        decreases TILE_H - j,
    {
        r.push(v[off + j]);
        j += 1;
    }
    r
}

/// Writes a tile back to lanes `off .. off + TILE_H` of `v`.
fn store_tile(v: &mut Vec<i16>, tile: &Vec<i16>, off: usize)
    requires
        off + TILE_H <= old(v)@.len(),
        tile@.len() == TILE_H,
    ensures
        final(v)@.len() == old(v)@.len(),
        forall|k: int| off <= k < off + TILE_H ==> #[trigger] final(v)@[k] == tile@[k - off],
        forall|k: int|
            0 <= k < old(v)@.len() && !(off <= k < off + TILE_H) ==> #[trigger] final(v)@[k] == old(v)@[k],
{
    let vl = v.len();
    let mut j: usize = 0;
    while j < TILE_H
        invariant
            vl == v@.len(),
            off + TILE_H <= v@.len(),
            v@.len() == old(v)@.len(),
            tile@.len() == TILE_H,
            j <= TILE_H,
            forall|k: int| off <= k < off + j ==> #[trigger] v@[k] == tile@[k - off],
            forall|k: int| 0 <= k < v@.len() && !(off <= k < off + j) ==> #[trigger] v@[k] == old(v)@[k],
        decreases TILE_H - j,
    {
        v.set(off + j, tile[j]);
        j += 1;
    }
}

/// Register-tiled apply of signed piece rows into one perspective's lanes:
/// each tile is loaded once, every listed column folded in, and stored once.
fn apply_piece_columns(acc: &mut Vec<i16>, weights: &Vec<i16>, idx: &Vec<u16>, sign: &Vec<i16>)
    requires
        old(acc)@.len() == HIDDEN,
        weights@.len() == PIECE_WORDS,
        idx@.len() == sign@.len(),
        rows_ok(idx@, NUM_PIECE as int),
    ensures
        final(acc)@.len() == HIDDEN,
        forall|k: int|
            0 <= k < HIDDEN ==> #[trigger] final(acc)@[k] == wrap16(
                old(acc)@[k] + pdelta(weights@, idx@, sign@, idx@.len() as int, k),
            ),
{
    let mut t: usize = 0;
    while t < NUM_TILES
        invariant
            acc@.len() == HIDDEN,
            weights@.len() == PIECE_WORDS,
            idx@.len() == sign@.len(),
            rows_ok(idx@, NUM_PIECE as int),
            t <= NUM_TILES,
            forall|k: int|
                0 <= k < t * TILE_H ==> #[trigger] acc@[k] == wrap16(
                    old(acc)@[k] + pdelta(weights@, idx@, sign@, idx@.len() as int, k),
                ),
            forall|k: int| t * TILE_H <= k < HIDDEN ==> #[trigger] acc@[k] == old(acc)@[k],
        decreases NUM_TILES - t,
    {
        let off = t * TILE_H;
        let mut tile = load_tile(acc, off);
        fold_piece_cols(&mut tile, off, weights, idx, sign);
        store_tile(acc, &tile, off);
        proof {
            assert forall|k: int| off <= k < off + TILE_H implies #[trigger] acc@[k] == wrap16(
                old(acc)@[k] + pdelta(weights@, idx@, sign@, idx@.len() as int, k),
            ) by {
                assert(off + (k - off) == k);
            }
        }
        t += 1;
    }
}

/// Register-tiled apply of signed threat rows (8-bit, widened in the tile)
/// into one perspective's lanes.
fn tiled_apply(acc: &mut Vec<i16>, weights: &Vec<i8>, idx: &Vec<u16>, sign: &Vec<i16>)
    requires
        old(acc)@.len() == HIDDEN,
        weights@.len() == THREAT_WORDS,
        idx@.len() == sign@.len(),
        rows_ok(idx@, NUM_THREAT as int),
    ensures
        final(acc)@.len() == HIDDEN,
        forall|k: int|
            0 <= k < HIDDEN ==> #[trigger] final(acc)@[k] == wrap16(
                old(acc)@[k] + tdelta(weights@, idx@, sign@, idx@.len() as int, k),
            ),
{
    let mut t: usize = 0;
    while t < NUM_TILES
        invariant
            acc@.len() == HIDDEN,
            weights@.len() == THREAT_WORDS,
            idx@.len() == sign@.len(),
            rows_ok(idx@, NUM_THREAT as int),
            t <= NUM_TILES,
            forall|k: int|
                0 <= k < t * TILE_H ==> #[trigger] acc@[k] == wrap16(
                    old(acc)@[k] + tdelta(weights@, idx@, sign@, idx@.len() as int, k),
                ),
            forall|k: int| t * TILE_H <= k < HIDDEN ==> #[trigger] acc@[k] == old(acc)@[k],
        decreases NUM_TILES - t,
    {
        let off = t * TILE_H;
        let mut tile = load_tile(acc, off);
        fold_threat_cols(&mut tile, off, weights, idx, sign);
        store_tile(acc, &tile, off);
        proof {
            assert forall|k: int| off <= k < off + TILE_H implies #[trigger] acc@[k] == wrap16(
                old(acc)@[k] + tdelta(weights@, idx@, sign@, idx@.len() as int, k),
            ) by {
                assert(off + (k - off) == k);
            }
        }
        t += 1;
    }
}

/// Fused apply of both the piece columns and the threat columns of a move
/// into `dst`, reading the starting lanes from `src` (the parent's lanes when
/// `dst` is a fresh child; `dst` itself for an in-place update): each tile is
/// loaded once from `src`, both column sets folded in, and stored once.
fn copy_fused_apply(
    dst: &mut Vec<i16>,
    src: &Vec<i16>,
    piece_w: &Vec<i16>,
    p_idx: &Vec<u16>,
    p_sign: &Vec<i16>,
    threat_w: &Vec<i8>,
    t_idx: &Vec<u16>,
    t_sign: &Vec<i16>,
)
    requires
        old(dst)@.len() == HIDDEN,
        src@.len() == HIDDEN,
        piece_w@.len() == PIECE_WORDS,
        threat_w@.len() == THREAT_WORDS,
        p_idx@.len() == p_sign@.len(),
        t_idx@.len() == t_sign@.len(),
        rows_ok(p_idx@, NUM_PIECE as int),
        rows_ok(t_idx@, NUM_THREAT as int),
    ensures
        final(dst)@.len() == HIDDEN,
        forall|k: int|
            0 <= k < HIDDEN ==> #[trigger] final(dst)@[k] == wrap16(
                src@[k] + pdelta(piece_w@, p_idx@, p_sign@, p_idx@.len() as int, k) + tdelta(
                    threat_w@,
                    t_idx@,
                    t_sign@,
                    t_idx@.len() as int,
                    k,
                ),
            ),
{
    let mut t: usize = 0;
    while t < NUM_TILES
        invariant
            dst@.len() == HIDDEN,
            src@.len() == HIDDEN,
            piece_w@.len() == PIECE_WORDS,
            threat_w@.len() == THREAT_WORDS,
            p_idx@.len() == p_sign@.len(),
            t_idx@.len() == t_sign@.len(),
            rows_ok(p_idx@, NUM_PIECE as int),
            rows_ok(t_idx@, NUM_THREAT as int),
            t <= NUM_TILES,
            forall|k: int|
                0 <= k < t * TILE_H ==> #[trigger] dst@[k] == wrap16(
                    src@[k] + pdelta(piece_w@, p_idx@, p_sign@, p_idx@.len() as int, k) + tdelta(
                        threat_w@,
                        t_idx@,
                        t_sign@,
                        t_idx@.len() as int,
                        k,
                    ),
                ),
        decreases NUM_TILES - t,
    {
        let off = t * TILE_H;
        let mut tile = load_tile(src, off);
        let ghost t0 = tile@;
        fold_piece_cols(&mut tile, off, piece_w, p_idx, p_sign);
        let ghost t1 = tile@;
        fold_threat_cols(&mut tile, off, threat_w, t_idx, t_sign);
        store_tile(dst, &tile, off);
        proof {
            assert forall|k: int| off <= k < off + TILE_H implies #[trigger] dst@[k] == wrap16(
                src@[k] + pdelta(piece_w@, p_idx@, p_sign@, p_idx@.len() as int, k) + tdelta(
                    threat_w@,
                    t_idx@,
                    t_sign@,
                    t_idx@.len() as int,
                    k,
                ),
            ) by {
                let j = k - off;
                assert(off + j == k);
                assert(t0[j] == src@[k]);
                lemma_wrap16_add(
                    src@[k] + pdelta(piece_w@, p_idx@, p_sign@, p_idx@.len() as int, k),
                    tdelta(threat_w@, t_idx@, t_sign@, t_idx@.len() as int, k),
                );
            }
        }
        t += 1;
    }
}

/// Fused in-place apply of a move's piece and threat columns: one tiled pass
/// over the perspective's lanes instead of one per column set.
fn fused_apply(
    acc: &mut Vec<i16>,
    piece_w: &Vec<i16>,
    p_idx: &Vec<u16>,
    p_sign: &Vec<i16>,
    threat_w: &Vec<i8>,
    t_idx: &Vec<u16>,
    t_sign: &Vec<i16>,
)
    requires
        old(acc)@.len() == HIDDEN,
        piece_w@.len() == PIECE_WORDS,
        threat_w@.len() == THREAT_WORDS,
        p_idx@.len() == p_sign@.len(),
        t_idx@.len() == t_sign@.len(),
        rows_ok(p_idx@, NUM_PIECE as int),
        rows_ok(t_idx@, NUM_THREAT as int),
    ensures
        final(acc)@.len() == HIDDEN,
        forall|k: int|
            0 <= k < HIDDEN ==> #[trigger] final(acc)@[k] == wrap16(
                old(acc)@[k] + pdelta(piece_w@, p_idx@, p_sign@, p_idx@.len() as int, k) + tdelta(
                    threat_w@,
                    t_idx@,
                    t_sign@,
                    t_idx@.len() as int,
                    k,
                ),
            ),
{
    let src = copy_lanes(acc);
    copy_fused_apply(acc, &src, piece_w, p_idx, p_sign, threat_w, t_idx, t_sign);
}

// ---------------------------------------------------------------------------
// Move deltas
// ---------------------------------------------------------------------------
/// Index of the first `v` in `idx`, or `idx.len()` when there is none.
pub open spec fn first_at(idx: Seq<u16>, v: int) -> int
    decreases idx.len(),
{
    if idx.len() == 0 {
        0
    } else if first_at(idx.drop_last(), v) < idx.len() - 1 {
        first_at(idx.drop_last(), v)
    } else if idx.last() == v {
        idx.len() - 1
    } else {
        idx.len() as int
    }
}

proof fn lemma_first_at(idx: Seq<u16>, v: int)
    ensures
        0 <= first_at(idx, v) <= idx.len(),
        first_at(idx, v) < idx.len() ==> idx[first_at(idx, v)] == v,
        forall|j: int| 0 <= j < first_at(idx, v) ==> #[trigger] idx[j] != v,
    decreases idx.len(),
{
    if idx.len() > 0 {
        let d = idx.drop_last();
        lemma_first_at(d, v);
        assert forall|j: int| 0 <= j < first_at(idx, v) implies #[trigger] idx[j] != v by {
            if j < d.len() {
                assert(d[j] == idx[j]);
            }
        }
        if first_at(idx, v) < idx.len() && first_at(d, v) < d.len() {
            assert(d[first_at(d, v)] == idx[first_at(d, v)]);
        }
    }
}

/// A threat toggle: attacker and victim piece indices, whether the two are
/// enemies (1) or not (0), attacker and victim squares, and whether the
/// threat appears.
pub type Toggle = (int, int, int, int, int, bool);

/// The columns of a threat batch: white rows, black rows, signed counts.
pub type BatchCols = (Seq<u16>, Seq<u16>, Seq<i16>);

/// The batch after one toggle: kings and friendly pairs are skipped; a
/// threat already in the batch has its count adjusted, a new one appended.
pub open spec fn toggle_spec(v: BatchCols, t: Toggle) -> BatchCols {
    let (att_pt, vic_pt, enemy, att_sq, vsq, add) = t;
    if att_pt == 5 || vic_pt == 5 || enemy == 0 {
        v
    } else {
        let wf = thr_feat(Color::White, att_pt, vic_pt, att_sq, vsq);
        let bf = thr_feat(Color::Black, att_pt, vic_pt, att_sq, vsq);
        let s: int = if add {
            1
        } else {
            -1
        };
        let i = first_at(v.0, wf);
        if i < v.0.len() {
            (v.0, v.1, v.2.update(i, wrap16(v.2[i] + s) as i16))
        } else {
            (v.0.push(wf as u16), v.1.push(bf as u16), v.2.push(s as i16))
        }
    }
}

/// The columns of an empty batch.
pub open spec fn empty_cols() -> BatchCols {
    (Seq::empty(), Seq::empty(), Seq::empty())
}

/// The batch after the toggles `ts`, in order.
pub open spec fn toggles_spec(v: BatchCols, ts: Seq<Toggle>) -> BatchCols
    decreases ts.len(),
{
    if ts.len() == 0 {
        v
    } else {
        toggle_spec(toggles_spec(v, ts.drop_last()), ts.last())
    }
}

/// Netted threat toggles of one move: each entry is a white-perspective row, the
/// black-perspective row of the same threat, and a signed count.
pub struct ThreatBatch {
    pub w_idx: Vec<u16>,
    pub b_idx: Vec<u16>,
    pub sign: Vec<i16>,
}

impl ThreatBatch {
    /// The batch's columns.
    pub open spec fn cols(&self) -> BatchCols {
        (self.w_idx@, self.b_idx@, self.sign@)
    }

    pub open spec fn ok(&self) -> bool {
        &&& self.w_idx@.len() == self.b_idx@.len()
        &&& self.w_idx@.len() == self.sign@.len()
        &&& rows_ok(self.w_idx@, NUM_THREAT as int)
        &&& rows_ok(self.b_idx@, NUM_THREAT as int)
    }

    fn new() -> (r: ThreatBatch)
        ensures
            r.ok(),
            r.w_idx@.len() == 0,
            r.cols() == empty_cols(),
    {
        ThreatBatch { w_idx: Vec::new(), b_idx: Vec::new(), sign: Vec::new() }
    }

    /// Records one threat appearing (`add`) or vanishing. Kings are neither
    /// attackers nor victims and friendly pairs are no features: those are
    /// skipped. A threat already in the batch has its count adjusted, so a
    /// threat removed and re-added by the same move cancels.
    fn toggle(&mut self, att_pt: usize, vic_pt: usize, enemy: usize, att_sq: Square, vsq: Square, add: bool)
        requires
            old(self).ok(),
            att_pt < 6,
            vic_pt < 6,
            att_sq < 64,
            vsq < 64,
        ensures
            final(self).ok(),
            final(self).cols() == toggle_spec(
                old(self).cols(),
                (att_pt as int, vic_pt as int, enemy as int, att_sq as int, vsq as int, add),
            ),
            (att_pt == 5 || vic_pt == 5 || enemy == 0) ==> *final(self) == *old(self),
            !(att_pt == 5 || vic_pt == 5 || enemy == 0) ==> {
                let wf = thr_feat(Color::White, att_pt as int, vic_pt as int, att_sq as int, vsq as int);
                let bf = thr_feat(Color::Black, att_pt as int, vic_pt as int, att_sq as int, vsq as int);
                let s: int = if add {
                    1
                } else {
                    -1
                };
                let i = first_at(old(self).w_idx@, wf);
                if i < old(self).w_idx@.len() {
                    &&& final(self).w_idx@ == old(self).w_idx@
                    &&& final(self).b_idx@ == old(self).b_idx@
                    &&& final(self).sign@ == old(self).sign@.update(i, wrap16(old(self).sign@[i] + s) as i16)
                } else {
                    &&& final(self).w_idx@ == old(self).w_idx@.push(wf as u16)
                    &&& final(self).b_idx@ == old(self).b_idx@.push(bf as u16)
                    &&& final(self).sign@ == old(self).sign@.push(s as i16)
                }
            },
    {
        if att_pt == 5 || vic_pt == 5 {
            return;
        }
        if enemy == 0 {
            return;
        }
        let wf = thr_feat_w(att_pt, vic_pt, att_sq, vsq) as u16;
        let bf = thr_feat_b(att_pt, vic_pt, att_sq, vsq) as u16;
        let s: i16 = if add {
            1
        } else {
            -1
        };
        proof {
            lemma_first_at(self.w_idx@, wf as int);
        }
        let mut i: usize = 0;
        while i < self.w_idx.len()
            invariant
                self.ok(),
                *self == *old(self),
                att_pt < 5 && vic_pt < 5 && enemy != 0,
                wf == thr_feat(Color::White, att_pt as int, vic_pt as int, att_sq as int, vsq as int),
                s == (if add {
                    1int
                } else {
                    -1int
                }),
                i <= self.w_idx@.len(),
                forall|j: int| 0 <= j < i ==> #[trigger] self.w_idx@[j] != wf,
                first_at(self.w_idx@, wf as int) >= i,
                0 <= first_at(self.w_idx@, wf as int) <= self.w_idx@.len(),
                first_at(self.w_idx@, wf as int) < self.w_idx@.len() ==> self.w_idx@[first_at(self.w_idx@, wf as int)] == wf,
                forall|j: int| 0 <= j < first_at(self.w_idx@, wf as int) ==> #[trigger] self.w_idx@[j] != wf,
            decreases self.w_idx@.len() - i,
        {
            if self.w_idx[i] == wf {
                let v = add16(self.sign[i], s);
                self.sign.set(i, v);
                return;
            }
            i += 1;
        }
        self.w_idx.push(wf);
        self.b_idx.push(bf);
        self.sign.push(s);
        proof {
            assert(rows_ok(self.w_idx@, NUM_THREAT as int)) by {
                assert forall|j: int| 0 <= j < self.w_idx@.len() implies #[trigger] self.w_idx@[j] < NUM_THREAT by {
                    if j < old(self).w_idx@.len() {
                        assert(self.w_idx@[j] == old(self).w_idx@[j]);
                    }
                }
            }
            assert(rows_ok(self.b_idx@, NUM_THREAT as int)) by {
                assert forall|j: int| 0 <= j < self.b_idx@.len() implies #[trigger] self.b_idx@[j] < NUM_THREAT by {
                    if j < old(self).b_idx@.len() {
                        assert(self.b_idx@[j] == old(self).b_idx@[j]);
                    }
                }
            }
        }
    }

    /// Applies the netted threat rows to both perspectives.
    fn apply_to(&self, net: &Network, acc: &mut Accumulator)
        requires
            self.ok(),
            net.wf(),
            old(acc).shape_ok(),
        ensures
            final(acc).shape_ok(),
            final(acc).wk_base == old(acc).wk_base && final(acc).wk_flip == old(acc).wk_flip,
            final(acc).bk_base == old(acc).bk_base && final(acc).bk_flip == old(acc).bk_flip,
            forall|k: int|
                0 <= k < HIDDEN ==> #[trigger] final(acc).w@[k] == wrap16(
                    old(acc).w@[k] + tdelta(net.threat_weights@, self.w_idx@, self.sign@, self.w_idx@.len() as int, k),
                ),
            forall|k: int|
                0 <= k < HIDDEN ==> #[trigger] final(acc).b@[k] == wrap16(
                    old(acc).b@[k] + tdelta(net.threat_weights@, self.b_idx@, self.sign@, self.b_idx@.len() as int, k),
                ),
    {
        tiled_apply(&mut acc.w, &net.threat_weights, &self.w_idx, &self.sign);
        tiled_apply(&mut acc.b, &net.threat_weights, &self.b_idx, &self.sign);
    }
}

/// The piece feature changes of one move, keyed by the parent's king
/// contexts.
pub struct PieceBatch {
    pub w_idx: Vec<u16>,
    pub b_idx: Vec<u16>,
    pub sign: Vec<i16>,
}

impl PieceBatch {
    pub open spec fn ok(&self) -> bool {
        &&& self.w_idx@.len() == self.b_idx@.len()
        &&& self.w_idx@.len() == self.sign@.len()
        &&& rows_ok(self.w_idx@, NUM_PIECE as int)
        &&& rows_ok(self.b_idx@, NUM_PIECE as int)
    }

    /// The batch lists exactly the changes `ch` (color, piece, square, added)
    /// under the king contexts of `ctx`.
    pub open spec fn lists(&self, ctx: &Accumulator, ch: Seq<(Color, PieceType, int, bool)>) -> bool {
        &&& self.ok()
        &&& self.w_idx@.len() == ch.len()
        &&& forall|i: int|
            0 <= i < ch.len() ==> {
                &&& #[trigger] self.w_idx@[i] == piece_feat(
                    Color::White,
                    ch[i].0,
                    piece_index(ch[i].1),
                    ch[i].2,
                    ctx.wk_base as int,
                    ctx.wk_flip as int,
                )
                &&& self.b_idx@[i] == piece_feat(
                    Color::Black,
                    ch[i].0,
                    piece_index(ch[i].1),
                    ch[i].2,
                    ctx.bk_base as int,
                    ctx.bk_flip as int,
                )
                &&& self.sign@[i] == (if ch[i].3 {
                    1int
                } else {
                    -1int
                })
            }
    }

    fn new() -> (r: PieceBatch)
        ensures
            r.ok(),
            r.w_idx@.len() == 0,
    {
        PieceBatch { w_idx: Vec::new(), b_idx: Vec::new(), sign: Vec::new() }
    }

    /// Records a `col` piece of type `pt` appearing (`add`) or vanishing on
    /// `sq`, as rows of `acc`'s king contexts.
    fn toggle(&mut self, acc: &Accumulator, col: Color, pt: PieceType, sq: Square, add: bool)
        requires
            old(self).ok(),
            acc.shape_ok(),
            sq < 64,
        ensures
            final(self).ok(),
            final(self).w_idx@ == old(self).w_idx@.push(
                piece_feat(Color::White, col, piece_index(pt), sq as int, acc.wk_base as int, acc.wk_flip as int) as u16,
            ),
            final(self).b_idx@ == old(self).b_idx@.push(
                piece_feat(Color::Black, col, piece_index(pt), sq as int, acc.bk_base as int, acc.bk_flip as int) as u16,
            ),
            final(self).sign@ == old(self).sign@.push(
                if add {
                    1i16
                } else {
                    -1i16
                },
            ),
    {
        let fw = wp_feat(col, pt.idx(), sq, acc.wk_base, acc.wk_flip) as u16;
        let fb = bp_feat(col, pt.idx(), sq, acc.bk_base, acc.bk_flip) as u16;
        self.w_idx.push(fw);
        self.b_idx.push(fb);
        self.sign.push(
            if add {
                1
            } else {
                -1
            },
        );
        proof {
            assert forall|j: int| 0 <= j < self.w_idx@.len() implies #[trigger] self.w_idx@[j] < NUM_PIECE by {
                if j < old(self).w_idx@.len() {
                    assert(self.w_idx@[j] == old(self).w_idx@[j]);
                }
            }
            assert forall|j: int| 0 <= j < self.b_idx@.len() implies #[trigger] self.b_idx@[j] < NUM_PIECE by {
                if j < old(self).b_idx@.len() {
                    assert(self.b_idx@[j] == old(self).b_idx@[j]);
                }
            }
        }
    }

    /// Applies the piece rows to both perspectives.
    fn apply_to(&self, net: &Network, acc: &mut Accumulator)
        requires
            self.ok(),
            net.wf(),
            old(acc).shape_ok(),
        ensures
            final(acc).shape_ok(),
            final(acc).wk_base == old(acc).wk_base && final(acc).wk_flip == old(acc).wk_flip,
            final(acc).bk_base == old(acc).bk_base && final(acc).bk_flip == old(acc).bk_flip,
            forall|k: int|
                0 <= k < HIDDEN ==> #[trigger] final(acc).w@[k] == wrap16(
                    old(acc).w@[k] + pdelta(net.piece_weights@, self.w_idx@, self.sign@, self.w_idx@.len() as int, k),
                ),
            forall|k: int|
                0 <= k < HIDDEN ==> #[trigger] final(acc).b@[k] == wrap16(
                    old(acc).b@[k] + pdelta(net.piece_weights@, self.b_idx@, self.sign@, self.b_idx@.len() as int, k),
                ),
    {
        apply_piece_columns(&mut acc.w, &net.piece_weights, &self.w_idx, &self.sign);
        apply_piece_columns(&mut acc.b, &net.piece_weights, &self.b_idx, &self.sign);
    }
}

/// `1` when two colors differ, else `0`.
fn enemy_of(a: Color, b: Color) -> (r: usize)
    ensures
        r == (if a != b {
            1int
        } else {
            0int
        }),
{
    if a != b {
        1
    } else {
        0
    }
}

/// 1 when pieces of colors `a` and `b` are enemies, else 0.
pub open spec fn enemy_spec(a: Color, b: Color) -> int {
    if a != b {
        1
    } else {
        0
    }
}

/// The toggles of the threats of a piece (`pt`, `c`) on `sq` on the pieces
/// of `board` standing on the squares `vs`.
pub open spec fn own_toggles(board: Position, pt: int, c: Color, sq: int, add: bool, vs: Seq<int>) -> Seq<
    Toggle,
>
    decreases vs.len(),
{
    if vs.len() == 0 {
        Seq::empty()
    } else {
        let v = vs.last();
        let m = board.mailbox[v];
        own_toggles(board, pt, c, sq, add, vs.drop_last()) + if m == EMPTY {
            Seq::<Toggle>::empty()
        } else {
            seq![(pt, piece_index(code_piece(m)), enemy_spec(c, code_color(m)), sq, v, add)]
        }
    }
}

/// The toggles for the sliders of `board` on the squares `ss` that attack
/// `sq`: each one's threat on the piece beyond `sq` (which the change at
/// `sq` blocks or unblocks; skipped when the slider is in line with both
/// squares of `no_rays`), then its threat on the piece at `sq`.
pub open spec fn slider_toggles(
    board: Position,
    pt: int,
    c: Color,
    sq: int,
    add: bool,
    occ: u64,
    no_rays: u64,
    queen_a: u64,
    ss: Seq<int>,
) -> Seq<Toggle>
    decreases ss.len(),
{
    if ss.len() == 0 {
        Seq::empty()
    } else {
        let s = ss.last();
        let m = board.mailbox[s];
        let rest = slider_toggles(board, pt, c, sq, add, occ, no_rays, queen_a, ss.drop_last());
        if m == EMPTY {
            rest
        } else {
            rest + slider_step(board, pt, c, sq, add, occ, no_rays, queen_a, s)
        }
    }
}

/// The toggles of the slider on `s` (see `slider_toggles`).
pub open spec fn slider_step(
    board: Position,
    pt: int,
    c: Color,
    sq: int,
    add: bool,
    occ: u64,
    no_rays: u64,
    queen_a: u64,
    s: int,
) -> Seq<Toggle> {
    let m = board.mailbox[s];
    let sc = code_color(m);
    let s_idx = piece_index(code_piece(m));
    let elide = no_rays != 0 && (line_through_spec(s, sq) & no_rays) == no_rays;
    let beyond = ray_past_spec(s, sq) & occ & queen_a;
    let u = lsb_spec(beyond);
    let um = board.mailbox[u];
    let b = if !elide && beyond != 0 && um != EMPTY {
        seq![(s_idx, piece_index(code_piece(um)), enemy_spec(sc, code_color(um)), s, u, !add)]
    } else {
        Seq::<Toggle>::empty()
    };
    b + seq![(s_idx, pt, enemy_spec(sc, c), s, sq, add)]
}

/// The toggles of the threats of the pieces of `board` on the squares `as_`
/// on the piece at `sq`.
pub open spec fn leaper_toggles(board: Position, pt: int, c: Color, sq: int, add: bool, as_: Seq<int>) -> Seq<
    Toggle,
>
    decreases as_.len(),
{
    if as_.len() == 0 {
        Seq::empty()
    } else {
        let a = as_.last();
        let m = board.mailbox[a];
        leaper_toggles(board, pt, c, sq, add, as_.drop_last()) + if m == EMPTY {
            Seq::<Toggle>::empty()
        } else {
            seq![(piece_index(code_piece(m)), pt, enemy_spec(code_color(m), c), a, sq, add)]
        }
    }
}

/// The pawns, knights and kings of `board` that attack `sq`.
pub open spec fn leapers_at(board: Position, sq: int) -> u64 {
    (((board.pieces_spec(Color::Black, PieceType::Pawn) & pawn_spec(Color::White, sq)) | (
    board.pieces_spec(Color::White, PieceType::Pawn) & pawn_spec(Color::Black, sq))) | ((
    board.pieces_spec(Color::White, PieceType::Knight) | board.pieces_spec(
        Color::Black,
        PieceType::Knight,
    )) & knight_spec(sq))) | ((board.pieces_spec(Color::White, PieceType::King)
        | board.pieces_spec(Color::Black, PieceType::King)) & king_spec(sq))
}

/// The toggles `single` makes, in order: the piece's own threats, then the
/// sliders' through `sq`, then the leapers' onto `sq`, each group by
/// square, lowest first.
pub open spec fn single_toggles(
    board: Position,
    occ: u64,
    pt: int,
    c: Color,
    sq: int,
    add: bool,
    no_rays: u64,
    bq: u64,
    rq: u64,
) -> Seq<Toggle> {
    let b_att = bishop_spec(sq, occ);
    let r_att = rook_spec(sq, occ);
    let queen_a = b_att | r_att;
    let attacked = if pt == 4 {
        queen_a & occ
    } else {
        piece_attacks_spec(pt, c, sq, occ) & occ
    };
    let sliders = ((b_att & bq) | (r_att & rq)) & occ;
    own_toggles(board, pt, c, sq, add, bits_seq(attacked)) + slider_toggles(
        board,
        pt,
        c,
        sq,
        add,
        occ,
        no_rays,
        queen_a,
        bits_seq(sliders),
    ) + leaper_toggles(board, pt, c, sq, add, bits_seq(leapers_at(board, sq) & occ))
}

/// Popping the lowest square moves it from the pending squares to the done
/// ones.
proof fn lemma_bits_pop(done: Seq<int>, orig: u64, before: u64, after: u64, x: int)
    requires
        done + bits_seq(before) == bits_seq(orig),
        before != 0,
        x == lsb_spec(before),
        after == before & (((before) - 1) as u64),
    ensures
        done.push(x) + bits_seq(after) == bits_seq(orig),
        done.push(x).drop_last() == done,
        done.push(x).last() == x,
{
    assert(bits_seq(before) == seq![x] + bits_seq(after));
    assert(done.push(x) + bits_seq(after) =~= done + bits_seq(before));
    assert(done.push(x).drop_last() =~= done);
}

/// The toggles of one more slider extend the slider toggles.
proof fn lemma_slider_done(
    board: Position,
    pt: int,
    c: Color,
    sq: int,
    add: bool,
    occ: u64,
    no_rays: u64,
    queen_a: u64,
    prev: Seq<int>,
    s: int,
    t1: Seq<Toggle>,
    b_part: Seq<Toggle>,
    t: Toggle,
)
    requires
        board.mailbox[s] != EMPTY,
        ({
            let m = board.mailbox[s];
            let beyond = ray_past_spec(s, sq) & occ & queen_a;
            let elide = no_rays != 0 && (line_through_spec(s, sq) & no_rays) == no_rays;
            let um = board.mailbox[lsb_spec(beyond)];
            &&& b_part == (if !elide && beyond != 0 && um != EMPTY {
                seq![
                    (
                        piece_index(code_piece(m)),
                        piece_index(code_piece(um)),
                        enemy_spec(code_color(m), code_color(um)),
                        s,
                        lsb_spec(beyond),
                        !add,
                    ),
                ]
            } else {
                Seq::<Toggle>::empty()
            })
            &&& t == (piece_index(code_piece(m)), pt, enemy_spec(code_color(m), c), s, sq, add)
        }),
    ensures
        (t1 + slider_toggles(board, pt, c, sq, add, occ, no_rays, queen_a, prev) + b_part).push(t)
            == t1 + slider_toggles(board, pt, c, sq, add, occ, no_rays, queen_a, prev.push(s)),
{
    assert(prev.push(s).drop_last() =~= prev);
    let st = slider_toggles(board, pt, c, sq, add, occ, no_rays, queen_a, prev);
    assert(b_part + seq![t] =~= slider_step(board, pt, c, sq, add, occ, no_rays, queen_a, s));
    assert((t1 + st + b_part).push(t) =~= t1 + (st + slider_step(board, pt, c, sq, add, occ, no_rays, queen_a, s)));
}

/// Appending a toggle applies it last.
proof fn lemma_toggles_push(v: BatchCols, ts: Seq<Toggle>, t: Toggle)
    ensures
        toggles_spec(v, ts.push(t)) == toggle_spec(toggles_spec(v, ts), t),
{
    assert(ts.push(t).drop_last() =~= ts);
}

/// Threat toggles for one piece (`pt`, `c`) appearing (`add`) or vanishing at
/// `sq` on the running board, whose occupancy (with `sq` in its post-change
/// state) is `occ`:
/// - its own threats on the pieces it attacks;
/// - for each slider (bishop/rook/queen per `bq`, `rq`) attacking `sq`, the
///   threat on the piece beyond `sq` that the change blocks or unblocks, and
///   its threat on the toggled piece itself;
/// - for each pawn, knight or king attacking `sq`, its threat on the toggled
///   piece.
/// A slider in line with both squares of `no_rays` skips the beyond toggle:
/// a relocation between those squares emits it twice with opposite signs.
fn single(
    batch: &mut ThreatBatch,
    board: &Position,
    occ: u64,
    pt: usize,
    c: Color,
    sq: Square,
    add: bool,
    no_rays: u64,
    bq: u64,
    rq: u64,
)
    requires
        old(batch).ok(),
        board.board_ok(),
        pt < 6,
        sq < 64,
    ensures
        final(batch).ok(),
        final(batch).cols() == toggles_spec(
            old(batch).cols(),
            single_toggles(*board, occ, pt as int, c, sq as int, add, no_rays, bq, rq),
        ),
{
    let ghost v0 = batch.cols();
    let b_att = bishop_attacks(sq, occ);
    let r_att = rook_attacks(sq, occ);
    let queen_a = b_att | r_att;
    // its own outgoing threats
    let mut attacked = if pt == 4 {
        queen_a & occ
    } else {
        piece_attacks(pt, c, sq, occ) & occ
    };
    let ghost att0 = attacked;
    let ghost mut done: Seq<int> = Seq::empty();
    proof {
        assert(done + bits_seq(attacked) =~= bits_seq(att0));
    }
    while attacked != 0
        invariant
            batch.ok(),
            board.board_ok(),
            pt < 6,
            sq < 64,
            done + bits_seq(attacked) == bits_seq(att0),
            batch.cols() == toggles_spec(v0, own_toggles(*board, pt as int, c, sq as int, add, done)),
        decreases attacked,
    {
        let ghost before = attacked;
        let ghost ts = own_toggles(*board, pt as int, c, sq as int, add, done);
        let v = pop_lsb(&mut attacked);
        proof {
            lemma_bits_pop(done, att0, before, attacked, v as int);
            done = done.push(v as int);
        }
        if let Some((vc, vpt)) = board.piece_on(v) {
            batch.toggle(pt, vpt.idx(), enemy_of(c, vc), sq, v, add);
            proof {
                let t: Toggle = (pt as int, piece_index(vpt), enemy_spec(c, vc), sq as int, v as int, add);
                lemma_toggles_push(v0, ts, t);
                assert(own_toggles(*board, pt as int, c, sq as int, add, done) =~= ts.push(t));
            }
        } else {
            proof {
                assert(own_toggles(*board, pt as int, c, sq as int, add, done) =~= ts);
            }
        }
    }
    let ghost t1 = own_toggles(*board, pt as int, c, sq as int, add, done);
    proof {
        assert(done =~= bits_seq(att0));
    }
    // incoming sliders, and the rays through `sq` they gain or lose
    let diag = b_att & bq;
    let orth = r_att & rq;
    let mut sliders = (diag | orth) & occ;
    let ghost sl0 = sliders;
    let ghost mut done2: Seq<int> = Seq::empty();
    proof {
        assert(done2 + bits_seq(sliders) =~= bits_seq(sl0));
        assert(t1 + slider_toggles(*board, pt as int, c, sq as int, add, occ, no_rays, queen_a, done2) =~= t1);
    }
    while sliders != 0
        invariant
            batch.ok(),
            board.board_ok(),
            pt < 6,
            sq < 64,
            queen_a == bishop_spec(sq as int, occ) | rook_spec(sq as int, occ),
            done2 + bits_seq(sliders) == bits_seq(sl0),
            batch.cols() == toggles_spec(
                v0,
                t1 + slider_toggles(*board, pt as int, c, sq as int, add, occ, no_rays, queen_a, done2),
            ),
        decreases sliders,
    {
        let ghost before = sliders;
        let ghost ts = t1 + slider_toggles(*board, pt as int, c, sq as int, add, occ, no_rays, queen_a, done2);
        let ghost prev = done2;
        let s = pop_lsb(&mut sliders);
        proof {
            lemma_bits_pop(done2, sl0, before, sliders, s as int);
            done2 = done2.push(s as int);
        }
        if let Some((sc, spt)) = board.piece_on(s) {
            let s_idx = spt.idx();
            let elide = no_rays != 0 && (line_through(s, sq) & no_rays) == no_rays;
            let beyond = ray_past(s, sq) & occ & queen_a;
            let ghost mut b_part: Seq<Toggle> = Seq::empty();
            if !elide && beyond != 0 {
                let u = lsb(beyond);
                if let Some((uc, upt)) = board.piece_on(u) {
                    batch.toggle(s_idx, upt.idx(), enemy_of(sc, uc), s, u, !add);
                    proof {
                        let t: Toggle = (piece_index(spt), piece_index(upt), enemy_spec(sc, uc), s as int, u as int, !add);
                        lemma_toggles_push(v0, ts, t);
                        b_part = seq![t];
                        assert(ts.push(t) =~= ts + b_part);
                    }
                } else {
                    proof {
                        assert(ts + b_part =~= ts);
                    }
                }
            } else {
                proof {
                    assert(ts + b_part =~= ts);
                }
            }
            batch.toggle(s_idx, pt, enemy_of(sc, c), s, sq, add);
            proof {
                let t: Toggle = (piece_index(spt), pt as int, enemy_spec(sc, c), s as int, sq as int, add);
                lemma_toggles_push(v0, ts + b_part, t);
                lemma_slider_done(
                    *board,
                    pt as int,
                    c,
                    sq as int,
                    add,
                    occ,
                    no_rays,
                    queen_a,
                    prev,
                    s as int,
                    t1,
                    b_part,
                    t,
                );
            }
        } else {
            proof {
                assert(slider_toggles(*board, pt as int, c, sq as int, add, occ, no_rays, queen_a, done2)
                    == slider_toggles(*board, pt as int, c, sq as int, add, occ, no_rays, queen_a, prev));
            }
        }
    }
    let ghost t2 = t1 + slider_toggles(*board, pt as int, c, sq as int, add, occ, no_rays, queen_a, done2);
    proof {
        assert(done2 =~= bits_seq(sl0));
    }
    // incoming leapers
    let bp = board.pieces(Color::Black, PieceType::Pawn) & pawn_attacks(Color::White, sq);
    let wp = board.pieces(Color::White, PieceType::Pawn) & pawn_attacks(Color::Black, sq);
    let knights = (board.pieces(Color::White, PieceType::Knight) | board.pieces(
        Color::Black,
        PieceType::Knight,
    )) & knight_attacks(sq);
    let kings = (board.pieces(Color::White, PieceType::King) | board.pieces(
        Color::Black,
        PieceType::King,
    )) & king_attacks(sq);
    let mut leapers = (bp | wp | knights | kings) & occ;
    let ghost le0 = leapers;
    let ghost mut done3: Seq<int> = Seq::empty();
    proof {
        assert(le0 == leapers_at(*board, sq as int) & occ);
        assert(done3 + bits_seq(leapers) =~= bits_seq(le0));
        assert(t2 + leaper_toggles(*board, pt as int, c, sq as int, add, done3) =~= t2);
    }
    while leapers != 0
        invariant
            batch.ok(),
            board.board_ok(),
            pt < 6,
            sq < 64,
            done3 + bits_seq(leapers) == bits_seq(le0),
            batch.cols() == toggles_spec(v0, t2 + leaper_toggles(*board, pt as int, c, sq as int, add, done3)),
        decreases leapers,
    {
        let ghost before = leapers;
        let ghost ts = t2 + leaper_toggles(*board, pt as int, c, sq as int, add, done3);
        let ghost prev = done3;
        let a = pop_lsb(&mut leapers);
        proof {
            lemma_bits_pop(done3, le0, before, leapers, a as int);
            done3 = done3.push(a as int);
        }
        if let Some((ac, apt)) = board.piece_on(a) {
            batch.toggle(apt.idx(), pt, enemy_of(ac, c), a, sq, add);
            proof {
                let t: Toggle = (piece_index(apt), pt as int, enemy_spec(ac, c), a as int, sq as int, add);
                lemma_toggles_push(v0, ts, t);
                assert(leaper_toggles(*board, pt as int, c, sq as int, add, done3)
                    == leaper_toggles(*board, pt as int, c, sq as int, add, prev).push(t));
                assert(t2 + leaper_toggles(*board, pt as int, c, sq as int, add, done3) =~= ts.push(t));
            }
        } else {
            proof {
                assert(leaper_toggles(*board, pt as int, c, sq as int, add, done3)
                    =~= leaper_toggles(*board, pt as int, c, sq as int, add, prev));
            }
        }
    }
    proof {
        assert(done3 =~= bits_seq(le0));
        assert(t2 + leaper_toggles(*board, pt as int, c, sq as int, add, done3) =~= single_toggles(
            *board,
            occ,
            pt as int,
            c,
            sq as int,
            add,
            no_rays,
            bq,
            rq,
        ));
    }
}

/// Bishops and queens of both colours.
pub open spec fn diag_sliders(b: Position) -> u64 {
    (b.pieces_spec(Color::White, PieceType::Bishop) | b.pieces_spec(Color::Black, PieceType::Bishop)) | (
    b.pieces_spec(Color::White, PieceType::Queen) | b.pieces_spec(Color::Black, PieceType::Queen))
}

/// Rooks and queens of both colours.
pub open spec fn orth_sliders(b: Position) -> u64 {
    (b.pieces_spec(Color::White, PieceType::Rook) | b.pieces_spec(Color::Black, PieceType::Rook)) | (
    b.pieces_spec(Color::White, PieceType::Queen) | b.pieces_spec(Color::Black, PieceType::Queen))
}

/// The board fields of two positions agree.
pub open spec fn same_board(b1: Position, b2: Position) -> bool {
    &&& b1.mailbox == b2.mailbox
    &&& b1.piece_bb == b2.piece_bb
    &&& b1.color_bb == b2.color_bb
}

/// A consistent board with the placement `mb` (all such boards agree on
/// their board fields).
pub open spec fn board_with(mb: Seq<u8>) -> Position {
    choose|q: Position| q.board_ok() && q.mailbox@ == mb
}

proof fn lemma_board_with(p: Position)
    requires
        p.board_ok(),
    ensures
        board_with(p.mailbox@).board_ok(),
        same_board(board_with(p.mailbox@), p),
{
    let q = board_with(p.mailbox@);
    assert(p.board_ok() && p.mailbox@ == p.mailbox@);
    q.lemma_same_placement(p);
}

/// Toggles after batches concatenate.
proof fn lemma_toggles_concat(v: BatchCols, a: Seq<Toggle>, b: Seq<Toggle>)
    ensures
        toggles_spec(toggles_spec(v, a), b) == toggles_spec(v, a + b),
    decreases b.len(),
{
    if b.len() > 0 {
        lemma_toggles_concat(v, a, b.drop_last());
        assert((a + b).drop_last() =~= a + b.drop_last());
        assert((a + b).last() == b.last());
    }
}

proof fn lemma_own_board(b1: Position, b2: Position, pt: int, c: Color, sq: int, add: bool, vs: Seq<int>)
    requires
        same_board(b1, b2),
    ensures
        own_toggles(b1, pt, c, sq, add, vs) == own_toggles(b2, pt, c, sq, add, vs),
    decreases vs.len(),
{
    if vs.len() > 0 {
        lemma_own_board(b1, b2, pt, c, sq, add, vs.drop_last());
    }
}

proof fn lemma_slider_board(
    b1: Position,
    b2: Position,
    pt: int,
    c: Color,
    sq: int,
    add: bool,
    occ: u64,
    no_rays: u64,
    queen_a: u64,
    ss: Seq<int>,
)
    requires
        same_board(b1, b2),
    ensures
        slider_toggles(b1, pt, c, sq, add, occ, no_rays, queen_a, ss) == slider_toggles(
            b2,
            pt,
            c,
            sq,
            add,
            occ,
            no_rays,
            queen_a,
            ss,
        ),
    decreases ss.len(),
{
    if ss.len() > 0 {
        lemma_slider_board(b1, b2, pt, c, sq, add, occ, no_rays, queen_a, ss.drop_last());
    }
}

proof fn lemma_leaper_board(b1: Position, b2: Position, pt: int, c: Color, sq: int, add: bool, as_: Seq<int>)
    requires
        same_board(b1, b2),
    ensures
        leaper_toggles(b1, pt, c, sq, add, as_) == leaper_toggles(b2, pt, c, sq, add, as_),
    decreases as_.len(),
{
    if as_.len() > 0 {
        lemma_leaper_board(b1, b2, pt, c, sq, add, as_.drop_last());
    }
}

/// The toggles of one piece change read the board fields only.
proof fn lemma_single_board(
    b1: Position,
    b2: Position,
    occ: u64,
    pt: int,
    c: Color,
    sq: int,
    add: bool,
    no_rays: u64,
    bq: u64,
    rq: u64,
)
    requires
        same_board(b1, b2),
    ensures
        single_toggles(b1, occ, pt, c, sq, add, no_rays, bq, rq) == single_toggles(
            b2,
            occ,
            pt,
            c,
            sq,
            add,
            no_rays,
            bq,
            rq,
        ),
{
    let b_att = bishop_spec(sq, occ);
    let r_att = rook_spec(sq, occ);
    let queen_a = b_att | r_att;
    let attacked = if pt == 4 {
        queen_a & occ
    } else {
        piece_attacks_spec(pt, c, sq, occ) & occ
    };
    let sliders = ((b_att & bq) | (r_att & rq)) & occ;
    lemma_own_board(b1, b2, pt, c, sq, add, bits_seq(attacked));
    lemma_slider_board(b1, b2, pt, c, sq, add, occ, no_rays, queen_a, bits_seq(sliders));
    assert(leapers_at(b1, sq) == leapers_at(b2, sq));
    lemma_leaper_board(b1, b2, pt, c, sq, add, bits_seq(leapers_at(b1, sq) & occ));
}

/// The toggles of a piece moving from `from` to `to`, fired against the
/// board `b` after the move: its departure, then its arrival, both seeing
/// the occupancy with `to` still empty; rays through both squares are not
/// counted.
#[verifier::opaque]
pub open spec fn relocate_toggles(b: Position, pt: PieceType, c: Color, from: int, to: int) -> Seq<Toggle> {
    let occ = b.occupied_spec() ^ bb_spec(to);
    let no_rays = bb_spec(from) | bb_spec(to);
    single_toggles(b, occ, piece_index(pt), c, from, false, no_rays, diag_sliders(b), orth_sliders(b))
        + single_toggles(b, occ, piece_index(pt), c, to, true, no_rays, diag_sliders(b), orth_sliders(b))
}

/// The toggles of a piece appearing (`add`) or vanishing at `sq`, fired
/// against the board `b` after the change.
#[verifier::opaque]
pub open spec fn change_toggles(b: Position, pt: PieceType, c: Color, sq: int, add: bool) -> Seq<Toggle> {
    single_toggles(b, b.occupied_spec(), piece_index(pt), c, sq, add, 0, diag_sliders(b), orth_sliders(b))
}

proof fn lemma_relocate_board(b1: Position, b2: Position, pt: PieceType, c: Color, from: int, to: int)
    requires
        same_board(b1, b2),
    ensures
        relocate_toggles(b1, pt, c, from, to) == relocate_toggles(b2, pt, c, from, to),
{
    reveal(relocate_toggles);
    let occ = b1.occupied_spec() ^ bb_spec(to);
    let no_rays = bb_spec(from) | bb_spec(to);
    assert(b1.occupied_spec() == b2.occupied_spec());
    assert(diag_sliders(b1) == diag_sliders(b2) && orth_sliders(b1) == orth_sliders(b2));
    lemma_single_board(b1, b2, occ, piece_index(pt), c, from, false, no_rays, diag_sliders(b1), orth_sliders(b1));
    lemma_single_board(b1, b2, occ, piece_index(pt), c, to, true, no_rays, diag_sliders(b1), orth_sliders(b1));
}

proof fn lemma_change_board(b1: Position, b2: Position, pt: PieceType, c: Color, sq: int, add: bool)
    requires
        same_board(b1, b2),
    ensures
        change_toggles(b1, pt, c, sq, add) == change_toggles(b2, pt, c, sq, add),
{
    reveal(change_toggles);
    assert(b1.occupied_spec() == b2.occupied_spec());
    assert(diag_sliders(b1) == diag_sliders(b2) && orth_sliders(b1) == orth_sliders(b2));
    lemma_single_board(b1, b2, b1.occupied_spec(), piece_index(pt), c, sq, add, 0, diag_sliders(b1), orth_sliders(b1));
}

/// Bishop-or-queen and rook-or-queen occupancy of both colors.
fn slider_sets(b: &Position) -> (r: (u64, u64))
    ensures
        r.0 == diag_sliders(*b),
        r.1 == orth_sliders(*b),
{
    let all_b = b.pieces(Color::White, PieceType::Bishop) | b.pieces(Color::Black, PieceType::Bishop);
    let all_r = b.pieces(Color::White, PieceType::Rook) | b.pieces(Color::Black, PieceType::Rook);
    let all_q = b.pieces(Color::White, PieceType::Queen) | b.pieces(Color::Black, PieceType::Queen);
    (all_b | all_q, all_r | all_q)
}

/// A piece relocates from `from` to `to` on the running board: the board is
/// updated, then the removal and the addition halves fire against the
/// occupancy with both squares cleared.
fn relocate(batch: &mut ThreatBatch, b: &mut Position, pt: PieceType, c: Color, from: Square, to: Square)
    requires
        old(batch).ok(),
        old(b).board_ok(),
        from < 64,
        to < 64,
        old(b).mailbox[from as int] == code_of(c, pt),
        old(b).mailbox[to as int] == EMPTY,
    ensures
        final(batch).ok(),
        final(b).board_ok(),
        final(b).mailbox@ == old(b).mailbox@.update(from as int, EMPTY).update(to as int, code_of(c, pt)),
        final(batch).cols() == toggles_spec(old(batch).cols(), relocate_toggles(*final(b), pt, c, from as int, to as int)),
{
    b.remove(c, pt, from);
    b.put(c, pt, to);
    let occ = b.occupied() ^ bb(to);
    let no_rays = bb(from) | bb(to);
    let (bq, rq) = slider_sets(b);
    let ghost v0 = batch.cols();
    single(batch, b, occ, pt.idx(), c, from, false, no_rays, bq, rq);
    single(batch, b, occ, pt.idx(), c, to, true, no_rays, bq, rq);
    proof {
        reveal(relocate_toggles);
        lemma_toggles_concat(
            v0,
            single_toggles(*b, occ, piece_index(pt), c, from as int, false, no_rays, bq, rq),
            single_toggles(*b, occ, piece_index(pt), c, to as int, true, no_rays, bq, rq),
        );
    }
}

/// A piece appears (`add`) or vanishes at `sq` on the running board; the
/// board is updated, then its toggles fire against the new occupancy.
fn change(batch: &mut ThreatBatch, b: &mut Position, pt: PieceType, c: Color, sq: Square, add: bool)
    requires
        old(batch).ok(),
        old(b).board_ok(),
        sq < 64,
        add ==> old(b).mailbox[sq as int] == EMPTY,
        !add ==> old(b).mailbox[sq as int] == code_of(c, pt),
    ensures
        final(batch).ok(),
        final(b).board_ok(),
        final(b).mailbox@ == old(b).mailbox@.update(
            sq as int,
            if add {
                code_of(c, pt)
            } else {
                EMPTY
            },
        ),
        final(batch).cols() == toggles_spec(old(batch).cols(), change_toggles(*final(b), pt, c, sq as int, add)),
{
    if add {
        b.put(c, pt, sq);
    } else {
        b.remove(c, pt, sq);
    }
    let (bq, rq) = slider_sets(b);
    single(batch, b, b.occupied(), pt.idx(), c, sq, add, 0, bq, rq);
    proof {
        reveal(change_toggles);
    }
}

/// The piece on `sq` changes identity in place (a capture or a promotion):
/// the old piece's threats go and the new one's come, and every attacker of
/// `sq` re-points its threat from the old victim to the new one. The
/// occupancy does not change, so no ray opens or closes.
/// The pieces of `b` that attack `sq` on the occupancy `occ`: sliders along
/// open lines, then pawns, knights and kings.
pub open spec fn attackers_of_sq(b: Position, sq: int, occ: u64) -> u64 {
    let diag = bishop_spec(sq, occ) & diag_sliders(b);
    let orth = rook_spec(sq, occ) & orth_sliders(b);
    let bp = b.pieces_spec(Color::Black, PieceType::Pawn) & pawn_spec(Color::White, sq);
    let wp = b.pieces_spec(Color::White, PieceType::Pawn) & pawn_spec(Color::Black, sq);
    let knights = (b.pieces_spec(Color::White, PieceType::Knight) | b.pieces_spec(Color::Black, PieceType::Knight))
        & knight_spec(sq);
    let kings = (b.pieces_spec(Color::White, PieceType::King) | b.pieces_spec(Color::Black, PieceType::King))
        & king_spec(sq);
    ((diag | orth) | bp | wp | knights | kings) & occ
}

/// For each piece of `b` on the squares `as_`: its threat on the old piece
/// at `sq` goes, its threat on the new one comes.
pub open spec fn repoint_toggles(
    b: Position,
    op: int,
    oc: Color,
    np: int,
    nc: Color,
    sq: int,
    as_: Seq<int>,
) -> Seq<Toggle>
    decreases as_.len(),
{
    if as_.len() == 0 {
        Seq::empty()
    } else {
        let a = as_.last();
        let m = b.mailbox[a];
        repoint_toggles(b, op, oc, np, nc, sq, as_.drop_last()) + if m == EMPTY {
            Seq::<Toggle>::empty()
        } else {
            seq![
                (piece_index(code_piece(m)), op, enemy_spec(code_color(m), oc), a, sq, false),
                (piece_index(code_piece(m)), np, enemy_spec(code_color(m), nc), a, sq, true),
            ]
        }
    }
}

/// The toggles of the piece on `sq` changing from (`old_pt`, `old_c`) to
/// (`new_pt`, `new_c`), fired against the board `b` after the change: the
/// old piece's threats go, the new piece's come, then every attacker of
/// `sq` re-points.
#[verifier::opaque]
pub open spec fn mutate_toggles(
    b: Position,
    old_pt: PieceType,
    old_c: Color,
    new_pt: PieceType,
    new_c: Color,
    sq: int,
) -> Seq<Toggle> {
    let occ = b.occupied_spec();
    let op = piece_index(old_pt);
    let np = piece_index(new_pt);
    own_toggles(b, op, old_c, sq, false, bits_seq(piece_attacks_spec(op, old_c, sq, occ) & occ)) + own_toggles(
        b,
        np,
        new_c,
        sq,
        true,
        bits_seq(piece_attacks_spec(np, new_c, sq, occ) & occ),
    ) + repoint_toggles(b, op, old_c, np, new_c, sq, bits_seq(attackers_of_sq(b, sq, occ)))
}

proof fn lemma_repoint_board(b1: Position, b2: Position, op: int, oc: Color, np: int, nc: Color, sq: int, as_: Seq<int>)
    requires
        same_board(b1, b2),
    ensures
        repoint_toggles(b1, op, oc, np, nc, sq, as_) == repoint_toggles(b2, op, oc, np, nc, sq, as_),
    decreases as_.len(),
{
    if as_.len() > 0 {
        lemma_repoint_board(b1, b2, op, oc, np, nc, sq, as_.drop_last());
    }
}

proof fn lemma_mutate_board(b1: Position, b2: Position, old_pt: PieceType, old_c: Color, new_pt: PieceType, new_c: Color, sq: int)
    requires
        same_board(b1, b2),
    ensures
        mutate_toggles(b1, old_pt, old_c, new_pt, new_c, sq) == mutate_toggles(b2, old_pt, old_c, new_pt, new_c, sq),
{
    reveal(mutate_toggles);
    let occ = b1.occupied_spec();
    assert(occ == b2.occupied_spec());
    let op = piece_index(old_pt);
    let np = piece_index(new_pt);
    lemma_own_board(b1, b2, op, old_c, sq, false, bits_seq(piece_attacks_spec(op, old_c, sq, occ) & occ));
    lemma_own_board(b1, b2, np, new_c, sq, true, bits_seq(piece_attacks_spec(np, new_c, sq, occ) & occ));
    assert(attackers_of_sq(b1, sq, occ) == attackers_of_sq(b2, sq, occ));
    lemma_repoint_board(b1, b2, op, old_c, np, new_c, sq, bits_seq(attackers_of_sq(b1, sq, occ)));
}

fn mutate(
    batch: &mut ThreatBatch,
    b: &mut Position,
    old_pt: PieceType,
    old_c: Color,
    new_pt: PieceType,
    new_c: Color,
    sq: Square,
)
    requires
        old(batch).ok(),
        old(b).board_ok(),
        sq < 64,
        old(b).mailbox[sq as int] == code_of(old_c, old_pt),
    ensures
        final(batch).ok(),
        final(b).board_ok(),
        final(b).mailbox@ == old(b).mailbox@.update(sq as int, code_of(new_c, new_pt)),
        final(batch).cols() == toggles_spec(
            old(batch).cols(),
            mutate_toggles(*final(b), old_pt, old_c, new_pt, new_c, sq as int),
        ),
{
    b.remove(old_c, old_pt, sq);
    b.put(new_c, new_pt, sq);
    let ghost v0 = batch.cols();
    let occ = b.occupied();
    let op = old_pt.idx();
    let np = new_pt.idx();
    // the old piece's threats go
    let mut a_old = piece_attacks(op, old_c, sq, occ) & occ;
    let ghost ao0 = a_old;
    let ghost mut done: Seq<int> = Seq::empty();
    proof {
        assert(done + bits_seq(a_old) =~= bits_seq(ao0));
    }
    while a_old != 0
        invariant
            batch.ok(),
            b.board_ok(),
            op < 6,
            sq < 64,
            done + bits_seq(a_old) == bits_seq(ao0),
            batch.cols() == toggles_spec(v0, own_toggles(*b, op as int, old_c, sq as int, false, done)),
        decreases a_old,
    {
        let ghost before = a_old;
        let ghost ts = own_toggles(*b, op as int, old_c, sq as int, false, done);
        let v = pop_lsb(&mut a_old);
        proof {
            lemma_bits_pop(done, ao0, before, a_old, v as int);
            done = done.push(v as int);
        }
        if let Some((vc, vpt)) = b.piece_on(v) {
            batch.toggle(op, vpt.idx(), enemy_of(old_c, vc), sq, v, false);
            proof {
                let t: Toggle = (op as int, piece_index(vpt), enemy_spec(old_c, vc), sq as int, v as int, false);
                lemma_toggles_push(v0, ts, t);
                assert(own_toggles(*b, op as int, old_c, sq as int, false, done) =~= ts.push(t));
            }
        } else {
            proof {
                assert(own_toggles(*b, op as int, old_c, sq as int, false, done) =~= ts);
            }
        }
    }
    let ghost t1 = own_toggles(*b, op as int, old_c, sq as int, false, done);
    proof {
        assert(done =~= bits_seq(ao0));
    }
    // the new piece's threats come
    let mut a_new = piece_attacks(np, new_c, sq, occ) & occ;
    let ghost an0 = a_new;
    let ghost mut done2: Seq<int> = Seq::empty();
    proof {
        assert(done2 + bits_seq(a_new) =~= bits_seq(an0));
        assert(t1 + own_toggles(*b, np as int, new_c, sq as int, true, done2) =~= t1);
    }
    while a_new != 0
        invariant
            batch.ok(),
            b.board_ok(),
            np < 6,
            sq < 64,
            done2 + bits_seq(a_new) == bits_seq(an0),
            batch.cols() == toggles_spec(v0, t1 + own_toggles(*b, np as int, new_c, sq as int, true, done2)),
        decreases a_new,
    {
        let ghost before = a_new;
        let ghost ts = t1 + own_toggles(*b, np as int, new_c, sq as int, true, done2);
        let ghost prev = done2;
        let v = pop_lsb(&mut a_new);
        proof {
            lemma_bits_pop(done2, an0, before, a_new, v as int);
            done2 = done2.push(v as int);
        }
        if let Some((vc, vpt)) = b.piece_on(v) {
            batch.toggle(np, vpt.idx(), enemy_of(new_c, vc), sq, v, true);
            proof {
                let t: Toggle = (np as int, piece_index(vpt), enemy_spec(new_c, vc), sq as int, v as int, true);
                lemma_toggles_push(v0, ts, t);
                assert(own_toggles(*b, np as int, new_c, sq as int, true, done2)
                    == own_toggles(*b, np as int, new_c, sq as int, true, prev).push(t));
                assert(t1 + own_toggles(*b, np as int, new_c, sq as int, true, done2) =~= ts.push(t));
            }
        } else {
            proof {
                assert(own_toggles(*b, np as int, new_c, sq as int, true, done2)
                    =~= own_toggles(*b, np as int, new_c, sq as int, true, prev));
            }
        }
    }
    let ghost t2 = t1 + own_toggles(*b, np as int, new_c, sq as int, true, done2);
    proof {
        assert(done2 =~= bits_seq(an0));
    }
    // every attacker of `sq` re-points from the old piece to the new
    let (bq, rq) = slider_sets(b);
    let diag = bishop_attacks(sq, occ) & bq;
    let orth = rook_attacks(sq, occ) & rq;
    let bp = b.pieces(Color::Black, PieceType::Pawn) & pawn_attacks(Color::White, sq);
    let wp = b.pieces(Color::White, PieceType::Pawn) & pawn_attacks(Color::Black, sq);
    let knights = (b.pieces(Color::White, PieceType::Knight) | b.pieces(Color::Black, PieceType::Knight))
        & knight_attacks(sq);
    let kings = (b.pieces(Color::White, PieceType::King) | b.pieces(Color::Black, PieceType::King))
        & king_attacks(sq);
    let mut atk = ((diag | orth) | bp | wp | knights | kings) & occ;
    let ghost at0 = atk;
    let ghost mut done3: Seq<int> = Seq::empty();
    proof {
        assert(at0 == attackers_of_sq(*b, sq as int, occ));
        assert(done3 + bits_seq(atk) =~= bits_seq(at0));
        assert(t2 + repoint_toggles(*b, op as int, old_c, np as int, new_c, sq as int, done3) =~= t2);
    }
    while atk != 0
        invariant
            batch.ok(),
            b.board_ok(),
            op < 6,
            np < 6,
            sq < 64,
            done3 + bits_seq(atk) == bits_seq(at0),
            batch.cols() == toggles_spec(
                v0,
                t2 + repoint_toggles(*b, op as int, old_c, np as int, new_c, sq as int, done3),
            ),
        decreases atk,
    {
        let ghost before = atk;
        let ghost ts = t2 + repoint_toggles(*b, op as int, old_c, np as int, new_c, sq as int, done3);
        let ghost prev = done3;
        let a = pop_lsb(&mut atk);
        proof {
            lemma_bits_pop(done3, at0, before, atk, a as int);
            done3 = done3.push(a as int);
        }
        if let Some((ac, apt)) = b.piece_on(a) {
            let ai = apt.idx();
            batch.toggle(ai, op, enemy_of(ac, old_c), a, sq, false);
            batch.toggle(ai, np, enemy_of(ac, new_c), a, sq, true);
            proof {
                let t: Toggle = (ai as int, op as int, enemy_spec(ac, old_c), a as int, sq as int, false);
                let u: Toggle = (ai as int, np as int, enemy_spec(ac, new_c), a as int, sq as int, true);
                lemma_toggles_push(v0, ts, t);
                lemma_toggles_push(v0, ts.push(t), u);
                assert(repoint_toggles(*b, op as int, old_c, np as int, new_c, sq as int, done3)
                    == repoint_toggles(*b, op as int, old_c, np as int, new_c, sq as int, prev) + seq![t, u]);
                assert(t2 + repoint_toggles(*b, op as int, old_c, np as int, new_c, sq as int, done3)
                    =~= ts.push(t).push(u));
            }
        } else {
            proof {
                assert(repoint_toggles(*b, op as int, old_c, np as int, new_c, sq as int, done3)
                    =~= repoint_toggles(*b, op as int, old_c, np as int, new_c, sq as int, prev));
            }
        }
    }
    proof {
        reveal(mutate_toggles);
        assert(done3 =~= bits_seq(at0));
        assert(t2 + repoint_toggles(*b, op as int, old_c, np as int, new_c, sq as int, done3) =~= mutate_toggles(
            *b,
            old_pt,
            old_c,
            new_pt,
            new_c,
            sq as int,
        ));
    }
}

/// The piece feature changes of a move, as (color, piece, square, added):
/// what leaves and what arrives, in the order the move's parts happen.
pub open spec fn piece_changes(pos: Position, mv: Move) -> Seq<(Color, PieceType, int, bool)> {
    let us = pos.stm;
    let them = opposite(us);
    let from = move_from(mv);
    let to = move_to(mv);
    let f = move_flags(mv);
    let pt = code_piece(pos.mailbox[from]);
    if f == 0 || f == 1 {
        seq![(us, pt, from, false), (us, pt, to, true)]
    } else if f == 2 || f == 3 {
        let (rf, rt) = castle_rook_squares(us, f);
        seq![
            (us, PieceType::King, from, false),
            (us, PieceType::King, to, true),
            (us, PieceType::Rook, rf, false),
            (us, PieceType::Rook, rt, true),
        ]
    } else if f == 5 {
        seq![
            (them, PieceType::Pawn, ep_victim_sq(us, to), false),
            (us, PieceType::Pawn, from, false),
            (us, PieceType::Pawn, to, true),
        ]
    } else if f == 4 {
        seq![(them, code_piece(pos.mailbox[to]), to, false), (us, pt, from, false), (us, pt, to, true)]
    } else if f >= 12 {
        seq![
            (them, code_piece(pos.mailbox[to]), to, false),
            (us, PieceType::Pawn, from, false),
            (us, promo_piece_spec(f), to, true),
        ]
    } else {
        seq![(us, PieceType::Pawn, from, false), (us, promo_piece_spec(f), to, true)]
    }
}

/// Rook origin and destination of a castling move.
fn castle_rooks(us: Color, fl: u16) -> (r: (Square, Square))
    requires
        fl == 2 || fl == 3,
    ensures
        r.0 == castle_rook_squares(us, fl as int).0,
        r.1 == castle_rook_squares(us, fl as int).1,
        r.0 < 64,
        r.1 < 64,
{
    if us == Color::White {
        if fl == CASTLE_KING {
            (7, 5)
        } else {
            (0, 3)
        }
    } else {
        if fl == CASTLE_KING {
            (63, 61)
        } else {
            (56, 59)
        }
    }
}

/// The threat toggles of a move, as its parts are replayed on a running copy
/// of the board, each fired against the board it leaves: a quiet move
/// relocates the mover; castling takes king and rook off, then puts them
/// down; en passant relocates the pawn, then the victim vanishes; a capture
/// takes the mover off, then turns the victim into it; a promotion does the
/// same with a pawn, then turns the pawn into the new piece.
#[verifier::opaque]
pub open spec fn threat_changes(pos: Position, mv: Move) -> Seq<Toggle> {
    let us = pos.stm;
    let them = opposite(us);
    let from = move_from(mv);
    let to = move_to(mv);
    let f = move_flags(mv);
    let mb = pos.mailbox@;
    let pt = code_piece(pos.mailbox[from]);
    if f == 0 || f == 1 {
        relocate_toggles(board_with(mb.update(from, EMPTY).update(to, code_of(us, pt))), pt, us, from, to)
    } else if f == 2 || f == 3 {
        let (rf, rt) = castle_rook_squares(us, f);
        let m1 = mb.update(from, EMPTY);
        let m2 = m1.update(rf, EMPTY);
        let m3 = m2.update(to, code_of(us, PieceType::King));
        let m4 = m3.update(rt, code_of(us, PieceType::Rook));
        change_toggles(board_with(m1), PieceType::King, us, from, false) + change_toggles(
            board_with(m2),
            PieceType::Rook,
            us,
            rf,
            false,
        ) + change_toggles(board_with(m3), PieceType::King, us, to, true) + change_toggles(
            board_with(m4),
            PieceType::Rook,
            us,
            rt,
            true,
        )
    } else if f == 5 {
        let cap = ep_victim_sq(us, to);
        let m1 = mb.update(from, EMPTY).update(to, code_of(us, PieceType::Pawn));
        let m2 = m1.update(cap, EMPTY);
        relocate_toggles(board_with(m1), PieceType::Pawn, us, from, to) + change_toggles(
            board_with(m2),
            PieceType::Pawn,
            them,
            cap,
            false,
        )
    } else if f == 4 {
        let cap_pt = code_piece(pos.mailbox[to]);
        let m1 = mb.update(from, EMPTY);
        let m2 = m1.update(to, code_of(us, pt));
        change_toggles(board_with(m1), pt, us, from, false) + mutate_toggles(board_with(m2), cap_pt, them, pt, us, to)
    } else if f >= 12 {
        let cap_pt = code_piece(pos.mailbox[to]);
        let promo = promo_piece_spec(f);
        let m1 = mb.update(from, EMPTY);
        let m2 = m1.update(to, code_of(us, PieceType::Pawn));
        let m3 = m2.update(to, code_of(us, promo));
        change_toggles(board_with(m1), PieceType::Pawn, us, from, false) + mutate_toggles(
            board_with(m2),
            cap_pt,
            them,
            PieceType::Pawn,
            us,
            to,
        ) + mutate_toggles(board_with(m3), PieceType::Pawn, us, promo, us, to)
    } else {
        let promo = promo_piece_spec(f);
        let m1 = mb.update(from, EMPTY).update(to, code_of(us, PieceType::Pawn));
        let m2 = m1.update(to, code_of(us, promo));
        relocate_toggles(board_with(m1), PieceType::Pawn, us, from, to) + mutate_toggles(
            board_with(m2),
            PieceType::Pawn,
            us,
            promo,
            us,
            to,
        )
    }
}

/// After a relocation on the running board, the batch holds the toggles so
/// far followed by the relocation's, fired against the consistent board of
/// its placement.
proof fn lemma_step_relocate(prev: Seq<Toggle>, v: BatchCols, b: Position, pt: PieceType, c: Color, from: int, to: int)
    requires
        b.board_ok(),
        v == toggles_spec(toggles_spec(empty_cols(), prev), relocate_toggles(b, pt, c, from, to)),
    ensures
        v == toggles_spec(empty_cols(), prev + relocate_toggles(board_with(b.mailbox@), pt, c, from, to)),
{
    lemma_board_with(b);
    lemma_relocate_board(board_with(b.mailbox@), b, pt, c, from, to);
    lemma_toggles_concat(empty_cols(), prev, relocate_toggles(b, pt, c, from, to));
}

proof fn lemma_step_change(prev: Seq<Toggle>, v: BatchCols, b: Position, pt: PieceType, c: Color, sq: int, add: bool)
    requires
        b.board_ok(),
        v == toggles_spec(toggles_spec(empty_cols(), prev), change_toggles(b, pt, c, sq, add)),
    ensures
        v == toggles_spec(empty_cols(), prev + change_toggles(board_with(b.mailbox@), pt, c, sq, add)),
{
    lemma_board_with(b);
    lemma_change_board(board_with(b.mailbox@), b, pt, c, sq, add);
    lemma_toggles_concat(empty_cols(), prev, change_toggles(b, pt, c, sq, add));
}

proof fn lemma_step_mutate(
    prev: Seq<Toggle>,
    v: BatchCols,
    b: Position,
    old_pt: PieceType,
    old_c: Color,
    new_pt: PieceType,
    new_c: Color,
    sq: int,
)
    requires
        b.board_ok(),
        v == toggles_spec(toggles_spec(empty_cols(), prev), mutate_toggles(b, old_pt, old_c, new_pt, new_c, sq)),
    ensures
        v == toggles_spec(
            empty_cols(),
            prev + mutate_toggles(board_with(b.mailbox@), old_pt, old_c, new_pt, new_c, sq),
        ),
{
    lemma_board_with(b);
    lemma_mutate_board(board_with(b.mailbox@), b, old_pt, old_c, new_pt, new_c, sq);
    lemma_toggles_concat(empty_cols(), prev, mutate_toggles(b, old_pt, old_c, new_pt, new_c, sq));
}

/// Piece and threat toggles of a quiet move or double push: the mover
/// relocates.
fn decompose_quiet(ctx: &Accumulator, pos: &Position, mv: Move, pt: PieceType) -> (r: (PieceBatch, ThreatBatch))
    requires
        ctx.shape_ok(),
        pos.board_ok(),
        pos.move_ok(mv),
        move_flags(mv) == 0 || move_flags(mv) == 1,
        pt == code_piece(pos.mailbox[move_from(mv)]),
    ensures
        r.0.lists(ctx, piece_changes(*pos, mv)),
        r.1.ok(),
        r.1.cols() == toggles_spec(empty_cols(), threat_changes(*pos, mv)),
{
    let us = pos.stm;
    let from = mv.from();
    let to = mv.to();
    let mut b = *pos;
    let mut batch = ThreatBatch::new();
    let mut pb = PieceBatch::new();
    proof {
        assert(pos.sq_ok(from as int));
        crate::position::lemma_code_roundtrip(pos.mailbox[from as int]);
    }
    pb.toggle(ctx, us, pt, from, false);
    pb.toggle(ctx, us, pt, to, true);
    relocate(&mut batch, &mut b, pt, us, from, to);
    proof {
        assert(Seq::<Toggle>::empty() + relocate_toggles(b, pt, us, from as int, to as int)
            =~= relocate_toggles(b, pt, us, from as int, to as int));
        lemma_step_relocate(Seq::empty(), batch.cols(), b, pt, us, from as int, to as int);
        assert(Seq::<Toggle>::empty() + relocate_toggles(board_with(b.mailbox@), pt, us, from as int, to as int)
            =~= relocate_toggles(board_with(b.mailbox@), pt, us, from as int, to as int));
        reveal(threat_changes);
    }
    (pb, batch)
}

/// Piece and threat toggles of a castling move: king and rook leave, then
/// arrive, so the king's transit and the rook's see consistent boards.
fn decompose_castle(ctx: &Accumulator, pos: &Position, mv: Move) -> (r: (PieceBatch, ThreatBatch))
    requires
        ctx.shape_ok(),
        pos.board_ok(),
        pos.move_ok(mv),
        move_flags(mv) == 2 || move_flags(mv) == 3,
    ensures
        r.0.lists(ctx, piece_changes(*pos, mv)),
        r.1.ok(),
        r.1.cols() == toggles_spec(empty_cols(), threat_changes(*pos, mv)),
{
    let us = pos.stm;
    let from = mv.from();
    let to = mv.to();
    let fl = mv.flags();
    let mut b = *pos;
    let mut batch = ThreatBatch::new();
    let mut pb = PieceBatch::new();
    let (rook_from, rook_to) = castle_rooks(us, fl);
    proof {
        crate::position::lemma_code_parts(us, PieceType::King);
        crate::position::lemma_code_parts(us, PieceType::Rook);
    }
    pb.toggle(ctx, us, PieceType::King, from, false);
    pb.toggle(ctx, us, PieceType::King, to, true);
    pb.toggle(ctx, us, PieceType::Rook, rook_from, false);
    pb.toggle(ctx, us, PieceType::Rook, rook_to, true);
    change(&mut batch, &mut b, PieceType::King, us, from, false);
    let ghost b1 = b;
    proof {
        assert(Seq::<Toggle>::empty() + change_toggles(b, PieceType::King, us, from as int, false)
            =~= change_toggles(b, PieceType::King, us, from as int, false));
        lemma_step_change(Seq::empty(), batch.cols(), b, PieceType::King, us, from as int, false);
    }
    let ghost t1 = Seq::<Toggle>::empty() + change_toggles(board_with(b1.mailbox@), PieceType::King, us, from as int, false);
    change(&mut batch, &mut b, PieceType::Rook, us, rook_from, false);
    let ghost b2 = b;
    proof {
        lemma_step_change(t1, batch.cols(), b, PieceType::Rook, us, rook_from as int, false);
    }
    let ghost t2 = t1 + change_toggles(board_with(b2.mailbox@), PieceType::Rook, us, rook_from as int, false);
    change(&mut batch, &mut b, PieceType::King, us, to, true);
    let ghost b3 = b;
    proof {
        lemma_step_change(t2, batch.cols(), b, PieceType::King, us, to as int, true);
    }
    let ghost t3 = t2 + change_toggles(board_with(b3.mailbox@), PieceType::King, us, to as int, true);
    change(&mut batch, &mut b, PieceType::Rook, us, rook_to, true);
    proof {
        lemma_step_change(t3, batch.cols(), b, PieceType::Rook, us, rook_to as int, true);
        reveal(threat_changes);
        assert(t1 =~= change_toggles(board_with(b1.mailbox@), PieceType::King, us, from as int, false));
    }
    (pb, batch)
}

/// Piece and threat toggles of an en-passant capture: the pawn relocates
/// while the victim still stands, then the victim vanishes.
fn decompose_ep(ctx: &Accumulator, pos: &Position, mv: Move) -> (r: (PieceBatch, ThreatBatch))
    requires
        ctx.shape_ok(),
        pos.board_ok(),
        pos.move_ok(mv),
        move_flags(mv) == 5,
    ensures
        r.0.lists(ctx, piece_changes(*pos, mv)),
        r.1.ok(),
        r.1.cols() == toggles_spec(empty_cols(), threat_changes(*pos, mv)),
{
    let us = pos.stm;
    let them = us.flip();
    let from = mv.from();
    let to = mv.to();
    let mut b = *pos;
    let mut batch = ThreatBatch::new();
    let mut pb = PieceBatch::new();
    let cap_sq = if us == Color::White {
        to - 8
    } else {
        to + 8
    };
    proof {
        crate::position::lemma_code_parts(them, PieceType::Pawn);
        crate::position::lemma_code_parts(us, PieceType::Pawn);
    }
    pb.toggle(ctx, them, PieceType::Pawn, cap_sq, false);
    pb.toggle(ctx, us, PieceType::Pawn, from, false);
    pb.toggle(ctx, us, PieceType::Pawn, to, true);
    relocate(&mut batch, &mut b, PieceType::Pawn, us, from, to);
    let ghost b1 = b;
    proof {
        assert(Seq::<Toggle>::empty() + relocate_toggles(b, PieceType::Pawn, us, from as int, to as int)
            =~= relocate_toggles(b, PieceType::Pawn, us, from as int, to as int));
        lemma_step_relocate(Seq::empty(), batch.cols(), b, PieceType::Pawn, us, from as int, to as int);
    }
    let ghost t1 = Seq::<Toggle>::empty() + relocate_toggles(board_with(b1.mailbox@), PieceType::Pawn, us, from as int, to as int);
    change(&mut batch, &mut b, PieceType::Pawn, them, cap_sq, false);
    proof {
        lemma_step_change(t1, batch.cols(), b, PieceType::Pawn, them, cap_sq as int, false);
        reveal(threat_changes);
        assert(t1 =~= relocate_toggles(board_with(b1.mailbox@), PieceType::Pawn, us, from as int, to as int));
        assert(cap_sq == ep_victim_sq(us, to as int));
    }
    (pb, batch)
}

/// Piece and threat toggles of a capture: the mover leaves its square, then
/// the victim's square changes identity from the victim to the mover.
#[verifier::rlimit(40)]
fn decompose_capture(ctx: &Accumulator, pos: &Position, mv: Move, pt: PieceType) -> (r: (PieceBatch, ThreatBatch))
    requires
        ctx.shape_ok(),
        pos.board_ok(),
        pos.move_ok(mv),
        move_flags(mv) == 4,
        pt == code_piece(pos.mailbox[move_from(mv)]),
    ensures
        r.0.lists(ctx, piece_changes(*pos, mv)),
        r.1.ok(),
        r.1.cols() == toggles_spec(empty_cols(), threat_changes(*pos, mv)),
{
    let us = pos.stm;
    let them = us.flip();
    let from = mv.from();
    let to = mv.to();
    let mut b = *pos;
    let mut batch = ThreatBatch::new();
    let mut pb = PieceBatch::new();
    let (_, cap_pt) = pos.piece_on(to).unwrap();
    proof {
        assert(pos.sq_ok(from as int));
        crate::position::lemma_code_roundtrip(pos.mailbox[from as int]);
        assert(pos.sq_ok(to as int));
        crate::position::lemma_code_roundtrip(pos.mailbox[to as int]);
    }
    pb.toggle(ctx, them, cap_pt, to, false);
    pb.toggle(ctx, us, pt, from, false);
    pb.toggle(ctx, us, pt, to, true);
    change(&mut batch, &mut b, pt, us, from, false);
    let ghost b1 = b;
    proof {
        assert(Seq::<Toggle>::empty() + change_toggles(b, pt, us, from as int, false)
            =~= change_toggles(b, pt, us, from as int, false));
        lemma_step_change(Seq::empty(), batch.cols(), b, pt, us, from as int, false);
    }
    let ghost t1 = Seq::<Toggle>::empty() + change_toggles(board_with(b1.mailbox@), pt, us, from as int, false);
    mutate(&mut batch, &mut b, cap_pt, them, pt, us, to);
    proof {
        lemma_step_mutate(t1, batch.cols(), b, cap_pt, them, pt, us, to as int);
        reveal(threat_changes);
        assert(t1 =~= change_toggles(board_with(b1.mailbox@), pt, us, from as int, false));
    }
    (pb, batch)
}

/// Piece and threat toggles of a promotion. With a capture: the pawn leaves,
/// the victim's square changes to a pawn, then to the promoted piece.
/// Without: the pawn relocates, then changes to the promoted piece.
fn decompose_promo(ctx: &Accumulator, pos: &Position, mv: Move) -> (r: (PieceBatch, ThreatBatch))
    requires
        ctx.shape_ok(),
        pos.board_ok(),
        pos.move_ok(mv),
        move_flags(mv) >= 8,
    ensures
        r.0.lists(ctx, piece_changes(*pos, mv)),
        r.1.ok(),
        r.1.cols() == toggles_spec(empty_cols(), threat_changes(*pos, mv)),
{
    let us = pos.stm;
    let them = us.flip();
    let from = mv.from();
    let to = mv.to();
    let mut b = *pos;
    let mut batch = ThreatBatch::new();
    let mut pb = PieceBatch::new();
    let promo = mv.promo_piece();
    proof {
        crate::position::lemma_code_parts(us, PieceType::Pawn);
    }
    if mv.is_capture() {
        let (_, cap_pt) = pos.piece_on(to).unwrap();
        proof {
            assert(pos.sq_ok(to as int));
            crate::position::lemma_code_roundtrip(pos.mailbox[to as int]);
        }
        pb.toggle(ctx, them, cap_pt, to, false);
        pb.toggle(ctx, us, PieceType::Pawn, from, false);
        pb.toggle(ctx, us, promo, to, true);
        change(&mut batch, &mut b, PieceType::Pawn, us, from, false);
        let ghost b1 = b;
        proof {
            assert(Seq::<Toggle>::empty() + change_toggles(b, PieceType::Pawn, us, from as int, false)
                =~= change_toggles(b, PieceType::Pawn, us, from as int, false));
            lemma_step_change(Seq::empty(), batch.cols(), b, PieceType::Pawn, us, from as int, false);
        }
        let ghost t1 = Seq::<Toggle>::empty() + change_toggles(board_with(b1.mailbox@), PieceType::Pawn, us, from as int, false);
        mutate(&mut batch, &mut b, cap_pt, them, PieceType::Pawn, us, to);
        let ghost b2 = b;
        proof {
            lemma_step_mutate(t1, batch.cols(), b, cap_pt, them, PieceType::Pawn, us, to as int);
        }
        let ghost t2 = t1 + mutate_toggles(board_with(b2.mailbox@), cap_pt, them, PieceType::Pawn, us, to as int);
        mutate(&mut batch, &mut b, PieceType::Pawn, us, promo, us, to);
        proof {
            lemma_step_mutate(t2, batch.cols(), b, PieceType::Pawn, us, promo, us, to as int);
            reveal(threat_changes);
            assert(t1 =~= change_toggles(board_with(b1.mailbox@), PieceType::Pawn, us, from as int, false));
        }
    } else {
        pb.toggle(ctx, us, PieceType::Pawn, from, false);
        pb.toggle(ctx, us, promo, to, true);
        relocate(&mut batch, &mut b, PieceType::Pawn, us, from, to);
        let ghost b1 = b;
        proof {
            assert(Seq::<Toggle>::empty() + relocate_toggles(b, PieceType::Pawn, us, from as int, to as int)
                =~= relocate_toggles(b, PieceType::Pawn, us, from as int, to as int));
            lemma_step_relocate(Seq::empty(), batch.cols(), b, PieceType::Pawn, us, from as int, to as int);
        }
        let ghost t1 = Seq::<Toggle>::empty() + relocate_toggles(board_with(b1.mailbox@), PieceType::Pawn, us, from as int, to as int);
        mutate(&mut batch, &mut b, PieceType::Pawn, us, promo, us, to);
        proof {
            lemma_step_mutate(t1, batch.cols(), b, PieceType::Pawn, us, promo, us, to as int);
            reveal(threat_changes);
            assert(t1 =~= relocate_toggles(board_with(b1.mailbox@), PieceType::Pawn, us, from as int, to as int));
        }
    }
    (pb, batch)
}

/// Enumerates a move's piece and threat feature toggles. The piece toggles
/// are keyed by `ctx`'s king contexts (the parent's). The threat toggles are
/// produced by replaying the move on a running copy of the board one
/// primitive at a time — relocations, appearances and disappearances, and
/// in-place identity changes — each firing against the board as it stands
/// after that primitive.
fn decompose_move(ctx: &Accumulator, pos: &Position, mv: Move) -> (r: (PieceBatch, ThreatBatch))
    requires
        ctx.shape_ok(),
        pos.wf(),
        pos.move_ok(mv),
    ensures
        r.0.lists(ctx, piece_changes(*pos, mv)),
        r.1.ok(),
        r.1.cols() == toggles_spec(empty_cols(), threat_changes(*pos, mv)),
{
    let from = mv.from();
    let fl = mv.flags();
    let (_, pt) = pos.piece_on(from).unwrap();
    if fl == QUIET || fl == DOUBLE_PUSH {
        decompose_quiet(ctx, pos, mv, pt)
    } else if fl == CASTLE_KING || fl == CASTLE_QUEEN {
        decompose_castle(ctx, pos, mv)
    } else if fl == EN_PASSANT {
        decompose_ep(ctx, pos, mv)
    } else if fl == CAPTURE {
        decompose_capture(ctx, pos, mv, pt)
    } else {
        decompose_promo(ctx, pos, mv)
    }
}

// ---------------------------------------------------------------------------
// Incremental update
// ---------------------------------------------------------------------------
/// Lane `k` of the signed piece rows of the first `n` changes `ch`, seen from
/// `persp` under the king context `(base, flip)`.
pub open spec fn change_delta(
    net: &Network,
    persp: Color,
    base: int,
    flip: int,
    ch: Seq<(Color, PieceType, int, bool)>,
    n: int,
    k: int,
) -> int
    decreases n,
{
    if n <= 0 {
        0
    } else {
        change_delta(net, persp, base, flip, ch, n - 1, k) + change_term(net, persp, base, flip, ch[n - 1], k)
    }
}

/// Lane `k` of one piece change's row, added or subtracted.
pub open spec fn change_term(net: &Network, persp: Color, base: int, flip: int, e: (Color, PieceType, int, bool), k: int) -> int {
    let w = net.pw(piece_feat(persp, e.0, piece_index(e.1), e.2, base, flip), k);
    if e.3 {
        w
    } else {
        -w
    }
}

proof fn lemma_pdelta_changes(net: &Network, pb: &PieceBatch, ctx: &Accumulator, ch: Seq<(Color, PieceType, int, bool)>, n: int, k: int)
    requires
        pb.lists(ctx, ch),
        0 <= n <= ch.len(),
    ensures
        pdelta(net.piece_weights@, pb.w_idx@, pb.sign@, n, k) == change_delta(
            net,
            Color::White,
            ctx.wk_base as int,
            ctx.wk_flip as int,
            ch,
            n,
            k,
        ),
        pdelta(net.piece_weights@, pb.b_idx@, pb.sign@, n, k) == change_delta(
            net,
            Color::Black,
            ctx.bk_base as int,
            ctx.bk_flip as int,
            ch,
            n,
            k,
        ),
    decreases n,
{
    if n > 0 {
        lemma_pdelta_changes(net, pb, ctx, ch, n - 1, k);
        let i = n - 1;
        assert(pb.w_idx@[i] == piece_feat(Color::White, ch[i].0, piece_index(ch[i].1), ch[i].2, ctx.wk_base as int, ctx.wk_flip as int));
        assert(pb.b_idx@[i] == piece_feat(Color::Black, ch[i].0, piece_index(ch[i].1), ch[i].2, ctx.bk_base as int, ctx.bk_flip as int));
        let sg = pb.sign@[i] as int;
        let xw = net.piece_weights@[pb.w_idx@[i] * HIDDEN + k] as int;
        let xb = net.piece_weights@[pb.b_idx@[i] * HIDDEN + k] as int;
        assert(sg * xw == (if ch[i].3 { xw } else { -xw })) by (nonlinear_arith)
            requires
                sg == (if ch[i].3 { 1int } else { -1int }),
        ;
        assert(sg * xb == (if ch[i].3 { xb } else { -xb })) by (nonlinear_arith)
            requires
                sg == (if ch[i].3 { 1int } else { -1int }),
        ;
    }
}

/// The netted threat toggles of a move (white rows, black rows, signed
/// counts), as `decompose_move` lists them.
pub open spec fn move_threats(pos: Position, mv: Move) -> BatchCols {
    toggles_spec(empty_cols(), threat_changes(pos, mv))
}

/// `r` is `parent` with the move's piece changes (under the parent's king
/// contexts) and the threat toggles `t` (white rows, black rows, signed
/// counts) applied.
pub open spec fn lazy_lanes(
    net: &Network,
    parent: &Accumulator,
    pos: Position,
    mv: Move,
    r: &Accumulator,
    t: (Seq<u16>, Seq<u16>, Seq<i16>),
) -> bool {
    let ch = piece_changes(pos, mv);
    &&& t.0.len() == t.1.len()
    &&& t.0.len() == t.2.len()
    &&& rows_ok(t.0, NUM_THREAT as int)
    &&& rows_ok(t.1, NUM_THREAT as int)
    &&& forall|k: int|
        0 <= k < HIDDEN ==> #[trigger] r.w@[k] == wrap16(
            parent.w@[k] + change_delta(net, Color::White, parent.wk_base as int, parent.wk_flip as int, ch, ch.len() as int, k)
                + tdelta(net.threat_weights@, t.0, t.2, t.0.len() as int, k),
        )
    &&& forall|k: int|
        0 <= k < HIDDEN ==> #[trigger] r.b@[k] == wrap16(
            parent.b@[k] + change_delta(net, Color::Black, parent.bk_base as int, parent.bk_flip as int, ch, ch.len() as int, k)
                + tdelta(net.threat_weights@, t.1, t.2, t.1.len() as int, k),
        )
}

impl Accumulator {
    /// A copy of the accumulator.
    pub fn duplicate(&self) -> (r: Accumulator)
        ensures
            r.w@ == self.w@,
            r.b@ == self.b@,
            r.wk_base == self.wk_base && r.wk_flip == self.wk_flip,
            r.bk_base == self.bk_base && r.bk_flip == self.bk_flip,
    {
        Accumulator {
            w: copy_lanes(&self.w),
            b: copy_lanes(&self.b),
            wk_base: self.wk_base,
            wk_flip: self.wk_flip,
            bk_base: self.bk_base,
            bk_flip: self.bk_flip,
        }
    }
}

/// The child accumulator after `mv`, from the parent's: the parent copied,
/// then the move's piece rows and its netted threat rows applied in one
/// tiled pass each. The king contexts are carried over unchanged.
pub fn apply_lazy(net: &Network, parent: &Accumulator, pos: &Position, mv: Move) -> (r: Accumulator)
    requires
        net.wf(),
        parent.shape_ok(),
        pos.wf(),
        pos.move_ok(mv),
    ensures
        r.shape_ok(),
        r.wk_base == parent.wk_base && r.wk_flip == parent.wk_flip,
        r.bk_base == parent.bk_base && r.bk_flip == parent.bk_flip,
        lazy_lanes(net, parent, *pos, mv, &r, move_threats(*pos, mv)),
{
    let mut acc = parent.duplicate();
    let (pb, batch) = decompose_move(parent, pos, mv);
    let ghost a0 = acc;
    pb.apply_to(net, &mut acc);
    let ghost a1 = acc;
    batch.apply_to(net, &mut acc);
    proof {
        let ch = piece_changes(*pos, mv);
        let t = (batch.w_idx@, batch.b_idx@, batch.sign@);
        assert forall|k: int| 0 <= k < HIDDEN implies #[trigger] acc.w@[k] == wrap16(
            parent.w@[k] + change_delta(net, Color::White, parent.wk_base as int, parent.wk_flip as int, ch, ch.len() as int, k)
                + tdelta(net.threat_weights@, t.0, t.2, t.0.len() as int, k),
        ) by {
            lemma_pdelta_changes(net, &pb, parent, ch, ch.len() as int, k);
            lemma_wrap16_add(
                parent.w@[k] + change_delta(net, Color::White, parent.wk_base as int, parent.wk_flip as int, ch, ch.len() as int, k),
                tdelta(net.threat_weights@, t.0, t.2, t.0.len() as int, k),
            );
        }
        assert forall|k: int| 0 <= k < HIDDEN implies #[trigger] acc.b@[k] == wrap16(
            parent.b@[k] + change_delta(net, Color::Black, parent.bk_base as int, parent.bk_flip as int, ch, ch.len() as int, k)
                + tdelta(net.threat_weights@, t.1, t.2, t.1.len() as int, k),
        ) by {
            lemma_pdelta_changes(net, &pb, parent, ch, ch.len() as int, k);
            lemma_wrap16_add(
                parent.b@[k] + change_delta(net, Color::Black, parent.bk_base as int, parent.bk_flip as int, ch, ch.len() as int, k),
                tdelta(net.threat_weights@, t.1, t.2, t.1.len() as int, k),
            );
        }
        assert(lazy_lanes(net, parent, *pos, mv, &acc, t));
    }
    acc
}

proof fn lemma_pdelta_prefix(w: Seq<i16>, idx: Seq<u16>, sign: Seq<i16>, idx2: Seq<u16>, sign2: Seq<i16>, n: int, k: int)
    requires
        0 <= n <= idx.len(),
        n <= idx2.len(),
        n <= sign.len(),
        n <= sign2.len(),
        forall|i: int| 0 <= i < n ==> #[trigger] idx2[i] == idx[i] && sign2[i] == sign[i],
    ensures
        pdelta(w, idx2, sign2, n, k) == pdelta(w, idx, sign, n, k),
    decreases n,
{
    if n > 0 {
        lemma_pdelta_prefix(w, idx, sign, idx2, sign2, n - 1, k);
        assert(idx2[n - 1] == idx[n - 1] && sign2[n - 1] == sign[n - 1]);
    }
}

/// Piece row of a `col` piece of type `pt` on `sq` for either perspective.
fn persp_feat(persp: Color, col: Color, pt: usize, sq: Square, base: usize, flip: usize) -> (r: usize)
    requires
        pt < 6,
        sq < 64,
        ctx_ok(base as int, flip as int),
    ensures
        r == piece_feat(persp, col, pt as int, sq as int, base as int, flip as int),
        r < NUM_PIECE,
{
    if persp == Color::White {
        wp_feat(col, pt, sq, base, flip)
    } else {
        bp_feat(col, pt, sq, base, flip)
    }
}

/// For every piece on `child`, its row under the old king context (sign -1)
/// and under the new one (sign +1), for one perspective.
fn rekey_columns(child: &Position, persp: Color, ob: usize, of: usize, nb: usize, nf: usize) -> (r: (Vec<u16>, Vec<i16>))
    requires
        child.board_ok(),
        ctx_ok(ob as int, of as int),
        ctx_ok(nb as int, nf as int),
    ensures
        r.0@.len() == r.1@.len(),
        rows_ok(r.0@, NUM_PIECE as int),
        forall|net: &Network, k: int|
            #[trigger] pdelta(net.piece_weights@, r.0@, r.1@, r.0@.len() as int, k) == psum(
                net,
                piece_feats(*child, persp, nb as int, nf as int, 64),
                k,
            ) - psum(net, piece_feats(*child, persp, ob as int, of as int, 64), k),
{
    let mut idx: Vec<u16> = Vec::new();
    let mut sign: Vec<i16> = Vec::new();
    let mut sq: u8 = 0;
    while sq < 64
        invariant
            child.board_ok(),
            ctx_ok(ob as int, of as int),
            ctx_ok(nb as int, nf as int),
            sq <= 64,
            idx@.len() == sign@.len(),
            rows_ok(idx@, NUM_PIECE as int),
            forall|net: &Network, k: int|
                #[trigger] pdelta(net.piece_weights@, idx@, sign@, idx@.len() as int, k) == psum(
                    net,
                    piece_feats(*child, persp, nb as int, nf as int, sq as int),
                    k,
                ) - psum(net, piece_feats(*child, persp, ob as int, of as int, sq as int), k),
        decreases 64 - sq,
    {
        let ghost i0 = idx@;
        let ghost s0 = sign@;
        if let Some((col, pt)) = child.piece_on(sq) {
            let fo = persp_feat(persp, col, pt.idx(), sq, ob, of);
            let fnew = persp_feat(persp, col, pt.idx(), sq, nb, nf);
            idx.push(fo as u16);
            sign.push(-1);
            idx.push(fnew as u16);
            sign.push(1);
            proof {
                assert(piece_feats(*child, persp, nb as int, nf as int, sq + 1) == piece_feats(*child, persp, nb as int, nf as int, sq as int).push(fnew as int));
                assert(piece_feats(*child, persp, ob as int, of as int, sq + 1) == piece_feats(*child, persp, ob as int, of as int, sq as int).push(fo as int));
                assert forall|net: &Network, k: int| #[trigger] pdelta(net.piece_weights@, idx@, sign@, idx@.len() as int, k) == psum(
                    net,
                    piece_feats(*child, persp, nb as int, nf as int, sq + 1),
                    k,
                ) - psum(net, piece_feats(*child, persp, ob as int, of as int, sq + 1), k) by {
                    lemma_pdelta_prefix(net.piece_weights@, i0, s0, idx@, sign@, i0.len() as int, k);
                    let n = i0.len() as int;
                    assert(idx@[n] == fo && sign@[n] == -1);
                    assert(idx@[n + 1] == fnew && sign@[n + 1] == 1);
                    let xo = net.piece_weights@[idx@[n] * HIDDEN + k] as int;
                    let so = sign@[n] as int;
                    assert(so * xo == -xo) by (nonlinear_arith)
                        requires
                            so == -1,
                    ;
                    let xn = net.piece_weights@[idx@[n + 1] * HIDDEN + k] as int;
                    let sn = sign@[n + 1] as int;
                    assert(sn * xn == xn) by (nonlinear_arith)
                        requires
                            sn == 1,
                    ;
                    assert(pdelta(net.piece_weights@, idx@, sign@, n + 1, k) == pdelta(net.piece_weights@, idx@, sign@, n, k) - net.pw(fo as int, k));
                    assert(pdelta(net.piece_weights@, idx@, sign@, n + 2, k) == pdelta(net.piece_weights@, idx@, sign@, n + 1, k) + net.pw(fnew as int, k));
                    assert(pdelta(net.piece_weights@, i0, s0, n, k) == psum(net, piece_feats(*child, persp, nb as int, nf as int, sq as int), k) - psum(net, piece_feats(*child, persp, ob as int, of as int, sq as int), k));
                    lemma_psum_push(net, piece_feats(*child, persp, nb as int, nf as int, sq as int), fnew as int, k);
                    lemma_psum_push(net, piece_feats(*child, persp, ob as int, of as int, sq as int), fo as int, k);
                }
                assert forall|j: int| 0 <= j < idx@.len() implies #[trigger] idx@[j] < NUM_PIECE by {
                    if j < i0.len() {
                        assert(idx@[j] == i0[j]);
                    }
                }
            }
        } else {
            proof {
                assert(piece_feats(*child, persp, nb as int, nf as int, sq + 1) == piece_feats(*child, persp, nb as int, nf as int, sq as int));
                assert(piece_feats(*child, persp, ob as int, of as int, sq + 1) == piece_feats(*child, persp, ob as int, of as int, sq as int));
            }
        }
        sq += 1;
    }
    (idx, sign)
}

impl Accumulator {
    /// Re-keys the moving side's perspective from its old king context to
    /// `(new_base, new_flip)` after that king crossed a bucket or mirror
    /// boundary: every piece of `child` has its old-context row subtracted
    /// and its new-context row added, in one tiled pass. The other
    /// perspective is untouched.
    pub fn reindex_moving(&mut self, net: &Network, child: &Position, mover: Color, new_base: usize, new_flip: usize)
        requires
            old(self).shape_ok(),
            net.wf(),
            child.board_ok(),
            ctx_ok(new_base as int, new_flip as int),
        ensures
            final(self).shape_ok(),
            reindexed(net, old(self), *child, mover, new_base as int, new_flip as int, final(self)),
    {
        if mover == Color::White {
            let (idx, sign) = rekey_columns(child, Color::White, self.wk_base, self.wk_flip, new_base, new_flip);
            apply_piece_columns(&mut self.w, &net.piece_weights, &idx, &sign);
            self.wk_base = new_base;
            self.wk_flip = new_flip;
        } else {
            let (idx, sign) = rekey_columns(child, Color::Black, self.bk_base, self.bk_flip, new_base, new_flip);
            apply_piece_columns(&mut self.b, &net.piece_weights, &idx, &sign);
            self.bk_base = new_base;
            self.bk_flip = new_flip;
        }
    }
}

/// `r` is `a` with the `mover` perspective re-keyed to `(nb, nf)` over the
/// pieces of `child`.
pub open spec fn reindexed(net: &Network, a: &Accumulator, child: Position, mover: Color, nb: int, nf: int, r: &Accumulator) -> bool {
    if mover == Color::White {
        &&& r.wk_base == nb && r.wk_flip == nf
        &&& r.bk_base == a.bk_base && r.bk_flip == a.bk_flip
        &&& r.b@ == a.b@
        &&& forall|k: int|
            0 <= k < HIDDEN ==> #[trigger] r.w@[k] == wrap16(
                a.w@[k] + (psum(net, piece_feats(child, Color::White, nb, nf, 64), k) - psum(
                    net,
                    piece_feats(child, Color::White, a.wk_base as int, a.wk_flip as int, 64),
                    k,
                )),
            )
    } else {
        &&& r.bk_base == nb && r.bk_flip == nf
        &&& r.wk_base == a.wk_base && r.wk_flip == a.wk_flip
        &&& r.w@ == a.w@
        &&& forall|k: int|
            0 <= k < HIDDEN ==> #[trigger] r.b@[k] == wrap16(
                a.b@[k] + (psum(net, piece_feats(child, Color::Black, nb, nf, 64), k) - psum(
                    net,
                    piece_feats(child, Color::Black, a.bk_base as int, a.bk_flip as int, 64),
                    k,
                )),
            )
    }
}

/// `mv` moves the side to move's own king across a bucket or mirror
/// boundary of its perspective.
pub open spec fn king_cross(pos: Position, mv: Move) -> bool {
    let us = pos.stm;
    let f = orient(us, move_from(mv));
    let t = orient(us, move_to(mv));
    &&& pos.mailbox[move_from(mv)] == code_of(us, PieceType::King)
    &&& (king_base(t) != king_base(f) || king_flip(t) != king_flip(f))
}

/// `r` is the incremental child accumulator of `parent` after `mv`: the
/// move's piece and threat rows applied, then, when the king crossed a
/// boundary, the moving perspective re-keyed over the pieces of `child`.
pub open spec fn applied(net: &Network, parent: &Accumulator, pos: Position, child: Position, mv: Move, r: &Accumulator) -> bool {
    exists|mid: Accumulator|
        {
            &&& #[trigger] lazy_lanes(net, parent, pos, mv, &mid, move_threats(pos, mv))
            &&& mid.wk_base == parent.wk_base && mid.wk_flip == parent.wk_flip
            &&& mid.bk_base == parent.bk_base && mid.bk_flip == parent.bk_flip
            &&& if king_cross(pos, mv) {
                let to = orient(pos.stm, move_to(mv));
                reindexed(net, &mid, child, pos.stm, king_base(to), king_flip(to), r)
            } else {
                &&& r.w@ == mid.w@
                &&& r.b@ == mid.b@
                &&& r.wk_base == mid.wk_base && r.wk_flip == mid.wk_flip
                &&& r.bk_base == mid.bk_base && r.bk_flip == mid.bk_flip
            }
        }
}

/// The moving side's oriented from and to squares when it moves its own
/// king, and whether the move crosses a king-context boundary.
fn king_crossing(pos: &Position, mv: Move) -> (r: (bool, usize, usize))
    requires
        pos.board_ok(),
    ensures
        r.0 == king_cross(*pos, mv),
        r.0 ==> r.1 == king_base(orient(pos.stm, move_to(mv))) && r.2 == king_flip(orient(pos.stm, move_to(mv))),
        r.0 ==> ctx_ok(r.1 as int, r.2 as int),
{
    let from = mv.from();
    let to = mv.to();
    if let Some((c, pt)) = pos.piece_on(from) {
        if pt == PieceType::King && c == pos.stm {
            let (from_o, to_o) = if c == Color::White {
                (from, to)
            } else {
                (flip_rank_sq(from), flip_rank_sq(to))
            };
            let (nb, nf) = king_ctx(to_o);
            let (ob, of) = king_ctx(from_o);
            if nb != ob || nf != of {
                return (true, nb, nf);
            }
            return (false, 0, 0);
        }
    }
    proof {
        if pos.mailbox[from as int] == code_of(pos.stm, PieceType::King) {
            crate::position::lemma_code_parts(pos.stm, PieceType::King);
        }
    }
    (false, 0, 0)
}

/// The child accumulator after `mv`. When the side to move's king crosses a
/// bucket or mirror boundary, its perspective's piece rows all change keys:
/// the move is applied incrementally (threats and the other perspective are
/// unaffected by the king context), then that perspective is re-keyed over
/// the pieces of `child`.
pub fn apply(net: &Network, parent: &Accumulator, pos: &Position, child: &Position, mv: Move) -> (r: Accumulator)
    requires
        net.wf(),
        parent.shape_ok(),
        pos.wf(),
        pos.move_ok(mv),
        child.board_ok(),
    ensures
        r.shape_ok(),
        applied(net, parent, *pos, *child, mv, &r),
{
    let (cross, nb, nf) = king_crossing(pos, mv);
    let mut acc = apply_lazy(net, parent, pos, mv);
    let ghost mid = acc;
    if cross {
        acc.reindex_moving(net, child, pos.stm, nb, nf);
    }
    proof {
        assert(lazy_lanes(net, parent, *pos, mv, &mid, move_threats(*pos, mv)));
    }
    acc
}

/// Copy-fused incremental update: writes the child accumulator into `child`,
/// reading the unchanged lanes straight from `parent` in the same tiled pass
/// that folds in the move's piece and threat rows.
pub fn apply_lazy_into(net: &Network, parent: &Accumulator, child: &mut Accumulator, pos: &Position, mv: Move)
    requires
        net.wf(),
        parent.shape_ok(),
        old(child).w@.len() == HIDDEN,
        old(child).b@.len() == HIDDEN,
        pos.wf(),
        pos.move_ok(mv),
    ensures
        final(child).shape_ok(),
        final(child).wk_base == parent.wk_base && final(child).wk_flip == parent.wk_flip,
        final(child).bk_base == parent.bk_base && final(child).bk_flip == parent.bk_flip,
        lazy_lanes(net, parent, *pos, mv, final(child), move_threats(*pos, mv)),
{
    child.wk_base = parent.wk_base;
    child.wk_flip = parent.wk_flip;
    child.bk_base = parent.bk_base;
    child.bk_flip = parent.bk_flip;
    let (pb, batch) = decompose_move(parent, pos, mv);
    copy_fused_apply(&mut child.w, &parent.w, &net.piece_weights, &pb.w_idx, &pb.sign, &net.threat_weights, &batch.w_idx, &batch.sign);
    copy_fused_apply(&mut child.b, &parent.b, &net.piece_weights, &pb.b_idx, &pb.sign, &net.threat_weights, &batch.b_idx, &batch.sign);
    proof {
        let ch = piece_changes(*pos, mv);
        let t = (batch.w_idx@, batch.b_idx@, batch.sign@);
        assert forall|k: int| 0 <= k < HIDDEN implies #[trigger] child.w@[k] == wrap16(
            parent.w@[k] + change_delta(net, Color::White, parent.wk_base as int, parent.wk_flip as int, ch, ch.len() as int, k)
                + tdelta(net.threat_weights@, t.0, t.2, t.0.len() as int, k),
        ) by {
            lemma_pdelta_changes(net, &pb, parent, ch, ch.len() as int, k);
        }
        assert forall|k: int| 0 <= k < HIDDEN implies #[trigger] child.b@[k] == wrap16(
            parent.b@[k] + change_delta(net, Color::Black, parent.bk_base as int, parent.bk_flip as int, ch, ch.len() as int, k)
                + tdelta(net.threat_weights@, t.1, t.2, t.1.len() as int, k),
        ) by {
            lemma_pdelta_changes(net, &pb, parent, ch, ch.len() as int, k);
        }
        assert(lazy_lanes(net, parent, *pos, mv, child, t));
    }
}

/// `apply` writing into a slot the caller owns: the copy-fused incremental
/// update, then the re-key of the moving perspective on a king crossing.
pub fn apply_into(net: &Network, parent: &Accumulator, out: &mut Accumulator, pos: &Position, child: &Position, mv: Move)
    requires
        net.wf(),
        parent.shape_ok(),
        old(out).w@.len() == HIDDEN,
        old(out).b@.len() == HIDDEN,
        pos.wf(),
        pos.move_ok(mv),
        child.board_ok(),
    ensures
        final(out).shape_ok(),
        applied(net, parent, *pos, *child, mv, final(out)),
{
    let (cross, nb, nf) = king_crossing(pos, mv);
    apply_lazy_into(net, parent, out, pos, mv);
    let ghost mid = *out;
    if cross {
        out.reindex_moving(net, child, pos.stm, nb, nf);
    }
    proof {
        assert(lazy_lanes(net, parent, *pos, mv, &mid, move_threats(*pos, mv)));
    }
}

/// `apply_lazy` with the piece and threat rows folded in a single fused
/// tiled pass per perspective.
pub fn apply_lazy_fused(net: &Network, parent: &Accumulator, pos: &Position, mv: Move) -> (r: Accumulator)
    requires
        net.wf(),
        parent.shape_ok(),
        pos.wf(),
        pos.move_ok(mv),
    ensures
        r.shape_ok(),
        r.wk_base == parent.wk_base && r.wk_flip == parent.wk_flip,
        r.bk_base == parent.bk_base && r.bk_flip == parent.bk_flip,
        lazy_lanes(net, parent, *pos, mv, &r, move_threats(*pos, mv)),
{
    let mut acc = parent.duplicate();
    let (pb, batch) = decompose_move(parent, pos, mv);
    fused_apply(&mut acc.w, &net.piece_weights, &pb.w_idx, &pb.sign, &net.threat_weights, &batch.w_idx, &batch.sign);
    fused_apply(&mut acc.b, &net.piece_weights, &pb.b_idx, &pb.sign, &net.threat_weights, &batch.b_idx, &batch.sign);
    proof {
        let ch = piece_changes(*pos, mv);
        let t = (batch.w_idx@, batch.b_idx@, batch.sign@);
        assert forall|k: int| 0 <= k < HIDDEN implies #[trigger] acc.w@[k] == wrap16(
            parent.w@[k] + change_delta(net, Color::White, parent.wk_base as int, parent.wk_flip as int, ch, ch.len() as int, k)
                + tdelta(net.threat_weights@, t.0, t.2, t.0.len() as int, k),
        ) by {
            lemma_pdelta_changes(net, &pb, parent, ch, ch.len() as int, k);
        }
        assert forall|k: int| 0 <= k < HIDDEN implies #[trigger] acc.b@[k] == wrap16(
            parent.b@[k] + change_delta(net, Color::Black, parent.bk_base as int, parent.bk_flip as int, ch, ch.len() as int, k)
                + tdelta(net.threat_weights@, t.1, t.2, t.1.len() as int, k),
        ) by {
            lemma_pdelta_changes(net, &pb, parent, ch, ch.len() as int, k);
        }
        assert(lazy_lanes(net, parent, *pos, mv, &acc, t));
    }
    acc
}

// ---------------------------------------------------------------------------
// Piece rows across a move
// ---------------------------------------------------------------------------
/// Lane `k` of the piece row of square `s` holding `m` (0 when empty).
pub open spec fn cell(net: &Network, persp: Color, base: int, flip: int, m: u8, s: int, k: int) -> int {
    if m == EMPTY {
        0
    } else {
        net.pw(piece_feat(persp, code_color(m), piece_index(code_piece(m)), s, base, flip), k)
    }
}

/// Lane `k` summed over the piece rows of squares `0..n` of a mailbox.
pub open spec fn board_sum(net: &Network, persp: Color, base: int, flip: int, mb: Seq<u8>, n: int, k: int) -> int
    decreases n,
{
    if n <= 0 {
        0
    } else {
        board_sum(net, persp, base, flip, mb, n - 1, k) + cell(net, persp, base, flip, mb[n - 1], n - 1, k)
    }
}

proof fn lemma_psum_board(net: &Network, pos: Position, persp: Color, base: int, flip: int, n: int, k: int)
    requires
        0 <= n <= 64,
    ensures
        psum(net, piece_feats(pos, persp, base, flip, n), k) == board_sum(net, persp, base, flip, pos.mailbox@, n, k),
    decreases n,
{
    if n > 0 {
        lemma_psum_board(net, pos, persp, base, flip, n - 1, k);
        let m = pos.mailbox[n - 1];
        if m != EMPTY {
            lemma_psum_push(
                net,
                piece_feats(pos, persp, base, flip, n - 1),
                piece_feat(persp, code_color(m), piece_index(code_piece(m)), n - 1, base, flip),
                k,
            );
        }
    }
}

proof fn lemma_board_sum_update(net: &Network, persp: Color, base: int, flip: int, mb: Seq<u8>, t: int, v: u8, n: int, k: int)
    requires
        0 <= t < mb.len(),
        0 <= n <= mb.len(),
    ensures
        board_sum(net, persp, base, flip, mb.update(t, v), n, k) == board_sum(net, persp, base, flip, mb, n, k) + (if t < n {
            cell(net, persp, base, flip, v, t, k) - cell(net, persp, base, flip, mb[t], t, k)
        } else {
            0
        }),
    decreases n,
{
    if n > 0 {
        lemma_board_sum_update(net, persp, base, flip, mb, t, v, n - 1, k);
    }
}

proof fn lemma_quiet_or_capture_rows(net: &Network, pos: Position, mv: Move, persp: Color, base: int, flip: int, k: int)
    requires
        pos.board_ok(),
        pos.move_ok(mv),
        move_flags(mv) == 0 || move_flags(mv) == 1 || move_flags(mv) == 4,
    ensures
        board_sum(net, persp, base, flip, pos.mailbox_after(mv), 64, k) == board_sum(net, persp, base, flip, pos.mailbox@, 64, k)
            + change_delta(net, persp, base, flip, piece_changes(pos, mv), piece_changes(pos, mv).len() as int, k),
{
    let us = pos.stm;
    let from = move_from(mv);
    let to = move_to(mv);
    let f = move_flags(mv);
    let mb = pos.mailbox@;
    let m = mb[from];
    let ch = piece_changes(pos, mv);
    let mb1 = mb.update(from, EMPTY);
    lemma_board_sum_update(net, persp, base, flip, mb, from, EMPTY, 64, k);
    lemma_board_sum_update(net, persp, base, flip, mb1, to, m, 64, k);
    assert(mb1[to] == mb[to]);
    assert(pos.mailbox_after(mv) == mb1.update(to, m));
    let pt = code_piece(m);
    let up = cell(net, persp, base, flip, m, to, k);
    let down = cell(net, persp, base, flip, m, from, k);
    assert(up == net.pw(piece_feat(persp, us, piece_index(pt), to, base, flip), k));
    assert(down == net.pw(piece_feat(persp, us, piece_index(pt), from, base, flip), k));
    if f == 4 {
        let cap = mb[to];
        assert(ch.len() == 3);
        assert(ch[0] == (opposite(us), code_piece(cap), to, false));
        assert(ch[1] == (us, pt, from, false));
        assert(ch[2] == (us, pt, to, true));
        assert(change_delta(net, persp, base, flip, ch, 0, k) == 0);
        assert(change_delta(net, persp, base, flip, ch, 0, k) == 0);
    assert(change_delta(net, persp, base, flip, ch, 1, k) == change_term(net, persp, base, flip, ch[0], k));
        assert(change_delta(net, persp, base, flip, ch, 2, k) == change_term(net, persp, base, flip, ch[0], k) + change_term(net, persp, base, flip, ch[1], k));
        assert(change_delta(net, persp, base, flip, ch, 3, k) == change_term(net, persp, base, flip, ch[0], k) + change_term(net, persp, base, flip, ch[1], k) + change_term(net, persp, base, flip, ch[2], k));
    } else {
        assert(ch.len() == 2);
        assert(ch[0] == (us, pt, from, false));
        assert(ch[1] == (us, pt, to, true));
        assert(change_delta(net, persp, base, flip, ch, 0, k) == 0);
        assert(change_delta(net, persp, base, flip, ch, 0, k) == 0);
    assert(change_delta(net, persp, base, flip, ch, 1, k) == change_term(net, persp, base, flip, ch[0], k));
        assert(change_delta(net, persp, base, flip, ch, 2, k) == change_term(net, persp, base, flip, ch[0], k) + change_term(net, persp, base, flip, ch[1], k));
    }
}

proof fn lemma_castle_rows(net: &Network, pos: Position, mv: Move, persp: Color, base: int, flip: int, k: int)
    requires
        pos.board_ok(),
        pos.move_ok(mv),
        move_flags(mv) == 2 || move_flags(mv) == 3,
    ensures
        board_sum(net, persp, base, flip, pos.mailbox_after(mv), 64, k) == board_sum(net, persp, base, flip, pos.mailbox@, 64, k)
            + change_delta(net, persp, base, flip, piece_changes(pos, mv), piece_changes(pos, mv).len() as int, k),
{
    let us = pos.stm;
    let from = move_from(mv);
    let to = move_to(mv);
    let f = move_flags(mv);
    let mb = pos.mailbox@;
    let ch = piece_changes(pos, mv);
    let (rf, rt) = castle_rook_squares(us, f);
    let kk = code_of(us, PieceType::King);
    let rr = code_of(us, PieceType::Rook);
    crate::position::lemma_code_parts(us, PieceType::King);
    crate::position::lemma_code_parts(us, PieceType::Rook);
    let mb1 = mb.update(from, EMPTY);
    let mb2 = mb1.update(to, kk);
    let mb3 = mb2.update(rf, EMPTY);
    lemma_board_sum_update(net, persp, base, flip, mb, from, EMPTY, 64, k);
    lemma_board_sum_update(net, persp, base, flip, mb1, to, kk, 64, k);
    lemma_board_sum_update(net, persp, base, flip, mb2, rf, EMPTY, 64, k);
    lemma_board_sum_update(net, persp, base, flip, mb3, rt, rr, 64, k);
    assert(mb1[to] == EMPTY);
    assert(mb2[rf] == rr);
    assert(mb3[rt] == EMPTY);
    assert(pos.mailbox_after(mv) == mb3.update(rt, rr));
    let kd = cell(net, persp, base, flip, kk, from, k);
    let ku = cell(net, persp, base, flip, kk, to, k);
    let rd = cell(net, persp, base, flip, rr, rf, k);
    let ru = cell(net, persp, base, flip, rr, rt, k);
    assert(ch.len() == 4);
    assert(ch[0] == (us, PieceType::King, from, false));
    assert(ch[1] == (us, PieceType::King, to, true));
    assert(ch[2] == (us, PieceType::Rook, rf, false));
    assert(ch[3] == (us, PieceType::Rook, rt, true));
    assert(change_delta(net, persp, base, flip, ch, 0, k) == 0);
    assert(change_delta(net, persp, base, flip, ch, 1, k) == change_term(net, persp, base, flip, ch[0], k));
    assert(change_delta(net, persp, base, flip, ch, 2, k) == change_term(net, persp, base, flip, ch[0], k) + change_term(net, persp, base, flip, ch[1], k));
    assert(change_delta(net, persp, base, flip, ch, 3, k) == change_term(net, persp, base, flip, ch[0], k) + change_term(net, persp, base, flip, ch[1], k) + change_term(net, persp, base, flip, ch[2], k));
    assert(change_delta(net, persp, base, flip, ch, 4, k) == change_term(net, persp, base, flip, ch[0], k) + change_term(net, persp, base, flip, ch[1], k) + change_term(net, persp, base, flip, ch[2], k) + change_term(net, persp, base, flip, ch[3], k));
}

proof fn lemma_ep_rows(net: &Network, pos: Position, mv: Move, persp: Color, base: int, flip: int, k: int)
    requires
        pos.board_ok(),
        pos.move_ok(mv),
        move_flags(mv) == 5,
    ensures
        board_sum(net, persp, base, flip, pos.mailbox_after(mv), 64, k) == board_sum(net, persp, base, flip, pos.mailbox@, 64, k)
            + change_delta(net, persp, base, flip, piece_changes(pos, mv), piece_changes(pos, mv).len() as int, k),
{
    let us = pos.stm;
    let them = opposite(us);
    let from = move_from(mv);
    let to = move_to(mv);
    let mb = pos.mailbox@;
    let ch = piece_changes(pos, mv);
    let vsq = ep_victim_sq(us, to);
    let pu = code_of(us, PieceType::Pawn);
    let pv = code_of(them, PieceType::Pawn);
    crate::position::lemma_code_parts(us, PieceType::Pawn);
    crate::position::lemma_code_parts(them, PieceType::Pawn);
    let mb1 = mb.update(vsq, EMPTY);
    let mb2 = mb1.update(from, EMPTY);
    lemma_board_sum_update(net, persp, base, flip, mb, vsq, EMPTY, 64, k);
    lemma_board_sum_update(net, persp, base, flip, mb1, from, EMPTY, 64, k);
    lemma_board_sum_update(net, persp, base, flip, mb2, to, pu, 64, k);
    assert(mb1[from] == pu);
    assert(mb2[to] == EMPTY);
    assert(pos.mailbox_after(mv) == mb2.update(to, pu));
    assert(ch.len() == 3);
    assert(ch[0] == (them, PieceType::Pawn, vsq, false));
    assert(ch[1] == (us, PieceType::Pawn, from, false));
    assert(ch[2] == (us, PieceType::Pawn, to, true));
    assert(change_delta(net, persp, base, flip, ch, 0, k) == 0);
    assert(change_delta(net, persp, base, flip, ch, 1, k) == change_term(net, persp, base, flip, ch[0], k));
    assert(change_delta(net, persp, base, flip, ch, 2, k) == change_term(net, persp, base, flip, ch[0], k) + change_term(net, persp, base, flip, ch[1], k));
    assert(change_delta(net, persp, base, flip, ch, 3, k) == change_term(net, persp, base, flip, ch[0], k) + change_term(net, persp, base, flip, ch[1], k) + change_term(net, persp, base, flip, ch[2], k));
}

proof fn lemma_promo_rows(net: &Network, pos: Position, mv: Move, persp: Color, base: int, flip: int, k: int)
    requires
        pos.board_ok(),
        pos.move_ok(mv),
        move_flags(mv) >= 8,
    ensures
        board_sum(net, persp, base, flip, pos.mailbox_after(mv), 64, k) == board_sum(net, persp, base, flip, pos.mailbox@, 64, k)
            + change_delta(net, persp, base, flip, piece_changes(pos, mv), piece_changes(pos, mv).len() as int, k),
{
    let us = pos.stm;
    let from = move_from(mv);
    let to = move_to(mv);
    let f = move_flags(mv);
    let mb = pos.mailbox@;
    let ch = piece_changes(pos, mv);
    let pu = code_of(us, PieceType::Pawn);
    let pr = code_of(us, promo_piece_spec(f));
    crate::position::lemma_code_parts(us, PieceType::Pawn);
    crate::position::lemma_code_parts(us, promo_piece_spec(f));
    let mb1 = mb.update(from, EMPTY);
    lemma_board_sum_update(net, persp, base, flip, mb, from, EMPTY, 64, k);
    lemma_board_sum_update(net, persp, base, flip, mb1, to, pr, 64, k);
    assert(mb1[to] == mb[to]);
    assert(pos.mailbox_after(mv) == mb1.update(to, pr));
    let down = cell(net, persp, base, flip, pu, from, k);
    let up = cell(net, persp, base, flip, pr, to, k);
    if f >= 12 {
        let cap = mb[to];
        assert(ch.len() == 3);
        assert(ch[0] == (opposite(us), code_piece(cap), to, false));
        assert(ch[1] == (us, PieceType::Pawn, from, false));
        assert(ch[2] == (us, promo_piece_spec(f), to, true));
        assert(change_delta(net, persp, base, flip, ch, 0, k) == 0);
        assert(change_delta(net, persp, base, flip, ch, 0, k) == 0);
    assert(change_delta(net, persp, base, flip, ch, 1, k) == change_term(net, persp, base, flip, ch[0], k));
        assert(change_delta(net, persp, base, flip, ch, 2, k) == change_term(net, persp, base, flip, ch[0], k) + change_term(net, persp, base, flip, ch[1], k));
        assert(change_delta(net, persp, base, flip, ch, 3, k) == change_term(net, persp, base, flip, ch[0], k) + change_term(net, persp, base, flip, ch[1], k) + change_term(net, persp, base, flip, ch[2], k));
    } else {
        assert(ch.len() == 2);
        assert(ch[0] == (us, PieceType::Pawn, from, false));
        assert(ch[1] == (us, promo_piece_spec(f), to, true));
        assert(change_delta(net, persp, base, flip, ch, 0, k) == 0);
        assert(change_delta(net, persp, base, flip, ch, 0, k) == 0);
    assert(change_delta(net, persp, base, flip, ch, 1, k) == change_term(net, persp, base, flip, ch[0], k));
        assert(change_delta(net, persp, base, flip, ch, 2, k) == change_term(net, persp, base, flip, ch[0], k) + change_term(net, persp, base, flip, ch[1], k));
    }
}

/// Under any fixed king context, the piece rows of the position after `mv`
/// sum to those before it plus the move's piece changes, signed: the piece
/// half of an incremental update agrees with a rebuild.
pub proof fn lemma_piece_rows_after_move(
    net: &Network,
    pos: Position,
    mv: Move,
    child: Position,
    persp: Color,
    base: int,
    flip: int,
    k: int,
)
    requires
        pos.board_ok(),
        pos.move_ok(mv),
        child.mailbox@ == pos.mailbox_after(mv),
    ensures
        psum(net, piece_feats(child, persp, base, flip, 64), k) == psum(net, piece_feats(pos, persp, base, flip, 64), k)
            + change_delta(
            net,
            persp,
            base,
            flip,
            piece_changes(pos, mv),
            piece_changes(pos, mv).len() as int,
            k,
        ),
{
    let f = move_flags(mv);
    lemma_psum_board(net, pos, persp, base, flip, 64, k);
    lemma_psum_board(net, child, persp, base, flip, 64, k);
    if f == 2 || f == 3 {
        lemma_castle_rows(net, pos, mv, persp, base, flip, k);
    } else if f == 5 {
        lemma_ep_rows(net, pos, mv, persp, base, flip, k);
    } else if f >= 8 {
        lemma_promo_rows(net, pos, mv, persp, base, flip, k);
    } else {
        lemma_quiet_or_capture_rows(net, pos, mv, persp, base, flip, k);
    }
}

} // verus!
