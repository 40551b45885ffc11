//! Hand-crafted evaluation: material plus piece-square tables, white-relative
//! internally, returned from the side-to-move's perspective.

use crate::position::{EMPTY, Position, code_color, code_piece, start_code};
use crate::nnue::{Network, evaluate_spec};
use crate::types::{Color, PieceType, opposite, piece_index};
use vstd::prelude::*;

verus! {

pub type Score = i32;

pub const MATE: Score = 30_000;

pub const MATE_BOUND: Score = 29_000;

pub const DRAW: Score = 0;

pub const PIECE_VALUE: [Score; 6] = [100, 320, 330, 500, 900, 0];

// PSQTs, white perspective, a1 = index 0. Hand-rolled values reflecting
// standard principles: center control, development, king shelter, 7th-rank
// rooks, advanced pawns.
pub const PSQT: [[Score; 64]; 6] = [
    // pawn
    [
          0,   0,   0,   0,   0,   0,   0,   0,
          2,   4,   0, -12, -12,   6,   6,   2,
          2,  -2,  -4,   2,   2,  -8,  -2,   2,
          0,   2,   6,  16,  16,   4,   0,  -2,
          6,   8,  12,  20,  20,  10,   4,   2,
         16,  20,  24,  28,  28,  22,  16,  12,
         40,  44,  44,  44,  44,  40,  36,  36,
          0,   0,   0,   0,   0,   0,   0,   0,
    ],
    // knight
    [
        -40, -24, -16, -12, -12, -16, -24, -40,
        -24, -12,  -2,   4,   4,  -2, -12, -24,
        -14,   2,  10,  14,  14,  10,   2, -14,
        -10,   6,  16,  22,  22,  16,   6, -10,
         -8,   8,  18,  24,  24,  18,   8,  -8,
        -12,   4,  14,  18,  18,  14,   4, -12,
        -20,  -8,   2,   6,   6,   2,  -8, -20,
        -36, -20, -12,  -8,  -8, -12, -20, -36,
    ],
    // bishop
    [
        -16,  -8, -10,  -6,  -6, -10,  -8, -16,
         -4,   8,   4,   2,   2,   4,   8,  -4,
         -2,   6,   8,   6,   6,   8,   6,  -2,
          0,   4,   8,  12,  12,   8,   4,   0,
          0,   4,   8,  12,  12,   8,   4,   0,
         -2,   4,   8,   8,   8,   8,   4,  -2,
         -6,   2,   2,   2,   2,   2,   2,  -6,
        -14,  -8,  -8,  -6,  -6,  -8,  -8, -14,
    ],
    // rook
    [
         -4,  -2,   2,   6,   6,   2,  -2,  -4,
         -6,  -4,   0,   4,   4,   0,  -4,  -6,
         -6,  -2,   0,   4,   4,   0,  -2,  -6,
         -4,   0,   2,   4,   4,   2,   0,  -4,
          0,   2,   4,   6,   6,   4,   2,   0,
          4,   8,  10,  10,  10,  10,   8,   4,
         14,  16,  18,  20,  20,  18,  16,  14,
          8,  10,  10,  12,  12,  10,  10,   8,
    ],
    // queen
    [
        -12,  -8,  -6,   2,   2,  -6,  -8, -12,
         -6,   0,   4,   4,   4,   4,   0,  -6,
         -4,   2,   6,   6,   6,   6,   2,  -4,
         -2,   4,   6,   8,   8,   6,   4,  -2,
         -2,   4,   6,   8,   8,   6,   4,  -2,
         -4,   2,   6,   6,   6,   6,   2,  -4,
         -6,   0,   4,   4,   4,   4,   0,  -6,
        -12,  -8,  -4,   0,   0,  -4,  -8, -12,
    ],
    // king (middlegame-ish: shelter on back rank wings)
    [
         16,  24,   8, -12, -12,   2,  24,  18,
          8,   8,  -8, -20, -20,  -8,  10,  10,
        -12, -16, -24, -32, -32, -24, -16, -12,
        -24, -28, -36, -44, -44, -36, -28, -24,
        -32, -36, -44, -52, -52, -44, -36, -32,
        -36, -40, -48, -56, -56, -48, -40, -36,
        -40, -44, -52, -60, -60, -52, -44, -40,
        -44, -48, -56, -64, -64, -56, -48, -44,
    ],
];

pub open spec fn psqt_at(pt: int, sq: int) -> int {
    PSQT[pt][sq] as int
}

/// White-relative value of the mailbox entry `m` on square `s`: material plus
/// table value, black pieces read through the rank mirror (`s ^ 56`).
pub open spec fn sq_value(m: u8, s: int) -> int {
    if m >= 12 {
        0
    } else {
        let pt = piece_index(code_piece(m));
        if code_color(m) == Color::White {
            PIECE_VALUE[pt] + psqt_at(pt, s)
        } else {
            -(PIECE_VALUE[pt] + psqt_at(pt, mirror(s)))
        }
    }
}

/// Rank mirror of a square (a1 <-> a8).
pub open spec fn mirror(s: int) -> int {
    (7 - s / 8) * 8 + s % 8
}

/// White-relative sum over squares `0..n`.
pub open spec fn psqt_sum(mb: Seq<u8>, n: int) -> int
    decreases n,
{
    if n <= 0 {
        0
    } else {
        psqt_sum(mb, n - 1) + sq_value(mb[n - 1], n - 1)
    }
}

/// The start position is balanced: material and tables cancel.
pub proof fn lemma_psqt_start(pos: Position)
    requires
        forall|s: int| 0 <= s < 64 ==> #[trigger] pos.mailbox[s] == start_code(s),
    ensures
        psqt_eval_spec(pos) == 0,
{
    let mb = pos.mailbox@;
    assert forall|s: int| 0 <= s < 64 implies #[trigger] mb[s] == start_code(s) by {
        assert(mb[s] == pos.mailbox[s]);
    }
    assert(psqt_sum(mb, 16) == 3910) by {
        reveal_with_fuel(psqt_sum, 17);
    }
    assert(psqt_sum(mb, 48) == psqt_sum(mb, 16)) by {
        lemma_psqt_sum_empty(mb, 16, 48);
    }
    assert(psqt_sum(mb, 64) == 0) by {
        reveal_with_fuel(psqt_sum, 17);
    }
}

/// The mailbox entry with its colour swapped.
pub open spec fn swap_code(m: u8) -> u8 {
    if m >= 12 {
        m
    } else if m < 6 {
        (m + 6) as u8
    } else {
        (m - 6) as u8
    }
}

/// `q` is `p` with the colours swapped: the board mirrored rank for rank,
/// every piece of the other colour, and the other side to move.
pub open spec fn colour_flipped(p: Position, q: Position) -> bool {
    &&& forall|s: int| 0 <= s < 64 ==> #[trigger] q.mailbox[s] == swap_code(p.mailbox[mirror(s)])
    &&& q.stm == opposite(p.stm)
}

proof fn lemma_sq_value_swap(m: u8, s: int)
    requires
        0 <= s < 64,
    ensures
        sq_value(swap_code(m), s) == -sq_value(m, mirror(s)),
{
    assert(mirror(mirror(s)) == s);
    if m < 12 {
        assert(piece_index(code_piece(swap_code(m))) == piece_index(code_piece(m)));
    }
}

/// Rank `r` of the flipped board is rank `7 - r` of the board, negated.
proof fn lemma_rank_flipped(p: Position, q: Position, r: int)
    requires
        colour_flipped(p, q),
        0 <= r < 8,
    ensures
        psqt_sum(q.mailbox@, 8 * r + 8) - psqt_sum(q.mailbox@, 8 * r) == -(psqt_sum(
            p.mailbox@,
            8 * (7 - r) + 8,
        ) - psqt_sum(p.mailbox@, 8 * (7 - r))),
{
    assert forall|f: int| 0 <= f < 8 implies sq_value(#[trigger] q.mailbox@[8 * r + f], 8 * r + f) == -sq_value(
        p.mailbox@[8 * (7 - r) + f],
        8 * (7 - r) + f,
    ) by {
        assert(q.mailbox@[8 * r + f] == q.mailbox[8 * r + f]);
        assert(mirror(8 * r + f) == 8 * (7 - r) + f);
        lemma_sq_value_swap(p.mailbox[8 * (7 - r) + f], 8 * r + f);
    }
    assert(sq_value(q.mailbox@[8 * r], 8 * r) == -sq_value(p.mailbox@[8 * (7 - r)], 8 * (7 - r)));
    assert(sq_value(q.mailbox@[8 * r + 1], 8 * r + 1) == -sq_value(p.mailbox@[8 * (7 - r) + 1], 8 * (7 - r) + 1));
    assert(sq_value(q.mailbox@[8 * r + 2], 8 * r + 2) == -sq_value(p.mailbox@[8 * (7 - r) + 2], 8 * (7 - r) + 2));
    assert(sq_value(q.mailbox@[8 * r + 3], 8 * r + 3) == -sq_value(p.mailbox@[8 * (7 - r) + 3], 8 * (7 - r) + 3));
    assert(sq_value(q.mailbox@[8 * r + 4], 8 * r + 4) == -sq_value(p.mailbox@[8 * (7 - r) + 4], 8 * (7 - r) + 4));
    assert(sq_value(q.mailbox@[8 * r + 5], 8 * r + 5) == -sq_value(p.mailbox@[8 * (7 - r) + 5], 8 * (7 - r) + 5));
    assert(sq_value(q.mailbox@[8 * r + 6], 8 * r + 6) == -sq_value(p.mailbox@[8 * (7 - r) + 6], 8 * (7 - r) + 6));
    assert(sq_value(q.mailbox@[8 * r + 7], 8 * r + 7) == -sq_value(p.mailbox@[8 * (7 - r) + 7], 8 * (7 - r) + 7));
    reveal_with_fuel(psqt_sum, 9);
}

/// Colour symmetry: swapping the colours of every piece, mirroring the
/// board and passing the move leaves the material and table score, seen
/// from the side to move, unchanged.
pub proof fn lemma_psqt_colour_symmetry(p: Position, q: Position)
    requires
        colour_flipped(p, q),
    ensures
        psqt_eval_spec(q) == psqt_eval_spec(p),
{
    lemma_rank_flipped(p, q, 0);
    lemma_rank_flipped(p, q, 1);
    lemma_rank_flipped(p, q, 2);
    lemma_rank_flipped(p, q, 3);
    lemma_rank_flipped(p, q, 4);
    lemma_rank_flipped(p, q, 5);
    lemma_rank_flipped(p, q, 6);
    lemma_rank_flipped(p, q, 7);
    assert(psqt_sum(q.mailbox@, 0) == 0 && psqt_sum(p.mailbox@, 0) == 0);
}

/// Squares `lo..hi` holding nothing add nothing.
proof fn lemma_psqt_sum_empty(mb: Seq<u8>, lo: int, hi: int)
    requires
        0 <= lo <= hi <= mb.len(),
        forall|s: int| lo <= s < hi ==> #[trigger] mb[s] == EMPTY,
    ensures
        psqt_sum(mb, hi) == psqt_sum(mb, lo),
    decreases hi - lo,
{
    if hi > lo {
        lemma_psqt_sum_empty(mb, lo, hi - 1);
    }
}

/// Material + PSQT score from the side to move's point of view.
pub open spec fn psqt_eval_spec(pos: Position) -> int {
    if pos.stm == Color::White {
        psqt_sum(pos.mailbox@, 64)
    } else {
        -psqt_sum(pos.mailbox@, 64)
    }
}

proof fn lemma_table_bounds(pt: int, sq: int)
    requires
        0 <= pt < 6,
        0 <= sq < 64,
    ensures
        -100 <= psqt_at(pt, sq) <= 100,
        0 <= PIECE_VALUE[pt] <= 900,
{
    assert(forall|i: int, j: int| 0 <= i < 6 && 0 <= j < 64 ==> -100 <= #[trigger] PSQT[i][j] <= 100) by {
        assert(PSQT@.len() == 6);
    }
}

/// Hand-crafted material + PSQT eval, side-to-move relative.
pub fn evaluate_psqt(pos: &Position) -> (r: Score)
    requires
        pos.board_ok(),
    ensures
        r == psqt_eval_spec(*pos),
        -64_000 <= r <= 64_000,
{
    let mut score: i32 = 0;
    let mut sq: usize = 0;
    while sq < 64
        invariant
            0 <= sq <= 64,
            score == psqt_sum(pos.mailbox@, sq as int),
            -1000 * sq <= score <= 1000 * sq,
            pos.board_ok(),
        decreases 64 - sq,
    {
        let m = pos.mailbox[sq];
        proof {
            assert(pos.sq_ok(sq as int));
        }
        if m != EMPTY {
            let pt = (m % 6) as usize;
            proof {
                lemma_table_bounds(pt as int, sq as int);
                lemma_table_bounds(pt as int, mirror(sq as int));
            }
            if m < 6 {
                score = score + PIECE_VALUE[pt] + PSQT[pt][sq];
            } else {
                let msq = sq ^ 56;
                proof {
                    assert(msq == mirror(sq as int)) by (bit_vector)
                        requires
                            sq < 64,
                            msq == sq ^ 56,
                    ;
                }
                score = score - (PIECE_VALUE[pt] + PSQT[pt][msq]);
            }
        }
        sq += 1;
    }
    if pos.stm == Color::White {
        score
    } else {
        -score
    }
}

/// Static evaluation from the side to move's perspective: the network when
/// one is given, else the piece-square tables.
pub fn evaluate(pos: &Position, net: Option<&Network>) -> (r: Score)
    requires
        pos.wf(),
        net matches Some(n) ==> n.wf(),
    ensures
        net matches Some(n) ==> r == evaluate_spec(n, *pos),
        net is None ==> r == psqt_eval_spec(*pos),
{
    match net {
        Some(n) => crate::nnue::evaluate(n, pos),
        None => evaluate_psqt(pos),
    }
}

} // verus!
