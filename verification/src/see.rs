//! Static exchange evaluation: the swap-list algorithm with x-ray attackers
//! recomputed from the shrinking occupancy. Used to prune losing captures in
//! quiescence and to order captures.

use crate::bitboard::{Bitboard, bb, bb_spec, group_bits, in_bb, lemma_bits_ext, lsb, lsb_spec, lemma_lsb};
use crate::eval::{PIECE_VALUE, Score};
use crate::position::{EMPTY, Position, code_piece, ep_victim_sq};
use crate::types::{
    Color, Move, PieceType, Square, flags_promo, move_flags, move_from, move_to, opposite,
    piece_index, piece_of_index, promo_piece_spec,
};
use vstd::prelude::*;

verus! {

/// Exchange value of a piece type; the king is huge so that a king
/// "recapture" into further attackers resolves as losing.
pub open spec fn see_value_spec(pt: PieceType) -> int {
    match pt {
        PieceType::Pawn => 100,
        PieceType::Knight => 320,
        PieceType::Bishop => 330,
        PieceType::Rook => 500,
        PieceType::Queen => 900,
        PieceType::King => 20_000,
    }
}

pub fn see_value(pt: PieceType) -> (r: Score)
    ensures
        r == see_value_spec(pt),
{
    match pt {
        PieceType::Pawn => 100,
        PieceType::Knight => 320,
        PieceType::Bishop => 330,
        PieceType::Rook => 500,
        PieceType::Queen => 900,
        PieceType::King => 20_000,
    }
}

/// The least valuable piece of `side` in `att`, searching piece types from
/// index `i` upward: its square (lowest bit) and type.
pub open spec fn lva_from(pos: Position, att: u64, side: Color, i: int) -> Option<(int, PieceType)>
    decreases 6 - i,
{
    if i < 0 || i >= 6 {
        None
    } else {
        let set = att & pos.pieces_spec(side, piece_of_index(i));
        if set != 0 {
            Some((lsb_spec(set), piece_of_index(i)))
        } else {
            lva_from(pos, att, side, i + 1)
        }
    }
}

/// What `side` wins by capturing a piece worth `victim` on `to` (or by
/// declining), with the board holding `occ` and at most `n` captures left:
/// the least valuable attacker captures, and the opponent answers in turn.
pub open spec fn xchg(pos: Position, to: int, occ: u64, side: Color, victim: int, n: nat) -> int
    decreases n,
{
    if n == 0 {
        0
    } else {
        match lva_from(pos, pos.attackers_spec(to, side, occ) & occ, side, 0) {
            None => 0,
            Some((sq, pt)) => {
                let rest = xchg(
                    pos,
                    to,
                    occ ^ bb_spec(sq),
                    opposite(side),
                    see_value_spec(pt),
                    (n - 1) as nat,
                );
                if victim - rest > 0 {
                    victim - rest
                } else {
                    0
                }
            },
        }
    }
}

/// Value of the piece `mv` takes (a pawn for en passant, nothing for a quiet
/// move).
pub open spec fn captured_value(pos: Position, mv: Move) -> int {
    if move_flags(mv) == 5 {
        100
    } else if pos.mailbox[move_to(mv)] == EMPTY {
        0
    } else {
        see_value_spec(code_piece(pos.mailbox[move_to(mv)]))
    }
}

/// Occupancy once `mv` has been played on the exchange square: the mover
/// and, for en passant, the captured pawn are gone.
pub open spec fn occ_after_first(pos: Position, mv: Move) -> u64 {
    let occ0 = pos.occupied_spec();
    let occ1 = if move_flags(mv) == 5 {
        occ0 ^ bb_spec(ep_victim_sq(pos.stm, move_to(mv)))
    } else {
        occ0
    };
    occ1 ^ bb_spec(move_from(mv))
}

/// The piece that stands on the exchange square after `mv`.
pub open spec fn lands(pos: Position, mv: Move) -> PieceType {
    if flags_promo(move_flags(mv)) {
        promo_piece_spec(move_flags(mv))
    } else {
        code_piece(pos.mailbox[move_from(mv)])
    }
}

/// Exchange value of `mv` for the mover: what it takes, minus what the
/// opponent then wins back on the square with best play by both sides.
pub open spec fn see_spec(pos: Position, mv: Move) -> int {
    captured_value(pos, mv) - xchg(
        pos,
        move_to(mv),
        occ_after_first(pos, mv),
        opposite(pos.stm),
        see_value_spec(lands(pos, mv)),
        31,
    )
}

/// What a side wins in an exchange is never negative (it may decline) and
/// never more than the piece it takes.
pub proof fn lemma_xchg_bounds(pos: Position, to: int, occ: u64, side: Color, victim: int, n: nat)
    ensures
        0 <= xchg(pos, to, occ, side, victim, n),
        xchg(pos, to, occ, side, victim, n) <= if victim > 0 {
            victim
        } else {
            0
        },
    decreases n,
{
    if n > 0 {
        match lva_from(pos, pos.attackers_spec(to, side, occ) & occ, side, 0) {
            None => {},
            Some((sq, pt)) => {
                lemma_xchg_bounds(
                    pos,
                    to,
                    occ ^ bb_spec(sq),
                    opposite(side),
                    see_value_spec(pt),
                    (n - 1) as nat,
                );
            },
        }
    }
}

/// An exchange never wins more than the piece the move takes, and at worst
/// loses the piece that made it.
pub proof fn lemma_see_range(pos: Position, mv: Move)
    ensures
        captured_value(pos, mv) - see_value_spec(lands(pos, mv)) <= see_spec(pos, mv) <= captured_value(
            pos,
            mv,
        ),
{
    lemma_xchg_bounds(
        pos,
        move_to(mv),
        occ_after_first(pos, mv),
        opposite(pos.stm),
        see_value_spec(lands(pos, mv)),
        31,
    );
}

/// The exchange values are the evaluation's material values, the king
/// aside, which outweighs a whole side's other material.
pub proof fn law_see_values_match_material(pt: PieceType)
    ensures
        pt != PieceType::King ==> see_value_spec(pt) == PIECE_VALUE[piece_index(pt)],
        see_value_spec(PieceType::King) > 8 * PIECE_VALUE[0] + 2 * PIECE_VALUE[1] + 2 * PIECE_VALUE[2] + 2
            * PIECE_VALUE[3] + 9 * PIECE_VALUE[4],
{
}

proof fn lemma_no_attacker(pos: Position, side: Color, i: int)
    ensures
        lva_from(pos, 0, side, i) is None,
    decreases 6 - i,
{
    broadcast use group_bits;

    if 0 <= i < 6 {
        let x = pos.pieces_spec(side, piece_of_index(i));
        lemma_bits_ext(0u64 & x, 0);
        lemma_no_attacker(pos, side, i + 1);
    }
}

/// Taking a piece that nothing defends wins that piece's material value.
pub proof fn law_see_undefended(pos: Position, mv: Move)
    requires
        move_flags(mv) == 4,
        pos.mailbox[move_to(mv)] != EMPTY,
        code_piece(pos.mailbox[move_to(mv)]) != PieceType::King,
        pos.attackers_spec(move_to(mv), opposite(pos.stm), occ_after_first(pos, mv)) & occ_after_first(pos, mv)
            == 0,
    ensures
        see_spec(pos, mv) == PIECE_VALUE[piece_index(code_piece(pos.mailbox[move_to(mv)]))],
{
    lemma_no_attacker(pos, opposite(pos.stm), 0);
    law_see_values_match_material(code_piece(pos.mailbox[move_to(mv)]));
}

/// The least valuable attacker of `side` among `att`.
fn least_valuable(pos: &Position, att: Bitboard, side: Color) -> (r: Option<(Square, PieceType)>)
    ensures
        r matches Some((sq, pt)) ==> lva_from(*pos, att, side, 0) == Some((sq as int, pt)) && sq
            < 64,
        r is None ==> lva_from(*pos, att, side, 0) is None,
{
    let mut i: usize = 0;
    while i < 6
        invariant
            i <= 6,
            lva_from(*pos, att, side, 0) == lva_from(*pos, att, side, i as int),
        decreases 6 - i,
    {
        let pt = PieceType::from_idx(i);
        let set = att & pos.pieces(side, pt);
        if set != 0 {
            let sq = lsb(set);
            return Some((sq, pt));
        }
        i += 1;
    }
    None
}

/// One capture of the exchange: at stage state `k` the least valuable
/// attacker `(sq, pt)` takes, leading to stage state `k + 1`.
pub open spec fn stage_step(
    pos: Position,
    to: int,
    occs: Seq<u64>,
    sides: Seq<Color>,
    vals: Seq<int>,
    k: int,
) -> bool {
    exists|sq: int, pt: PieceType|
        {
            &&& #[trigger] lva_from(pos, pos.attackers_spec(to, sides[k], occs[k]) & occs[k], sides[k], 0)
                == Some((sq, pt))
            &&& occs[k + 1] == occs[k] ^ bb_spec(sq)
            &&& sides[k + 1] == opposite(sides[k])
            &&& vals[k + 1] == see_value_spec(pt)
        }
}

proof fn lemma_stage_unfold(
    pos: Position,
    to: int,
    occs: Seq<u64>,
    sides: Seq<Color>,
    vals: Seq<int>,
    k: int,
    n: nat,
)
    requires
        stage_step(pos, to, occs, sides, vals, k),
        n >= 1,
    ensures
        xchg(pos, to, occs[k], sides[k], vals[k], n) == ({
            let rest = xchg(pos, to, occs[k + 1], sides[k + 1], vals[k + 1], (n - 1) as nat);
            if vals[k] - rest > 0 {
                vals[k] - rest
            } else {
                0
            }
        }),
{
    let (sq, pt) = choose|sq: int, pt: PieceType|
        {
            &&& #[trigger] lva_from(pos, pos.attackers_spec(to, sides[k], occs[k]) & occs[k], sides[k], 0)
                == Some((sq, pt))
            &&& occs[k + 1] == occs[k] ^ bb_spec(sq)
            &&& sides[k + 1] == opposite(sides[k])
            &&& vals[k + 1] == see_value_spec(pt)
        };
    assert(lva_from(pos, pos.attackers_spec(to, sides[k], occs[k]) & occs[k], sides[k], 0) == Some(
        (sq, pt),
    ));
}

/// Exchange value of `mv` in centipawns from the mover's point of view. A
/// quiet move scores 0 minus whatever the opponent wins on its square.
pub fn see(pos: &Position, mv: Move) -> (r: Score)
    requires
        pos.board_ok(),
        move_flags(mv) == 5 ==> 0 <= ep_victim_sq(pos.stm, move_to(mv)) < 64,
        !flags_promo(move_flags(mv)) ==> pos.mailbox[move_from(mv)] != EMPTY,
    ensures
        r == see_spec(*pos, mv),
{
    let to = mv.to();
    let from = mv.from();

    let mut occ = pos.occupied();
    let mut stm = pos.stm;
    let mut gain: [i32; 32] = [0i32; 32];
    let mut d: usize = 0;

    if mv.is_en_passant() {
        let cap_sq = if pos.stm == Color::White {
            to - 8
        } else {
            to + 8
        };
        occ = occ ^ bb(cap_sq);
        gain[0] = see_value(PieceType::Pawn);
    } else {
        gain[0] = match pos.piece_on(to) {
            Some((_, pt)) => see_value(pt),
            None => 0,
        };
    }
    // the piece now standing on the target square (the last capturer); for
    // a promotion it is the promoted piece, not the pawn
    let mut on_square = if mv.is_promo() {
        mv.promo_piece()
    } else {
        match pos.piece_on(from) {
            Some((_, pt)) => pt,
            None => PieceType::Pawn,  // excluded by the precondition
        }
    };
    occ = occ ^ bb(from);
    stm = stm.flip();

    let ghost occs: Seq<u64> = seq![occ];
    let ghost sides: Seq<Color> = seq![stm];
    let ghost vals: Seq<int> = seq![see_value_spec(on_square)];
    proof {
        assert(occ == occ_after_first(*pos, mv));
        assert(gain[0] == captured_value(*pos, mv));
        assert(see_value_spec(on_square) == see_value_spec(lands(*pos, mv)));
    }

    let mut searching = true;
    while searching
        invariant
            d <= 31,
            searching ==> d < 31,
            occs.len() == d + 1,
            sides.len() == d + 1,
            vals.len() == d + 1,
            occs[d as int] == occ,
            sides[d as int] == stm,
            vals[d as int] == see_value_spec(on_square),
            occs[0] == occ_after_first(*pos, mv),
            sides[0] == opposite(pos.stm),
            vals[0] == see_value_spec(lands(*pos, mv)),
            to == move_to(mv),
            to < 64,
            gain[0] == captured_value(*pos, mv),
            0 <= gain[0] <= 20_000,
            forall|k: int| 0 <= k < d ==> #[trigger] stage_step(*pos, to as int, occs, sides, vals, k),
            forall|k: int| 0 <= k < d ==> #[trigger] gain[k + 1] == vals[k] - gain[k],
            forall|k: int| 0 <= k <= d ==> -20_000 * (k + 1) <= #[trigger] gain[k] <= 20_000 * (k + 1),
            forall|k: int| 0 <= k <= d ==> 100 <= #[trigger] vals[k] <= 20_000,
            !searching ==> xchg(*pos, to as int, occ, stm, vals[d as int], (31 - d) as nat) == 0,
        decreases (32 - d) + (if searching {
            1int
        } else {
            0int
        }),
    {
        let attackers = pos.attackers_to(to, stm, occ) & occ;
        match least_valuable(pos, attackers, stm) {
            None => {
                searching = false;
            },
            Some((sq, pt)) => {
                let ghost prev_occ = occ;
                let ghost prev_stm = stm;
                d += 1;
                gain[d] = see_value(on_square) - gain[d - 1];
                on_square = pt;
                occ = occ ^ bb(sq);
                stm = stm.flip();
                proof {
                    let ghost o0 = occs;
                    let ghost s0 = sides;
                    let ghost v0 = vals;
                    occs = occs.push(occ);
                    sides = sides.push(stm);
                    vals = vals.push(see_value_spec(pt));
                    let k = (d - 1) as int;
                    assert(occs[k] == prev_occ && sides[k] == prev_stm);
                    assert(lva_from(
                        *pos,
                        pos.attackers_spec(to as int, sides[k], occs[k]) & occs[k],
                        sides[k],
                        0,
                    ) == Some((sq as int, pt)));
                    assert(stage_step(*pos, to as int, occs, sides, vals, k));
                    assert forall|j: int| 0 <= j < d implies #[trigger] stage_step(
                        *pos,
                        to as int,
                        occs,
                        sides,
                        vals,
                        j,
                    ) by {
                        if j < k {
                            assert(stage_step(*pos, to as int, o0, s0, v0, j));
                            let (s2, p2) = choose|s2: int, p2: PieceType|
                                {
                                    &&& #[trigger] lva_from(
                                        *pos,
                                        pos.attackers_spec(to as int, s0[j], o0[j]) & o0[j],
                                        s0[j],
                                        0,
                                    ) == Some((s2, p2))
                                    &&& o0[j + 1] == o0[j] ^ bb_spec(s2)
                                    &&& s0[j + 1] == opposite(s0[j])
                                    &&& v0[j + 1] == see_value_spec(p2)
                                };
                            assert(occs[j] == o0[j] && occs[j + 1] == o0[j + 1]);
                            assert(sides[j] == s0[j] && sides[j + 1] == s0[j + 1]);
                            assert(vals[j + 1] == v0[j + 1]);
                            assert(lva_from(
                                *pos,
                                pos.attackers_spec(to as int, sides[j], occs[j]) & occs[j],
                                sides[j],
                                0,
                            ) == Some((s2, p2)));
                        }
                    }
                }
                if d + 1 >= 32 {
                    searching = false;
                }
            },
        }
    }

    // negamax the swap list, deepest capture first
    let ghost g = gain@;
    proof {
        lemma_xchg_bounds(*pos, to as int, occ, stm, vals[d as int], (31 - d) as nat);
    }
    while d > 0
        invariant
            d <= 31,
            occs.len() >= d + 1,
            sides.len() == occs.len(),
            vals.len() == occs.len(),
            g.len() == 32,
            forall|k: int| 0 <= k < d ==> #[trigger] stage_step(*pos, to as int, occs, sides, vals, k),
            forall|k: int| 0 <= k < d ==> g[k + 1] == vals[k] - #[trigger] g[k],
            forall|k: int| 0 <= k <= d ==> -20_000 * (k + 1) <= #[trigger] g[k] <= 20_000 * (k + 1),
            forall|k: int| 0 <= k <= d ==> 100 <= #[trigger] vals[k] <= 20_000,
            forall|k: int| 0 <= k < d ==> gain[k] == #[trigger] g[k],
            gain[d as int] == g[d as int] - xchg(
                *pos,
                to as int,
                occs[d as int],
                sides[d as int],
                vals[d as int],
                (31 - d) as nat,
            ),
            0 <= xchg(*pos, to as int, occs[d as int], sides[d as int], vals[d as int], (31 - d) as nat)
                <= 20_000,
        decreases d,
    {
        let ghost k = (d - 1) as int;
        proof {
            assert(stage_step(*pos, to as int, occs, sides, vals, k));
            lemma_stage_unfold(*pos, to as int, occs, sides, vals, k, (31 - k) as nat);
            assert(g[k + 1] == vals[k] - g[k]);
            assert(-20_000 * (k + 1) <= g[k] <= 20_000 * (k + 1));
            lemma_xchg_bounds(*pos, to as int, occs[k], sides[k], vals[k], (31 - k) as nat);
        }
        let a = gain[d - 1];
        let b = gain[d];
        gain[d - 1] = if -a > b {
            a
        } else {
            -b
        };
        d -= 1;
    }
    gain[0]
}

} // verus!
