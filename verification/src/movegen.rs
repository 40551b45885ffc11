//! Move generation using check masks and pin restriction. The generated
//! moves are exactly the king steps to unattacked squares, the castlings
//! the rules allow, and the other moves that keep to their pin and answer
//! the check (en passant: that leave the king unattacked by sliders), pins
//! and checks as the position computes them; every one can be played by
//! `Position::make`. Captures-only generation (for quiescence) yields the
//! captures and promotions among them.

use crate::bitboard::{
    Bitboard, RANK_1, RANK_2, RANK_7, RANK_8, bb, bb_spec, between, between_spec, bishop_attacks,
    bishop_spec,
    group_bits, in_bb, king_attacks, king_spec, knight_attacks, knight_spec,
    lemma_sliders_own_square, line_through, lsb, pawn_attacks, pop_lsb, popcount, popcount_spec,
    line_through_spec, lsb_spec, queen_attacks, queen_spec, rook_attacks, rook_spec, same_but,
};
use crate::position::{
    EMPTY, NO_SQUARE, Position, castle_rook_squares, code_color, code_of, code_piece, ep_victim_sq,
    lemma_code_parts, rights_mask_spec,
};
use crate::types::{
    BK, BQ, CAPTURE, CASTLE_KING, CASTLE_QUEEN, Color, DOUBLE_PUSH, EN_PASSANT, Move, PieceType,
    PROMO_B, PROMO_CAP_B, PROMO_CAP_N, PROMO_CAP_Q, PROMO_CAP_R, PROMO_N, PROMO_Q, PROMO_R, QUIET,
    Square, WK, WQ, color_index, flags_capture, flags_promo, move_flags, move_from, move_none,
    move_to, opposite, piece_index,
};
use vstd::prelude::*;

verus! {

pub const MAX_MOVES: usize = 256;

pub struct MoveList {
    pub moves: Vec<Move>,
}

impl MoveList {
    pub fn new() -> (r: MoveList)
        ensures
            r.moves@.len() == 0,
    {
        MoveList { moves: Vec::new() }
    }

    pub fn push(&mut self, mv: Move)
        ensures
            final(self).moves@ == old(self).moves@.push(mv),
    {
        self.moves.push(mv);
    }

    pub fn len(&self) -> (r: usize)
        ensures
            r == self.moves@.len(),
    {
        self.moves.len()
    }

    /// The moves in generation order.
    pub fn iter(&self) -> (r: Vec<Move>)
        ensures
            r@ == self.moves@,
    {
        let mut v: Vec<Move> = Vec::new();
        let mut i: usize = 0;
        while i < self.moves.len()
            invariant
                i <= self.moves@.len(),
                v@ == self.moves@.subrange(0, i as int),
            decreases self.moves@.len() - i,
        {
            v.push(self.moves[i]);
            i += 1;
            proof {
                assert(v@ =~= self.moves@.subrange(0, i as int));
            }
        }
        proof {
            assert(self.moves@.subrange(0, i as int) =~= self.moves@);
        }
        v
    }

    /// The move at index `i`.
    pub fn get(&self, i: usize) -> (r: Move)
        requires
            i < self.moves@.len(),
        ensures
            r == self.moves@[i as int],
    {
        self.moves[i]
    }
}

/// `make` can play `m` on `pos`.
#[verifier::opaque]
pub open spec fn playable(pos: Position, m: Move) -> bool {
    pos.move_ok(m)
}

pub proof fn lemma_playable(pos: Position, m: Move)
    requires
        playable(pos, m),
    ensures
        pos.move_ok(m),
{
    reveal(playable);
}

/// `after` extends `before` with moves that `make` can play, every king
/// move among them a legal king step or a legal castling; with `caps`, every
/// added move is a capture or a promotion.
pub open spec fn appended_ok(pos: Position, before: Seq<Move>, after: Seq<Move>, caps: bool) -> bool {
    &&& before.len() <= after.len()
    &&& after.subrange(0, before.len() as int) == before
    &&& forall|i: int|
        before.len() <= i < after.len() ==> playable(pos, #[trigger] after[i]) && king_move_sound(
            pos,
            after[i],
        ) && castle_sound(pos, after[i]) && listed(pos, after[i], caps)
    &&& caps ==> forall|i: int|
        before.len() <= i < after.len() ==> flags_capture(move_flags(#[trigger] after[i]))
            || flags_promo(move_flags(after[i]))
}

/// The king of the side to move, once it stands on `to`, is attacked by no
/// enemy piece: the enemy pieces as they stand before the move, on the board
/// with the king moved from its square to `to`. (A piece captured on `to`
/// is counted too, harmlessly: no piece attacks the square it stands on.)
pub open spec fn king_step_safe(pos: Position, to: int) -> bool {
    let ksq = pos.king_sq_spec(pos.stm);
    pos.attackers_spec(to, opposite(pos.stm), (pos.occupied_spec() & !bb_spec(ksq)) | bb_spec(to)) == 0
}

/// `to` is a legal king step (not castling) for the side to move: a square
/// next to its king, holding neither one of its own pieces nor the enemy
/// king, where the king is not attacked; with `caps`, one holding an enemy
/// piece.
#[verifier::opaque]
pub open spec fn legal_king_step(pos: Position, to: int, caps: bool) -> bool {
    let us = pos.stm;
    let m = pos.mailbox[to];
    &&& 0 <= to < 64
    &&& in_bb(king_spec(pos.king_sq_spec(us)), to)
    &&& (m == EMPTY || code_color(m) != us)
    &&& m != code_of(opposite(us), PieceType::King)
    &&& caps ==> m != EMPTY
    &&& king_step_safe(pos, to)
}

/// A move of the side to move's king, castling aside, goes to a legal king
/// step.
pub open spec fn king_move_sound(pos: Position, m: Move) -> bool {
    (pos.mailbox[move_from(m)] == code_of(pos.stm, PieceType::King) && (move_flags(m) == 0
        || move_flags(m) == 4)) ==> legal_king_step(pos, move_to(m), false)
}

/// The move of the side to move's king to `to`: a capture when `to` is
/// occupied, else quiet.
pub open spec fn king_step_move(pos: Position, to: int) -> Move {
    mv_of(
        pos.king_sq_spec(pos.stm),
        to,
        if pos.mailbox[to] == EMPTY {
            0
        } else {
            4
        },
    )
}

/// Every legal king step appears among the moves `before` was extended by.
pub open spec fn has_king_steps(pos: Position, moves: Seq<Move>, caps: bool) -> bool {
    forall|to: int| #[trigger] legal_king_step(pos, to, caps) ==> moves.contains(king_step_move(pos, to))
}

/// The squares a knight, bishop, rook or queen on `from` attacks.
pub open spec fn piece_reach(pt: PieceType, from: int, occ: u64) -> u64 {
    match pt {
        PieceType::Knight => knight_spec(from),
        PieceType::Bishop => bishop_spec(from, occ),
        PieceType::Rook => rook_spec(from, occ),
        _ => queen_spec(from, occ),
    }
}

/// A move of the side to move's knight, bishop, rook or queen from `from`
/// to a square it attacks, holding neither one of its own pieces nor the
/// enemy king; with `caps`, holding an enemy piece.
#[verifier::opaque]
pub open spec fn piece_step(pos: Position, from: int, to: int, caps: bool) -> bool {
    let us = pos.stm;
    let m = pos.mailbox[from];
    let v = pos.mailbox[to];
    &&& 0 <= from < 64
    &&& 0 <= to < 64
    &&& m != EMPTY
    &&& code_color(m) == us
    &&& code_piece(m) != PieceType::Pawn
    &&& code_piece(m) != PieceType::King
    &&& in_bb(piece_reach(code_piece(m), from, pos.occupied_spec()), to)
    &&& (v == EMPTY || code_color(v) != us)
    &&& v != code_of(opposite(us), PieceType::King)
    &&& caps ==> v != EMPTY
}

/// The move from `from` to `to`: a capture when `to` is occupied, else quiet.
pub open spec fn step_move(pos: Position, from: int, to: int) -> Move {
    mv_of(
        from,
        to,
        if pos.mailbox[to] == EMPTY {
            0
        } else {
            4
        },
    )
}

/// A move other than the king's to `to` answers the check the side to move
/// is in, if any: any square out of check; in check from one piece, that
/// piece's square or a square between it and the king; none in double
/// check.
pub open spec fn answers_check(pos: Position, to: int) -> bool {
    let ksq = pos.king_sq_spec(pos.stm);
    let checkers = pos.attackers_spec(ksq, opposite(pos.stm), pos.occupied_spec());
    if checkers == 0 {
        true
    } else if popcount_spec(checkers) == 1 {
        to == lsb_spec(checkers) || in_bb(between_spec(ksq, lsb_spec(checkers)), to)
    } else {
        false
    }
}

/// As far as pins go, the piece of the side to move on `from` may go to
/// `to`: it is not pinned to its king, or it is not a knight and `to` lies
/// on the line through its king and `from`.
pub open spec fn pin_ok(pos: Position, from: int, to: int) -> bool {
    !in_bb(pos.pinned_spec(), from) || (code_piece(pos.mailbox[from]) != PieceType::Knight && in_bb(
        line_through_spec(pos.king_sq_spec(pos.stm), from),
        to,
    ))
}

/// Every move of the side to move's knights, bishops, rooks and queens that
/// keeps to its pin, if any, and answers the check, if any, appears.
pub open spec fn has_piece_steps(pos: Position, moves: Seq<Move>, caps: bool) -> bool {
    forall|from: int, to: int| #[trigger]
        piece_step(pos, from, to, caps) && pin_ok(pos, from, to) && answers_check(pos, to)
            ==> moves.contains(step_move(pos, from, to))
}

/// The moves from `from` to every square of `targets` appear in `moves`.
pub open spec fn has_steps_to(pos: Position, from: int, targets: u64, moves: Seq<Move>) -> bool {
    forall|s: int| #[trigger] in_bb(targets, s) ==> moves.contains(step_move(pos, from, s))
}

/// One target of a piece is decided: the decided targets stay in the list.
proof fn lemma_step_kept(
    pos: Position,
    from: int,
    targets: u64,
    before: u64,
    t: u64,
    to: int,
    l0: Seq<Move>,
    l1: Seq<Move>,
)
    requires
        forall|s: int| #[trigger] in_bb(t, s) == (in_bb(before, s) && s != to),
        forall|s: int| #[trigger]
            in_bb(targets, s) && !in_bb(before, s) ==> l0.contains(step_move(pos, from, s)),
        l0.len() <= l1.len(),
        l1.subrange(0, l0.len() as int) == l0,
        l1.contains(step_move(pos, from, to)),
    ensures
        forall|s: int| #[trigger]
            in_bb(targets, s) && !in_bb(t, s) ==> l1.contains(step_move(pos, from, s)),
{
    assert forall|s: int| #[trigger] in_bb(targets, s) && !in_bb(t, s) implies l1.contains(
        step_move(pos, from, s),
    ) by {
        if s != to {
            assert(!in_bb(before, s));
            let i = choose|i: int| 0 <= i < l0.len() && l0[i] == step_move(pos, from, s);
            assert(l1.subrange(0, l0.len() as int)[i] == l1[i]);
        }
    }
}

/// The castling right of side `c` for castling with flags `f` (2 kingside,
/// 3 queenside).
pub open spec fn castle_right(c: Color, f: int) -> u8 {
    if c == Color::White {
        if f == 2 {
            WK
        } else {
            WQ
        }
    } else {
        if f == 2 {
            BK
        } else {
            BQ
        }
    }
}

/// The rights masks against each right's bit.
proof fn lemma_rights_bits(a: u8, m1: u8, m2: u8, b: u8)
    by (bit_vector)
    requires
        b == 1 || b == 2 || b == 4 || b == 8,
    ensures
        0xfcu8 & 1u8 == 0u8,
        0xfcu8 & 2u8 == 0u8,
        0xfcu8 & 4u8 == 4u8,
        0xfcu8 & 8u8 == 8u8,
        0xfdu8 & 1u8 == 1u8,
        0xfdu8 & 2u8 == 0u8,
        0xfdu8 & 4u8 == 4u8,
        0xfdu8 & 8u8 == 8u8,
        0xfeu8 & 1u8 == 0u8,
        0xfeu8 & 2u8 == 2u8,
        0xfeu8 & 4u8 == 4u8,
        0xfeu8 & 8u8 == 8u8,
        0xf3u8 & 1u8 == 1u8,
        0xf3u8 & 2u8 == 2u8,
        0xf3u8 & 4u8 == 0u8,
        0xf3u8 & 8u8 == 0u8,
        0xf7u8 & 1u8 == 1u8,
        0xf7u8 & 2u8 == 2u8,
        0xf7u8 & 4u8 == 4u8,
        0xf7u8 & 8u8 == 0u8,
        0xfbu8 & 1u8 == 1u8,
        0xfbu8 & 2u8 == 2u8,
        0xfbu8 & 4u8 == 0u8,
        0xfbu8 & 8u8 == 8u8,
        0xffu8 & 1u8 == 1u8,
        0xffu8 & 2u8 == 2u8,
        0xffu8 & 4u8 == 4u8,
        0xffu8 & 8u8 == 8u8,
        ((a & m1 & m2) & b != 0) == ((a & b != 0) && (m1 & b != 0) && (m2 & b != 0)),
{
}

/// Castling rights are lost exactly by touching their squares: a move from
/// or to square `s` takes away side `c`'s right to castle with flags `f`
/// exactly when `s` is that castling's king or rook home square.
pub proof fn law_rights_cleared_by_square(s: int, c: Color, f: int)
    requires
        f == 2 || f == 3,
    ensures
        (rights_mask_spec(s) & castle_right(c, f) == 0) == (s == castle_squares(c, f).0 || s == castle_squares(
            c,
            f,
        ).2),
{
    lemma_rights_bits(0, 0, 0, 1);
}

/// After a move, a side keeps a castling right exactly when it held it and
/// the move neither left nor reached that castling's king or rook square.
pub proof fn law_make_keeps_rights(pos: Position, mv: Move, r: Position, c: Color, f: int)
    requires
        pos.made(mv, r),
        f == 2 || f == 3,
    ensures
        (r.castling & castle_right(c, f) != 0) == (pos.castling & castle_right(c, f) != 0 && move_from(mv)
            != castle_squares(c, f).0 && move_from(mv) != castle_squares(c, f).2 && move_to(mv) != castle_squares(
            c,
            f,
        ).0 && move_to(mv) != castle_squares(c, f).2),
{
    let b = castle_right(c, f);
    lemma_rights_bits(pos.castling, rights_mask_spec(move_from(mv)), rights_mask_spec(move_to(mv)), b);
    law_rights_cleared_by_square(move_from(mv), c, f);
    law_rights_cleared_by_square(move_to(mv), c, f);
}

/// Castling with flags `f` for side `c`: the king's square and target, the
/// rook's square and target.
pub open spec fn castle_squares(c: Color, f: int) -> (int, int, int, int) {
    let home: int = if c == Color::White {
        4
    } else {
        60
    };
    if f == 2 {
        (home, home + 2, home + 3, home + 1)
    } else {
        (home, home - 2, home - 4, home - 1)
    }
}

/// Castling with flags `f` (2 kingside, 3 queenside) is legal for the side
/// to move: it holds the right; the squares the king and the rook move
/// across, their targets included, hold no piece but the two of them; and
/// no square the king stands on or crosses is attacked by the enemy, with
/// the king and the rook lifted off the board.
#[verifier::opaque]
pub open spec fn castle_legal(pos: Position, f: int) -> bool {
    let us = pos.stm;
    let (k, kt, r, rt) = castle_squares(us, f);
    let occ_ns = pos.occupied_spec() & !(bb_spec(k) | bb_spec(r));
    &&& (f == 2 || f == 3)
    &&& pos.castling & castle_right(us, f) != 0
    &&& forall|s: int|
        0 <= s < 64 && (span_spec(k, kt, s) || span_spec(r, rt, s)) && s != k && s != r
            ==> #[trigger] pos.mailbox[s] == EMPTY
    &&& forall|s: int| #[trigger]
        span_spec(k, kt, s) ==> pos.attackers_spec(s, opposite(us), occ_ns) == 0
}

/// The castling move with flags `f`.
pub open spec fn castle_move(pos: Position, f: int) -> Move {
    let (k, kt, r, rt) = castle_squares(pos.stm, f);
    mv_of(k, kt, f)
}

/// A castling move is a legal castling.
pub open spec fn castle_sound(pos: Position, m: Move) -> bool {
    (move_flags(m) == 2 || move_flags(m) == 3) ==> castle_legal(pos, move_flags(m)) && m == castle_move(
        pos,
        move_flags(m),
    )
}

/// When the side to move is not in check, every legal castling appears.
pub open spec fn has_castlings(pos: Position, moves: Seq<Move>) -> bool {
    !pos.in_check_spec() ==> forall|f: int| #[trigger]
        castle_legal(pos, f) ==> moves.contains(castle_move(pos, f))
}

/// An en-passant capture by the side to move's pawn on `from`: it attacks
/// the en-passant square.
pub open spec fn ep_capture(pos: Position, from: int) -> bool {
    &&& pos.ep != NO_SQUARE
    &&& 0 <= from < 64
    &&& pos.mailbox[from] == code_of(pos.stm, PieceType::Pawn)
    &&& in_bb(crate::bitboard::pawn_spec(pos.stm, from), pos.ep as int)
}

/// After the en-passant capture from `from` (the pawn moved, the captured
/// pawn gone), no enemy rook, bishop or queen attacks the side to move's
/// king.
pub open spec fn ep_safe(pos: Position, from: int) -> bool {
    let us = pos.stm;
    let them = opposite(us);
    let ep = pos.ep as int;
    let ksq = pos.king_sq_spec(us);
    let occ = (pos.occupied_spec() ^ bb_spec(from) ^ bb_spec(ep_victim_sq(us, ep))) | bb_spec(ep);
    let queens = pos.pieces_spec(them, PieceType::Queen);
    (rook_spec(ksq, occ) & (pos.pieces_spec(them, PieceType::Rook) | queens)) | (bishop_spec(ksq, occ)
        & (pos.pieces_spec(them, PieceType::Bishop) | queens)) == 0
}

/// Every en-passant capture that leaves the king unattacked and answers
/// the check, if any, appears.
pub open spec fn has_ep_captures(pos: Position, moves: Seq<Move>) -> bool {
    forall|from: int| #[trigger]
        ep_capture(pos, from) && ep_safe(pos, from) && ep_answers(pos) ==> moves.contains(
            mv_of(from, pos.ep as int, 5),
        )
}

/// An en-passant capture answers the check the side to move is in, if any:
/// it takes the checking pawn, or lands on a square that answers the check.
pub open spec fn ep_answers(pos: Position) -> bool {
    let checkers = pos.attackers_spec(pos.king_sq_spec(pos.stm), opposite(pos.stm), pos.occupied_spec());
    checkers == bb_spec(ep_victim_sq(pos.stm, pos.ep as int)) || answers_check(pos, pos.ep as int)
}

/// `m` is a move of the side to move of one of the kinds the generator
/// lists (with `caps`, captures and promotions only): a legal king step; a
/// legal castling, out of check; a move of a knight, bishop, rook or queen, or a pawn push
/// or capture, that keeps to its pin and answers the check; or an
/// en-passant capture that leaves the king unattacked and answers the check.
#[verifier::opaque]
pub open spec fn listed(pos: Position, m: Move, caps: bool) -> bool {
    let from = move_from(m);
    let to = move_to(m);
    let f = move_flags(m);
    ||| legal_king_step(pos, to, caps) && m == king_step_move(pos, to)
    ||| !caps && !pos.in_check_spec() && castle_legal(pos, f) && m == castle_move(pos, f)
    ||| piece_step(pos, from, to, caps) && pin_ok(pos, from, to) && answers_check(pos, to) && m
        == step_move(pos, from, to)
    ||| pawn_move(pos, from, to, f, caps) && pin_ok(pos, from, to) && answers_check(pos, to) && m
        == mv_of(from, to, f)
    ||| ep_capture(pos, from) && ep_safe(pos, from) && ep_answers(pos) && m == mv_of(
        from,
        pos.ep as int,
        5,
    )
}

proof fn lemma_listed_piece(pos: Position, from: int, to: int, caps: bool)
    requires
        0 <= from < 64,
        0 <= to < 64,
        piece_step(pos, from, to, caps),
        pin_ok(pos, from, to),
        answers_check(pos, to),
    ensures
        listed(pos, step_move(pos, from, to), caps),
{
    reveal(listed);
    lemma_mv_of(
        from,
        to,
        if pos.mailbox[to] == EMPTY {
            0
        } else {
            4
        },
    );
}

proof fn lemma_listed_pawn(pos: Position, from: int, to: int, f: int, caps: bool)
    requires
        0 <= from < 64,
        0 <= to < 64,
        0 <= f < 16,
        pawn_move(pos, from, to, f, caps),
        pin_ok(pos, from, to),
        answers_check(pos, to),
    ensures
        listed(pos, mv_of(from, to, f), caps),
{
    reveal(listed);
    lemma_mv_of(from, to, f);
}

proof fn lemma_listed_ep(pos: Position, from: int, caps: bool)
    requires
        0 <= from < 64,
        0 <= pos.ep < 64,
        ep_capture(pos, from),
        ep_safe(pos, from),
        ep_answers(pos),
    ensures
        listed(pos, mv_of(from, pos.ep as int, 5), caps),
{
    reveal(listed);
    lemma_mv_of(from, pos.ep as int, 5);
}

proof fn lemma_listed_castle(pos: Position, f: int)
    requires
        castle_legal(pos, f),
        !pos.in_check_spec(),
        0 <= castle_squares(pos.stm, f).0 < 64,
        0 <= castle_squares(pos.stm, f).1 < 64,
    ensures
        listed(pos, castle_move(pos, f), false),
{
    reveal(listed);
    reveal(castle_legal);
    lemma_mv_of(castle_squares(pos.stm, f).0, castle_squares(pos.stm, f).1, f);
}

proof fn lemma_appended_keeps(pos: Position, a: Seq<Move>, b: Seq<Move>, caps: bool, m: Move)
    requires
        appended_ok(pos, a, b, caps),
        a.contains(m),
    ensures
        b.contains(m),
{
    let i = choose|i: int| 0 <= i < a.len() && a[i] == m;
    assert(b.subrange(0, a.len() as int)[i] == b[i]);
}

proof fn lemma_appended_king_steps(pos: Position, a: Seq<Move>, b: Seq<Move>, caps: bool)
    requires
        appended_ok(pos, a, b, caps),
        has_king_steps(pos, a, caps),
    ensures
        has_king_steps(pos, b, caps),
{
    assert forall|to: int| #[trigger] legal_king_step(pos, to, caps) implies b.contains(
        king_step_move(pos, to),
    ) by {
        lemma_appended_keeps(pos, a, b, caps, king_step_move(pos, to));
    }
}

/// The generator's check mask holds exactly the squares that answer the
/// check.
proof fn lemma_check_mask(pos: Position, mask: u64, checkers: u64)
    requires
        checkers == pos.attackers_spec(pos.king_sq_spec(pos.stm), opposite(pos.stm), pos.occupied_spec()),
        popcount_spec(checkers) < 2,
        checkers == 0 ==> mask == !0u64,
        checkers != 0 ==> mask == between_spec(pos.king_sq_spec(pos.stm), lsb_spec(checkers)) | checkers,
    ensures
        forall|to: int| 0 <= to < 64 ==> #[trigger] answers_check(pos, to) == in_bb(mask, to),
{
    crate::bitboard::lemma_popcount_one(checkers);
    if checkers != 0 {
        assert(popcount_spec(checkers) == 1);
    }
    assert forall|to: int| 0 <= to < 64 implies #[trigger] answers_check(pos, to) == in_bb(mask, to) by {
        if checkers == 0 {
            crate::bitboard::lemma_has_not(0u64, to);
            crate::bitboard::lemma_has_zero(to);
        } else {
            crate::bitboard::lemma_lsb(checkers);
            crate::bitboard::lemma_has_or(
                between_spec(pos.king_sq_spec(pos.stm), lsb_spec(checkers)),
                checkers,
                to,
            );
        }
    }
}

/// The masked steps of the unpinned pieces include every step that answers
/// the check.
proof fn lemma_piece_steps_done(pos: Position, moves: Seq<Move>, caps: bool, mask: u64, pinned: u64, checkers: u64)
    requires
        checkers == pos.attackers_spec(pos.king_sq_spec(pos.stm), opposite(pos.stm), pos.occupied_spec()),
        popcount_spec(checkers) < 2,
        checkers == 0 ==> mask == !0u64,
        checkers != 0 ==> mask == between_spec(pos.king_sq_spec(pos.stm), lsb_spec(checkers)) | checkers,
        pinned == pos.pinned_spec(),
        forall|from: int, to: int| #[trigger]
            masked_step(pos, from, to, mask, pinned, caps) ==> moves.contains(step_move(pos, from, to)),
    ensures
        has_piece_steps(pos, moves, caps),
{
    lemma_check_mask(pos, mask, checkers);
    assert forall|from: int, to: int| #[trigger]
        piece_step(pos, from, to, caps) && pin_ok(pos, from, to) && answers_check(pos, to) implies moves.contains(
        step_move(pos, from, to),
    ) by {
        reveal(piece_step);
        assert(masked_step(pos, from, to, mask, pinned, caps));
    }
}

proof fn lemma_appended_piece_steps(pos: Position, a: Seq<Move>, b: Seq<Move>, caps: bool)
    requires
        appended_ok(pos, a, b, caps),
        has_piece_steps(pos, a, caps),
    ensures
        has_piece_steps(pos, b, caps),
{
    assert forall|from: int, to: int| #[trigger]
        piece_step(pos, from, to, caps) && pin_ok(pos, from, to) && answers_check(pos, to) implies b.contains(
        step_move(pos, from, to),
    ) by {
        lemma_appended_keeps(pos, a, b, caps, step_move(pos, from, to));
    }
}

/// The enemy attackers of `to` do not depend on whether `to` is occupied.
proof fn lemma_attackers_own_square(pos: Position, to: int, c: Color, occ: u64, occ2: u64)
    requires
        0 <= to < 64,
        same_but(occ, occ2, to),
    ensures
        pos.attackers_spec(to, c, occ) == pos.attackers_spec(to, c, occ2),
{
    lemma_sliders_own_square(to, occ, occ2);
}

proof fn lemma_appended_trans(pos: Position, a: Seq<Move>, b: Seq<Move>, c: Seq<Move>, caps: bool)
    requires
        appended_ok(pos, a, b, caps),
        appended_ok(pos, b, c, caps),
    ensures
        appended_ok(pos, a, c, caps),
{
    assert(c.subrange(0, a.len() as int) =~= b.subrange(0, a.len() as int));
    assert forall|i: int| a.len() <= i < c.len() implies playable(pos, #[trigger] c[i])
        && king_move_sound(pos, c[i]) && castle_sound(pos, c[i]) && listed(pos, c[i], caps) && (caps ==> flags_capture(move_flags(c[i])) || flags_promo(
        move_flags(c[i]),
    )) by {
        if i < b.len() {
            assert(c[i] == c.subrange(0, b.len() as int)[i]);
        }
    }
}

proof fn lemma_appended_refl(pos: Position, a: Seq<Move>, caps: bool)
    ensures
        appended_ok(pos, a, a, caps),
{
    assert(a.subrange(0, a.len() as int) == a);
}

/// Append one move that `make` can play.
fn emit(pos: &Position, list: &mut MoveList, from: Square, to: Square, flags: u16, Ghost(
    caps,
): Ghost<bool>)
    requires
        from < 64,
        to < 64,
        flags < 16,
        playable(*pos, Move((from + to * 64 + flags * 4096) as u16)),
        king_move_sound(*pos, Move((from + to * 64 + flags * 4096) as u16)),
        castle_sound(*pos, Move((from + to * 64 + flags * 4096) as u16)),
        listed(*pos, Move((from + to * 64 + flags * 4096) as u16), caps),
        caps ==> flags_capture(flags as int) || flags_promo(flags as int),
    ensures
        appended_ok(*pos, old(list).moves@, final(list).moves@, caps),
        final(list).moves@.len() == old(list).moves@.len() + 1,
        final(list).moves@ == old(list).moves@.push(mv_of(from as int, to as int, flags as int)),
{
    let mv = Move::new(from, to, flags);
    let ghost before = list.moves@;
    list.push(mv);
    proof {
        assert(list.moves@.subrange(0, before.len() as int) == before);
    }
}

/// Facts about one square read off the bitboards.
proof fn lemma_square(pos: Position, s: int)
    requires
        pos.board_ok(),
        0 <= s < 64,
    ensures
        forall|c: Color, pt: PieceType| #[trigger]
            in_bb(pos.pieces_spec(c, pt), s) == (pos.mailbox[s] == code_of(c, pt)),
        in_bb(pos.occupied_spec(), s) == (pos.mailbox[s] != EMPTY),
        forall|c: Color| #[trigger]
            in_bb(pos.color_bb[color_index(c)], s) == (pos.mailbox[s] != EMPTY && code_color(
                pos.mailbox[s],
            ) == c),
{
    assert forall|c: Color, pt: PieceType| #[trigger]
        in_bb(pos.pieces_spec(c, pt), s) == (pos.mailbox[s] == code_of(c, pt)) by {
        pos.lemma_pieces(c, pt, s);
    }
    assert forall|c: Color| #[trigger]
        in_bb(pos.color_bb[color_index(c)], s) == (pos.mailbox[s] != EMPTY && code_color(
            pos.mailbox[s],
        ) == c) by {
        pos.lemma_pieces(c, PieceType::Pawn, s);
    }
    pos.lemma_pieces(Color::White, PieceType::Pawn, s);
}

/// A target square that is not ours and not the enemy king can be moved to,
/// quietly when empty and as a capture otherwise.
proof fn lemma_target(pos: Position, to: int, mask: u64)
    requires
        pos.board_ok(),
        0 <= to < 64,
        in_bb(mask, to),
        forall|s: int| #[trigger]
            in_bb(mask, s) ==> !in_bb(pos.color_bb[color_index(pos.stm)], s) && !in_bb(
                pos.pieces_spec(opposite(pos.stm), PieceType::King),
                s,
            ),
    ensures
        pos.mailbox[to] == EMPTY || (code_color(pos.mailbox[to]) == opposite(pos.stm)
            && code_piece(pos.mailbox[to]) != PieceType::King && pos.mailbox[to] < 12),
        in_bb(pos.color_bb[color_index(opposite(pos.stm))], to) == (pos.mailbox[to] != EMPTY),
{
    lemma_square(pos, to);
    assert(pos.sq_ok(to));
    let m = pos.mailbox[to];
    if m != EMPTY {
        crate::position::lemma_code_roundtrip(m);
        assert(m == code_of(code_color(m), code_piece(m)));
        if code_piece(m) == PieceType::King {
            assert(in_bb(pos.pieces_spec(opposite(pos.stm), PieceType::King), to));
        }
    }
}

/// A non-pawn piece stepping to an empty square, or capturing a non-king
/// enemy piece, is playable.
#[verifier::spinoff_prover]
proof fn lemma_step_ok(pos: Position, from: int, to: int, pt: PieceType, f: int)
    requires
        pos.wf(),
        0 <= from < 64,
        0 <= to < 64,
        pt != PieceType::Pawn,
        pos.mailbox[from] == code_of(pos.stm, pt),
        (pos.mailbox[to] == EMPTY && f == 0) || (pos.mailbox[to] != EMPTY && pos.mailbox[to]
            < 12 && code_color(pos.mailbox[to]) == opposite(pos.stm) && code_piece(
            pos.mailbox[to],
        ) != PieceType::King && f == 4),
    ensures
        playable(pos, Move((from + to * 64 + f * 4096) as u16)),
{
    reveal(playable);
    lemma_code_parts(pos.stm, pt);
    let v = (from + to * 64 + f * 4096) as u16;
    assert(v == from + to * 64 + f * 4096);
}

/// Moves of a non-pawn piece from `from` to every square of `targets`.
fn gen_piece_moves(
    pos: &Position,
    list: &mut MoveList,
    pt: PieceType,
    from: Square,
    targets: Bitboard,
    Ghost(caps): Ghost<bool>,
)
    requires
        pos.wf(),
        from < 64,
        pt != PieceType::Pawn,
        pt != PieceType::King,
        pos.mailbox[from as int] == code_of(pos.stm, pt),
        forall|s: int| #[trigger]
            in_bb(targets, s) ==> !in_bb(pos.color_bb[color_index(pos.stm)], s) && !in_bb(
                pos.pieces_spec(opposite(pos.stm), PieceType::King),
                s,
            ),
        caps ==> forall|s: int| #[trigger]
            in_bb(targets, s) ==> in_bb(pos.color_bb[color_index(opposite(pos.stm))], s),
        forall|s: int| #[trigger]
            in_bb(targets, s) ==> piece_step(*pos, from as int, s, caps) && pin_ok(*pos, from as int, s)
                && answers_check(*pos, s),
    ensures
        appended_ok(*pos, old(list).moves@, final(list).moves@, caps),
        has_steps_to(*pos, from as int, targets, final(list).moves@),
{
    let theirs = pos.color_bb[pos.stm.flip().idx()];
    let mut t = targets;
    proof {
        lemma_appended_refl(*pos, list.moves@, caps);
        lemma_code_parts(pos.stm, pt);
    }
    let ghost start = list.moves@;
    while t != 0
        invariant
            pos.wf(),
            from < 64,
            pt != PieceType::Pawn,
            pt != PieceType::King,
            pos.mailbox[from as int] == code_of(pos.stm, pt),
            theirs == pos.color_bb[color_index(opposite(pos.stm))],
            forall|s: int| #[trigger]
                in_bb(t, s) ==> !in_bb(pos.color_bb[color_index(pos.stm)], s) && !in_bb(
                    pos.pieces_spec(opposite(pos.stm), PieceType::King),
                    s,
                ),
            caps ==> forall|s: int| #[trigger]
                in_bb(t, s) ==> in_bb(pos.color_bb[color_index(opposite(pos.stm))], s),
            appended_ok(*pos, start, list.moves@, caps),
            forall|s: int| #[trigger] in_bb(t, s) ==> in_bb(targets, s),
            forall|s: int| #[trigger]
                in_bb(targets, s) ==> piece_step(*pos, from as int, s, caps) && pin_ok(*pos, from as int, s)
                    && answers_check(*pos, s),
            forall|s: int| #[trigger]
                in_bb(targets, s) && !in_bb(t, s) ==> list.moves@.contains(
                    step_move(*pos, from as int, s),
                ),
        decreases t,
    {
        let ghost before = t;
        let ghost l0 = list.moves@;
        let to = pop_lsb(&mut t);
        proof {
            lemma_target(*pos, to as int, before);
            lemma_code_parts(pos.stm, pt);
        }
        let f = if theirs & bb(to) != 0 {
            CAPTURE
        } else {
            QUIET
        };
        proof {
            crate::bitboard::lemma_and_bit(theirs, to as u64);
            lemma_step_ok(*pos, from as int, to as int, pt, f as int);
            assert(in_bb(targets, to as int));
            lemma_listed_piece(*pos, from as int, to as int, caps);
        }
        let ghost mid = list.moves@;
        emit(pos, list, from, to, f, Ghost(caps));
        proof {
            lemma_appended_trans(*pos, start, mid, list.moves@, caps);
            assert(list.moves@[mid.len() as int] == step_move(*pos, from as int, to as int));
            assert(list.moves@.subrange(0, l0.len() as int) =~= l0);
            lemma_step_kept(*pos, from as int, targets, before, t, to as int, l0, list.moves@);
        }
    }
    proof {
        broadcast use group_bits;

    }
}

/// Rank masks as square ranges.
proof fn lemma_rank_masks(s: int)
    ensures
        in_bb(RANK_1, s) == (0 <= s < 8),
        in_bb(RANK_2, s) == (8 <= s < 16),
        in_bb(RANK_7, s) == (48 <= s < 56),
        in_bb(RANK_8, s) == (56 <= s < 64),
{
    if 0 <= s < 64 {
        let u = s as u64;
        assert(u < 64 ==> ((((0xffu64 >> u) & 1 == 1) == (u < 8)) && (((0xff00u64 >> u) & 1 == 1)
            == (8 <= u && u < 16)) && (((0x00ff_0000_0000_0000u64 >> u) & 1 == 1) == (48 <= u && u
            < 56)) && (((0xff00_0000_0000_0000u64 >> u) & 1 == 1) == (56 <= u)))) by (bit_vector);
    }
}

/// The squares a pawn attacks lie one rank ahead.
proof fn lemma_pawn_targets(c: Color, sq: int, s: int)
    requires
        0 <= sq < 64,
        in_bb(crate::bitboard::pawn_spec(c, sq), s),
    ensures
        c == Color::White ==> s == sq + 7 || s == sq + 9,
        c == Color::Black ==> s == sq - 7 || s == sq - 9,
{
    broadcast use group_bits;

    let f = sq % 8;
    let r = sq / 8;
    reveal(crate::bitboard::pawn_spec);
    reveal_with_fuel(crate::bitboard::leaper_spec, 3);
    if c == Color::White {
        let a = crate::bitboard::delta_bit(sq, -1, 1);
        let b = crate::bitboard::delta_bit(sq, 1, 1);
        assert(crate::bitboard::pawn_spec(c, sq) == (0u64 | a) | b);
        if 0 <= f - 1 < 8 && 0 <= r + 1 < 8 {
            assert(in_bb(a, s) ==> s == (r + 1) * 8 + f - 1);
        }
        if 0 <= f + 1 < 8 && 0 <= r + 1 < 8 {
            assert(in_bb(b, s) ==> s == (r + 1) * 8 + f + 1);
        }
    } else {
        let a = crate::bitboard::delta_bit(sq, -1, -1);
        let b = crate::bitboard::delta_bit(sq, 1, -1);
        assert(crate::bitboard::pawn_spec(c, sq) == (0u64 | a) | b);
        if 0 <= f - 1 < 8 && 0 <= r - 1 < 8 {
            assert(in_bb(a, s) ==> s == (r - 1) * 8 + f - 1);
        }
        if 0 <= f + 1 < 8 && 0 <= r - 1 < 8 {
            assert(in_bb(b, s) ==> s == (r - 1) * 8 + f + 1);
        }
    }
}

/// The squares a pawn of `c` on `sq` attacks: the two diagonal neighbours
/// one rank ahead.
proof fn lemma_pawn_char(c: Color, sq: int, s: int)
    requires
        0 <= sq < 64,
    ensures
        in_bb(crate::bitboard::pawn_spec(c, sq), s) == (0 <= s < 64 && s / 8 == sq / 8 + (if c
            == Color::White {
            1int
        } else {
            -1int
        }) && (s % 8 == sq % 8 - 1 || s % 8 == sq % 8 + 1)),
{
    broadcast use group_bits;

    let f = sq % 8;
    let r = sq / 8;
    let dr: int = if c == Color::White {
        1
    } else {
        -1
    };
    reveal(crate::bitboard::pawn_spec);
    reveal_with_fuel(crate::bitboard::leaper_spec, 3);
    let a = crate::bitboard::delta_bit(sq, -1, dr);
    let b = crate::bitboard::delta_bit(sq, 1, dr);
    if c == Color::White {
        assert(crate::bitboard::pawn_spec(c, sq) == (0u64 | a) | b);
    } else {
        assert(crate::bitboard::pawn_spec(c, sq) == (0u64 | a) | b);
    }
    if 0 <= f - 1 < 8 && 0 <= r + dr < 8 {
        assert(in_bb(a, s) == (s == (r + dr) * 8 + f - 1));
    } else {
        assert(!in_bb(a, s));
    }
    if 0 <= f + 1 < 8 && 0 <= r + dr < 8 {
        assert(in_bb(b, s) == (s == (r + dr) * 8 + f + 1));
    } else {
        assert(!in_bb(b, s));
    }
}

/// A pawn of `c` on `a` attacks `b` exactly when a pawn of the other color
/// on `b` attacks `a`.
proof fn lemma_pawn_symmetric(c: Color, a: int, b: int)
    requires
        0 <= a < 64,
        0 <= b < 64,
    ensures
        in_bb(crate::bitboard::pawn_spec(c, a), b) == in_bb(crate::bitboard::pawn_spec(opposite(c), b), a),
{
    lemma_pawn_char(c, a, b);
    lemma_pawn_char(opposite(c), b, a);
}

/// King steps to squares that no enemy piece attacks once the king has left
/// its square (so sliders see through it).
fn gen_king(pos: &Position, list: &mut MoveList, caps_only: bool)
    requires
        pos.wf(),
    ensures
        appended_ok(*pos, old(list).moves@, final(list).moves@, caps_only),
        has_king_steps(*pos, final(list).moves@, caps_only),
{
    broadcast use group_bits;

    let us = pos.stm;
    let them = us.flip();
    let ksq = pos.king_sq(us);
    let occ = pos.occupied();
    let ours = pos.color_bb[us.idx()];
    let theirs = pos.color_bb[them.idx()];
    let cap_targets = if caps_only {
        theirs
    } else {
        !0u64
    };
    let occ_no_king = occ ^ bb(ksq);
    let mut t = king_attacks(ksq) & !ours & cap_targets & !pos.pieces(them, PieceType::King);
    proof {
        lemma_appended_refl(*pos, list.moves@, caps_only);
        lemma_code_parts(us, PieceType::King);
        lemma_code_parts(them, PieceType::King);
        assert forall|s: int| #[trigger] legal_king_step(*pos, s, caps_only) implies in_bb(t, s) by {
            reveal(legal_king_step);
            lemma_square(*pos, s);
            let m = pos.mailbox[s];
            if m != EMPTY && code_color(m) != us {
                assert(code_color(m) == them);
            }
        }
    }
    let ghost start = list.moves@;
    while t != 0
        invariant
            pos.wf(),
            us == pos.stm,
            them == opposite(us),
            ksq < 64,
            ksq as int == pos.king_sq_spec(us),
            pos.mailbox[ksq as int] == code_of(us, PieceType::King),
            occ == pos.occupied_spec(),
            occ_no_king == occ ^ bb_spec(ksq as int),
            theirs == pos.color_bb[color_index(them)],
            forall|s: int| #[trigger]
                in_bb(t, s) ==> !in_bb(pos.color_bb[color_index(us)], s) && !in_bb(
                    pos.pieces_spec(them, PieceType::King),
                    s,
                ) && (caps_only ==> in_bb(theirs, s)),
            appended_ok(*pos, start, list.moves@, caps_only),
            forall|s: int| #[trigger] in_bb(t, s) ==> in_bb(king_spec(ksq as int), s),
            forall|s: int| #[trigger]
                legal_king_step(*pos, s, caps_only) && !in_bb(t, s) ==> list.moves@.contains(
                    king_step_move(*pos, s),
                ),
        decreases t,
    {
        let ghost before = t;
        let ghost l0 = list.moves@;
        let to = pop_lsb(&mut t);
        let safe = pos.attackers_to(to, them, occ_no_king) == 0;
        proof {
            lemma_target(*pos, to as int, before);
            crate::bitboard::lemma_and_bit(theirs, to as u64);
        }
        if safe {
            proof {
                lemma_code_parts(us, PieceType::King);
            }
            let f = if theirs & bb(to) != 0 {
                CAPTURE
            } else {
                QUIET
            };
            proof {
                lemma_step_ok(*pos, ksq as int, to as int, PieceType::King, f as int);
                lemma_king_test(*pos, to as int);
                lemma_king_target(*pos, to as int, before, caps_only);
                lemma_listed_king(*pos, to as int, caps_only);
                lemma_mv_of(ksq as int, to as int, f as int);
            }
            let ghost mid = list.moves@;
            emit(pos, list, ksq, to, f, Ghost(caps_only));
            proof {
                lemma_appended_trans(*pos, start, mid, list.moves@, caps_only);
                assert(king_step_move(*pos, to as int) == mv_of(ksq as int, to as int, f as int));
                assert(list.moves@[mid.len() as int] == king_step_move(*pos, to as int));
            }
        }
        proof {
            assert(list.moves@.subrange(0, l0.len() as int) =~= l0);
            lemma_king_step_kept(*pos, caps_only, to as int, before, t, l0, list.moves@, safe);
        }
    }
}

/// The generator's safety test for a king step is `king_step_safe`.
proof fn lemma_king_test(pos: Position, to: int)
    requires
        pos.wf(),
        0 <= to < 64,
        0 <= pos.king_sq_spec(pos.stm) < 64,
        pos.mailbox[pos.king_sq_spec(pos.stm)] == code_of(pos.stm, PieceType::King),
    ensures
        (pos.attackers_spec(
            to,
            opposite(pos.stm),
            pos.occupied_spec() ^ bb_spec(pos.king_sq_spec(pos.stm)),
        ) == 0) == king_step_safe(pos, to),
{
    broadcast use group_bits;

    let ksq = pos.king_sq_spec(pos.stm);
    let occ = pos.occupied_spec();
    let occ_no_king = occ ^ bb_spec(ksq);
    let after = (occ & !bb_spec(ksq)) | bb_spec(to);
    lemma_square(pos, ksq);
    assert(same_but(occ_no_king, after, to)) by {
        assert forall|s: int| 0 <= s < 64 && s != to implies #[trigger] in_bb(occ_no_king, s) == in_bb(
            after,
            s,
        ) by {
            assert(in_bb(bb_spec(ksq), s) == (s == ksq));
            assert(in_bb(bb_spec(to), s) == (s == to));
        }
    }
    lemma_attackers_own_square(pos, to, opposite(pos.stm), occ_no_king, after);
}

/// A target the king generator keeps, found safe, is a legal king step.
proof fn lemma_king_target(pos: Position, to: int, t: u64, caps: bool)
    requires
        pos.wf(),
        0 <= to < 64,
        in_bb(t, to),
        in_bb(king_spec(pos.king_sq_spec(pos.stm)), to),
        !in_bb(pos.color_bb[color_index(pos.stm)], to),
        !in_bb(pos.pieces_spec(opposite(pos.stm), PieceType::King), to),
        caps ==> in_bb(pos.color_bb[color_index(opposite(pos.stm))], to),
        king_step_safe(pos, to),
    ensures
        legal_king_step(pos, to, false),
        legal_king_step(pos, to, caps),
{
    reveal(legal_king_step);
    lemma_square(pos, to);
}

proof fn lemma_listed_king(pos: Position, to: int, caps: bool)
    requires
        0 <= pos.king_sq_spec(pos.stm) < 64,
        0 <= to < 64,
        legal_king_step(pos, to, caps),
    ensures
        listed(pos, king_step_move(pos, to), caps),
{
    reveal(listed);
    lemma_mv_of(
        pos.king_sq_spec(pos.stm),
        to,
        if pos.mailbox[to] == EMPTY {
            0
        } else {
            4
        },
    );
}

/// One king target is decided: the legal steps among the decided targets
/// stay in the list.
proof fn lemma_king_step_kept(
    pos: Position,
    caps: bool,
    to: int,
    before: u64,
    t: u64,
    l0: Seq<Move>,
    l1: Seq<Move>,
    safe: bool,
)
    requires
        pos.wf(),
        0 <= to < 64,
        pos.mailbox[pos.king_sq_spec(pos.stm)] == code_of(pos.stm, PieceType::King),
        0 <= pos.king_sq_spec(pos.stm) < 64,
        forall|s: int| #[trigger] in_bb(t, s) == (in_bb(before, s) && s != to),
        safe == (pos.attackers_spec(
            to,
            opposite(pos.stm),
            pos.occupied_spec() ^ bb_spec(pos.king_sq_spec(pos.stm)),
        ) == 0),
        forall|s: int| #[trigger]
            legal_king_step(pos, s, caps) && !in_bb(before, s) ==> l0.contains(king_step_move(pos, s)),
        l0.len() <= l1.len(),
        l1.subrange(0, l0.len() as int) == l0,
        safe ==> l1.contains(king_step_move(pos, to)),
    ensures
        forall|s: int| #[trigger]
            legal_king_step(pos, s, caps) && !in_bb(t, s) ==> l1.contains(king_step_move(pos, s)),
{
    broadcast use group_bits;

    let ksq = pos.king_sq_spec(pos.stm);
    let occ = pos.occupied_spec();
    let occ_no_king = occ ^ bb_spec(ksq);
    let after = (occ & !bb_spec(ksq)) | bb_spec(to);
    lemma_square(pos, ksq);
    assert(same_but(occ_no_king, after, to)) by {
        assert forall|s: int| 0 <= s < 64 && s != to implies #[trigger] in_bb(occ_no_king, s) == in_bb(
            after,
            s,
        ) by {
            assert(in_bb(bb_spec(ksq), s) == (s == ksq));
            assert(in_bb(bb_spec(to), s) == (s == to));
        }
    }
    lemma_attackers_own_square(pos, to, opposite(pos.stm), occ_no_king, after);
    reveal(legal_king_step);
    assert forall|s: int| #[trigger]
        legal_king_step(pos, s, caps) && !in_bb(t, s) implies l1.contains(king_step_move(pos, s)) by {
        if s != to {
            assert(!in_bb(before, s));
            let i = choose|i: int| 0 <= i < l0.len() && l0[i] == king_step_move(pos, s);
            assert(l1.subrange(0, l0.len() as int)[i] == l1[i]);
        }
    }
}

/// The targets of a piece, its attacks within `allowed` (on its pin line
/// when pinned), are steps that keep to its pin and answer the check.
proof fn lemma_piece_targets(
    pos: Position,
    pt: PieceType,
    from: int,
    allowed: u64,
    pinned: u64,
    caps: bool,
    targets: u64,
)
    requires
        pos.wf(),
        0 <= from < 64,
        pt != PieceType::Pawn,
        pt != PieceType::King,
        pos.mailbox[from] == code_of(pos.stm, pt),
        pinned == pos.pinned_spec(),
        pt == PieceType::Knight ==> !in_bb(pinned, from),
        forall|s: int| #[trigger]
            in_bb(allowed, s) ==> !in_bb(pos.color_bb[color_index(pos.stm)], s) && !in_bb(
                pos.pieces_spec(opposite(pos.stm), PieceType::King),
                s,
            ) && (caps ==> in_bb(pos.color_bb[color_index(opposite(pos.stm))], s)) && answers_check(
                pos,
                s,
            ),
        !in_bb(pinned, from) ==> targets == piece_reach(pt, from, pos.occupied_spec()) & allowed,
        in_bb(pinned, from) ==> targets == (piece_reach(pt, from, pos.occupied_spec()) & allowed)
            & line_through_spec(pos.king_sq_spec(pos.stm), from),
    ensures
        forall|s: int| #[trigger]
            in_bb(targets, s) ==> piece_step(pos, from, s, caps) && pin_ok(pos, from, s) && answers_check(
                pos,
                s,
            ),
{
    reveal(piece_step);
    lemma_code_parts(pos.stm, pt);
    let r = piece_reach(pt, from, pos.occupied_spec());
    let line = line_through_spec(pos.king_sq_spec(pos.stm), from);
    assert forall|s: int| #[trigger] in_bb(targets, s) implies piece_step(pos, from, s, caps) && pin_ok(
        pos,
        from,
        s,
    ) && answers_check(pos, s) by {
        crate::bitboard::lemma_has_and(r, allowed, s);
        crate::bitboard::lemma_has_and(r & allowed, line, s);
        lemma_square(pos, s);
        lemma_code_parts(opposite(pos.stm), PieceType::King);
        let v = pos.mailbox[s];
        if v != EMPTY && code_color(v) == pos.stm {
            assert(in_bb(pos.color_bb[color_index(pos.stm)], s));
        }
    }
}

/// Moves of the piece on `from`: its attacks within `allowed`, kept on the
/// pin line when pinned.
fn gen_one_piece(
    pos: &Position,
    list: &mut MoveList,
    caps_only: bool,
    k: usize,
    pt: PieceType,
    from: Square,
    allowed: Bitboard,
    pinned: Bitboard,
    ksq: Square,
)
    requires
        pos.wf(),
        ksq < 64,
        ksq as int == pos.king_sq_spec(pos.stm),
        from < 64,
        pt != PieceType::Pawn,
        pt != PieceType::King,
        k < 4,
        k == 0 ==> pt == PieceType::Knight,
        k == 1 ==> pt == PieceType::Bishop,
        k == 2 ==> pt == PieceType::Rook,
        k == 3 ==> pt == PieceType::Queen,
        pos.mailbox[from as int] == code_of(pos.stm, pt),
        forall|s: int| #[trigger]
            in_bb(allowed, s) ==> !in_bb(pos.color_bb[color_index(pos.stm)], s) && !in_bb(
                pos.pieces_spec(opposite(pos.stm), PieceType::King),
                s,
            ) && (caps_only ==> in_bb(pos.color_bb[color_index(opposite(pos.stm))], s))
                && answers_check(*pos, s),
        pinned == pos.pinned_spec(),
        pt == PieceType::Knight ==> !in_bb(pinned, from as int),
    ensures
        appended_ok(*pos, old(list).moves@, final(list).moves@, caps_only),
        !in_bb(pinned, from as int) ==> has_steps_to(
            *pos,
            from as int,
            piece_reach(pt, from as int, pos.occupied_spec()) & allowed,
            final(list).moves@,
        ),
        in_bb(pinned, from as int) ==> has_steps_to(
            *pos,
            from as int,
            (piece_reach(pt, from as int, pos.occupied_spec()) & allowed) & line_through_spec(
                ksq as int,
                from as int,
            ),
            final(list).moves@,
        ),
{
    let occ = pos.occupied();
    let att = if k == 0 {
        knight_attacks(from)
    } else if k == 1 {
        bishop_attacks(from, occ)
    } else if k == 2 {
        rook_attacks(from, occ)
    } else {
        queen_attacks(from, occ)
    };
    let mut targets = att & allowed;
    proof {
        assert forall|s: int| #[trigger] in_bb(targets, s) implies in_bb(allowed, s) by {
            crate::bitboard::lemma_has_and(att, allowed, s);
        }
    }
    proof {
        crate::bitboard::lemma_and_bit(pinned, from as u64);
    }
    if pinned & bb(from) != 0 {
        let ghost t0 = targets;
        let line = line_through(ksq, from);
        targets = targets & line;
        proof {
            assert forall|s: int| #[trigger] in_bb(targets, s) implies in_bb(allowed, s) by {
                crate::bitboard::lemma_has_and(t0, line, s);
            }
        }
    }
    proof {
        lemma_piece_targets(*pos, pt, from as int, allowed, pinned, caps_only, targets);
    }
    gen_piece_moves(pos, list, pt, from, targets, Ghost(caps_only));
}

/// The order in which the generator visits the piece kinds.
pub open spec fn kind_rank(pt: PieceType) -> int {
    match pt {
        PieceType::Knight => 0,
        PieceType::Bishop => 1,
        PieceType::Rook => 2,
        PieceType::Queen => 3,
        _ => 4,
    }
}

/// A step to a square of `mask` of a piece not in `pinned`, or of a
/// bishop, rook or queen in `pinned` along the line through its king.
pub open spec fn masked_step(pos: Position, from: int, to: int, mask: u64, pinned: u64, caps: bool) -> bool {
    &&& piece_step(pos, from, to, caps)
    &&& in_bb(mask, to)
    &&& in_bb(pinned, from) ==> code_piece(pos.mailbox[from]) != PieceType::Knight && in_bb(
        line_through_spec(pos.king_sq_spec(pos.stm), from),
        to,
    )
}

/// The masked steps of the pieces of kinds ranked below `k`, and of kind
/// `k` from squares not in `pending`, are in `moves`.
pub open spec fn steps_done(
    pos: Position,
    mask: u64,
    pinned: u64,
    caps: bool,
    k: int,
    pending: u64,
    moves: Seq<Move>,
) -> bool {
    forall|from: int, to: int| #[trigger]
        masked_step(pos, from, to, mask, pinned, caps) ==> (kind_rank(code_piece(pos.mailbox[from])) < k
            || (kind_rank(code_piece(pos.mailbox[from])) == k && !in_bb(pending, from)))
            ==> moves.contains(step_move(pos, from, to))
}

proof fn lemma_prefix_contains(l0: Seq<Move>, l1: Seq<Move>, m: Move)
    requires
        l0.len() <= l1.len(),
        l1.subrange(0, l0.len() as int) == l0,
        l0.contains(m),
    ensures
        l1.contains(m),
{
    let i = choose|i: int| 0 <= i < l0.len() && l0[i] == m;
    assert(l1.subrange(0, l0.len() as int)[i] == l1[i]);
}

/// The pieces of kind `pt` waiting in `pending` are all its unpinned ones.
proof fn lemma_steps_start(
    pos: Position,
    mask: u64,
    pinned: u64,
    caps: bool,
    k: int,
    pt: PieceType,
    pending: u64,
    moves: Seq<Move>,
)
    requires
        pos.wf(),
        kind_rank(pt) == k,
        steps_done(pos, mask, pinned, caps, k, 0xffff_ffff_ffff_ffffu64, moves),
        forall|s: int|
            0 <= s < 64 && pos.mailbox[s] == code_of(pos.stm, pt) && (!in_bb(pinned, s) || pt
                != PieceType::Knight) ==> #[trigger] in_bb(pending, s),
    ensures
        steps_done(pos, mask, pinned, caps, k, pending, moves),
{
    reveal(piece_step);
    assert forall|from: int, to: int| #[trigger]
        masked_step(pos, from, to, mask, pinned, caps) && (kind_rank(code_piece(pos.mailbox[from])) < k
            || (kind_rank(code_piece(pos.mailbox[from])) == k && !in_bb(pending, from))) implies moves.contains(
        step_move(pos, from, to),
    ) by {
        let m = pos.mailbox[from];
        if kind_rank(code_piece(m)) == k {
            assert(pos.sq_ok(from));
            crate::position::lemma_code_roundtrip(m);
            assert(code_piece(m) == pt);
            assert(m == code_of(pos.stm, pt));
            assert(in_bb(pending, from));
        }
        crate::bitboard::lemma_has_all(from);
    }
}

/// The kind `k` done with its pending pieces, the kinds up to `k` are done.
proof fn lemma_steps_next(pos: Position, mask: u64, pinned: u64, caps: bool, k: int, moves: Seq<Move>)
    requires
        steps_done(pos, mask, pinned, caps, k, 0, moves),
    ensures
        steps_done(pos, mask, pinned, caps, k + 1, 0xffff_ffff_ffff_ffffu64, moves),
{
    assert forall|from: int, to: int| #[trigger]
        masked_step(pos, from, to, mask, pinned, caps) && (kind_rank(code_piece(pos.mailbox[from])) < k
            + 1 || (kind_rank(code_piece(pos.mailbox[from])) == k + 1 && !in_bb(
            0xffff_ffff_ffff_ffffu64,
            from,
        ))) implies moves.contains(step_move(pos, from, to)) by {
        reveal(piece_step);
        crate::bitboard::lemma_has_zero(from);
        crate::bitboard::lemma_has_all(from);
    }
}

/// One piece of kind `k` has had its steps generated.
proof fn lemma_steps_piece(
    pos: Position,
    mask: u64,
    pinned: u64,
    caps: bool,
    k: int,
    pt: PieceType,
    from: int,
    allowed: u64,
    before: u64,
    pending: u64,
    l0: Seq<Move>,
    l1: Seq<Move>,
)
    requires
        pos.wf(),
        0 <= from < 64,
        kind_rank(pt) == k,
        pos.mailbox[from] == code_of(pos.stm, pt),
        forall|s: int| #[trigger] in_bb(pending, s) == (in_bb(before, s) && s != from),
        forall|s: int|
            0 <= s < 64 && in_bb(mask, s) && (pos.mailbox[s] == EMPTY || code_color(pos.mailbox[s]) != pos.stm)
                && pos.mailbox[s] != code_of(opposite(pos.stm), PieceType::King) && (caps
                ==> pos.mailbox[s] != EMPTY) ==> #[trigger] in_bb(allowed, s),
        steps_done(pos, mask, pinned, caps, k, before, l0),
        l0.len() <= l1.len(),
        l1.subrange(0, l0.len() as int) == l0,
        !in_bb(pinned, from) ==> has_steps_to(
            pos,
            from,
            piece_reach(pt, from, pos.occupied_spec()) & allowed,
            l1,
        ),
        in_bb(pinned, from) && pt != PieceType::Knight ==> has_steps_to(
            pos,
            from,
            (piece_reach(pt, from, pos.occupied_spec()) & allowed) & line_through_spec(
                pos.king_sq_spec(pos.stm),
                from,
            ),
            l1,
        ),
    ensures
        steps_done(pos, mask, pinned, caps, k, pending, l1),
{
    reveal(piece_step);
    assert forall|f: int, to: int| #[trigger]
        masked_step(pos, f, to, mask, pinned, caps) && (kind_rank(code_piece(pos.mailbox[f])) < k || (
        kind_rank(code_piece(pos.mailbox[f])) == k && !in_bb(pending, f))) implies l1.contains(
        step_move(pos, f, to),
    ) by {
        if f == from {
            lemma_code_parts(pos.stm, pt);
            let r = piece_reach(pt, from, pos.occupied_spec());
            assert(in_bb(allowed, to));
            crate::bitboard::lemma_has_and(r, allowed, to);
            assert(in_bb(r & allowed, to));
            crate::bitboard::lemma_has_and(
                r & allowed,
                line_through_spec(pos.king_sq_spec(pos.stm), from),
                to,
            );
        } else {
            lemma_prefix_contains(l0, l1, step_move(pos, f, to));
        }
    }
}

/// Knight, bishop, rook and queen moves restricted to `check_mask` (check
/// evasion), to enemy pieces when `caps_only`, with pinned pieces kept on
/// their pin line.
fn gen_pieces(
    pos: &Position,
    list: &mut MoveList,
    caps_only: bool,
    check_mask: Bitboard,
    pinned: Bitboard,
    ksq: Square,
)
    requires
        pos.wf(),
        ksq < 64,
        ksq as int == pos.king_sq_spec(pos.stm),
        pinned == pos.pinned_spec(),
        forall|s: int| #[trigger] in_bb(check_mask, s) ==> answers_check(*pos, s),
    ensures
        appended_ok(*pos, old(list).moves@, final(list).moves@, caps_only),
        forall|from: int, to: int| #[trigger]
            masked_step(*pos, from, to, check_mask, pinned, caps_only) ==> final(list).moves@.contains(
                step_move(*pos, from, to),
            ),
{
    let us = pos.stm;
    let them = us.flip();
    let ours = pos.color_bb[us.idx()];
    let theirs = pos.color_bb[them.idx()];
    let cap_targets = if caps_only {
        theirs
    } else {
        !0u64
    };
    let their_king = pos.pieces(them, PieceType::King);
    let allowed = !ours & check_mask & cap_targets & !their_king;
    proof {
        broadcast use group_bits;

        assert forall|s: int| #[trigger] in_bb(allowed, s) implies !in_bb(ours, s) && !in_bb(
            their_king,
            s,
        ) && (caps_only ==> in_bb(theirs, s)) && answers_check(*pos, s) by {}
        assert forall|s: int|
            0 <= s < 64 && in_bb(check_mask, s) && (pos.mailbox[s] == EMPTY || code_color(pos.mailbox[s]) != us)
                && pos.mailbox[s] != code_of(them, PieceType::King) && (caps_only ==> pos.mailbox[s]
                != EMPTY) implies #[trigger] in_bb(allowed, s) by {
            lemma_square(*pos, s);
            let m = pos.mailbox[s];
            if m != EMPTY && code_color(m) != us {
                assert(code_color(m) == them);
            }
        }
        lemma_appended_refl(*pos, list.moves@, caps_only);
        assert forall|from: int, to: int| #[trigger]
            masked_step(*pos, from, to, check_mask, pinned, caps_only) && (kind_rank(code_piece(pos.mailbox[from])) < 0
                || (kind_rank(code_piece(pos.mailbox[from])) == 0 && !in_bb(
                0xffff_ffff_ffff_ffffu64,
                from,
            ))) implies list.moves@.contains(step_move(*pos, from, to)) by {
            reveal(piece_step);
        }
    }
    let ghost start = list.moves@;
    let kinds: [PieceType; 4] = [PieceType::Knight, PieceType::Bishop, PieceType::Rook, PieceType::Queen];
    let mut k: usize = 0;
    while k < 4
        invariant
            pos.wf(),
            us == pos.stm,
            them == opposite(us),
            ksq < 64,
            ksq as int == pos.king_sq_spec(pos.stm),
            forall|s: int| #[trigger]
                in_bb(allowed, s) ==> !in_bb(pos.color_bb[color_index(us)], s) && !in_bb(
                    pos.pieces_spec(them, PieceType::King),
                    s,
                ) && (caps_only ==> in_bb(pos.color_bb[color_index(them)], s)) && answers_check(*pos, s),
            pinned == pos.pinned_spec(),
            forall|s: int|
                0 <= s < 64 && in_bb(check_mask, s) && (pos.mailbox[s] == EMPTY || code_color(
                    pos.mailbox[s],
                ) != pos.stm) && pos.mailbox[s] != code_of(opposite(pos.stm), PieceType::King) && (
                caps_only ==> pos.mailbox[s] != EMPTY) ==> #[trigger] in_bb(allowed, s),
            appended_ok(*pos, start, list.moves@, caps_only),
            kinds@ == seq![PieceType::Knight, PieceType::Bishop, PieceType::Rook, PieceType::Queen],
            k <= 4,
            steps_done(*pos, check_mask, pinned, caps_only, k as int, 0xffff_ffff_ffff_ffffu64, list.moves@),
        decreases 4 - k,
    {
        let pt = kinds[k];
        // a pinned knight can never move
        let mut froms = if k == 0 {
            pos.pieces(us, pt) & !pinned
        } else {
            pos.pieces(us, pt)
        };
        proof {
            broadcast use group_bits;

            let pb = pos.pieces_spec(us, pt);
            assert forall|s: int| #[trigger] in_bb(froms, s) implies in_bb(pb, s) && (k == 0 ==> !in_bb(
                pinned,
                s,
            )) by {
                crate::bitboard::lemma_has_and(pb, !pinned, s);
            }
            assert forall|s: int|
                0 <= s < 64 && pos.mailbox[s] == code_of(pos.stm, pt) && (!in_bb(pinned, s) || pt
                    != PieceType::Knight) implies #[trigger] in_bb(froms, s) by {
                lemma_square(*pos, s);
            }
            lemma_steps_start(*pos, check_mask, pinned, caps_only, k as int, pt, froms, list.moves@);
        }
        while froms != 0
            invariant
                pos.wf(),
                us == pos.stm,
                them == opposite(us),
                ksq < 64,
                ksq as int == pos.king_sq_spec(pos.stm),
                k < 4,
                kinds@ == seq![PieceType::Knight, PieceType::Bishop, PieceType::Rook, PieceType::Queen],
                pt == kinds@[k as int],
                pt != PieceType::Pawn,
                pt != PieceType::King,
                forall|s: int| #[trigger] in_bb(froms, s) ==> in_bb(pos.pieces_spec(us, pt), s),
                forall|s: int| #[trigger]
                    in_bb(allowed, s) ==> !in_bb(pos.color_bb[color_index(us)], s) && !in_bb(
                        pos.pieces_spec(them, PieceType::King),
                        s,
                    ) && (caps_only ==> in_bb(pos.color_bb[color_index(them)], s)) && answers_check(*pos, s),
                pinned == pos.pinned_spec(),
                k == 0 ==> forall|s: int| #[trigger] in_bb(froms, s) ==> !in_bb(pinned, s),
                forall|s: int|
                    0 <= s < 64 && in_bb(check_mask, s) && (pos.mailbox[s] == EMPTY || code_color(
                        pos.mailbox[s],
                    ) != pos.stm) && pos.mailbox[s] != code_of(opposite(pos.stm), PieceType::King)
                        && (caps_only ==> pos.mailbox[s] != EMPTY) ==> #[trigger] in_bb(allowed, s),
                appended_ok(*pos, start, list.moves@, caps_only),
                steps_done(*pos, check_mask, pinned, caps_only, k as int, froms, list.moves@),
            decreases froms,
        {
            let ghost before = froms;
            let from = pop_lsb(&mut froms);
            proof {
                assert(in_bb(before, from as int));
                pos.lemma_pieces(us, pt, from as int);
            }
            let ghost mid = list.moves@;
            gen_one_piece(pos, list, caps_only, k, pt, from, allowed, pinned, ksq);
            proof {
                lemma_appended_trans(*pos, start, mid, list.moves@, caps_only);
                lemma_steps_piece(
                    *pos,
                    check_mask,
                    pinned,
                    caps_only,
                    k as int,
                    pt,
                    from as int,
                    allowed,
                    before,
                    froms,
                    mid,
                    list.moves@,
                );
            }
        }
        proof {
            lemma_steps_next(*pos, check_mask, pinned, caps_only, k as int, list.moves@);
        }
        k += 1;
    }
    proof {
        assert forall|from: int, to: int| #[trigger]
            masked_step(*pos, from, to, check_mask, pinned, caps_only) implies list.moves@.contains(
            step_move(*pos, from, to),
        ) by {
            reveal(piece_step);
            assert(kind_rank(code_piece(pos.mailbox[from])) < 4);
        }
    }
}

/// Pawns stand between the second and seventh ranks.
proof fn lemma_pawn_rank(pos: Position, from: int)
    requires
        pos.wf(),
        0 <= from < 64,
        pos.mailbox[from] == code_of(pos.stm, PieceType::Pawn),
    ensures
        8 <= from < 56,
{
    reveal(Position::pawns_ok);
    lemma_code_parts(pos.stm, PieceType::Pawn);
}

/// Emit the four promotions (or promotion-captures) from `from` to `to`.
fn emit_promotions(
    pos: &Position,
    list: &mut MoveList,
    from: Square,
    to: Square,
    capture: bool,
    Ghost(caps): Ghost<bool>,
)
    requires
        from < 64,
        to < 64,
        capture ==> playable(*pos, Move((from + to * 64 + 12 * 4096) as u16)) && playable(*pos, Move((from + to * 64 + 13 * 4096) as u16)) && playable(*pos, Move((from + to * 64 + 14 * 4096) as u16)) && playable(*pos, Move((from + to * 64 + 15 * 4096) as u16)),
        !capture ==> playable(*pos, Move((from + to * 64 + 8 * 4096) as u16)) && playable(*pos, Move((from + to * 64 + 9 * 4096) as u16)) && playable(*pos, Move((from + to * 64 + 10 * 4096) as u16)) && playable(*pos, Move((from + to * 64 + 11 * 4096) as u16)),
        forall|f: int|
            (if capture {
                12 <= f < 16
            } else {
                8 <= f < 12
            }) ==> #[trigger] listed(*pos, mv_of(from as int, to as int, f), caps),
    ensures
        appended_ok(*pos, old(list).moves@, final(list).moves@, caps),
        forall|f: int|
            (if capture {
                12 <= f < 16
            } else {
                8 <= f < 12
            }) ==> #[trigger] final(list).moves@.contains(mv_of(from as int, to as int, f)),
{
    let ghost start = list.moves@;
    let (q, n, r, b) = if capture {
        (PROMO_CAP_Q, PROMO_CAP_N, PROMO_CAP_R, PROMO_CAP_B)
    } else {
        (PROMO_Q, PROMO_N, PROMO_R, PROMO_B)
    };
    proof {
        assert(listed(*pos, mv_of(from as int, to as int, q as int), caps));
        assert(listed(*pos, mv_of(from as int, to as int, n as int), caps));
        assert(listed(*pos, mv_of(from as int, to as int, r as int), caps));
        assert(listed(*pos, mv_of(from as int, to as int, b as int), caps));
    }
    emit(pos, list, from, to, q, Ghost(caps));
    let ghost m1 = list.moves@;
    emit(pos, list, from, to, n, Ghost(caps));
    let ghost m2 = list.moves@;
    emit(pos, list, from, to, r, Ghost(caps));
    let ghost m3 = list.moves@;
    emit(pos, list, from, to, b, Ghost(caps));
    proof {
        lemma_appended_trans(*pos, start, m1, m2, caps);
        lemma_appended_trans(*pos, start, m2, m3, caps);
        lemma_appended_trans(*pos, start, m3, list.moves@, caps);
        let l = list.moves@;
        assert(l[start.len() as int] == mv_of(from as int, to as int, q as int));
        assert(l[start.len() + 1int] == mv_of(from as int, to as int, n as int));
        assert(l[start.len() + 2int] == mv_of(from as int, to as int, r as int));
        assert(l[start.len() + 3int] == mv_of(from as int, to as int, b as int));
    }
}

pub open spec fn promo_rank_spec(c: Color, s: int) -> bool {
    if c == Color::White {
        56 <= s < 64
    } else {
        0 <= s < 8
    }
}

/// The square `n` ranks ahead of `from` for the side `c`.
pub open spec fn ahead(c: Color, from: int, n: int) -> int {
    if c == Color::White {
        from + 8 * n
    } else {
        from - 8 * n
    }
}

/// The rank the pawns of `c` start on.
pub open spec fn home_rank_spec(c: Color, s: int) -> bool {
    if c == Color::White {
        8 <= s < 16
    } else {
        48 <= s < 56
    }
}

/// A pawn push of the side to move from `from` to `to` with flags `f`: one
/// square ahead onto an empty square (onto the last rank a promotion, one
/// move per piece), or two squares ahead from its home rank across two empty
/// squares. With `caps`, promotions only.
#[verifier::opaque]
pub open spec fn pawn_push(pos: Position, from: int, to: int, f: int, caps: bool) -> bool {
    let us = pos.stm;
    let one = ahead(us, from, 1);
    &&& 0 <= from < 64
    &&& pos.mailbox[from] == code_of(us, PieceType::Pawn)
    &&& 0 <= one < 64
    &&& pos.mailbox[one] == EMPTY
    &&& {
        ||| (to == one && promo_rank_spec(us, to) && 8 <= f < 12)
        ||| (to == one && !promo_rank_spec(us, to) && f == 0 && !caps)
        ||| (to == ahead(us, from, 2) && f == 1 && !caps && home_rank_spec(us, from)
            && pos.mailbox[to] == EMPTY)
    }
}

/// A pawn capture of the side to move, en passant aside, from `from` to
/// `to` with flags `f`: onto an enemy piece other than the king on a square
/// the pawn attacks (onto the last rank a promotion, one move per piece).
#[verifier::opaque]
pub open spec fn pawn_capture(pos: Position, from: int, to: int, f: int) -> bool {
    let us = pos.stm;
    let v = pos.mailbox[to];
    &&& 0 <= from < 64
    &&& 0 <= to < 64
    &&& pos.mailbox[from] == code_of(us, PieceType::Pawn)
    &&& in_bb(crate::bitboard::pawn_spec(us, from), to)
    &&& v != EMPTY
    &&& code_color(v) != us
    &&& v != code_of(opposite(us), PieceType::King)
    &&& if promo_rank_spec(us, to) {
        12 <= f < 16
    } else {
        f == 4
    }
}

/// Every push and capture (en passant aside) of the side to move's pawns
/// that keeps to its pin, if any, and answers the check, if any, appears.
pub open spec fn has_pawn_moves(pos: Position, moves: Seq<Move>, caps: bool) -> bool {
    forall|from: int, to: int, f: int| #[trigger]
        pawn_move(pos, from, to, f, caps) && pin_ok(pos, from, to) && answers_check(pos, to)
            ==> moves.contains(mv_of(from, to, f))
}

/// A pawn push or a pawn capture.
pub open spec fn pawn_move(pos: Position, from: int, to: int, f: int, caps: bool) -> bool {
    pawn_push(pos, from, to, f, caps) || pawn_capture(pos, from, to, f)
}

pub open spec fn mv_of(from: int, to: int, f: int) -> Move {
    Move((from + to * 64 + f * 4096) as u16)
}

proof fn lemma_mv_of(from: int, to: int, f: int)
    requires
        0 <= from < 64,
        0 <= to < 64,
        0 <= f < 16,
    ensures
        move_from(mv_of(from, to, f)) == from,
        move_to(mv_of(from, to, f)) == to,
        move_flags(mv_of(from, to, f)) == f,
{
    let v = (from + to * 64 + f * 4096) as u16;
    assert(v == from + to * 64 + f * 4096);
}

/// A single pawn push onto an empty square is playable.
proof fn lemma_push_ok(pos: Position, from: int, one: int)
    requires
        pos.wf(),
        0 <= from < 64,
        pos.mailbox[from] == code_of(pos.stm, PieceType::Pawn),
        one == (if pos.stm == Color::White {
            from + 8
        } else {
            from - 8
        }),
        pos.mailbox[one] == EMPTY,
    ensures
        0 <= one < 64,
        !promo_rank_spec(pos.stm, one) ==> playable(pos, mv_of(from, one, 0)),
        promo_rank_spec(pos.stm, one) ==> playable(pos, mv_of(from, one, 8)) && playable(pos, mv_of(from, one, 9)) && playable(pos, mv_of(from, one, 10)) && playable(pos, mv_of(from, one, 11)),
{
    reveal(playable);
    lemma_pawn_rank(pos, from);
    lemma_code_parts(pos.stm, PieceType::Pawn);
    lemma_mv_of(from, one, 0);
    lemma_mv_of(from, one, 8);
    lemma_mv_of(from, one, 9);
    lemma_mv_of(from, one, 10);
    lemma_mv_of(from, one, 11);
}

/// A double push from the start rank over an empty square is playable.
proof fn lemma_double_push_ok(pos: Position, from: int, one: int, two: int)
    requires
        pos.wf(),
        0 <= from < 64,
        pos.mailbox[from] == code_of(pos.stm, PieceType::Pawn),
        pos.stm == Color::White ==> 8 <= from < 16 && one == from + 8 && two == from + 16,
        pos.stm == Color::Black ==> 48 <= from < 56 && one == from - 8 && two == from - 16,
        pos.mailbox[one] == EMPTY,
        pos.mailbox[two] == EMPTY,
    ensures
        playable(pos, mv_of(from, two, 1)),
{
    reveal(playable);
    lemma_code_parts(pos.stm, PieceType::Pawn);
    lemma_mv_of(from, two, 1);
}

/// A pawn capture of an enemy (non-king) piece is playable.
proof fn lemma_pawn_capture_ok(pos: Position, from: int, to: int)
    requires
        pos.wf(),
        0 <= from < 64,
        pos.mailbox[from] == code_of(pos.stm, PieceType::Pawn),
        in_bb(crate::bitboard::pawn_spec(pos.stm, from), to),
        in_bb(pos.color_bb[color_index(opposite(pos.stm))], to),
        !in_bb(pos.pieces_spec(opposite(pos.stm), PieceType::King), to),
    ensures
        0 <= to < 64,
        !promo_rank_spec(pos.stm, to) ==> playable(pos, mv_of(from, to, 4)),
        promo_rank_spec(pos.stm, to) ==> playable(pos, mv_of(from, to, 12)) && playable(pos, mv_of(from, to, 13)) && playable(pos, mv_of(from, to, 14)) && playable(pos, mv_of(from, to, 15)),
{
    reveal(playable);
    lemma_pawn_rank(pos, from);
    lemma_code_parts(pos.stm, PieceType::Pawn);
    lemma_pawn_targets(pos.stm, from, to);
    lemma_square(pos, to);
    let m = pos.mailbox[to];
    assert(pos.sq_ok(to));
    crate::position::lemma_code_roundtrip(m);
    assert(m == code_of(code_color(m), code_piece(m)));
    if code_piece(m) == PieceType::King {
        assert(in_bb(pos.pieces_spec(opposite(pos.stm), PieceType::King), to));
    }
    lemma_mv_of(from, to, 4);
    lemma_mv_of(from, to, 12);
    lemma_mv_of(from, to, 13);
    lemma_mv_of(from, to, 14);
    lemma_mv_of(from, to, 15);
}

/// A pawn move to a square of the check mask and of the pin line is a
/// listed move.
proof fn lemma_pawn_listed(
    pos: Position,
    from: int,
    to: int,
    caps: bool,
    check_mask: u64,
    pin_line: u64,
)
    requires
        0 <= from < 64,
        0 <= to < 64,
        in_bb(check_mask, to),
        in_bb(pin_line, to),
        forall|s: int| #[trigger] in_bb(check_mask, s) ==> answers_check(pos, s),
        forall|s: int| #[trigger] in_bb(pin_line, s) ==> pin_ok(pos, from, s),
    ensures
        forall|f: int|
            0 <= f < 16 && #[trigger] pawn_move(pos, from, to, f, caps) ==> listed(pos, mv_of(from, to, f), caps),
{
    assert forall|f: int| 0 <= f < 16 && #[trigger] pawn_move(pos, from, to, f, caps) implies listed(
        pos,
        mv_of(from, to, f),
        caps,
    ) by {
        lemma_listed_pawn(pos, from, to, f, caps);
    }
}

/// The single pushes of a pawn onto an empty square of the masks are listed.
proof fn lemma_push_listed(
    pos: Position,
    from: int,
    one: int,
    caps: bool,
    check_mask: u64,
    pin_line: u64,
)
    requires
        0 <= from < 64,
        0 <= one < 64,
        pos.mailbox[from] == code_of(pos.stm, PieceType::Pawn),
        one == ahead(pos.stm, from, 1),
        pos.mailbox[one] == EMPTY,
        in_bb(check_mask, one),
        in_bb(pin_line, one),
        forall|s: int| #[trigger] in_bb(check_mask, s) ==> answers_check(pos, s),
        forall|s: int| #[trigger] in_bb(pin_line, s) ==> pin_ok(pos, from, s),
    ensures
        promo_rank_spec(pos.stm, one) ==> forall|f: int|
            8 <= f < 12 ==> #[trigger] listed(pos, mv_of(from, one, f), caps),
        !promo_rank_spec(pos.stm, one) && !caps ==> listed(pos, mv_of(from, one, 0), caps),
{
    lemma_pawn_listed(pos, from, one, caps, check_mask, pin_line);
    reveal(pawn_push);
    if promo_rank_spec(pos.stm, one) {
        assert forall|f: int| 8 <= f < 12 implies #[trigger] listed(pos, mv_of(from, one, f), caps) by {
            assert(pawn_move(pos, from, one, f, caps));
        }
    } else if !caps {
        assert(pawn_move(pos, from, one, 0, caps));
    }
}

/// A double push of a pawn onto an empty square of the masks is listed.
proof fn lemma_double_listed(
    pos: Position,
    from: int,
    two: int,
    caps: bool,
    check_mask: u64,
    pin_line: u64,
)
    requires
        0 <= from < 64,
        0 <= two < 64,
        !caps,
        pos.mailbox[from] == code_of(pos.stm, PieceType::Pawn),
        home_rank_spec(pos.stm, from),
        two == ahead(pos.stm, from, 2),
        pos.mailbox[ahead(pos.stm, from, 1)] == EMPTY,
        pos.mailbox[two] == EMPTY,
        in_bb(check_mask, two),
        in_bb(pin_line, two),
        forall|s: int| #[trigger] in_bb(check_mask, s) ==> answers_check(pos, s),
        forall|s: int| #[trigger] in_bb(pin_line, s) ==> pin_ok(pos, from, s),
    ensures
        listed(pos, mv_of(from, two, 1), caps),
{
    lemma_pawn_listed(pos, from, two, caps, check_mask, pin_line);
    reveal(pawn_push);
    assert(pawn_move(pos, from, two, 1, caps));
}

/// Single and double pushes of the pawn on `from`.
#[verifier::rlimit(80)]
fn gen_pawn_pushes(
    pos: &Position,
    list: &mut MoveList,
    caps_only: bool,
    from: Square,
    check_mask: Bitboard,
    pin_line: Bitboard,
)
    requires
        pos.wf(),
        from < 64,
        pos.mailbox[from as int] == code_of(pos.stm, PieceType::Pawn),
        forall|s: int| #[trigger] in_bb(check_mask, s) ==> answers_check(*pos, s),
        forall|s: int| #[trigger] in_bb(pin_line, s) ==> pin_ok(*pos, from as int, s),
    ensures
        appended_ok(*pos, old(list).moves@, final(list).moves@, caps_only),
        forall|to: int, f: int| #[trigger]
            pawn_push(*pos, from as int, to, f, caps_only) && in_bb(check_mask, to) && in_bb(
                pin_line,
                to,
            ) ==> final(list).moves@.contains(mv_of(from as int, to, f)),
{
    let us = pos.stm;
    let occ = pos.occupied();
    let white = us == Color::White;
    let start_rank = if white {
        RANK_2
    } else {
        RANK_7
    };
    let promo_rank = if white {
        RANK_8
    } else {
        RANK_1
    };
    let mask = check_mask & pin_line;
    proof {
        lemma_pawn_rank(*pos, from as int);
        lemma_appended_refl(*pos, list.moves@, caps_only);
    }
    let ghost start = list.moves@;
    let one = if white {
        from + 8
    } else {
        from - 8
    };
    proof {
        lemma_square(*pos, one as int);
        crate::bitboard::lemma_and_bit(occ, one as u64);
        lemma_rank_masks(one as int);
        crate::bitboard::lemma_and_bit(promo_rank, one as u64);
        crate::bitboard::lemma_and_bit(mask, one as u64);
        crate::bitboard::lemma_has_and(check_mask, pin_line, one as int);
        assert(ahead(us, from as int, 1) == one);
        assert(promo_rank_spec(us, one as int) == (promo_rank & bb_spec(one as int) != 0));
    }
    if occ & bb(one) == 0 {
        proof {
            lemma_push_ok(*pos, from as int, one as int);
        }
        if mask & bb(one) != 0 {
            proof {
                lemma_push_listed(*pos, from as int, one as int, caps_only, check_mask, pin_line);
            }
            if promo_rank & bb(one) != 0 {
                let ghost m = list.moves@;
                emit_promotions(pos, list, from, one, false, Ghost(caps_only));
                proof {
                    lemma_appended_trans(*pos, start, m, list.moves@, caps_only);
                }
            } else if !caps_only {
                let ghost m = list.moves@;
                emit(pos, list, from, one, QUIET, Ghost(caps_only));
                proof {
                    lemma_appended_trans(*pos, start, m, list.moves@, caps_only);
                    assert(list.moves@[m.len() as int] == mv_of(from as int, one as int, 0));
                }
            }
        }
        let ghost l1 = list.moves@;
        proof {
            assert forall|f: int| #[trigger]
                pawn_push(*pos, from as int, one as int, f, caps_only) && in_bb(check_mask, one as int)
                    && in_bb(pin_line, one as int) implies l1.contains(mv_of(from as int, one as int, f)) by {
                reveal(pawn_push);
            }
        }
        if !caps_only && start_rank & bb(from) != 0 {
            proof {
                lemma_rank_masks(from as int);
                crate::bitboard::lemma_and_bit(start_rank, from as u64);
            }
            let two = if white {
                from + 16
            } else {
                from - 16
            };
            proof {
                lemma_square(*pos, two as int);
                crate::bitboard::lemma_and_bit(occ, two as u64);
                crate::bitboard::lemma_and_bit(mask, two as u64);
                crate::bitboard::lemma_has_and(check_mask, pin_line, two as int);
            }
            if occ & bb(two) == 0 && mask & bb(two) != 0 {
                proof {
                    lemma_double_push_ok(*pos, from as int, one as int, two as int);
                    lemma_double_listed(*pos, from as int, two as int, caps_only, check_mask, pin_line);
                }
                let ghost m = list.moves@;
                emit(pos, list, from, two, DOUBLE_PUSH, Ghost(caps_only));
                proof {
                    lemma_appended_trans(*pos, start, m, list.moves@, caps_only);
                    assert(list.moves@[m.len() as int] == mv_of(from as int, two as int, 1));
                    assert(list.moves@.subrange(0, l1.len() as int) =~= l1);
                }
            }
            proof {
                assert(ahead(us, from as int, 2) == two);
            }
        }
        proof {
            let l = list.moves@;
            assert(l.subrange(0, l1.len() as int) =~= l1);
            assert forall|to: int, f: int| #[trigger]
                pawn_push(*pos, from as int, to, f, caps_only) && in_bb(check_mask, to) && in_bb(
                    pin_line,
                    to,
                ) implies l.contains(mv_of(from as int, to, f)) by {
                reveal(pawn_push);
                if to == one {
                    lemma_prefix_contains(l1, l, mv_of(from as int, one as int, f));
                } else {
                    lemma_rank_masks(from as int);
                    crate::bitboard::lemma_and_bit(start_rank, from as u64);
                }
            }
        }
    } else {
        proof {
            assert forall|to: int, f: int| #[trigger]
                pawn_push(*pos, from as int, to, f, caps_only) && in_bb(check_mask, to) && in_bb(
                    pin_line,
                    to,
                ) implies list.moves@.contains(mv_of(from as int, to, f)) by {
                reveal(pawn_push);
            }
        }
    }
}

/// A pawn capture onto a square of the masks is listed.
proof fn lemma_capture_listed(
    pos: Position,
    from: int,
    to: int,
    caps: bool,
    check_mask: u64,
    pin_line: u64,
)
    requires
        pos.wf(),
        0 <= from < 64,
        0 <= to < 64,
        pos.mailbox[from] == code_of(pos.stm, PieceType::Pawn),
        in_bb(crate::bitboard::pawn_spec(pos.stm, from), to),
        in_bb(pos.color_bb[color_index(opposite(pos.stm))], to),
        !in_bb(pos.pieces_spec(opposite(pos.stm), PieceType::King), to),
        in_bb(check_mask, to),
        in_bb(pin_line, to),
        forall|s: int| #[trigger] in_bb(check_mask, s) ==> answers_check(pos, s),
        forall|s: int| #[trigger] in_bb(pin_line, s) ==> pin_ok(pos, from, s),
    ensures
        promo_rank_spec(pos.stm, to) ==> forall|f: int|
            12 <= f < 16 ==> #[trigger] listed(pos, mv_of(from, to, f), caps),
        !promo_rank_spec(pos.stm, to) ==> listed(pos, mv_of(from, to, 4), caps),
{
    lemma_pawn_listed(pos, from, to, caps, check_mask, pin_line);
    reveal(pawn_capture);
    lemma_square(pos, to);
    lemma_code_parts(opposite(pos.stm), PieceType::King);
    let v = pos.mailbox[to];
    assert(code_color(v) == opposite(pos.stm));
    if promo_rank_spec(pos.stm, to) {
        assert forall|f: int| 12 <= f < 16 implies #[trigger] listed(pos, mv_of(from, to, f), caps) by {
            assert(pawn_move(pos, from, to, f, caps));
        }
    } else {
        assert(pawn_move(pos, from, to, 4, caps));
    }
}

/// One capture target of a pawn is decided: the decided targets' captures
/// stay in the list.
proof fn lemma_capture_kept(
    pos: Position,
    from: int,
    cm: u64,
    pl: u64,
    before: u64,
    t: u64,
    to: int,
    l0: Seq<Move>,
    l1: Seq<Move>,
)
    requires
        forall|s: int| #[trigger] in_bb(t, s) == (in_bb(before, s) && s != to),
        forall|s: int, f: int| #[trigger]
            pawn_capture(pos, from, s, f) && in_bb(cm, s) && in_bb(pl, s) && !in_bb(before, s)
                ==> l0.contains(mv_of(from, s, f)),
        l0.len() <= l1.len(),
        l1.subrange(0, l0.len() as int) == l0,
        forall|f: int| #[trigger] pawn_capture(pos, from, to, f) ==> l1.contains(mv_of(from, to, f)),
    ensures
        forall|s: int, f: int| #[trigger]
            pawn_capture(pos, from, s, f) && in_bb(cm, s) && in_bb(pl, s) && !in_bb(t, s)
                ==> l1.contains(mv_of(from, s, f)),
{
    assert forall|s: int, f: int| #[trigger]
        pawn_capture(pos, from, s, f) && in_bb(cm, s) && in_bb(pl, s) && !in_bb(t, s) implies l1.contains(
        mv_of(from, s, f),
    ) by {
        if s != to {
            assert(!in_bb(before, s));
            lemma_prefix_contains(l0, l1, mv_of(from, s, f));
        }
    }
}

/// Captures (and capture-promotions) of the pawn on `from`.
fn gen_pawn_captures(
    pos: &Position,
    list: &mut MoveList,
    caps_only: bool,
    from: Square,
    check_mask: Bitboard,
    pin_line: Bitboard,
)
    requires
        pos.wf(),
        from < 64,
        pos.mailbox[from as int] == code_of(pos.stm, PieceType::Pawn),
        forall|s: int| #[trigger] in_bb(check_mask, s) ==> answers_check(*pos, s),
        forall|s: int| #[trigger] in_bb(pin_line, s) ==> pin_ok(*pos, from as int, s),
    ensures
        appended_ok(*pos, old(list).moves@, final(list).moves@, caps_only),
        forall|to: int, f: int| #[trigger]
            pawn_capture(*pos, from as int, to, f) && in_bb(check_mask, to) && in_bb(pin_line, to)
                ==> final(list).moves@.contains(mv_of(from as int, to, f)),
{
    let us = pos.stm;
    let them = us.flip();
    let theirs = pos.color_bb[them.idx()];
    let their_king = pos.pieces(them, PieceType::King);
    let promo_rank = if us == Color::White {
        RANK_8
    } else {
        RANK_1
    };
    proof {
        lemma_appended_refl(*pos, list.moves@, caps_only);
    }
    let ghost start = list.moves@;
    let mut t = pawn_attacks(us, from) & theirs & check_mask & pin_line & !their_king;
    let ghost att = crate::bitboard::pawn_spec(us, from as int);
    proof {
        broadcast use group_bits;

        assert forall|s: int| #[trigger] in_bb(t, s) implies in_bb(att, s) && in_bb(theirs, s)
            && !in_bb(their_king, s) && in_bb(check_mask, s) && in_bb(pin_line, s) by {}
        assert forall|to: int, f: int| #[trigger]
            pawn_capture(*pos, from as int, to, f) && in_bb(check_mask, to) && in_bb(pin_line, to)
                implies in_bb(t, to) by {
            reveal(pawn_capture);
            lemma_square(*pos, to);
            lemma_code_parts(them, PieceType::King);
            let v = pos.mailbox[to];
            assert(code_color(v) == them);
        }
    }
    while t != 0
        invariant
            pos.wf(),
            us == pos.stm,
            them == opposite(us),
            from < 64,
            promo_rank == (if us == Color::White {
                RANK_8
            } else {
                RANK_1
            }),
            pos.mailbox[from as int] == code_of(us, PieceType::Pawn),
            theirs == pos.color_bb[color_index(them)],
            their_king == pos.pieces_spec(them, PieceType::King),
            att == crate::bitboard::pawn_spec(us, from as int),
            forall|s: int| #[trigger]
                in_bb(t, s) ==> in_bb(att, s) && in_bb(theirs, s) && !in_bb(their_king, s) && in_bb(
                    check_mask,
                    s,
                ) && in_bb(pin_line, s),
            forall|s: int| #[trigger] in_bb(check_mask, s) ==> answers_check(*pos, s),
            forall|s: int| #[trigger] in_bb(pin_line, s) ==> pin_ok(*pos, from as int, s),
            appended_ok(*pos, start, list.moves@, caps_only),
            forall|to: int, f: int| #[trigger]
                pawn_capture(*pos, from as int, to, f) && in_bb(check_mask, to) && in_bb(pin_line, to)
                    && !in_bb(t, to) ==> list.moves@.contains(mv_of(from as int, to, f)),
        decreases t,
    {
        let ghost before = t;
        let to = pop_lsb(&mut t);
        proof {
            assert(in_bb(before, to as int));
            lemma_pawn_capture_ok(*pos, from as int, to as int);
            lemma_capture_listed(*pos, from as int, to as int, caps_only, check_mask, pin_line);
            lemma_rank_masks(to as int);
            crate::bitboard::lemma_and_bit(promo_rank, to as u64);
        }
        let ghost mid = list.moves@;
        if promo_rank & bb(to) != 0 {
            emit_promotions(pos, list, from, to, true, Ghost(caps_only));
        } else {
            emit(pos, list, from, to, CAPTURE, Ghost(caps_only));
            proof {
                assert(list.moves@[mid.len() as int] == mv_of(from as int, to as int, 4));
            }
        }
        proof {
            lemma_appended_trans(*pos, start, mid, list.moves@, caps_only);
            assert(promo_rank_spec(us, to as int) == (promo_rank & bb_spec(to as int) != 0));
            assert forall|f: int| #[trigger] pawn_capture(*pos, from as int, to as int, f) implies list.moves@.contains(
                mv_of(from as int, to as int, f),
            ) by {
                reveal(pawn_capture);
            }
            assert(list.moves@.subrange(0, mid.len() as int) =~= mid);
            lemma_capture_kept(*pos, from as int, check_mask, pin_line, before, t, to as int, mid, list.moves@);
        }
    }
}

/// An en-passant capture by one of our pawns onto the en-passant square is
/// playable.
proof fn lemma_ep_capture_ok(pos: Position, from: int)
    requires
        pos.wf(),
        pos.ep != NO_SQUARE,
        0 <= from < 64,
        pos.mailbox[from] == code_of(pos.stm, PieceType::Pawn),
    ensures
        pos.ep < 64,
        playable(pos, mv_of(from, pos.ep as int, 5)),
        0 <= ep_victim_sq(pos.stm, pos.ep as int) < 64,
{
    reveal(playable);
    reveal(Position::ep_ok);
    lemma_code_parts(pos.stm, PieceType::Pawn);
    lemma_code_parts(opposite(pos.stm), PieceType::Pawn);
    lemma_mv_of(from, pos.ep as int, 5);
}

/// En-passant captures, checked directly on the resulting occupancy (covers
/// the horizontal double-removal pin and check evasion).
fn gen_ep(pos: &Position, list: &mut MoveList, caps_only: bool, checkers: Bitboard, check_mask: Bitboard, ksq: Square)
    requires
        pos.wf(),
        ksq < 64,
        ksq as int == pos.king_sq_spec(pos.stm),
        checkers == pos.attackers_spec(pos.king_sq_spec(pos.stm), opposite(pos.stm), pos.occupied_spec()),
        forall|s: int| #[trigger] in_bb(check_mask, s) ==> answers_check(*pos, s),
        forall|s: int| 0 <= s < 64 && #[trigger] answers_check(*pos, s) ==> in_bb(check_mask, s),
    ensures
        appended_ok(*pos, old(list).moves@, final(list).moves@, caps_only),
        has_ep_captures(*pos, final(list).moves@),
{
    proof {
        lemma_appended_refl(*pos, list.moves@, caps_only);
    }
    if pos.ep == NO_SQUARE {
        return;
    }
    let us = pos.stm;
    let them = us.flip();
    let ep = pos.ep;
    let occ = pos.occupied();
    let pawns = pos.pieces(us, PieceType::Pawn);
    proof {
        reveal(Position::ep_ok);
    }
    let cap_sq = if us == Color::White {
        ep - 8
    } else {
        ep + 8
    };
    let ghost start = list.moves@;
    let mut froms = pawn_attacks(them, ep) & pawns;
    proof {
        assert forall|s: int| #[trigger] in_bb(froms, s) implies in_bb(pawns, s) && in_bb(
            crate::bitboard::pawn_spec(them, ep as int),
            s,
        ) by {
            crate::bitboard::lemma_has_and(crate::bitboard::pawn_spec(them, ep as int), pawns, s);
        }
        assert forall|s: int| #[trigger] ep_capture(*pos, s) && ep_safe(*pos, s) && ep_answers(*pos) && !in_bb(froms, s) implies list.moves@.contains(
            mv_of(s, ep as int, 5),
        ) by {
            crate::bitboard::lemma_has_and(crate::bitboard::pawn_spec(them, ep as int), pawns, s);
            lemma_pawn_symmetric(us, s, ep as int);
            lemma_square(*pos, s);
        }
    }
    while froms != 0
        invariant
            pos.wf(),
            us == pos.stm,
            them == opposite(us),
            ep == pos.ep,
            ep < 64,
            cap_sq < 64,
            ksq < 64,
            pawns == pos.pieces_spec(us, PieceType::Pawn),
            forall|s: int| #[trigger]
                in_bb(froms, s) ==> in_bb(pawns, s) && in_bb(crate::bitboard::pawn_spec(them, ep as int), s),
            appended_ok(*pos, start, list.moves@, caps_only),
            ksq as int == pos.king_sq_spec(us),
            forall|s: int| #[trigger] in_bb(check_mask, s) ==> answers_check(*pos, s),
            forall|s: int| 0 <= s < 64 && #[trigger] answers_check(*pos, s) ==> in_bb(check_mask, s),
            occ == pos.occupied_spec(),
            checkers == pos.attackers_spec(pos.king_sq_spec(pos.stm), opposite(pos.stm), pos.occupied_spec()),
            cap_sq as int == ep_victim_sq(us, ep as int),
            ep_done(*pos, froms, list.moves@),
        decreases froms,
    {
        let ghost before = froms;
        let from = pop_lsb(&mut froms);
        proof {
            assert(in_bb(before, from as int));
            pos.lemma_pieces(us, PieceType::Pawn, from as int);
            lemma_ep_capture_ok(*pos, from as int);
        }
        let new_occ = (occ ^ bb(from) ^ bb(cap_sq)) | bb(ep);
        let queens = pos.pieces(them, PieceType::Queen);
        let slider_check = (rook_attacks(ksq, new_occ) & (pos.pieces(them, PieceType::Rook)
            | queens)) | (bishop_attacks(ksq, new_occ) & (pos.pieces(them, PieceType::Bishop)
            | queens));
        // non-slider checks can't be created by ep beyond what check_mask
        // covers, but the captured pawn might have been the checker
        let still_checked = if checkers != 0 && checkers != bb(cap_sq) {
            // some other piece is checking; ep can only help by blocking
            check_mask & bb(ep) == 0
        } else {
            false
        };
        let ghost l0 = list.moves@;
        proof {
            lemma_ep_cond(*pos, from as int, checkers, check_mask, new_occ, slider_check, still_checked);
        }
        if slider_check == 0 && !still_checked {
            proof {
                lemma_ep_emit(*pos, from as int, caps_only, checkers, check_mask, new_occ, slider_check);
            }
            let ghost mid = list.moves@;
            emit(pos, list, from, ep, EN_PASSANT, Ghost(caps_only));
            proof {
                lemma_appended_trans(*pos, start, mid, list.moves@, caps_only);
                assert(list.moves@[mid.len() as int] == mv_of(from as int, ep as int, 5));
            }
        }
        proof {
            assert(list.moves@.subrange(0, l0.len() as int) =~= l0);
            lemma_ep_kept(*pos, from as int, before, froms, l0, list.moves@);
        }
    }
    proof {
        assert forall|s: int| #[trigger] ep_capture(*pos, s) && ep_safe(*pos, s) && ep_answers(*pos) implies list.moves@.contains(
            mv_of(s, ep as int, 5),
        ) by {
            crate::bitboard::lemma_has_zero(s);
        }
    }
}

pub open spec fn span_spec(a: int, b: int, s: int) -> bool {
    (a <= s <= b) || (b <= s <= a)
}

/// Inclusive bitboard of the squares from `a` to `b` on one rank.
fn span(a: u8, b: u8) -> (r: Bitboard)
    requires
        a < 64,
        b < 64,
    ensures
        forall|s: int| #[trigger] in_bb(r, s) == span_spec(a as int, b as int, s),
{
    broadcast use group_bits;

    let lo = if a < b {
        a
    } else {
        b
    };
    let hi = if a < b {
        b
    } else {
        a
    };
    let mut m: u64 = 0;
    let mut s = lo;
    while s <= hi
        invariant
            lo <= s <= hi + 1,
            hi < 64,
            forall|t: int| #[trigger] in_bb(m, t) == (lo <= t < s),
        decreases hi + 1 - s,
    {
        let ghost m0 = m;
        m = m | (1u64 << (s as u64));
        proof {
            assert forall|t: int| #[trigger] in_bb(m, t) == (lo <= t < s + 1) by {
                crate::bitboard::lemma_has_or(m0, 1u64 << (s as u64), t);
                crate::bitboard::lemma_has_bit(s as u64, t);
            }
        }
        s += 1;
    }
    m
}

/// Castling with the king on its home square and a rook in its corner onto
/// empty squares is playable.
proof fn lemma_castle_move_ok(pos: Position, kingside: bool, home: int, kto: int, rto: int)
    requires
        pos.wf(),
        pos.stm == Color::White ==> home == 4,
        pos.stm == Color::Black ==> home == 60,
        kingside ==> kto == home + 2 && rto == home + 1,
        !kingside ==> kto == home - 2 && rto == home - 1,
        pos.castling & (if pos.stm == Color::White {
            if kingside {
                WK
            } else {
                WQ
            }
        } else {
            if kingside {
                BK
            } else {
                BQ
            }
        }) != 0,
        pos.mailbox[kto] == EMPTY,
        pos.mailbox[rto] == EMPTY,
    ensures
        playable(pos, mv_of(home, kto, if kingside { 2 } else { 3 })),
        pos.mailbox[home] == code_of(pos.stm, PieceType::King),
{
    reveal(playable);
    reveal(Position::castle_ok);
    lemma_code_parts(pos.stm, PieceType::King);
    lemma_code_parts(pos.stm, PieceType::Rook);
    lemma_mv_of(home, kto, if kingside { 2 } else { 3 });
}

/// The king of a side that still has a castling right stands on its home
/// square.
proof fn lemma_castling_king(pos: Position, bit: u8)
    requires
        pos.wf(),
        bit == WK || bit == WQ || bit == BK || bit == BQ,
        (bit == WK || bit == WQ) == (pos.stm == Color::White),
        pos.castling & bit != 0,
    ensures
        pos.king_sq_spec(pos.stm) == (if pos.stm == Color::White {
            4int
        } else {
            60int
        }),
{
    reveal(Position::castle_ok);
    reveal(Position::kings_unique);
    let home: int = if pos.stm == Color::White {
        4
    } else {
        60
    };
    pos.lemma_king_nonzero(pos.stm);
    let k = pos.king_sq_spec(pos.stm);
    crate::bitboard::lemma_lsb(pos.pieces_spec(pos.stm, PieceType::King));
    pos.lemma_pieces(pos.stm, PieceType::King, k);
    lemma_code_parts(pos.stm, PieceType::King);
    assert(pos.mailbox[home] == pos.mailbox[k]);
}

/// Emit a castling move if legal: every square the king and rook traverse
/// must be empty (except where the two pieces currently sit), and no square
/// the king passes through (origin to target inclusive) may be attacked —
/// with both movers lifted from the occupancy.
fn gen_castle(
    pos: &Position,
    list: &mut MoveList,
    them: Color,
    occ: Bitboard,
    ksq: u8,
    rsq: u8,
    kto: u8,
    rto: u8,
    flags: u16,
)
    requires
        pos.wf(),
        them == opposite(pos.stm),
        occ == pos.occupied_spec(),
        ksq == (if pos.stm == Color::White {
            4u8
        } else {
            60u8
        }),
        flags == 2 ==> kto == ksq + 2 && rto == ksq + 1 && rsq == ksq + 3,
        flags == 3 ==> kto == ksq - 2 && rto == ksq - 1 && rsq == ksq - 4,
        flags == 2 || flags == 3,
        pos.castling & castle_right(pos.stm, flags as int) != 0,
        !pos.in_check_spec(),
    ensures
        appended_ok(*pos, old(list).moves@, final(list).moves@, false),
        castle_legal(*pos, flags as int) ==> final(list).moves@.contains(castle_move(*pos, flags as int)),
{
    proof {
        lemma_appended_refl(*pos, list.moves@, false);
    }
    let ghost start = list.moves@;
    let movers = bb(ksq) | bb(rsq);
    let king_path = span(ksq, kto);
    let rook_path = span(rsq, rto);
    let blocked = (king_path | rook_path) & occ & !movers;
    proof {
        assert forall|s: int| #[trigger] in_bb(movers, s) == (s == ksq || s == rsq) by {
            crate::bitboard::lemma_has_or(bb_spec(ksq as int), bb_spec(rsq as int), s);
        }
        lemma_castle_path(
            *pos,
            flags as int,
            ksq as int,
            kto as int,
            rsq as int,
            rto as int,
            movers,
            king_path,
            rook_path,
            blocked,
        );
        assert(castle_squares(pos.stm, flags as int) == (ksq as int, kto as int, rsq as int, rto as int));
    }
    if blocked != 0 {
        proof {
            reveal(castle_legal);
        }
        return;
    }
    proof {
        broadcast use group_bits;

        assert(!in_bb(blocked, kto as int));
        assert(!in_bb(blocked, rto as int));
        lemma_square(*pos, kto as int);
        lemma_square(*pos, rto as int);
        lemma_castle_move_ok(*pos, flags == 2, ksq as int, kto as int, rto as int);
    }
    let occ_ns = occ & !movers;
    let mut path = king_path;
    let mut safe = true;
    while path != 0 && safe
        invariant
            pos.wf(),
            them == opposite(pos.stm),
            forall|s: int| #[trigger] in_bb(path, s) ==> span_spec(ksq as int, kto as int, s),
            safe ==> forall|s: int| #[trigger]
                span_spec(ksq as int, kto as int, s) && !in_bb(path, s) ==> pos.attackers_spec(s, them, occ_ns) == 0,
            !safe ==> exists|s: int| #[trigger]
                span_spec(ksq as int, kto as int, s) && pos.attackers_spec(s, them, occ_ns) != 0,
        decreases path,
    {
        let ghost before = path;
        let sq = pop_lsb(&mut path);
        if pos.attackers_to(sq, them, occ_ns) != 0 {
            safe = false;
            proof {
                assert(span_spec(ksq as int, kto as int, sq as int));
            }
        }
    }
    proof {
        if safe {
            crate::bitboard::lemma_has_zero(0);
            assert forall|s: int| #[trigger] span_spec(ksq as int, kto as int, s) implies pos.attackers_spec(
                s,
                them,
                occ_ns,
            ) == 0 by {
                crate::bitboard::lemma_has_zero(s);
            }
        }
        assert(castle_squares(pos.stm, flags as int) == (ksq as int, kto as int, rsq as int, rto as int));
        assert(movers == bb_spec(ksq as int) | bb_spec(rsq as int));
        assert(castle_legal(*pos, flags as int) == safe) by {
            reveal(castle_legal);
        }
        lemma_mv_of(ksq as int, kto as int, flags as int);
    }
    if safe {
        proof {
            lemma_listed_castle(*pos, flags as int);
        }
        emit(pos, list, ksq, kto, flags, Ghost(false));
        proof {
            assert(list.moves@[start.len() as int] == castle_move(*pos, flags as int));
        }
    }
}

/// In double check no en-passant capture answers the check.
proof fn lemma_double_check_no_ep(pos: Position, checkers: u64, moves: Seq<Move>)
    requires
        pos.wf(),
        checkers == pos.attackers_spec(pos.king_sq_spec(pos.stm), opposite(pos.stm), pos.occupied_spec()),
        popcount_spec(checkers) >= 2,
    ensures
        has_ep_captures(pos, moves),
{
    assert forall|from: int| #[trigger] ep_capture(pos, from) && ep_safe(pos, from) && ep_answers(pos) implies moves.contains(
        mv_of(from, pos.ep as int, 5),
    ) by {
        lemma_ep_capture_ok(pos, from);
        let v = ep_victim_sq(pos.stm, pos.ep as int);
        let b = bb_spec(v);
        crate::bitboard::lemma_has_bit(v as u64, v);
        crate::bitboard::lemma_has_zero(v);
        assert(b != 0);
        crate::bitboard::lemma_lsb(b);
        crate::bitboard::lemma_has_bit(v as u64, lsb_spec(b));
        assert forall|t: int| #[trigger] in_bb(b, t) implies t == lsb_spec(b) by {
            crate::bitboard::lemma_has_bit(v as u64, t);
        }
        crate::bitboard::lemma_popcount_one(b);
    }
}

/// The generator's tests on an en-passant capture: the slider test is
/// `ep_safe`, and a capture that answers the check passes the check test.
proof fn lemma_ep_cond(
    pos: Position,
    from: int,
    checkers: u64,
    check_mask: u64,
    occ: u64,
    slider_check: u64,
    still_checked: bool,
)
    requires
        pos.ep != NO_SQUARE,
        pos.ep < 64,
        0 <= from < 64,
        checkers == pos.attackers_spec(pos.king_sq_spec(pos.stm), opposite(pos.stm), pos.occupied_spec()),
        forall|s: int| 0 <= s < 64 && #[trigger] answers_check(pos, s) ==> in_bb(check_mask, s),
        occ == (pos.occupied_spec() ^ bb_spec(from) ^ bb_spec(ep_victim_sq(pos.stm, pos.ep as int)))
            | bb_spec(pos.ep as int),
        slider_check == (rook_spec(pos.king_sq_spec(pos.stm), occ) & (pos.pieces_spec(
            opposite(pos.stm),
            PieceType::Rook,
        ) | pos.pieces_spec(opposite(pos.stm), PieceType::Queen))) | (bishop_spec(
            pos.king_sq_spec(pos.stm),
            occ,
        ) & (pos.pieces_spec(opposite(pos.stm), PieceType::Bishop) | pos.pieces_spec(
            opposite(pos.stm),
            PieceType::Queen,
        ))),
        still_checked == (checkers != 0 && checkers != bb_spec(ep_victim_sq(pos.stm, pos.ep as int))
            && check_mask & bb_spec(pos.ep as int) == 0),
    ensures
        ep_safe(pos, from) == (slider_check == 0),
        ep_answers(pos) ==> !still_checked,
        !still_checked ==> checkers == 0 || checkers == bb_spec(ep_victim_sq(pos.stm, pos.ep as int))
            || in_bb(check_mask, pos.ep as int),
{
    crate::bitboard::lemma_and_bit(check_mask, pos.ep as u64);
}

/// An en-passant capture the generator emits is listed.
proof fn lemma_ep_emit(
    pos: Position,
    from: int,
    caps: bool,
    checkers: u64,
    check_mask: u64,
    occ: u64,
    slider_check: u64,
)
    requires
        pos.wf(),
        pos.ep != NO_SQUARE,
        pos.ep < 64,
        0 <= from < 64,
        pos.mailbox[from] == code_of(pos.stm, PieceType::Pawn),
        in_bb(crate::bitboard::pawn_spec(opposite(pos.stm), pos.ep as int), from),
        checkers == pos.attackers_spec(pos.king_sq_spec(pos.stm), opposite(pos.stm), pos.occupied_spec()),
        forall|s: int| #[trigger] in_bb(check_mask, s) ==> answers_check(pos, s),
        checkers == 0 || checkers == bb_spec(ep_victim_sq(pos.stm, pos.ep as int)) || in_bb(
            check_mask,
            pos.ep as int,
        ),
        occ == (pos.occupied_spec() ^ bb_spec(from) ^ bb_spec(ep_victim_sq(pos.stm, pos.ep as int)))
            | bb_spec(pos.ep as int),
        slider_check == (rook_spec(pos.king_sq_spec(pos.stm), occ) & (pos.pieces_spec(
            opposite(pos.stm),
            PieceType::Rook,
        ) | pos.pieces_spec(opposite(pos.stm), PieceType::Queen))) | (bishop_spec(
            pos.king_sq_spec(pos.stm),
            occ,
        ) & (pos.pieces_spec(opposite(pos.stm), PieceType::Bishop) | pos.pieces_spec(
            opposite(pos.stm),
            PieceType::Queen,
        ))),
        slider_check == 0,
    ensures
        listed(pos, mv_of(from, pos.ep as int, 5), caps),
{
    lemma_pawn_symmetric(pos.stm, from, pos.ep as int);
    assert(ep_capture(pos, from));
    assert(ep_safe(pos, from));
    lemma_listed_ep(pos, from, caps);
}

/// The en-passant captures from squares no longer pending are in `moves`.
pub open spec fn ep_done(pos: Position, pending: u64, moves: Seq<Move>) -> bool {
    forall|s: int| #[trigger]
        ep_capture(pos, s) && ep_safe(pos, s) && ep_answers(pos) && !in_bb(pending, s) ==> moves.contains(
            mv_of(s, pos.ep as int, 5),
        )
}

/// One en-passant candidate is decided.
proof fn lemma_ep_kept(pos: Position, from: int, before: u64, pending: u64, l0: Seq<Move>, l1: Seq<Move>)
    requires
        forall|s: int| #[trigger] in_bb(pending, s) == (in_bb(before, s) && s != from),
        ep_done(pos, before, l0),
        l0.len() <= l1.len(),
        l1.subrange(0, l0.len() as int) == l0,
        ep_capture(pos, from) && ep_safe(pos, from) && ep_answers(pos) ==> l1.contains(
            mv_of(from, pos.ep as int, 5),
        ),
    ensures
        ep_done(pos, pending, l1),
{
    assert forall|s: int| #[trigger]
        ep_capture(pos, s) && ep_safe(pos, s) && ep_answers(pos) && !in_bb(pending, s) implies l1.contains(
        mv_of(s, pos.ep as int, 5),
    ) by {
        if s != from {
            assert(!in_bb(before, s));
            lemma_prefix_contains(l0, l1, mv_of(s, pos.ep as int, 5));
        }
    }
}

/// The castling squares hold no piece but the king and the rook exactly
/// when the generator's blocked set is empty.
proof fn lemma_castle_path(
    pos: Position,
    f: int,
    k: int,
    kt: int,
    r: int,
    rt: int,
    movers: u64,
    king_path: u64,
    rook_path: u64,
    blocked: u64,
)
    requires
        pos.wf(),
        0 <= k < 64,
        0 <= r < 64,
        forall|s: int| #[trigger] in_bb(movers, s) == (s == k || s == r),
        forall|s: int| #[trigger] in_bb(king_path, s) == span_spec(k, kt, s),
        forall|s: int| #[trigger] in_bb(rook_path, s) == span_spec(r, rt, s),
        blocked == (king_path | rook_path) & pos.occupied_spec() & !movers,
    ensures
        (blocked == 0) == (forall|s: int|
            0 <= s < 64 && (span_spec(k, kt, s) || span_spec(r, rt, s)) && s != k && s != r
                ==> #[trigger] pos.mailbox[s] == EMPTY),
{
    broadcast use group_bits;

    crate::bitboard::lemma_bits_empty(blocked);
    assert forall|s: int| 0 <= s < 64 implies #[trigger] in_bb(blocked, s) == ((span_spec(k, kt, s)
        || span_spec(r, rt, s)) && s != k && s != r && pos.mailbox[s] != EMPTY) by {
        lemma_square(pos, s);
    }
    if blocked != 0 {
        let s = choose|s: int| 0 <= s < 64 && in_bb(blocked, s);
        assert(pos.mailbox[s] != EMPTY);
    } else {
        assert forall|s: int|
            0 <= s < 64 && (span_spec(k, kt, s) || span_spec(r, rt, s)) && s != k && s != r implies #[trigger] pos.mailbox[s]
            == EMPTY by {
            assert(!in_bb(blocked, s));
        }
    }
}

/// A pawn may go anywhere on the line its pin leaves it.
proof fn lemma_pawn_pin_line(pos: Position, from: int, pin_line: u64)
    requires
        0 <= from < 64,
        pos.mailbox[from] == code_of(pos.stm, PieceType::Pawn),
        !in_bb(pos.pinned_spec(), from) ==> pin_line == !0u64,
        in_bb(pos.pinned_spec(), from) ==> pin_line == line_through_spec(pos.king_sq_spec(pos.stm), from),
    ensures
        forall|s: int| #[trigger] in_bb(pin_line, s) ==> pin_ok(pos, from, s),
{
    lemma_code_parts(pos.stm, PieceType::Pawn);
}

/// The pawn moves, keeping to their pins, of the pawns not in `pending` are
/// in `moves`.
pub open spec fn pawns_done(pos: Position, caps: bool, pinned: u64, pending: u64, moves: Seq<Move>) -> bool {
    forall|from: int, to: int, f: int| #[trigger]
        pawn_move(pos, from, to, f, caps) && (in_bb(pinned, from) ==> in_bb(
            line_through_spec(pos.king_sq_spec(pos.stm), from),
            to,
        )) && answers_check(pos, to) && !in_bb(pending, from) ==> moves.contains(mv_of(from, to, f))
}

proof fn lemma_pawns_start(pos: Position, caps: bool, pinned: u64, pawns: u64, moves: Seq<Move>)
    requires
        pos.wf(),
        pawns == pos.pieces_spec(pos.stm, PieceType::Pawn),
    ensures
        pawns_done(pos, caps, pinned, pawns, moves),
{
    reveal(pawn_push);
    reveal(pawn_capture);
    assert forall|from: int, to: int, f: int| #[trigger]
        pawn_move(pos, from, to, f, caps) && (in_bb(pinned, from) ==> in_bb(
            line_through_spec(pos.king_sq_spec(pos.stm), from),
            to,
        )) && answers_check(pos, to) && !in_bb(pawns, from) implies moves.contains(mv_of(from, to, f)) by {
        lemma_square(pos, from);
    }
}

proof fn lemma_pawns_end(pos: Position, caps: bool, pinned: u64, moves: Seq<Move>)
    requires
        pawns_done(pos, caps, pinned, 0u64, moves),
        pinned == pos.pinned_spec(),
    ensures
        has_pawn_moves(pos, moves, caps),
{
    assert forall|from: int, to: int, f: int| #[trigger]
        pawn_move(pos, from, to, f, caps) && pin_ok(pos, from, to) && answers_check(pos, to) implies moves.contains(
        mv_of(from, to, f),
    ) by {
        crate::bitboard::lemma_has_zero(from);
    }
}

/// One pawn has had its moves generated.
proof fn lemma_pawn_kept(
    pos: Position,
    caps: bool,
    pinned: u64,
    from: int,
    before: u64,
    pending: u64,
    check_mask: u64,
    pin_line: u64,
    l0: Seq<Move>,
    l1: Seq<Move>,
    l2: Seq<Move>,
)
    requires
        forall|s: int| #[trigger] in_bb(pending, s) == (in_bb(before, s) && s != from),
        pawns_done(pos, caps, pinned, before, l0),
        appended_ok(pos, l0, l1, caps),
        appended_ok(pos, l1, l2, caps),
        forall|to: int| 0 <= to < 64 && #[trigger] answers_check(pos, to) ==> in_bb(check_mask, to),
        !in_bb(pinned, from) ==> pin_line == !0u64,
        in_bb(pinned, from) ==> pin_line == line_through_spec(pos.king_sq_spec(pos.stm), from),
        forall|to: int, f: int| #[trigger]
            pawn_push(pos, from, to, f, caps) && in_bb(check_mask, to) && in_bb(pin_line, to)
                ==> l1.contains(mv_of(from, to, f)),
        forall|to: int, f: int| #[trigger]
            pawn_capture(pos, from, to, f) && in_bb(check_mask, to) && in_bb(pin_line, to)
                ==> l2.contains(mv_of(from, to, f)),
    ensures
        pawns_done(pos, caps, pinned, pending, l2),
{
    lemma_appended_trans(pos, l0, l1, l2, caps);
    assert forall|fr: int, to: int, f: int| #[trigger]
        pawn_move(pos, fr, to, f, caps) && (in_bb(pinned, fr) ==> in_bb(
            line_through_spec(pos.king_sq_spec(pos.stm), fr),
            to,
        )) && answers_check(pos, to) && !in_bb(pending, fr) implies l2.contains(mv_of(fr, to, f)) by {
        if fr == from {
            assert(0 <= to < 64) by {
                reveal(pawn_push);
                reveal(pawn_capture);
                lemma_pawn_push_to(pos, from, to, f, caps);
            }
            crate::bitboard::lemma_has_not(0u64, to);
            crate::bitboard::lemma_has_zero(to);
            assert(in_bb(check_mask, to));
            if pawn_push(pos, from, to, f, caps) {
                lemma_appended_keeps(pos, l1, l2, caps, mv_of(from, to, f));
            }
        } else {
            assert(!in_bb(before, fr));
            lemma_appended_keeps(pos, l0, l2, caps, mv_of(fr, to, f));
        }
    }
}

/// A pawn push lands on the board.
proof fn lemma_pawn_push_to(pos: Position, from: int, to: int, f: int, caps: bool)
    requires
        pawn_push(pos, from, to, f, caps) || pawn_capture(pos, from, to, f),
    ensures
        0 <= to < 64,
{
    reveal(pawn_push);
    reveal(pawn_capture);
    if pawn_push(pos, from, to, f, caps) && to == ahead(pos.stm, from, 2) {
        assert(0 <= ahead(pos.stm, from, 1) < 64);
        assert(0 <= to < 64);
    }
}

proof fn lemma_appended_ep(pos: Position, a: Seq<Move>, b: Seq<Move>, caps: bool)
    requires
        appended_ok(pos, a, b, caps),
        has_ep_captures(pos, a),
    ensures
        has_ep_captures(pos, b),
{
    if !pos.in_check_spec() {
        assert forall|from: int| #[trigger] ep_capture(pos, from) && ep_safe(pos, from) && ep_answers(pos) implies b.contains(
            mv_of(from, pos.ep as int, 5),
        ) by {
            lemma_appended_keeps(pos, a, b, caps, mv_of(from, pos.ep as int, 5));
        }
    }
}

proof fn lemma_appended_pawn_moves(pos: Position, a: Seq<Move>, b: Seq<Move>, caps: bool)
    requires
        appended_ok(pos, a, b, caps),
        has_pawn_moves(pos, a, caps),
    ensures
        has_pawn_moves(pos, b, caps),
{
    assert forall|from: int, to: int, f: int| #[trigger]
        pawn_move(pos, from, to, f, caps) && pin_ok(pos, from, to) && answers_check(pos, to) implies b.contains(
        mv_of(from, to, f),
    ) by {
        lemma_appended_keeps(pos, a, b, caps, mv_of(from, to, f));
    }
}

/// Captures-only lists are playable lists too.
proof fn lemma_appended_caps(pos: Position, a: Seq<Move>, b: Seq<Move>, caps: bool)
    requires
        appended_ok(pos, a, b, false),
        !caps,
    ensures
        appended_ok(pos, a, b, caps),
{
}

fn gen_impl(pos: &Position, list: &mut MoveList, caps_only: bool)
    requires
        pos.wf(),
    ensures
        appended_ok(*pos, old(list).moves@, final(list).moves@, caps_only),
        has_king_steps(*pos, final(list).moves@, caps_only),
        has_piece_steps(*pos, final(list).moves@, caps_only),
        has_pawn_moves(*pos, final(list).moves@, caps_only),
        !caps_only ==> has_castlings(*pos, final(list).moves@),
        has_ep_captures(*pos, final(list).moves@),
{
    let us = pos.stm;
    let them = us.flip();
    let ksq = pos.king_sq(us);
    let occ = pos.occupied();
    let ghost start = list.moves@;
    let checkers = pos.attackers_to(ksq, them, occ);
    let pinned = pos.pinned();
    // king moves (always considered)
    gen_king(pos, list, caps_only);
    let ghost mk = list.moves@;
    proof {
        lemma_appended_refl(*pos, mk, caps_only);
    }
    if popcount(checkers) >= 2 {
        proof {
            assert(popcount_spec(0u64) == 0);
            assert(checkers != 0);
            lemma_double_check_no_ep(*pos, checkers, list.moves@);
        }
        return;  // double check: only king moves
    }
    let check_mask = if checkers != 0 {
        between(ksq, lsb(checkers)) | checkers
    } else {
        !0u64
    };
    let ghost m1 = list.moves@;
    proof {
        lemma_check_mask(*pos, check_mask, checkers);
    }
    gen_pieces(pos, list, caps_only, check_mask, pinned, ksq);
    let ghost mp = list.moves@;
    proof {
        lemma_appended_trans(*pos, mk, m1, mp, caps_only);
        lemma_appended_refl(*pos, mp, caps_only);
        lemma_piece_steps_done(*pos, mp, caps_only, check_mask, pinned, checkers);
        lemma_check_mask(*pos, check_mask, checkers);
    }
    // pawns
    let mut pawns = pos.pieces(us, PieceType::Pawn);
    proof {
        lemma_pawns_start(*pos, caps_only, pinned, pawns, mp);
    }
    while pawns != 0
        invariant
            pos.wf(),
            us == pos.stm,
            ksq < 64,
            ksq as int == pos.king_sq_spec(us),
            checkers == pos.attackers_spec(pos.king_sq_spec(pos.stm), opposite(pos.stm), pos.occupied_spec()),
            forall|to: int| 0 <= to < 64 && #[trigger] answers_check(*pos, to) ==> in_bb(check_mask, to),
            forall|s: int| #[trigger] in_bb(check_mask, s) ==> answers_check(*pos, s),
            pinned == pos.pinned_spec(),
            forall|s: int| #[trigger] in_bb(pawns, s) ==> in_bb(pos.pieces_spec(us, PieceType::Pawn), s),
            appended_ok(*pos, mp, list.moves@, caps_only),
            pawns_done(*pos, caps_only, pinned, pawns, list.moves@),
        decreases pawns,
    {
        let ghost before = pawns;
        let ghost l0 = list.moves@;
        let from = pop_lsb(&mut pawns);
        proof {
            assert(in_bb(before, from as int));
            pos.lemma_pieces(us, PieceType::Pawn, from as int);
            crate::bitboard::lemma_and_bit(pinned, from as u64);
        }
        let pin_line = if pinned & bb(from) != 0 {
            line_through(ksq, from)
        } else {
            !0u64
        };
        proof {
            lemma_pawn_pin_line(*pos, from as int, pin_line);
        }
        let ghost m2 = list.moves@;
        gen_pawn_pushes(pos, list, caps_only, from, check_mask, pin_line);
        let ghost m3 = list.moves@;
        gen_pawn_captures(pos, list, caps_only, from, check_mask, pin_line);
        proof {
            lemma_appended_trans(*pos, mp, m2, m3, caps_only);
            lemma_appended_trans(*pos, mp, m3, list.moves@, caps_only);
            lemma_pawn_kept(
                *pos,
                caps_only,
                pinned,
                from as int,
                before,
                pawns,
                check_mask,
                pin_line,
                l0,
                m3,
                list.moves@,
            );
        }
    }
    let ghost ma = list.moves@;
    proof {
        lemma_appended_refl(*pos, ma, caps_only);
        lemma_pawns_end(*pos, caps_only, pinned, ma);
    }
    let ghost m4 = list.moves@;
    gen_ep(pos, list, caps_only, checkers, check_mask, ksq);
    let ghost me = list.moves@;
    proof {
        lemma_appended_trans(*pos, ma, m4, me, caps_only);
        lemma_appended_refl(*pos, me, caps_only);
    }
    // castling
    if !caps_only && checkers == 0 {
        let white = us == Color::White;
        let (kbit, qbit) = if white {
            (WK, WQ)
        } else {
            (BK, BQ)
        };
        if pos.castling & kbit != 0 {
            proof {
                lemma_castling_king(*pos, kbit);
            }
            let (kto, rsq, rto): (u8, u8, u8) = if white {
                (6, 7, 5)
            } else {
                (62, 63, 61)
            };
            let ghost m5 = list.moves@;
            gen_castle(pos, list, them, occ, ksq, rsq, kto, rto, CASTLE_KING);
            proof {
                lemma_appended_caps(*pos, m5, list.moves@, caps_only);
                lemma_appended_trans(*pos, me, m5, list.moves@, caps_only);
            }
        } else {
            proof {
                reveal(castle_legal);
            }
        }
        let ghost mc1 = list.moves@;
        if pos.castling & qbit != 0 {
            proof {
                lemma_castling_king(*pos, qbit);
            }
            let (kto, rsq, rto): (u8, u8, u8) = if white {
                (2, 0, 3)
            } else {
                (58, 56, 59)
            };
            let ghost m6 = list.moves@;
            gen_castle(pos, list, them, occ, ksq, rsq, kto, rto, CASTLE_QUEEN);
            proof {
                lemma_appended_caps(*pos, m6, list.moves@, caps_only);
                lemma_appended_trans(*pos, me, m6, list.moves@, caps_only);
                if castle_legal(*pos, 2) {
                    lemma_appended_keeps(*pos, mc1, list.moves@, false, castle_move(*pos, 2));
                }
            }
        } else {
            proof {
                reveal(castle_legal);
            }
        }
        proof {
            assert forall|f: int| #[trigger] castle_legal(*pos, f) implies list.moves@.contains(
                castle_move(*pos, f),
            ) by {
                reveal(castle_legal);
            }
        }
    }
    proof {
        lemma_appended_ep(*pos, me, list.moves@, caps_only);
        lemma_appended_trans(*pos, ma, me, list.moves@, caps_only);
        lemma_appended_pawn_moves(*pos, ma, list.moves@, caps_only);
        lemma_appended_trans(*pos, mp, ma, list.moves@, caps_only);
        lemma_appended_piece_steps(*pos, mp, list.moves@, caps_only);
        lemma_appended_trans(*pos, mk, mp, list.moves@, caps_only);
        lemma_appended_trans(*pos, start, mk, list.moves@, caps_only);
        lemma_appended_king_steps(*pos, mk, list.moves@, caps_only);
    }
}

/// What a generator run appending to `before` and giving `after` promises
/// (`caps`: captures and promotions only): every added move is listed, and
/// the king steps, piece and pawn moves, castlings (not with `caps`) and
/// en-passant captures that qualify are all there.
pub open spec fn generated(pos: Position, before: Seq<Move>, after: Seq<Move>, caps: bool) -> bool {
    &&& appended_ok(pos, before, after, caps)
    &&& has_king_steps(pos, after, caps)
    &&& has_piece_steps(pos, after, caps)
    &&& has_pawn_moves(pos, after, caps)
    &&& !caps ==> has_castlings(pos, after)
    &&& has_ep_captures(pos, after)
}

/// A move listed for captures-only generation is listed for full
/// generation, and so in the full generator's list.
proof fn lemma_capture_in_all(pos: Position, all: Seq<Move>, m: Move)
    requires
        pos.wf(),
        generated(pos, Seq::empty(), all, false),
        listed(pos, m, true),
    ensures
        all.contains(m),
{
    reveal(listed);
    reveal(legal_king_step);
    reveal(piece_step);
    reveal(pawn_push);
    let from = move_from(m);
    let to = move_to(m);
    let f = move_flags(m);
    if legal_king_step(pos, to, true) && m == king_step_move(pos, to) {
        assert(legal_king_step(pos, to, false));
    } else if piece_step(pos, from, to, true) && pin_ok(pos, from, to) && answers_check(pos, to) && m
        == step_move(pos, from, to) {
        assert(piece_step(pos, from, to, false));
    } else if pawn_move(pos, from, to, f, true) && pin_ok(pos, from, to) && answers_check(pos, to) && m
        == mv_of(from, to, f) {
        assert(pawn_move(pos, from, to, f, false));
    }
}

/// A capture or promotion listed for full generation is listed for
/// captures-only generation, and so in its list.
proof fn lemma_all_in_captures(pos: Position, caps: Seq<Move>, m: Move)
    requires
        pos.wf(),
        generated(pos, Seq::empty(), caps, true),
        listed(pos, m, false),
        flags_capture(move_flags(m)) || flags_promo(move_flags(m)),
    ensures
        caps.contains(m),
{
    reveal(listed);
    reveal(legal_king_step);
    reveal(piece_step);
    reveal(pawn_push);
    reveal(castle_legal);
    let from = move_from(m);
    let to = move_to(m);
    let f = move_flags(m);
    let ksq = pos.king_sq_spec(pos.stm);
    pos.lemma_king_nonzero(pos.stm);
    crate::bitboard::lemma_lsb(pos.pieces_spec(pos.stm, PieceType::King));
    if legal_king_step(pos, to, false) && m == king_step_move(pos, to) {
        let kf = if pos.mailbox[to] == EMPTY {
            0int
        } else {
            4int
        };
        lemma_mv_of(ksq, to, kf);
        assert(legal_king_step(pos, to, true));
    } else if castle_legal(pos, f) && m == castle_move(pos, f) {
        let sq = castle_squares(pos.stm, f);
        lemma_mv_of(sq.0, sq.1, f);
    } else if piece_step(pos, from, to, false) && pin_ok(pos, from, to) && answers_check(pos, to) && m
        == step_move(pos, from, to) {
        let pf = if pos.mailbox[to] == EMPTY {
            0int
        } else {
            4int
        };
        lemma_mv_of(from, to, pf);
        assert(piece_step(pos, from, to, true));
    } else if pawn_move(pos, from, to, f, false) && pin_ok(pos, from, to) && answers_check(pos, to) && m
        == mv_of(from, to, f) {
        assert(pawn_move(pos, from, to, f, true));
    }
}

/// On fresh lists, the captures-only generator lists exactly the moves of
/// the full generator that capture or promote.
pub proof fn lemma_captures_are_capturing_moves(pos: Position, all: Seq<Move>, caps: Seq<Move>)
    requires
        pos.wf(),
        generated(pos, Seq::empty(), all, false),
        generated(pos, Seq::empty(), caps, true),
    ensures
        forall|m: Move|
            caps.contains(m) <==> all.contains(m) && (flags_capture(move_flags(m)) || flags_promo(
                move_flags(m),
            )),
{
    assert forall|m: Move|
        caps.contains(m) <==> all.contains(m) && (flags_capture(move_flags(m)) || flags_promo(
            move_flags(m),
        )) by {
        if caps.contains(m) {
            let i = choose|i: int| 0 <= i < caps.len() && caps[i] == m;
            assert(caps[i] == m);
            lemma_capture_in_all(pos, all, m);
        }
        if all.contains(m) && (flags_capture(move_flags(m)) || flags_promo(move_flags(m))) {
            let i = choose|i: int| 0 <= i < all.len() && all[i] == m;
            assert(all[i] == m);
            lemma_all_in_captures(pos, caps, m);
        }
    }
}

/// No move of `pos` is legal: checkmate or stalemate.
pub open spec fn no_legal_move(pos: Position) -> bool {
    forall|m: Move| !listed(pos, m, false)
}

/// A full generator run on a fresh list holds every listed move.
pub proof fn lemma_listed_generated(pos: Position, all: Seq<Move>, m: Move)
    requires
        pos.wf(),
        generated(pos, Seq::empty(), all, false),
        listed(pos, m, false),
    ensures
        all.contains(m),
{
    reveal(listed);
    let from = move_from(m);
    let to = move_to(m);
    let f = move_flags(m);
    if legal_king_step(pos, to, false) && m == king_step_move(pos, to) {
    } else if !pos.in_check_spec() && castle_legal(pos, f) && m == castle_move(pos, f) {
    } else if piece_step(pos, from, to, false) && pin_ok(pos, from, to) && answers_check(pos, to) && m
        == step_move(pos, from, to) {
    } else if pawn_move(pos, from, to, f, false) && pin_ok(pos, from, to) && answers_check(pos, to) && m
        == mv_of(from, to, f) {
    } else {
        assert(ep_capture(pos, from) && ep_safe(pos, from) && ep_answers(pos));
    }
}

/// A full generator run on a fresh list comes back empty exactly when no
/// move is legal.
pub proof fn lemma_generated_empty(pos: Position, all: Seq<Move>)
    requires
        pos.wf(),
        generated(pos, Seq::empty(), all, false),
    ensures
        all.len() == 0 <==> no_legal_move(pos),
{
    if all.len() > 0 {
        assert(listed(pos, all[0], false));
    } else {
        assert forall|m: Move| !listed(pos, m, false) by {
            if listed(pos, m, false) {
                lemma_listed_generated(pos, all, m);
            }
        }
    }
}

/// All legal moves, appended to `list`. The moves added are the legal king
/// steps and castlings, the knight, bishop, rook and queen moves and the
/// pawn pushes and captures that keep to their pin and answer the check,
/// and the en-passant captures that leave the king unattacked and answer
/// the check: each added move is one of these (`appended_ok`), and each of
/// these is added (castling: when not in check).
pub fn generate_moves(pos: &Position, list: &mut MoveList)
    requires
        pos.wf(),
    ensures
        generated(*pos, old(list).moves@, final(list).moves@, false),
{
    gen_impl(pos, list, false)
}

/// Captures, en passant, and promotions only (quiescence search): the moves
/// of `generate_moves` that capture or promote, castling aside.
pub fn generate_captures(pos: &Position, list: &mut MoveList)
    requires
        pos.wf(),
    ensures
        generated(*pos, old(list).moves@, final(list).moves@, true),
{
    gen_impl(pos, list, true)
}

} // verus!
