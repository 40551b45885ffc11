//! Position representation: bitboards per piece type and per color, a mailbox
//! for piece lookup, copy-make. The Zobrist key is updated incrementally and
//! always equals the key computed from scratch.

use crate::bitboard::{
    BitIter, Bitboard, pop_lsb, bb, bb_spec, between, between_spec, bishop_attacks, bishop_spec, group_bits,
    in_bb, king_attacks, king_spec, knight_attacks, knight_spec, lemma_bits_empty, lemma_bits_ext,
    lsb, lsb_spec, pawn_attacks, pawn_spec, popcount, popcount_spec, rook_attacks, rook_spec,
};
use crate::types::{
    CASTLE_KING, CASTLE_QUEEN, CAPTURE, Color, DOUBLE_PUSH, EN_PASSANT, Move, PieceType, QUIET,
    Square, BK, BQ, WK, WQ, color_index, file_of, file_spec, flags_capture, move_flags, move_from,
    move_to, opposite, piece_index, piece_of_index, promo_piece_spec,
};
use crate::zobrist::{
    castling_key, castling_key_spec, ep_key, ep_key_spec, piece_key, piece_key_spec, side_key,
    side_key_spec,
};
use vstd::prelude::*;

verus! {

pub const NO_SQUARE: Square = 64;

/// Mailbox value of an empty square; otherwise `color * 6 + piece`.
pub const EMPTY: u8 = 12;

#[derive(Copy, Clone)]
pub struct Position {
    pub piece_bb: [Bitboard; 6],
    pub color_bb: [Bitboard; 2],
    /// 12 = empty, else color * 6 + piece_type
    pub mailbox: [u8; 64],
    pub stm: Color,
    pub castling: u8,
    /// En passant target square, or 64 if none.
    pub ep: Square,
    pub halfmove: u8,
    pub fullmove: u16,
    pub key: u64,
}

// ---------------------------------------------------------------------------
// Model
// ---------------------------------------------------------------------------
pub open spec fn code_of(c: Color, pt: PieceType) -> u8 {
    (color_index(c) * 6 + piece_index(pt)) as u8
}

pub open spec fn code_color(m: u8) -> Color {
    if m < 6 {
        Color::White
    } else {
        Color::Black
    }
}

pub open spec fn code_piece(m: u8) -> PieceType {
    piece_of_index((m % 6) as int)
}

/// Bit `s` of piece bitboard `k` is set exactly for `k == want`.
pub open spec fn pt_bits_ok(pbb: [u64; 6], s: int, want: int) -> bool {
    &&& in_bb(pbb[0], s) == (want == 0)
    &&& in_bb(pbb[1], s) == (want == 1)
    &&& in_bb(pbb[2], s) == (want == 2)
    &&& in_bb(pbb[3], s) == (want == 3)
    &&& in_bb(pbb[4], s) == (want == 4)
    &&& in_bb(pbb[5], s) == (want == 5)
}

/// Zobrist contribution of a mailbox entry on square `s`.
pub open spec fn sq_key(m: u8, s: int) -> u64 {
    if m < 12 {
        piece_key_spec(code_color(m), code_piece(m), s)
    } else {
        0
    }
}

/// XOR of the contributions of squares `0..n`.
pub open spec fn board_key(mb: Seq<u8>, n: int) -> u64
    decreases n,
{
    if n <= 0 {
        0
    } else {
        board_key(mb, n - 1) ^ sq_key(mb[n - 1], n - 1)
    }
}

/// Castling-rights bits a move from or to `sq` keeps.
pub open spec fn rights_mask_spec(sq: int) -> u8 {
    if sq == 4 {
        0xfc  // clears white's rights
    } else if sq == 0 {
        0xfd  // clears white queenside
    } else if sq == 7 {
        0xfe  // clears white kingside
    } else if sq == 60 {
        0xf3  // clears black's rights
    } else if sq == 56 {
        0xf7  // clears black queenside
    } else if sq == 63 {
        0xfb  // clears black kingside
    } else {
        0xff
    }
}

impl Position {
    /// Mailbox and bitboards agree on square `s`.
    pub open spec fn sq_ok(self, s: int) -> bool {
        let m = self.mailbox[s];
        if m == EMPTY {
            &&& pt_bits_ok(self.piece_bb, s, -1)
            &&& !in_bb(self.color_bb[0], s)
            &&& !in_bb(self.color_bb[1], s)
        } else {
            &&& m < 12
            &&& pt_bits_ok(self.piece_bb, s, (m % 6) as int)
            &&& in_bb(self.color_bb[0], s) == (m < 6)
            &&& in_bb(self.color_bb[1], s) == (m >= 6)
        }
    }

    pub open spec fn board_ok(self) -> bool {
        forall|s: int| 0 <= s < 64 ==> #[trigger] self.sq_ok(s)
    }

    pub open spec fn has_king(self, c: Color) -> bool {
        exists|s: int| 0 <= s < 64 && #[trigger] self.mailbox[s] == code_of(c, PieceType::King)
    }

    /// The key computed from scratch.
    pub open spec fn key_spec(self) -> u64 {
        board_key(self.mailbox@, 64) ^ (if self.stm == Color::Black {
            side_key_spec()
        } else {
            0
        }) ^ castling_key_spec(self.castling as int) ^ (if self.ep != NO_SQUARE {
            ep_key_spec(file_spec(self.ep as int))
        } else {
            0
        })
    }

    /// Each castling right still held has its king and rook at home.
    #[verifier::opaque]
    pub open spec fn castle_ok(self) -> bool {
        &&& (self.castling & WK) != 0 ==> self.mailbox[4] == code_of(Color::White, PieceType::King)
            && self.mailbox[7] == code_of(Color::White, PieceType::Rook)
        &&& (self.castling & WQ) != 0 ==> self.mailbox[4] == code_of(Color::White, PieceType::King)
            && self.mailbox[0] == code_of(Color::White, PieceType::Rook)
        &&& (self.castling & BK) != 0 ==> self.mailbox[60] == code_of(Color::Black, PieceType::King)
            && self.mailbox[63] == code_of(Color::Black, PieceType::Rook)
        &&& (self.castling & BQ) != 0 ==> self.mailbox[60] == code_of(Color::Black, PieceType::King)
            && self.mailbox[56] == code_of(Color::Black, PieceType::Rook)
    }

    /// An en-passant square is an empty square on the capturing side's
    /// sixth rank with an enemy pawn just past it.
    #[verifier::opaque]
    pub open spec fn ep_ok(self) -> bool {
        self.ep == NO_SQUARE || {
            let e = self.ep as int;
            &&& (if self.stm == Color::White {
                40 <= e < 48
            } else {
                16 <= e < 24
            })
            &&& self.mailbox[e] == EMPTY
            &&& self.mailbox[ep_victim_sq(self.stm, e)] == code_of(
                opposite(self.stm),
                PieceType::Pawn,
            )
        }
    }

    /// No pawn stands on the first or last rank.
    #[verifier::opaque]
    pub open spec fn pawns_ok(self) -> bool {
        forall|s: int|
            (0 <= s < 8 || 56 <= s < 64) ==> #[trigger] code_piece(self.mailbox[s])
                != PieceType::Pawn || self.mailbox[s] == EMPTY
    }

    /// Each side has at most one king.
    #[verifier::opaque]
    pub open spec fn kings_unique(self) -> bool {
        forall|s: int, t: int|
            0 <= s < 64 && 0 <= t < 64 && #[trigger] self.mailbox[s] == #[trigger] self.mailbox[t]
                && code_piece(self.mailbox[s]) == PieceType::King && self.mailbox[s] != EMPTY
                ==> s == t
    }

    /// Well-formed: consistent board, kings on the board, valid indices,
    /// consistent castling and en-passant state, and the incremental key
    /// equal to the key from scratch.
    pub open spec fn wf(self) -> bool {
        &&& self.board_ok()
        &&& self.castling < 16
        &&& self.ep <= NO_SQUARE
        &&& self.key == self.key_spec()
        &&& self.has_king(Color::White)
        &&& self.has_king(Color::Black)
        &&& self.castle_ok()
        &&& self.ep_ok()
        &&& self.pawns_ok()
        &&& self.kings_unique()
    }

    pub open spec fn pieces_spec(self, c: Color, pt: PieceType) -> u64 {
        self.piece_bb[piece_index(pt)] & self.color_bb[color_index(c)]
    }

    pub open spec fn occupied_spec(self) -> u64 {
        self.color_bb[0] | self.color_bb[1]
    }
}

// ---------------------------------------------------------------------------
// Lemmas on the model
// ---------------------------------------------------------------------------
proof fn lemma_xor_facts(a: u64, b: u64, c: u64)
    by (bit_vector)
    ensures
        (a ^ b) ^ c == a ^ (b ^ c),
        a ^ b == b ^ a,
        a ^ 0 == a,
        0 ^ a == a,
        a ^ a == 0,
{
}

proof fn lemma_or_facts(a: u64, b: u64, c: u64)
    by (bit_vector)
    ensures
        (a | b) | c == a | (b | c),
        a | 0 == a,
        0 | a == a,
{
}

/// Changing one mailbox entry changes the board key by the XOR of the old and
/// new contributions.
pub proof fn lemma_board_key_update(mb: Seq<u8>, t: int, v: u8, n: int)
    requires
        0 <= t < n <= mb.len(),
    ensures
        board_key(mb.update(t, v), n) == board_key(mb, n) ^ (sq_key(mb[t], t) ^ sq_key(v, t)),
    decreases n,
{
    let mb2 = mb.update(t, v);
    if t == n - 1 {
        assert(board_key(mb2, n - 1) == board_key(mb, n - 1)) by {
            lemma_board_key_prefix(mb, mb2, n - 1);
        }
        let k = board_key(mb, n - 1);
        let x = sq_key(mb[t], t);
        let y = sq_key(v, t);
        assert((k ^ y) == (k ^ x) ^ (x ^ y)) by (bit_vector);
    } else {
        lemma_board_key_update(mb, t, v, n - 1);
        let k = board_key(mb, n - 1);
        let d = sq_key(mb[t], t) ^ sq_key(v, t);
        let z = sq_key(mb[n - 1], n - 1);
        assert((k ^ d) ^ z == (k ^ z) ^ d) by (bit_vector);
    }
}

/// The board key over a prefix only reads that prefix.
pub proof fn lemma_board_key_prefix(a: Seq<u8>, b: Seq<u8>, n: int)
    requires
        0 <= n <= a.len(),
        n <= b.len(),
        forall|i: int| 0 <= i < n ==> a[i] == b[i],
    ensures
        board_key(a, n) == board_key(b, n),
    decreases n,
{
    if n > 0 {
        lemma_board_key_prefix(a, b, n - 1);
    }
}

impl Position {
    /// Membership in a color/piece bitboard is read off the mailbox.
    pub proof fn lemma_pieces(self, c: Color, pt: PieceType, s: int)
        requires
            self.board_ok(),
            0 <= s < 64,
        ensures
            in_bb(self.pieces_spec(c, pt), s) == (self.mailbox[s] == code_of(c, pt)),
            in_bb(self.occupied_spec(), s) == (self.mailbox[s] != EMPTY),
            in_bb(self.color_bb[color_index(c)], s) == (self.mailbox[s] != EMPTY && code_color(
                self.mailbox[s],
            ) == c),
    {
        broadcast use group_bits;

        assert(self.sq_ok(s));
    }

    /// Board consistency only reads the board fields.
    pub proof fn lemma_board_ok_same_board(self, other: Position)
        requires
            self.board_ok(),
            self.piece_bb == other.piece_bb,
            self.color_bb == other.color_bb,
            self.mailbox == other.mailbox,
        ensures
            other.board_ok(),
            other.has_king(Color::White) == self.has_king(Color::White),
            other.has_king(Color::Black) == self.has_king(Color::Black),
    {
        assert forall|s: int| 0 <= s < 64 implies #[trigger] other.sq_ok(s) by {
            assert(self.sq_ok(s));
        }
    }

    /// Two consistent boards with the same placement have the same bitboards.
    pub proof fn lemma_same_placement(self, other: Position)
        requires
            self.board_ok(),
            other.board_ok(),
            self.mailbox@ == other.mailbox@,
        ensures
            self.mailbox == other.mailbox,
            self.piece_bb == other.piece_bb,
            self.color_bb == other.color_bb,
    {
        broadcast use vstd::array::axiom_array_ext_equal;

        assert forall|s: int| 0 <= s < 64 implies #[trigger] self.mailbox[s] == other.mailbox[s] by {
            assert(self.mailbox@[s] == other.mailbox@[s]);
        }
        assert(self.mailbox =~= other.mailbox);
        assert forall|i: int| 0 <= i < 6 implies #[trigger] self.piece_bb[i] == other.piece_bb[i] by {
            assert forall|s: int| 0 <= s < 64 implies in_bb(self.piece_bb[i], s) == in_bb(other.piece_bb[i], s) by {
                assert(self.sq_ok(s) && other.sq_ok(s));
            }
            lemma_bits_ext(self.piece_bb[i], other.piece_bb[i]);
        }
        assert(self.piece_bb =~= other.piece_bb);
        assert forall|i: int| 0 <= i < 2 implies #[trigger] self.color_bb[i] == other.color_bb[i] by {
            assert forall|s: int| 0 <= s < 64 implies in_bb(self.color_bb[i], s) == in_bb(other.color_bb[i], s) by {
                assert(self.sq_ok(s) && other.sq_ok(s));
            }
            lemma_bits_ext(self.color_bb[i], other.color_bb[i]);
        }
        assert(self.color_bb =~= other.color_bb);
    }

    pub proof fn lemma_king_nonzero(self, c: Color)
        requires
            self.board_ok(),
            self.has_king(c),
        ensures
            self.pieces_spec(c, PieceType::King) != 0,
    {
        let s = choose|s: int| 0 <= s < 64 && #[trigger] self.mailbox[s] == code_of(c, PieceType::King);
        self.lemma_pieces(c, PieceType::King, s);
        lemma_bits_empty(self.pieces_spec(c, PieceType::King));
    }
}

// ---------------------------------------------------------------------------
// Construction and queries
// ---------------------------------------------------------------------------
impl Position {
    /// An empty board, white to move, no rights, key 0.
    pub fn empty() -> (r: Position)
        ensures
            r.board_ok(),
            forall|s: int| 0 <= s < 64 ==> #[trigger] r.mailbox[s] == EMPTY,
            r.stm == Color::White,
            r.castling == 0,
            r.ep == NO_SQUARE,
            r.halfmove == 0,
            r.fullmove == 1,
            r.key == 0,
    {
        let r = Position {
            piece_bb: [0; 6],
            color_bb: [0; 2],
            mailbox: [EMPTY; 64],
            stm: Color::White,
            castling: 0,
            ep: NO_SQUARE,
            halfmove: 0,
            fullmove: 1,
            key: 0,
        };
        proof {
            broadcast use group_bits;

            assert forall|s: int| 0 <= s < 64 implies #[trigger] r.sq_ok(s) by {}
        }
        r
    }

    pub fn occupied(&self) -> (r: Bitboard)
        ensures
            r == self.occupied_spec(),
    {
        self.color_bb[0] | self.color_bb[1]
    }

    pub fn pieces(&self, c: Color, pt: PieceType) -> (r: Bitboard)
        ensures
            r == self.pieces_spec(c, pt),
    {
        self.piece_bb[pt.idx()] & self.color_bb[c.idx()]
    }

    pub fn king_sq(&self, c: Color) -> (r: Square)
        requires
            self.board_ok(),
            self.has_king(c),
        ensures
            r < 64,
            r == lsb_spec(self.pieces_spec(c, PieceType::King)),
            self.mailbox[r as int] == code_of(c, PieceType::King),
    {
        proof {
            self.lemma_king_nonzero(c);
        }
        let r = lsb(self.pieces(c, PieceType::King));
        proof {
            self.lemma_pieces(c, PieceType::King, r as int);
        }
        r
    }

    pub fn piece_on(&self, sq: Square) -> (r: Option<(Color, PieceType)>)
        requires
            sq < 64,
            self.board_ok(),
        ensures
            self.mailbox[sq as int] == EMPTY ==> r.is_none(),
            self.mailbox[sq as int] != EMPTY ==> r == Some(
                (code_color(self.mailbox[sq as int]), code_piece(self.mailbox[sq as int])),
            ),
            r matches Some((c, pt)) ==> self.mailbox[sq as int] == code_of(c, pt),
    {
        let v = self.mailbox[sq as usize];
        proof {
            assert(self.sq_ok(sq as int));
        }
        if v == EMPTY {
            None
        } else {
            let c = if v < 6 {
                Color::White
            } else {
                Color::Black
            };
            Some((c, PieceType::from_idx((v % 6) as usize)))
        }
    }

    pub(crate) fn put(&mut self, c: Color, pt: PieceType, sq: Square)
        requires
            old(self).board_ok(),
            sq < 64,
            old(self).mailbox[sq as int] == EMPTY,
        ensures
            final(self).board_ok(),
            final(self).mailbox@ == old(self).mailbox@.update(sq as int, code_of(c, pt)),
            final(self).key == old(self).key ^ piece_key_spec(c, pt, sq as int),
            final(self).key ^ board_key(final(self).mailbox@, 64) == old(self).key ^ board_key(
                old(self).mailbox@,
                64,
            ),
            final(self).stm == old(self).stm,
            final(self).castling == old(self).castling,
            final(self).ep == old(self).ep,
            final(self).halfmove == old(self).halfmove,
            final(self).fullmove == old(self).fullmove,
    {
        let b = bb(sq);
        let i = pt.idx();
        let j = c.idx();
        let pv = self.piece_bb[i] | b;
        self.piece_bb[i] = pv;
        let cv = self.color_bb[j] | b;
        self.color_bb[j] = cv;
        self.mailbox[sq as usize] = (j * 6 + i) as u8;
        self.key = self.key ^ piece_key(c, pt, sq);
        proof {
            broadcast use group_bits;

            let o = *old(self);
            assert forall|s: int| 0 <= s < 64 implies #[trigger] self.sq_ok(s) by {
                assert(o.sq_ok(s));
                if s != sq {
                    assert(self.mailbox[s] == o.mailbox[s]);
                }
            }
            lemma_board_key_update(o.mailbox@, sq as int, code_of(c, pt), 64);
            assert(sq_key(code_of(c, pt), sq as int) == piece_key_spec(c, pt, sq as int));
            assert(sq_key(EMPTY, sq as int) == 0);
            let k = o.key;
            let b = board_key(o.mailbox@, 64);
            let pk = piece_key_spec(c, pt, sq as int);
            assert((k ^ pk) ^ (b ^ (0u64 ^ pk)) == k ^ b) by (bit_vector);
        }
    }

    pub(crate) fn remove(&mut self, c: Color, pt: PieceType, sq: Square)
        requires
            old(self).board_ok(),
            sq < 64,
            old(self).mailbox[sq as int] == code_of(c, pt),
        ensures
            final(self).board_ok(),
            final(self).mailbox@ == old(self).mailbox@.update(sq as int, EMPTY),
            final(self).key == old(self).key ^ piece_key_spec(c, pt, sq as int),
            final(self).key ^ board_key(final(self).mailbox@, 64) == old(self).key ^ board_key(
                old(self).mailbox@,
                64,
            ),
            final(self).stm == old(self).stm,
            final(self).castling == old(self).castling,
            final(self).ep == old(self).ep,
            final(self).halfmove == old(self).halfmove,
            final(self).fullmove == old(self).fullmove,
    {
        let b = bb(sq);
        let i = pt.idx();
        let j = c.idx();
        let pv = self.piece_bb[i] & !b;
        self.piece_bb[i] = pv;
        let cv = self.color_bb[j] & !b;
        self.color_bb[j] = cv;
        self.mailbox[sq as usize] = EMPTY;
        self.key = self.key ^ piece_key(c, pt, sq);
        proof {
            broadcast use group_bits;

            let o = *old(self);
            assert forall|s: int| 0 <= s < 64 implies #[trigger] self.sq_ok(s) by {
                assert(o.sq_ok(s));
                if s != sq {
                    assert(self.mailbox[s] == o.mailbox[s]);
                }
            }
            lemma_board_key_update(o.mailbox@, sq as int, EMPTY, 64);
            assert(sq_key(code_of(c, pt), sq as int) == piece_key_spec(c, pt, sq as int));
            assert(sq_key(EMPTY, sq as int) == 0);
            let k = o.key;
            let b = board_key(o.mailbox@, 64);
            let pk = piece_key_spec(c, pt, sq as int);
            assert((k ^ pk) ^ (b ^ (pk ^ 0u64)) == k ^ b) by (bit_vector);
        }
    }
}

// ---------------------------------------------------------------------------
// Make move (copy-make)
// ---------------------------------------------------------------------------
/// Rook origin and destination of a castling move (standard squares).
pub open spec fn castle_rook_squares(us: Color, f: int) -> (int, int) {
    if us == Color::White {
        if f == 2 {
            (7, 5)
        } else {
            (0, 3)
        }
    } else {
        if f == 2 {
            (63, 61)
        } else {
            (56, 59)
        }
    }
}

/// Square of the pawn taken en passant when a pawn of `us` lands on `to`.
pub open spec fn ep_victim_sq(us: Color, to: int) -> int {
    if us == Color::White {
        to - 8
    } else {
        to + 8
    }
}

fn rights_mask(sq: Square) -> (r: u8)
    ensures
        r == rights_mask_spec(sq as int),
{
    if sq == 4 {
        0xfc
    } else if sq == 0 {
        0xfd
    } else if sq == 7 {
        0xfe
    } else if sq == 60 {
        0xf3
    } else if sq == 56 {
        0xf7
    } else if sq == 63 {
        0xfb
    } else {
        0xff
    }
}

impl Position {
    /// `mv` can be played by `make`: the mover's piece is on `from`, the
    /// squares the move empties and fills hold what the move type needs, and
    /// no king is captured.
    pub open spec fn move_ok(self, mv: Move) -> bool {
        let us = self.stm;
        let them = opposite(us);
        let from = move_from(mv);
        let to = move_to(mv);
        let f = move_flags(mv);
        let m = self.mailbox[from];
        &&& m != EMPTY
        &&& code_color(m) == us
        &&& from != to
        &&& f != 6 && f != 7
        &&& (f == 0 || f == 1 || (8 <= f < 12)) ==> self.mailbox[to] == EMPTY
        &&& f == 1 ==> {
            &&& m == code_of(us, PieceType::Pawn)
            &&& (if us == Color::White {
                8 <= from < 16 && to == from + 16
            } else {
                48 <= from < 56 && to == from - 16
            })
            &&& self.mailbox[ep_victim_sq(us, to)] == EMPTY
        }
        &&& (f == 4 || f >= 12) ==> {
            &&& self.mailbox[to] != EMPTY
            &&& code_color(self.mailbox[to]) == them
            &&& code_piece(self.mailbox[to]) != PieceType::King
        }
        &&& f >= 8 ==> m == code_of(us, PieceType::Pawn)
        &&& (code_piece(m) == PieceType::Pawn && f < 8) ==> 8 <= to < 56
        &&& f == 5 ==> {
            &&& m == code_of(us, PieceType::Pawn)
            &&& to == self.ep
            &&& self.mailbox[to] == EMPTY
            &&& 0 <= ep_victim_sq(us, to) < 64
            &&& self.mailbox[ep_victim_sq(us, to)] == code_of(them, PieceType::Pawn)
        }
        &&& (f == 2 || f == 3) ==> {
            let (rf, rt) = castle_rook_squares(us, f);
            &&& m == code_of(us, PieceType::King)
            &&& from == (if us == Color::White {
                4int
            } else {
                60int
            })
            &&& to == (if f == 2 {
                from + 2
            } else {
                from - 2
            })
            &&& self.mailbox[to] == EMPTY
            &&& self.mailbox[rf] == code_of(us, PieceType::Rook)
            &&& rf != to && rt != to && rf != from
            &&& (self.mailbox[rt] == EMPTY || rt == from)
        }
    }

    /// The mailbox after `mv`: the mover leaves `from`; the captured piece (if
    /// any) disappears; the mover (or the promoted piece) lands on `to`; a
    /// castling rook jumps to its square.
    pub open spec fn mailbox_after(self, mv: Move) -> Seq<u8> {
        let us = self.stm;
        let from = move_from(mv);
        let to = move_to(mv);
        let f = move_flags(mv);
        let mb = self.mailbox@;
        let m = mb[from];
        if f == 2 || f == 3 {
            let (rf, rt) = castle_rook_squares(us, f);
            mb.update(from, EMPTY).update(to, code_of(us, PieceType::King)).update(rf, EMPTY).update(
                rt,
                code_of(us, PieceType::Rook),
            )
        } else if f == 5 {
            mb.update(ep_victim_sq(us, to), EMPTY).update(from, EMPTY).update(
                to,
                code_of(us, PieceType::Pawn),
            )
        } else if f >= 8 {
            mb.update(from, EMPTY).update(to, code_of(us, promo_piece_spec(f)))
        } else {
            mb.update(from, EMPTY).update(to, m)
        }
    }

    /// En-passant square after `mv` (computed on the board after the move):
    /// only a double push next to an enemy pawn that could take creates one.
    pub open spec fn ep_after(self, mv: Move, after: Position) -> Square {
        let us = self.stm;
        let them = opposite(us);
        let to = move_to(mv);
        let ep_sq = ep_victim_sq(us, to);
        if move_flags(mv) == 1 && (pawn_spec(us, ep_sq) & after.pieces_spec(them, PieceType::Pawn))
            != 0 {
            ep_sq as u8
        } else {
            NO_SQUARE
        }
    }

    /// Key minus the board part: what the non-board state contributes.
    pub open spec fn rest_key(self) -> u64 {
        self.key ^ board_key(self.mailbox@, 64)
    }

    pub open spec fn side_part(self) -> u64 {
        if self.stm == Color::Black {
            side_key_spec()
        } else {
            0
        }
    }

    pub open spec fn ep_part(self) -> u64 {
        if self.ep != NO_SQUARE {
            ep_key_spec(file_spec(self.ep as int))
        } else {
            0
        }
    }

    /// The key is right exactly when the rest key is the XOR of the
    /// non-board contributions.
    pub proof fn lemma_key_rest(self)
        ensures
            (self.key == self.key_spec()) == (self.rest_key() == (self.side_part()
                ^ castling_key_spec(self.castling as int)) ^ self.ep_part()),
    {
        let k = self.key;
        let b = board_key(self.mailbox@, 64);
        let sd = self.side_part();
        let ck = castling_key_spec(self.castling as int);
        let ek = self.ep_part();
        assert((k == ((b ^ sd) ^ ck) ^ ek) == (k ^ b == (sd ^ ck) ^ ek)) by (bit_vector);
    }
}

/// A mailbox value names the piece it encodes.
pub proof fn lemma_code_roundtrip(m: u8)
    requires
        m < 12,
    ensures
        code_of(code_color(m), code_piece(m)) == m,
{
}

pub proof fn lemma_code_parts(c: Color, pt: PieceType)
    ensures
        code_of(c, pt) < 12,
        code_color(code_of(c, pt)) == c,
        code_piece(code_of(c, pt)) == pt,
        code_of(c, pt) != EMPTY,
{
}

impl Position {
    /// Drop the en-passant square (and its key).
    fn clear_ep(&mut self)
        requires
            old(self).ep <= NO_SQUARE,
        ensures
            final(self).ep == NO_SQUARE,
            final(self).key == old(self).key ^ old(self).ep_part(),
            final(self).mailbox == old(self).mailbox,
            final(self).piece_bb == old(self).piece_bb,
            final(self).color_bb == old(self).color_bb,
            final(self).stm == old(self).stm,
            final(self).castling == old(self).castling,
            final(self).halfmove == old(self).halfmove,
            final(self).fullmove == old(self).fullmove,
    {
        if self.ep != NO_SQUARE {
            self.key = self.key ^ ep_key(file_of(self.ep));
            self.ep = NO_SQUARE;
        } else {
            proof {
                let k = self.key;
                lemma_xor_facts(k, 0, 0);
            }
        }
    }

    /// Move a piece to an empty square.
    fn shift_piece(&mut self, c: Color, pt: PieceType, from: Square, to: Square)
        requires
            old(self).board_ok(),
            from < 64,
            to < 64,
            from != to,
            old(self).mailbox[from as int] == code_of(c, pt),
            old(self).mailbox[to as int] == EMPTY,
        ensures
            final(self).board_ok(),
            final(self).mailbox@ == old(self).mailbox@.update(from as int, EMPTY).update(
                to as int,
                code_of(c, pt),
            ),
            final(self).rest_key() == old(self).rest_key(),
            final(self).stm == old(self).stm,
            final(self).castling == old(self).castling,
            final(self).ep == old(self).ep,
            final(self).halfmove == old(self).halfmove,
            final(self).fullmove == old(self).fullmove,
    {
        self.remove(c, pt, from);
        self.put(c, pt, to);
    }

    /// Update the board for `mv`.
    fn move_pieces(&mut self, mv: Move, pt: PieceType)
        requires
            old(self).board_ok(),
            old(self).move_ok(mv),
            old(self).mailbox[move_from(mv)] == code_of(old(self).stm, pt),
        ensures
            final(self).board_ok(),
            final(self).mailbox@ == old(self).mailbox_after(mv),
            final(self).rest_key() == old(self).rest_key(),
            final(self).stm == old(self).stm,
            final(self).castling == old(self).castling,
            final(self).ep == old(self).ep,
            final(self).halfmove == old(self).halfmove,
            final(self).fullmove == old(self).fullmove,
    {
        let us = self.stm;
        let them = us.flip();
        let from = mv.from();
        let to = mv.to();
        let flags = mv.flags();
        proof {
            lemma_code_parts(us, pt);
        }
        if flags == QUIET || flags == DOUBLE_PUSH {
            self.shift_piece(us, pt, from, to);
        } else if flags == CASTLE_KING || flags == CASTLE_QUEEN {
            let (rook_from, rook_to): (u8, u8) = if us == Color::White {
                if flags == CASTLE_KING {
                    (7, 5)
                } else {
                    (0, 3)
                }
            } else {
                if flags == CASTLE_KING {
                    (63, 61)
                } else {
                    (56, 59)
                }
            };
            proof {
                lemma_code_parts(us, PieceType::King);
                lemma_code_parts(us, PieceType::Rook);
            }
            self.shift_piece(us, PieceType::King, from, to);
            self.remove(us, PieceType::Rook, rook_from);
            self.put(us, PieceType::Rook, rook_to);
        } else if flags == EN_PASSANT {
            let cap_sq = if us == Color::White {
                to - 8
            } else {
                to + 8
            };
            proof {
                lemma_code_parts(opposite(us), PieceType::Pawn);
            }
            self.remove(them, PieceType::Pawn, cap_sq);
            self.shift_piece(us, PieceType::Pawn, from, to);
        } else if flags == CAPTURE {
            let cap_pt = match self.piece_on(to) {
                Some((_, p)) => p,
                None => PieceType::Pawn,  // excluded by move_ok

            };
            proof {
                lemma_code_roundtrip(self.mailbox[to as int]);
            }
            self.remove(them, cap_pt, to);
            self.shift_piece(us, pt, from, to);
        } else {
            // promotions, with or without capture
            if mv.is_capture() {
                let cap_pt = match self.piece_on(to) {
                    Some((_, p)) => p,
                    None => PieceType::Pawn,  // excluded by move_ok

                };
                proof {
                    lemma_code_roundtrip(self.mailbox[to as int]);
                }
                self.remove(them, cap_pt, to);
            }
            let promo = mv.promo_piece();
            proof {
                lemma_code_parts(us, promo);
            }
            self.remove(us, PieceType::Pawn, from);
            self.put(us, promo, to);
        }
    }
}

impl Position {
    /// After the board part of `mv`, both kings are still on the board.
    proof fn lemma_kings_after(self, mv: Move, after: Position)
        requires
            self.wf(),
            self.move_ok(mv),
            after.mailbox@ == self.mailbox_after(mv),
        ensures
            after.has_king(Color::White),
            after.has_king(Color::Black),
    {
        let us = self.stm;
        let from = move_from(mv);
        let to = move_to(mv);
        let f = move_flags(mv);
        assert forall|c: Color| #[trigger] after.has_king(c) by {
            let s = choose|s: int|
                0 <= s < 64 && #[trigger] self.mailbox[s] == code_of(c, PieceType::King);
            lemma_code_parts(c, PieceType::King);
            lemma_code_parts(us, PieceType::Rook);
            lemma_code_parts(us, PieceType::Pawn);
            lemma_code_parts(opposite(us), PieceType::Pawn);
            lemma_code_parts(us, promo_piece_spec(f));
            if s == from {
                // the king itself moved (plain king move or castling)
                assert(code_color(self.mailbox[from]) == us);
                assert(c == us);
                assert(after.mailbox[to] == code_of(c, PieceType::King));
            } else {
                assert(after.mailbox[s] == code_of(c, PieceType::King));
            }
        }
    }

    /// After a double push, record the en-passant square when an enemy pawn
    /// could take.
    fn set_push_ep(&mut self, us: Color, to: Square)
        requires
            old(self).ep == NO_SQUARE,
            0 <= ep_victim_sq(us, to as int) < 64,
        ensures
            final(self).ep == (if (pawn_spec(us, ep_victim_sq(us, to as int)) & old(
                self,
            ).pieces_spec(opposite(us), PieceType::Pawn)) != 0 {
                ep_victim_sq(us, to as int) as u8
            } else {
                NO_SQUARE
            }),
            final(self).key == old(self).key ^ final(self).ep_part(),
            final(self).mailbox == old(self).mailbox,
            final(self).piece_bb == old(self).piece_bb,
            final(self).color_bb == old(self).color_bb,
            final(self).stm == old(self).stm,
            final(self).castling == old(self).castling,
            final(self).halfmove == old(self).halfmove,
            final(self).fullmove == old(self).fullmove,
    {
        let ep_sq = if us == Color::White {
            to - 8
        } else {
            to + 8
        };
        if pawn_attacks(us, ep_sq) & self.pieces(us.flip(), PieceType::Pawn) != 0 {
            self.ep = ep_sq;
            self.key = self.key ^ ep_key(file_of(ep_sq));
        } else {
            proof {
                let k = self.key;
                lemma_xor_facts(k, 0, 0);
            }
        }
    }

    /// Castling-rights update and side switch that end a move.
    fn finish_turn(&mut self, from: Square, to: Square)
        requires
            old(self).castling < 16,
        ensures
            final(self).castling == old(self).castling & rights_mask_spec(from as int)
                & rights_mask_spec(to as int),
            final(self).castling < 16,
            final(self).stm == opposite(old(self).stm),
            final(self).key == ((old(self).key ^ castling_key_spec(old(self).castling as int))
                ^ castling_key_spec(final(self).castling as int)) ^ side_key_spec(),
            final(self).fullmove == (if old(self).stm == Color::Black && old(self).fullmove
                < 0xffff {
                (old(self).fullmove + 1) as u16
            } else {
                old(self).fullmove
            }),
            final(self).mailbox == old(self).mailbox,
            final(self).piece_bb == old(self).piece_bb,
            final(self).color_bb == old(self).color_bb,
            final(self).ep == old(self).ep,
            final(self).halfmove == old(self).halfmove,
    {
        let old_castling = self.castling;
        self.castling = self.castling & rights_mask(from) & rights_mask(to);
        proof {
            let x = old_castling;
            let y = rights_mask_spec(from as int);
            let z = rights_mask_spec(to as int);
            assert(x < 16 ==> x & y & z < 16) by (bit_vector);
        }
        if self.castling != old_castling {
            self.key = self.key ^ castling_key(old_castling);
            self.key = self.key ^ castling_key(self.castling);
        } else {
            proof {
                let k = self.key;
                let c = castling_key_spec(old_castling as int);
                lemma_xor_facts(k, c, c);
                lemma_xor_facts(c, 0, 0);
                lemma_xor_facts(k, 0, 0);
            }
        }
        let us = self.stm;
        self.stm = us.flip();
        self.key = self.key ^ side_key();
        if us == Color::Black && self.fullmove < 0xffff {
            self.fullmove = self.fullmove + 1;
        }
    }

    /// Squares a move does not touch keep their contents.
    proof fn lemma_untouched(self, mv: Move, sq: int)
        requires
            self.wf(),
            self.move_ok(mv),
            0 <= sq < 64,
            sq != move_from(mv),
            sq != move_to(mv),
            (move_flags(mv) == 2 || move_flags(mv) == 3) ==> sq != castle_rook_squares(
                self.stm,
                move_flags(mv),
            ).0 && sq != castle_rook_squares(self.stm, move_flags(mv)).1,
            move_flags(mv) == 5 ==> sq != ep_victim_sq(self.stm, move_to(mv)),
        ensures
            self.mailbox_after(mv)[sq] == self.mailbox[sq],
    {
    }

    /// En-passant captures take a pawn from the middle ranks.
    proof fn lemma_ep_victim_rank(self, mv: Move)
        requires
            self.wf(),
            self.move_ok(mv),
            move_flags(mv) == 5,
        ensures
            24 <= ep_victim_sq(self.stm, move_to(mv)) < 40,
    {
        reveal(Position::ep_ok);
    }

    /// Facts about which rights the per-square masks keep.
    proof fn lemma_mask_bits(sq: int)
        ensures
            rights_mask_spec(sq) & 1 != 0 ==> sq != 4 && sq != 7,
            rights_mask_spec(sq) & 2 != 0 ==> sq != 4 && sq != 0,
            rights_mask_spec(sq) & 4 != 0 ==> sq != 60 && sq != 63,
            rights_mask_spec(sq) & 8 != 0 ==> sq != 60 && sq != 56,
    {
        assert(0xfcu8 & 1 == 0 && 0xfcu8 & 2 == 0 && 0xfdu8 & 2 == 0 && 0xfeu8 & 1 == 0 && 0xf3u8
            & 4 == 0 && 0xf3u8 & 8 == 0 && 0xf7u8 & 8 == 0 && 0xfbu8 & 4 == 0) by (bit_vector);
    }

    /// Castling rights that survive a move still have king and rook at home.
    proof fn lemma_castle_ok_after(self, mv: Move, after: Position)
        requires
            self.wf(),
            self.move_ok(mv),
            after.mailbox@ == self.mailbox_after(mv),
            after.castling == self.castling & rights_mask_spec(move_from(mv)) & rights_mask_spec(
                move_to(mv),
            ),
        ensures
            after.castle_ok(),
    {
        reveal(Position::castle_ok);
        let from = move_from(mv);
        let to = move_to(mv);
        let x = self.castling;
        let y = rights_mask_spec(from);
        let z = rights_mask_spec(to);
        Self::lemma_mask_bits(from);
        Self::lemma_mask_bits(to);
        assert(((x & y & z) & 1 != 0 ==> (x & 1 != 0 && y & 1 != 0 && z & 1 != 0)) && ((x & y & z)
            & 2 != 0 ==> (x & 2 != 0 && y & 2 != 0 && z & 2 != 0)) && ((x & y & z) & 4 != 0 ==> (x
            & 4 != 0 && y & 4 != 0 && z & 4 != 0)) && ((x & y & z) & 8 != 0 ==> (x & 8 != 0 && y
            & 8 != 0 && z & 8 != 0))) by (bit_vector);
        if move_flags(mv) == 5 {
            self.lemma_ep_victim_rank(mv);
        }
        if after.castling & WK != 0 {
            self.lemma_untouched(mv, 4);
            self.lemma_untouched(mv, 7);
        }
        if after.castling & WQ != 0 {
            self.lemma_untouched(mv, 4);
            self.lemma_untouched(mv, 0);
        }
        if after.castling & BK != 0 {
            self.lemma_untouched(mv, 60);
            self.lemma_untouched(mv, 63);
        }
        if after.castling & BQ != 0 {
            self.lemma_untouched(mv, 60);
            self.lemma_untouched(mv, 56);
        }
    }

    /// The en-passant square a move leaves behind is consistent.
    proof fn lemma_ep_ok_after(self, mv: Move, after: Position)
        requires
            self.wf(),
            self.move_ok(mv),
            after.mailbox@ == self.mailbox_after(mv),
            after.stm == opposite(self.stm),
            after.ep == NO_SQUARE || (move_flags(mv) == 1 && after.ep == ep_victim_sq(
                self.stm,
                move_to(mv),
            )),
        ensures
            after.ep_ok(),
    {
        reveal(Position::ep_ok);
        lemma_code_parts(self.stm, PieceType::Pawn);
    }

    /// No move leaves a pawn on a back rank.
    proof fn lemma_pawns_ok_after(self, mv: Move, after: Position)
        requires
            self.wf(),
            self.move_ok(mv),
            after.mailbox@ == self.mailbox_after(mv),
        ensures
            after.pawns_ok(),
    {
        reveal(Position::pawns_ok);
        let us = self.stm;
        let f = move_flags(mv);
        lemma_code_parts(us, PieceType::King);
        lemma_code_parts(us, PieceType::Rook);
        lemma_code_parts(us, PieceType::Pawn);
        lemma_code_parts(us, promo_piece_spec(f));
        assert forall|s: int| (0 <= s < 8 || 56 <= s < 64) implies #[trigger] code_piece(
            after.mailbox[s],
        ) != PieceType::Pawn || after.mailbox[s] == EMPTY by {
            assert(code_piece(self.mailbox[s]) != PieceType::Pawn || self.mailbox[s] == EMPTY);
        }
    }

    /// Moves never add a king: the king either stays or moves.
    proof fn lemma_kings_unique_after(self, mv: Move, after: Position)
        requires
            self.wf(),
            self.move_ok(mv),
            after.mailbox@ == self.mailbox_after(mv),
        ensures
            after.kings_unique(),
    {
        reveal(Position::kings_unique);
        let us = self.stm;
        let from = move_from(mv);
        let to = move_to(mv);
        let f = move_flags(mv);
        lemma_code_parts(us, PieceType::King);
        lemma_code_parts(us, PieceType::Rook);
        lemma_code_parts(us, PieceType::Pawn);
        lemma_code_parts(us, promo_piece_spec(f));
        assert forall|s: int, t: int|
            0 <= s < 64 && 0 <= t < 64 && #[trigger] after.mailbox[s] == #[trigger] after.mailbox[t]
                && code_piece(after.mailbox[s]) == PieceType::King && after.mailbox[s]
                != EMPTY implies s == t by {
            // a king code in `after` is either the moved king (on `to`) or an
            // untouched king of the original board
            if s != to && t != to {
                assert(self.mailbox[s] == after.mailbox[s]);
                assert(self.mailbox[t] == after.mailbox[t]);
            } else if s == to && t != to {
                assert(after.mailbox[t] == self.mailbox[t]);
                assert(code_color(self.mailbox[from]) == us);
                assert(self.mailbox[from] == after.mailbox[s]);
                assert(t == from);
            } else if t == to && s != to {
                assert(after.mailbox[s] == self.mailbox[s]);
                assert(self.mailbox[from] == after.mailbox[t]);
                assert(s == from);
            }
        }
    }

    /// `r` is the position that playing `mv` on this one gives: the board
    /// after the move, the other side to move, the rights and en-passant
    /// square that remain, and the counters advanced.
    pub open spec fn made(self, mv: Move, r: Position) -> bool {
        &&& r.wf()
        &&& r.mailbox@ == self.mailbox_after(mv)
        &&& r.stm == opposite(self.stm)
        &&& r.castling == self.castling & rights_mask_spec(move_from(mv)) & rights_mask_spec(move_to(mv))
        &&& r.ep == self.ep_after(mv, r)
        &&& r.halfmove == (if code_piece(self.mailbox[move_from(mv)]) == PieceType::Pawn || move_flags(mv)
            == 4 {
            0
        } else if self.halfmove == 255 {
            255
        } else {
            (self.halfmove + 1) as u8
        })
        &&& r.fullmove == (if self.stm == Color::Black && self.fullmove < 0xffff {
            (self.fullmove + 1) as u16
        } else {
            self.fullmove
        })
    }

    /// Apply a playable move, returning the resulting position.
    pub fn make(&self, mv: Move) -> (r: Position)
        requires
            self.wf(),
            self.move_ok(mv),
        ensures
            self.made(mv, r),
            r.wf(),
            r.mailbox@ == self.mailbox_after(mv),
            r.stm == opposite(self.stm),
            r.castling == self.castling & rights_mask_spec(move_from(mv)) & rights_mask_spec(
                move_to(mv),
            ),
            r.ep == self.ep_after(mv, r),
            r.halfmove == (if code_piece(self.mailbox[move_from(mv)]) == PieceType::Pawn
                || move_flags(mv) == 4 {
                0
            } else if self.halfmove == 255 {
                255
            } else {
                (self.halfmove + 1) as u8
            }),
            r.fullmove == (if self.stm == Color::Black && self.fullmove < 0xffff {
                (self.fullmove + 1) as u16
            } else {
                self.fullmove
            }),
    {
        let mut pos = *self;
        let us = pos.stm;
        let from = mv.from();
        let to = mv.to();
        let flags = mv.flags();
        let pt = match pos.piece_on(from) {
            Some((_, p)) => p,
            None => PieceType::Pawn,  // excluded by move_ok

        };
        proof {
            lemma_code_roundtrip(self.mailbox[from as int]);
            self.lemma_key_rest();
        }
        let ghost s0 = self.side_part();
        let ghost c0 = castling_key_spec(self.castling as int);
        let ghost e0 = self.ep_part();
        pos.move_pieces(mv, pt);
        let ghost p1 = pos;
        // clear the old ep key; a new one is set below if this is a double push
        pos.clear_ep();
        pos.halfmove = if pos.halfmove < 255 {
            pos.halfmove + 1
        } else {
            255
        };
        if pt == PieceType::Pawn || flags == CAPTURE {
            pos.halfmove = 0;
        }
        let ghost p2 = pos;
        if flags == DOUBLE_PUSH {
            pos.set_push_ep(us, to);
        }
        let ghost p3 = pos;
        pos.finish_turn(from, to);
        proof {
            p1.lemma_board_ok_same_board(pos);
            let k0 = self.key;
            let b0 = board_key(self.mailbox@, 64);
            let b = board_key(pos.mailbox@, 64);
            let e1 = pos.ep_part();
            let c1 = castling_key_spec(pos.castling as int);
            let sk = side_key_spec();
            // p1: board moved (rest unchanged); p2: ep cleared; p3: ep set
            assert(p1.key ^ b == k0 ^ b0);
            assert(p2.key == p1.key ^ e0);
            assert(p3.key == p2.key ^ e1) by {
                if flags != DOUBLE_PUSH {
                    let k = p2.key;
                    lemma_xor_facts(k, 0, 0);
                }
            }
            assert(pos.key == ((p3.key ^ c0) ^ c1) ^ sk);
            assert(k0 ^ b0 == (s0 ^ c0) ^ e0);
            let k1 = p1.key;
            assert(k0 ^ b0 == (s0 ^ c0) ^ e0 && k1 ^ b == k0 ^ b0 ==> (((((k1 ^ e0) ^ e1) ^ c0)
                ^ c1) ^ sk) ^ b == ((s0 ^ sk) ^ c1) ^ e1) by (bit_vector);
            lemma_xor_facts(sk, 0, 0);
            assert(pos.side_part() == s0 ^ sk);
            pos.lemma_key_rest();
            self.lemma_kings_after(mv, pos);
            self.lemma_castle_ok_after(mv, pos);
            self.lemma_ep_ok_after(mv, pos);
            self.lemma_pawns_ok_after(mv, pos);
            self.lemma_kings_unique_after(mv, pos);
        }
        pos
    }
}

// ---------------------------------------------------------------------------
// Attacks, check, pins
// ---------------------------------------------------------------------------
impl Position {
    /// Pieces of color `c` attacking `sq` when the board holds `occ`.
    pub open spec fn attackers_spec(self, sq: int, c: Color, occ: u64) -> u64 {
        let queens = self.pieces_spec(c, PieceType::Queen);
        (pawn_spec(opposite(c), sq) & self.pieces_spec(c, PieceType::Pawn)) | (knight_spec(sq)
            & self.pieces_spec(c, PieceType::Knight)) | (king_spec(sq) & self.pieces_spec(
            c,
            PieceType::King,
        )) | (bishop_spec(sq, occ) & (self.pieces_spec(c, PieceType::Bishop) | queens)) | (
        rook_spec(sq, occ) & (self.pieces_spec(c, PieceType::Rook) | queens))
    }

    /// The king square of `c` (lowest king bit).
    pub open spec fn king_sq_spec(self, c: Color) -> int {
        lsb_spec(self.pieces_spec(c, PieceType::King))
    }

    /// The side to move is in check.
    pub open spec fn in_check_spec(self) -> bool {
        self.attackers_spec(self.king_sq_spec(self.stm), opposite(self.stm), self.occupied_spec())
            != 0
    }

    /// All pieces of color `c` attacking square `sq`, given occupancy `occ`.
    pub fn attackers_to(&self, sq: Square, c: Color, occ: Bitboard) -> (r: Bitboard)
        requires
            sq < 64,
        ensures
            r == self.attackers_spec(sq as int, c, occ),
    {
        let queens = self.pieces(c, PieceType::Queen);
        (pawn_attacks(c.flip(), sq) & self.pieces(c, PieceType::Pawn)) | (knight_attacks(sq)
            & self.pieces(c, PieceType::Knight)) | (king_attacks(sq) & self.pieces(
            c,
            PieceType::King,
        )) | (bishop_attacks(sq, occ) & (self.pieces(c, PieceType::Bishop) | queens)) | (
        rook_attacks(sq, occ) & (self.pieces(c, PieceType::Rook) | queens))
    }

    pub fn in_check(&self) -> (r: bool)
        requires
            self.wf(),
        ensures
            r == self.in_check_spec(),
    {
        let k = self.king_sq(self.stm);
        self.attackers_to(k, self.stm.flip(), self.occupied()) != 0
    }

    /// Enemy sliders on an empty-board line with the king.
    pub open spec fn snipers_spec(self, ksq: int) -> u64 {
        let them = opposite(self.stm);
        let queens = self.pieces_spec(them, PieceType::Queen);
        (rook_spec(ksq, 0) & (self.pieces_spec(them, PieceType::Rook) | queens)) | (bishop_spec(
            ksq,
            0,
        ) & (self.pieces_spec(them, PieceType::Bishop) | queens))
    }

    /// What one sniper pins: the single friendly piece between it and the king.
    pub open spec fn pin_of(self, ksq: int, sniper: int) -> u64 {
        let blockers = between_spec(ksq, sniper) & self.occupied_spec();
        if popcount_spec(blockers) == 1 && (blockers & self.color_bb[color_index(self.stm)]) != 0 {
            blockers
        } else {
            0
        }
    }

    /// Union of the pins of the snipers in `snipers`.
    pub open spec fn pins_from(self, ksq: int, snipers: u64) -> u64
        decreases snipers,
    {
        if snipers == 0 {
            0
        } else {
            proof {
                crate::bitboard::lemma_clear_lsb(snipers);
            }
            self.pin_of(ksq, lsb_spec(snipers)) | self.pins_from(
                ksq,
                snipers & ((snipers - 1) as u64),
            )
        }
    }

    pub open spec fn pinned_spec(self) -> u64 {
        let ksq = self.king_sq_spec(self.stm);
        self.pins_from(ksq, self.snipers_spec(ksq))
    }

    /// Pieces of the side to move pinned to their own king.
    pub fn pinned(&self) -> (r: Bitboard)
        requires
            self.wf(),
        ensures
            r == self.pinned_spec(),
    {
        let us = self.stm;
        let them = us.flip();
        let ksq = self.king_sq(us);
        let occ = self.occupied();
        let mut pinned: u64 = 0;
        let queens = self.pieces(them, PieceType::Queen);
        let snipers = (rook_attacks(ksq, 0) & (self.pieces(them, PieceType::Rook) | queens)) | (
        bishop_attacks(ksq, 0) & (self.pieces(them, PieceType::Bishop) | queens));
        let mut rest = snipers;
        proof {
            let t = self.pins_from(ksq as int, snipers);
            lemma_or_facts(t, 0, 0);
        }
        while rest != 0
            invariant
                pinned | self.pins_from(ksq as int, rest) == self.pins_from(ksq as int, snipers),
                ksq < 64,
                occ == self.occupied_spec(),
                us == self.stm,
            decreases rest,
        {
            let sniper = pop_lsb(&mut rest);
            let blockers = between(ksq, sniper) & occ;
            let pin_bits = if popcount(blockers) == 1 && blockers & self.color_bb[us.idx()] != 0 {
                blockers
            } else {
                0
            };
            proof {
                let a = pinned;
                let b = pin_bits;
                let c = self.pins_from(ksq as int, rest);
                lemma_or_facts(a, b, c);
            }
            pinned = pinned | pin_bits;
        }
        proof {
            let a = pinned;
            lemma_or_facts(a, 0, 0);
        }
        pinned
    }

    /// From-scratch key.
    pub fn recompute_key(&self) -> (r: u64)
        requires
            self.board_ok(),
            self.castling < 16,
            self.ep <= NO_SQUARE,
        ensures
            r == self.key_spec(),
    {
        broadcast use group_bits;

        let mut key: u64 = 0;
        let mut rest = self.occupied();
        let ghost mut lo: int = 0;
        proof {
            assert forall|s: int| #[trigger] in_bb(rest, s) == (lo <= s < 64 && self.mailbox[s]
                != EMPTY) by {
                if 0 <= s < 64 {
                    self.lemma_pieces(Color::White, PieceType::Pawn, s);
                }
            }
        }
        while rest != 0
            invariant
                0 <= lo <= 64,
                key == board_key(self.mailbox@, lo),
                forall|s: int| #[trigger]
                    in_bb(rest, s) == (lo <= s < 64 && self.mailbox[s] != EMPTY),
                self.board_ok(),
            decreases rest,
        {
            let ghost before = rest;
            let sq = pop_lsb(&mut rest);
            proof {
                assert forall|s: int| lo <= s < sq implies self.mailbox[s] == EMPTY by {
                    assert(!in_bb(before, s));
                }
                lemma_board_key_empty_range(self.mailbox@, lo, sq as int);
                assert(self.sq_ok(sq as int));
            }
            let (c, pt) = match self.piece_on(sq) {
                Some(x) => x,
                None => (Color::White, PieceType::Pawn),
            };
            key = key ^ piece_key(c, pt, sq);
            proof {
                lo = sq + 1;
            }
        }
        proof {
            assert forall|s: int| lo <= s < 64 implies self.mailbox[s] == EMPTY by {
                assert(!in_bb(rest, s));
            }
            lemma_board_key_empty_range(self.mailbox@, lo, 64);
        }
        if self.stm == Color::Black {
            key = key ^ side_key();
        } else {
            proof {
                lemma_xor_facts(key, 0, 0);
            }
        }
        key = key ^ castling_key(self.castling);
        if self.ep != NO_SQUARE {
            key = key ^ ep_key(file_of(self.ep));
        } else {
            proof {
                lemma_xor_facts(key, 0, 0);
            }
        }
        key
    }
}

/// Empty squares add nothing to the board key.
pub proof fn lemma_board_key_empty_range(mb: Seq<u8>, lo: int, hi: int)
    requires
        0 <= lo <= hi <= mb.len(),
        forall|s: int| lo <= s < hi ==> mb[s] == EMPTY,
    ensures
        board_key(mb, hi) == board_key(mb, lo),
    decreases hi - lo,
{
    if hi > lo {
        lemma_board_key_empty_range(mb, lo, hi - 1);
        let k = board_key(mb, hi - 1);
        lemma_xor_facts(k, 0, 0);
    }
}

// ---------------------------------------------------------------------------
// Null move and the start position
// ---------------------------------------------------------------------------
/// Back-rank piece on file `f` in the initial position.
pub open spec fn back_piece(f: int) -> PieceType {
    if f == 0 || f == 7 {
        PieceType::Rook
    } else if f == 1 || f == 6 {
        PieceType::Knight
    } else if f == 2 || f == 5 {
        PieceType::Bishop
    } else if f == 3 {
        PieceType::Queen
    } else {
        PieceType::King
    }
}

/// Mailbox of the initial position.
pub open spec fn start_code(s: int) -> u8 {
    let f = s % 8;
    let r = s / 8;
    if r == 0 {
        code_of(Color::White, back_piece(f))
    } else if r == 1 {
        code_of(Color::White, PieceType::Pawn)
    } else if r == 6 {
        code_of(Color::Black, PieceType::Pawn)
    } else if r == 7 {
        code_of(Color::Black, back_piece(f))
    } else {
        EMPTY
    }
}

pub const START_FEN: &'static str = "rnbqkbnr/pppppppp/8/8/8/8/PPPPPPPP/RNBQKBNR w KQkq - 0 1";

impl Position {
    /// Pass the turn: same board, other side to move, no en-passant square.
    pub fn make_null(&self) -> (r: Position)
        requires
            self.wf(),
        ensures
            r.wf(),
            r.mailbox == self.mailbox,
            r.stm == opposite(self.stm),
            r.castling == self.castling,
            r.ep == NO_SQUARE,
            r.halfmove == (if self.halfmove == 255 {
                255
            } else {
                (self.halfmove + 1) as u8
            }),
            r.fullmove == self.fullmove,
    {
        let mut pos = *self;
        proof {
            self.lemma_key_rest();
        }
        pos.clear_ep();
        pos.halfmove = if pos.halfmove < 255 {
            pos.halfmove + 1
        } else {
            255
        };
        pos.stm = pos.stm.flip();
        pos.key = pos.key ^ side_key();
        proof {
            self.lemma_board_ok_same_board(pos);
            let k0 = self.key;
            let b = board_key(self.mailbox@, 64);
            let s0 = self.side_part();
            let c0 = castling_key_spec(self.castling as int);
            let e0 = self.ep_part();
            let sk = side_key_spec();
            assert(k0 ^ b == (s0 ^ c0) ^ e0 ==> ((k0 ^ e0) ^ sk) ^ b == ((s0 ^ sk) ^ c0) ^ 0u64)
                by (bit_vector);
            lemma_xor_facts(sk, 0, 0);
            assert(pos.side_part() == s0 ^ sk);
            pos.lemma_key_rest();
            reveal(Position::castle_ok);
            reveal(Position::ep_ok);
            reveal(Position::pawns_ok);
            reveal(Position::kings_unique);
        }
        pos
    }

    /// The initial position of a game.
    pub fn startpos() -> (r: Position)
        ensures
            r.wf(),
            forall|s: int| 0 <= s < 64 ==> #[trigger] r.mailbox[s] == start_code(s),
            r.stm == Color::White,
            r.castling == 15,
            r.ep == NO_SQUARE,
            r.halfmove == 0,
            r.fullmove == 1,
    {
        let mut pos = Position::empty();
        let back: [PieceType; 8] = [
            PieceType::Rook,
            PieceType::Knight,
            PieceType::Bishop,
            PieceType::Queen,
            PieceType::King,
            PieceType::Bishop,
            PieceType::Knight,
            PieceType::Rook,
        ];
        proof {
            lemma_board_key_empty_range(pos.mailbox@, 0, 64);
            assert(pos.key ^ board_key(pos.mailbox@, 64) == 0) by {
                lemma_xor_facts(0, 0, 0);
            }
        }
        let mut f: u8 = 0;
        while f < 8
            invariant
                0 <= f <= 8,
                pos.board_ok(),
                forall|s: int|
                    0 <= s < 64 ==> #[trigger] pos.mailbox[s] == (if s % 8 < f {
                        start_code(s)
                    } else {
                        EMPTY
                    }),
                pos.key ^ board_key(pos.mailbox@, 64) == 0,
                pos.stm == Color::White,
                pos.castling == 0,
                pos.ep == NO_SQUARE,
                pos.halfmove == 0,
                pos.fullmove == 1,
                forall|i: int| 0 <= i < 8 ==> #[trigger] back[i] == back_piece(i),
            decreases 8 - f,
        {
            let p = back[f as usize];
            pos.put(Color::White, p, f);
            pos.put(Color::White, PieceType::Pawn, 8 + f);
            pos.put(Color::Black, PieceType::Pawn, 48 + f);
            pos.put(Color::Black, p, 56 + f);
            f += 1;
        }
        let ghost k0 = pos.key;
        let ghost before = pos;
        pos.castling = 15;
        pos.key = pos.key ^ castling_key(15);
        proof {
            let k = pos.key;
            let b = board_key(pos.mailbox@, 64);
            let ck = castling_key_spec(15);
            assert(k0 ^ b == 0 ==> (k0 ^ ck) ^ b == ck) by (bit_vector);
            before.lemma_board_ok_same_board(pos);
            assert(k ^ b == ck);
            lemma_xor_facts(ck, 0, 0);
            pos.lemma_key_rest();
            assert(pos.mailbox[4] == code_of(Color::White, PieceType::King));
            assert(pos.mailbox[60] == code_of(Color::Black, PieceType::King));
            reveal(Position::castle_ok);
            reveal(Position::ep_ok);
            assert(pos.mailbox[7] == code_of(Color::White, PieceType::Rook));
            assert(pos.mailbox[0] == code_of(Color::White, PieceType::Rook));
            assert(pos.mailbox[63] == code_of(Color::Black, PieceType::Rook));
            assert(pos.mailbox[56] == code_of(Color::Black, PieceType::Rook));
            assert(15u8 & 1 != 0 && 15u8 & 2 != 0 && 15u8 & 4 != 0 && 15u8 & 8 != 0)
                by (bit_vector);
            reveal(Position::pawns_ok);
            reveal(Position::kings_unique);
        }
        pos
    }
}

} // verus!
