//! Forsyth-Edwards Notation: parsing (with basic legality checks) and
//! printing.

use crate::bitboard::{
    group_bits, in_bb, lemma_bits_empty, lemma_bits_ext, lemma_clear_lsb, lemma_lsb, lemma_popcount_one,
    lsb_spec, popcount, popcount_spec,
};
use crate::position::{EMPTY, NO_SQUARE, Position, code_of, code_piece};
use crate::types::{
    BK, BQ, Color, PieceType, WK, WQ, dec_spec, digit_char, opposite, parse_square_spec, printable_char,
    push_char, push_dec, square, square_name, square_name_spec,
};
use vstd::prelude::*;
use vstd::string::StringSliceAdditionalSpecFns;

verus! {

/// Why a FEN string was refused.
#[derive(PartialEq, Eq, Structural, Clone, Copy, Debug)]
pub enum FenError {
    /// fewer than four fields
    Fields,
    /// a piece placed outside the board
    Board,
    /// a character that is no piece letter
    Piece,
    /// side to move other than `w` or `b`
    SideToMove,
    /// a castling character other than `KQkq-`
    Castling,
    /// an en-passant field that is neither `-` nor a square
    EnPassant,
    /// not exactly one king per side
    KingCount,
    /// the side not to move is in check
    OpponentInCheck,
    /// castling rights without king and rook at home, an en-passant square
    /// without the pawn that just passed it, or a pawn on the first or last
    /// rank
    Inconsistent,
}

// ---------------------------------------------------------------------------
// Fields
// ---------------------------------------------------------------------------
/// The ASCII whitespace characters (tab, line feed, vertical tab, form feed,
/// carriage return, space).
pub open spec fn is_ws(c: u8) -> bool {
    c == 32 || (9 <= c && c <= 13)
}

/// Fields of `b[..n]` completed so far, and the field in progress.
pub open spec fn split_state(b: Seq<u8>, n: int) -> (Seq<Seq<u8>>, Seq<u8>)
    decreases n,
{
    if n <= 0 {
        (Seq::empty(), Seq::empty())
    } else {
        let (done, cur) = split_state(b, n - 1);
        if is_ws(b[n - 1]) {
            if cur.len() > 0 {
                (done.push(cur), Seq::empty())
            } else {
                (done, cur)
            }
        } else {
            (done, cur.push(b[n - 1]))
        }
    }
}

/// The whitespace-separated fields of `b`.
pub open spec fn fields_spec(b: Seq<u8>) -> Seq<Seq<u8>> {
    let (done, cur) = split_state(b, b.len() as int);
    if cur.len() > 0 {
        done.push(cur)
    } else {
        done
    }
}

/// `sp` delimits `field` within `b[..n]`.
pub open spec fn span_ok(b: Seq<u8>, sp: (usize, usize), field: Seq<u8>, n: int) -> bool {
    sp.0 <= sp.1 <= n && n <= b.len() && b.subrange(sp.0 as int, sp.1 as int) == field
}

/// Start and end of each whitespace-separated field of `b`.
pub(crate) fn split_fields(b: &[u8]) -> (r: Vec<(usize, usize)>)
    ensures
        r@.len() == fields_spec(b@).len(),
        forall|k: int| 0 <= k < r@.len() ==> span_ok(b@, #[trigger] r@[k], fields_spec(b@)[k], b@.len() as int),
{
    let mut spans: Vec<(usize, usize)> = Vec::new();
    let mut start: usize = 0;
    let mut in_field = false;
    let mut i: usize = 0;
    while i < b.len()
        invariant
            i <= b@.len(),
            start <= i,
            spans@.len() == split_state(b@, i as int).0.len(),
            forall|k: int|
                0 <= k < spans@.len() ==> span_ok(b@, #[trigger] spans@[k], split_state(b@, i as int).0[k], i as int),
            in_field == (split_state(b@, i as int).1.len() > 0),
            in_field ==> split_state(b@, i as int).1 == b@.subrange(start as int, i as int),
        decreases b@.len() - i,
    {
        let c = b[i];
        let ghost old_state = split_state(b@, i as int);
        proof {
            assert(split_state(b@, i + 1) == (if is_ws(b@[i as int]) {
                if old_state.1.len() > 0 {
                    (old_state.0.push(old_state.1), Seq::<u8>::empty())
                } else {
                    (old_state.0, old_state.1)
                }
            } else {
                (old_state.0, old_state.1.push(b@[i as int]))
            }));
        }
        if c == 32 || (9 <= c && c <= 13) {
            if in_field {
                let ghost sp0 = spans@;
                spans.push((start, i));
                in_field = false;
                proof {
                    assert forall|k: int| 0 <= k < spans@.len() implies span_ok(
                        b@,
                        #[trigger] spans@[k],
                        split_state(b@, i + 1).0[k],
                        i + 1,
                    ) by {
                        if k < sp0.len() {
                            assert(spans@[k] == sp0[k]);
                            assert(span_ok(b@, sp0[k], old_state.0[k], i as int));
                        }
                    }
                }
            } else {
                proof {
                    assert forall|k: int| 0 <= k < spans@.len() implies span_ok(
                        b@,
                        #[trigger] spans@[k],
                        split_state(b@, i + 1).0[k],
                        i + 1,
                    ) by {
                        assert(span_ok(b@, spans@[k], old_state.0[k], i as int));
                    }
                }
            }
        } else {
            proof {
                assert forall|k: int| 0 <= k < spans@.len() implies span_ok(
                    b@,
                    #[trigger] spans@[k],
                    split_state(b@, i + 1).0[k],
                    i + 1,
                ) by {
                    assert(span_ok(b@, spans@[k], old_state.0[k], i as int));
                }
            }
            if !in_field {
                start = i;
                in_field = true;
                proof {
                    assert(old_state.1.len() == 0);
                    assert(b@.subrange(start as int, i + 1) =~= seq![c]);
                    assert(old_state.1.push(c) =~= seq![c]);
                }
            } else {
                proof {
                    assert(b@.subrange(start as int, i + 1) =~= b@.subrange(start as int, i as int).push(c));
                }
            }
        }
        i += 1;
    }
    proof {
        assert(b@.len() == i);
    }
    if in_field {
        let ghost sp0 = spans@;
        spans.push((start, i));
        proof {
            assert forall|k: int| 0 <= k < spans@.len() implies span_ok(
                b@,
                #[trigger] spans@[k],
                fields_spec(b@)[k],
                b@.len() as int,
            ) by {
                if k < sp0.len() {
                    assert(spans@[k] == sp0[k]);
                    assert(span_ok(b@, sp0[k], split_state(b@, i as int).0[k], i as int));
                }
            }
        }
    } else {
        proof {
            assert forall|k: int| 0 <= k < spans@.len() implies span_ok(
                b@,
                #[trigger] spans@[k],
                fields_spec(b@)[k],
                b@.len() as int,
            ) by {
                assert(span_ok(b@, spans@[k], split_state(b@, i as int).0[k], i as int));
            }
        }
    }
    spans
}

// ---------------------------------------------------------------------------
// Numbers
// ---------------------------------------------------------------------------
pub open spec fn is_digit(c: u8) -> bool {
    48 <= c && c <= 57
}

/// Value of a string of decimal digits (`0` for the empty string).
pub open spec fn digits_value(s: Seq<u8>) -> nat
    decreases s.len(),
{
    if s.len() == 0 {
        0
    } else {
        digits_value(s.drop_last()) * 10 + (s.last() - 48) as nat
    }
}

/// A non-negative decimal number: an optional `+` then at least one digit,
/// as Rust's unsigned integer parsing accepts.
pub open spec fn parse_dec_spec(s: Seq<u8>) -> Option<nat> {
    let d = unsigned_body(s);
    if d.len() > 0 && all_digits(d) {
        Some(digits_value(d))
    } else {
        None
    }
}

/// The text after an optional leading `+`.
pub open spec fn unsigned_body(s: Seq<u8>) -> Seq<u8> {
    if s.len() > 0 && s[0] == 43 {
        s.drop_first()
    } else {
        s
    }
}

pub open spec fn all_digits(d: Seq<u8>) -> bool {
    forall|i: int| 0 <= i < d.len() ==> is_digit(#[trigger] d[i])
}

pub proof fn lemma_digits_value_mono(s: Seq<u8>, n: int)
    requires
        0 <= n <= s.len(),
        all_digits(s),
    ensures
        digits_value(s.subrange(0, n)) <= digits_value(s),
    decreases s.len() - n,
{
    if n < s.len() {
        lemma_digits_value_mono(s, n + 1);
        assert(s.subrange(0, n + 1).drop_last() =~= s.subrange(0, n));
    } else {
        assert(s.subrange(0, n) =~= s);
    }
}

/// The decimal number in `b[lo..hi]` if it is at most `max`.
fn parse_small(b: &[u8], lo: usize, hi: usize, max: u32) -> (r: Option<u32>)
    requires
        lo <= hi <= b@.len(),
        max <= 1_000_000,
    ensures
        r == (match parse_dec_spec(b@.subrange(lo as int, hi as int)) {
            Some(v) => if v <= max {
                Some(v as u32)
            } else {
                None::<u32>
            },
            None => None::<u32>,
        }),
{
    let ghost s = b@.subrange(lo as int, hi as int);
    let mut i = lo;
    if i < hi && b[i] == 43 {
        i += 1;
    }
    let ghost d = b@.subrange(i as int, hi as int);
    proof {
        if lo < hi && b@[lo as int] == 43 {
            assert(d =~= s.drop_first());
        } else {
            assert(d =~= s);
        }
        assert(d == unsigned_body(s));
    }
    if i == hi {
        return None;
    }
    let start = i;
    let mut v: u32 = 0;
    while i < hi
        invariant
            start <= i <= hi <= b@.len(),
            start < hi,
            d == b@.subrange(start as int, hi as int),
            s == b@.subrange(lo as int, hi as int),
            d == unsigned_body(s),
            forall|k: int| start <= k < i ==> is_digit(#[trigger] b@[k]),
            v <= max,
            v == digits_value(b@.subrange(start as int, i as int)),
            max <= 1_000_000,
        decreases hi - i,
    {
        let c = b[i];
        if c < 48 || c > 57 {
            proof {
                assert(d[i - start] == c);
                assert(!is_digit(d[i - start]));
                assert(!all_digits(d));
            }
            return None;
        }
        let ghost pre = b@.subrange(start as int, i + 1);
        proof {
            assert(pre.drop_last() =~= b@.subrange(start as int, i as int));
            assert(pre.last() == c);
            assert(digits_value(pre) == digits_value(pre.drop_last()) * 10 + (c - 48) as nat);
        }
        let nv = v as u64 * 10 + (c - 48) as u64;
        i += 1;
        proof {
            assert(nv == digits_value(b@.subrange(start as int, i as int)));
        }
        if nv > max as u64 {
            // all further digits only make the number larger
            proof {
                if all_digits(d) {
                    assert(d.subrange(0, i - start) =~= b@.subrange(start as int, i as int));
                    lemma_digits_value_mono(d, i - start);
                }
            }
            return None;
        }
        v = nv as u32;
    }
    proof {
        assert(b@.subrange(start as int, i as int) =~= d);
    }
    Some(v)
}


// ---------------------------------------------------------------------------
// Board field
// ---------------------------------------------------------------------------
/// Mailbox code of a FEN piece letter (upper case white, lower case black).
pub open spec fn piece_code_spec(c: u8) -> Option<u8> {
    if c == 80 {
        Some(0u8)
    } else if c == 78 {
        Some(1u8)
    } else if c == 66 {
        Some(2u8)
    } else if c == 82 {
        Some(3u8)
    } else if c == 81 {
        Some(4u8)
    } else if c == 75 {
        Some(5u8)
    } else if c == 112 {
        Some(6u8)
    } else if c == 110 {
        Some(7u8)
    } else if c == 98 {
        Some(8u8)
    } else if c == 114 {
        Some(9u8)
    } else if c == 113 {
        Some(10u8)
    } else if c == 107 {
        Some(11u8)
    } else {
        None
    }
}

fn piece_of_letter(c: u8) -> (r: Option<(Color, PieceType)>)
    ensures
        match piece_code_spec(c) {
            Some(code) => r matches Some((col, pt)) && code_of(col, pt) == code,
            None => r is None,
        },
{
    let col = if 65 <= c && c <= 90 {
        Color::White
    } else {
        Color::Black
    };
    let pt = if c == 80 || c == 112 {
        PieceType::Pawn
    } else if c == 78 || c == 110 {
        PieceType::Knight
    } else if c == 66 || c == 98 {
        PieceType::Bishop
    } else if c == 82 || c == 114 {
        PieceType::Rook
    } else if c == 81 || c == 113 {
        PieceType::Queen
    } else if c == 75 || c == 107 {
        PieceType::King
    } else {
        return None;
    };
    Some((col, pt))
}

/// Parser state over the board field: rank, file, mailbox.
pub type BoardState = (int, int, Seq<u8>);

/// One character of the board field: `/` starts the next rank down, a digit
/// skips that many files, a letter places a piece (which must be on the
/// board).
pub open spec fn board_step(st: BoardState, c: u8) -> Result<BoardState, FenError> {
    let (rank, file, mb) = st;
    if c == 47 {
        Ok((rank - 1, 0, mb))
    } else if 49 <= c && c <= 56 {
        Ok((rank, file + (c - 48), mb))
    } else if !(0 <= file && file < 8 && 0 <= rank && rank < 8) {
        Err(FenError::Board)
    } else {
        match piece_code_spec(c) {
            None => Err(FenError::Piece),
            Some(code) => Ok((rank, file + 1, mb.update(rank * 8 + file, code))),
        }
    }
}

/// The board field's first `n` characters, read from rank 8, file a, on an
/// empty board.
pub open spec fn board_run(s: Seq<u8>, n: int) -> Result<BoardState, FenError>
    decreases n,
{
    if n <= 0 {
        Ok((7, 0, Seq::new(64, |i: int| EMPTY)))
    } else {
        match board_run(s, n - 1) {
            Err(e) => Err(e),
            Ok(st) => board_step(st, s[n - 1]),
        }
    }
}

/// An error stops the board parse: later characters do not change it.
proof fn lemma_board_run_err(s: Seq<u8>, k: int, n: int)
    requires
        0 <= k <= n,
        board_run(s, k) is Err,
    ensures
        board_run(s, n) == board_run(s, k),
    decreases n - k,
{
    if n > k {
        lemma_board_run_err(s, k, n - 1);
    }
}

/// Every square holding a piece lies before the cursor (rank, file).
pub open spec fn filled_before(st: BoardState) -> bool {
    forall|q: int|
        0 <= q < 64 && #[trigger] st.2[q] != EMPTY ==> (q / 8 > st.0 || (q / 8 == st.0 && q % 8
            < st.1))
}

/// The cursor as the parser keeps it: the rank never below -1, the file
/// never above 64 (every such value is equally off the board).
pub open spec fn cursor_ok(st: BoardState, rank: i32, file: i32) -> bool {
    &&& rank == (if st.0 < -1 {
        -1
    } else {
        st.0
    })
    &&& file == (if st.1 > 64 {
        64
    } else {
        st.1
    })
    &&& st.0 <= 7
    &&& st.1 >= 0
    &&& st.2.len() == 64
}

fn parse_board(b: &[u8], lo: usize, hi: usize) -> (r: Result<Position, FenError>)
    requires
        lo <= hi <= b@.len(),
    ensures
        match board_run(b@.subrange(lo as int, hi as int), hi - lo) {
            Ok(st) => r matches Ok(p) && p.board_ok() && p.mailbox@ == st.2 && p.stm == Color::White
                && p.castling == 0 && p.ep == NO_SQUARE && p.halfmove == 0 && p.fullmove == 1,
            Err(e) => r == Err::<Position, FenError>(e),
        },
{
    let ghost s = b@.subrange(lo as int, hi as int);
    let mut pos = Position::empty();
    let mut rank: i32 = 7;
    let mut file: i32 = 0;
    let mut i = lo;
    proof {
        assert(pos.mailbox@ =~= Seq::new(64, |i: int| EMPTY));
    }
    while i < hi
        invariant
            lo <= i <= hi <= b@.len(),
            s == b@.subrange(lo as int, hi as int),
            pos.board_ok(),
            pos.stm == Color::White,
            pos.castling == 0,
            pos.ep == NO_SQUARE,
            pos.halfmove == 0,
            pos.fullmove == 1,
            board_run(s, i - lo) matches Ok(st) && pos.mailbox@ == st.2 && cursor_ok(st, rank, file)
                && filled_before(st),
        decreases hi - i,
    {
        let c = b[i];
        let ghost st = board_run(s, i - lo)->Ok_0;
        proof {
            assert(s[i - lo] == c);
            assert(board_run(s, i - lo + 1) == board_step(st, c));
        }
        if c == 47 {
            rank = if rank > -1 {
                rank - 1
            } else {
                -1
            };
            file = 0;
        } else if 49 <= c && c <= 56 {
            let nf = file + (c - 48) as i32;
            file = if nf > 64 {
                64
            } else {
                nf
            };
        } else {
            if !(0 <= file && file < 8 && 0 <= rank && rank < 8) {
                proof {
                    lemma_board_run_err(s, i - lo + 1, hi - lo);
                }
                return Err(FenError::Board);
            }
            let (col, pt) = match piece_of_letter(c) {
                Some(x) => x,
                None => {
                    proof {
                        lemma_board_run_err(s, i - lo + 1, hi - lo);
                    }
                    return Err(FenError::Piece);
                },
            };
            let sq = (rank * 8 + file) as u8;
            proof {
                let q = rank * 8 + file;
                assert(q / 8 == rank && q % 8 == file);
                if st.2[q as int] != EMPTY {
                    assert(filled_before(st));
                    assert(false);
                }
            }
            pos.put(col, pt, sq);
            file = file + 1;
            proof {
                let st2 = board_run(s, i - lo + 1)->Ok_0;
                assert(pos.mailbox@ == st2.2);
                assert forall|q: int| 0 <= q < 64 && #[trigger] st2.2[q] != EMPTY implies (q / 8
                    > st2.0 || (q / 8 == st2.0 && q % 8 < st2.1)) by {
                    if q != sq as int {
                        assert(st.2[q] != EMPTY);
                    }
                }
            }
        }
        i += 1;
    }
    proof {
        assert(hi - lo == i - lo);
    }
    Ok(pos)
}


// ---------------------------------------------------------------------------
// Other fields
// ---------------------------------------------------------------------------
/// The right a castling-field character grants (`-` grants none).
pub open spec fn castle_char(c: u8) -> Option<u8> {
    if c == 75 {
        Some(WK)
    } else if c == 81 {
        Some(WQ)
    } else if c == 107 {
        Some(BK)
    } else if c == 113 {
        Some(BQ)
    } else if c == 45 {
        Some(0u8)
    } else {
        None
    }
}

/// The rights granted by the first `n` characters of a castling field.
pub open spec fn castling_run(s: Seq<u8>, n: int) -> Option<u8>
    decreases n,
{
    if n <= 0 {
        Some(0u8)
    } else {
        match castling_run(s, n - 1) {
            None => None,
            Some(v) => match castle_char(s[n - 1]) {
                None => None,
                Some(bit) => Some(v | bit),
            },
        }
    }
}

proof fn lemma_castling_run_none(s: Seq<u8>, k: int, n: int)
    requires
        0 <= k <= n,
        castling_run(s, k) is None,
    ensures
        castling_run(s, n) is None,
    decreases n - k,
{
    if n > k {
        lemma_castling_run_none(s, k, n - 1);
    }
}

/// En-passant field: `-` or a square name.
pub open spec fn ep_spec(s: Seq<u8>) -> Result<u8, FenError> {
    if s == seq![45u8] {
        Ok(NO_SQUARE)
    } else {
        match parse_square_spec(s) {
            Some(q) => Ok(q as u8),
            None => Err(FenError::EnPassant),
        }
    }
}

/// Optional numeric field `i`: its value if it is a number up to `max`,
/// else `default`.
pub open spec fn num_field(fs: Seq<Seq<u8>>, i: int, max: nat, default: nat) -> nat {
    if fs.len() > i {
        match parse_dec_spec(fs[i]) {
            Some(v) => if v <= max {
                v
            } else {
                default
            },
            None => default,
        }
    } else {
        default
    }
}

/// The fields of a FEN as read: mailbox, side to move, castling rights,
/// en-passant square, halfmove clock, fullmove number.
pub type FenFields = (Seq<u8>, Color, u8, u8, u8, u16);

pub open spec fn fen_fields(b: Seq<u8>) -> Result<FenFields, FenError> {
    let fs = fields_spec(b);
    if fs.len() < 4 {
        Err(FenError::Fields)
    } else {
        match board_run(fs[0], fs[0].len() as int) {
            Err(e) => Err(e),
            Ok(st) => {
                if fs[1] != seq![119u8] && fs[1] != seq![98u8] {
                    Err(FenError::SideToMove)
                } else {
                    let stm = if fs[1] == seq![119u8] {
                        Color::White
                    } else {
                        Color::Black
                    };
                    match castling_run(fs[2], fs[2].len() as int) {
                        None => Err(FenError::Castling),
                        Some(cr) => match ep_spec(fs[3]) {
                            Err(e) => Err(e),
                            Ok(ep) => Ok(
                                (
                                    st.2,
                                    stm,
                                    cr,
                                    ep,
                                    num_field(fs, 4, 255, 0) as u8,
                                    num_field(fs, 5, 65535, 1) as u16,
                                ),
                            ),
                        },
                    }
                }
            },
        }
    }
}

/// `p` is the position the fields describe (bitboards and key consistent).
pub open spec fn describes(p: Position, f: FenFields) -> bool {
    &&& p.board_ok()
    &&& p.mailbox@ == f.0
    &&& p.stm == f.1
    &&& p.castling == f.2
    &&& p.ep == f.3
    &&& p.halfmove == f.4
    &&& p.fullmove == f.5
    &&& p.key == p.key_spec()
}

/// The position the fields describe.
pub open spec fn fen_position(f: FenFields) -> Position {
    choose|p: Position| describes(p, f)
}

/// Exactly one square holds `code`.
pub open spec fn one_on_board(mb: Seq<u8>, code: u8) -> bool {
    exists|s: int|
        0 <= s < 64 && #[trigger] mb[s] == code && forall|t: int|
            0 <= t < 64 && #[trigger] mb[t] == code ==> t == s
}

/// The side not to move is attacked on its king square.
pub open spec fn opponent_in_check(p: Position) -> bool {
    p.attackers_spec(p.king_sq_spec(opposite(p.stm)), p.stm, p.occupied_spec()) != 0
}

/// What `from_fen` gives for the bytes `b`.
pub open spec fn fen_result(b: Seq<u8>) -> Result<Position, FenError> {
    match fen_fields(b) {
        Err(e) => Err(e),
        Ok(f) => {
            if !(one_on_board(f.0, 5) && one_on_board(f.0, 11)) {
                Err(FenError::KingCount)
            } else {
                let p = fen_position(f);
                if opponent_in_check(p) {
                    Err(FenError::OpponentInCheck)
                } else if !(p.castle_ok() && p.ep_ok() && p.pawns_ok()) {
                    Err(FenError::Inconsistent)
                } else {
                    Ok(p)
                }
            }
        },
    }
}

// ---------------------------------------------------------------------------
// Lemmas
// ---------------------------------------------------------------------------
/// Consistent bitboards are determined by the mailbox.
proof fn lemma_board_determined(p: Position, q: Position)
    requires
        p.board_ok(),
        q.board_ok(),
        p.mailbox@ == q.mailbox@,
    ensures
        p.piece_bb == q.piece_bb,
        p.color_bb == q.color_bb,
        p.mailbox == q.mailbox,
{
    broadcast use vstd::array::group_array_axioms;

    assert forall|i: int, s: int| 0 <= i < 6 && 0 <= s < 64 implies in_bb(p.piece_bb[i], s)
        == in_bb(q.piece_bb[i], s) by {
        assert(p.sq_ok(s));
        assert(q.sq_ok(s));
    }
    assert forall|i: int, s: int| 0 <= i < 2 && 0 <= s < 64 implies in_bb(p.color_bb[i], s)
        == in_bb(q.color_bb[i], s) by {
        assert(p.sq_ok(s));
        assert(q.sq_ok(s));
    }
    assert forall|i: int| 0 <= i < 6 implies p.piece_bb[i] == q.piece_bb[i] by {
        assert forall|s: int| 0 <= s < 64 implies in_bb(p.piece_bb[i], s) == in_bb(
            q.piece_bb[i],
            s,
        ) by {}
        lemma_bits_ext(p.piece_bb[i], q.piece_bb[i]);
    }
    assert forall|i: int| 0 <= i < 2 implies p.color_bb[i] == q.color_bb[i] by {
        assert forall|s: int| 0 <= s < 64 implies in_bb(p.color_bb[i], s) == in_bb(
            q.color_bb[i],
            s,
        ) by {}
        lemma_bits_ext(p.color_bb[i], q.color_bb[i]);
    }
    assert(p.piece_bb =~= q.piece_bb);
    assert(p.color_bb =~= q.color_bb);
    assert(p.mailbox =~= q.mailbox);
}

/// A position the fields describe is the one `fen_position` names.
proof fn lemma_fen_position(p: Position, f: FenFields)
    requires
        describes(p, f),
    ensures
        fen_position(f) == p,
{
    let q = fen_position(f);
    assert(describes(q, f));
    lemma_board_determined(p, q);
}

/// The king bitboard has one member exactly when one square holds the king.
proof fn lemma_king_count(p: Position, c: Color)
    requires
        p.board_ok(),
    ensures
        (popcount_spec(p.pieces_spec(c, PieceType::King)) == 1) == one_on_board(
            p.mailbox@,
            code_of(c, PieceType::King),
        ),
{
    let b = p.pieces_spec(c, PieceType::King);
    let code = code_of(c, PieceType::King);
    lemma_popcount_one(b);
    assert forall|s: int| 0 <= s < 64 implies in_bb(b, s) == (p.mailbox@[s] == code) by {
        p.lemma_pieces(c, PieceType::King, s);
    }
    if popcount_spec(b) == 1 {
        lemma_lsb(b);
        let s = lsb_spec(b);
        assert(p.mailbox@[s] == code);
        assert forall|t: int| 0 <= t < 64 && #[trigger] p.mailbox@[t] == code implies t == s by {
            assert(in_bb(b, t));
        }
    }
    if one_on_board(p.mailbox@, code) {
        let s = choose|s: int|
            0 <= s < 64 && #[trigger] p.mailbox@[s] == code && forall|t: int|
                0 <= t < 64 && #[trigger] p.mailbox@[t] == code ==> t == s;
        assert(in_bb(b, s));
        assert(b != 0) by {
            broadcast use group_bits;

        }
        lemma_lsb(b);
        assert forall|t: int| #[trigger] in_bb(b, t) implies t == lsb_spec(b) by {
            assert(p.mailbox@[t] == code);
            assert(p.mailbox@[lsb_spec(b)] == code);
        }
    }
}


// ---------------------------------------------------------------------------
// Field parsers and checks
// ---------------------------------------------------------------------------
/// `b[lo..hi]` is the single byte `c`.
fn span_is(b: &[u8], lo: usize, hi: usize, c: u8) -> (r: bool)
    requires
        lo <= hi <= b@.len(),
    ensures
        r == (b@.subrange(lo as int, hi as int) == seq![c]),
{
    let r = hi - lo == 1 && b[lo] == c;
    proof {
        if hi - lo == 1 && b@[lo as int] == c {
            assert(b@.subrange(lo as int, hi as int) =~= seq![c]);
        }
        if b@.subrange(lo as int, hi as int) == seq![c] {
            assert(b@.subrange(lo as int, hi as int).len() == 1);
            assert(b@.subrange(lo as int, hi as int)[0] == b@[lo as int]);
        }
    }
    r
}

fn parse_castling(b: &[u8], lo: usize, hi: usize) -> (r: Option<u8>)
    requires
        lo <= hi <= b@.len(),
    ensures
        r == castling_run(b@.subrange(lo as int, hi as int), hi - lo),
        r matches Some(v) ==> v < 16,
{
    let ghost s = b@.subrange(lo as int, hi as int);
    let mut v: u8 = 0;
    let mut i = lo;
    while i < hi
        invariant
            lo <= i <= hi <= b@.len(),
            s == b@.subrange(lo as int, hi as int),
            castling_run(s, i - lo) == Some(v),
            v < 16,
        decreases hi - i,
    {
        let c = b[i];
        proof {
            assert(s[i - lo] == c);
        }
        let bit: u8 = if c == 75 {
            WK
        } else if c == 81 {
            WQ
        } else if c == 107 {
            BK
        } else if c == 113 {
            BQ
        } else if c == 45 {
            0
        } else {
            proof {
                lemma_castling_run_none(s, i - lo + 1, hi - lo);
            }
            return None;
        };
        proof {
            assert(v < 16 && bit < 16 ==> (v | bit) < 16) by (bit_vector);
        }
        v = v | bit;
        i += 1;
    }
    Some(v)
}

fn parse_ep(b: &[u8], lo: usize, hi: usize) -> (r: Result<u8, FenError>)
    requires
        lo <= hi <= b@.len(),
    ensures
        r == ep_spec(b@.subrange(lo as int, hi as int)),
        r matches Ok(e) ==> e <= NO_SQUARE,
{
    let ghost s = b@.subrange(lo as int, hi as int);
    if span_is(b, lo, hi, 45) {
        return Ok(NO_SQUARE);
    }
    if hi - lo == 2 {
        let f = b[lo];
        let rk = b[lo + 1];
        proof {
            assert(s[0] == f && s[1] == rk);
        }
        if 97 <= f && f <= 104 && 49 <= rk && rk <= 56 {
            return Ok(square(f - 97, rk - 49));
        }
    }
    Err(FenError::EnPassant)
}

fn castling_consistent(p: &Position) -> (r: bool)
    ensures
        r == p.castle_ok(),
{
    proof {
        reveal(Position::castle_ok);
    }
    let wk = p.castling & WK == 0 || (p.mailbox[4] == 5 && p.mailbox[7] == 3);
    let wq = p.castling & WQ == 0 || (p.mailbox[4] == 5 && p.mailbox[0] == 3);
    let bk = p.castling & BK == 0 || (p.mailbox[60] == 11 && p.mailbox[63] == 9);
    let bq = p.castling & BQ == 0 || (p.mailbox[60] == 11 && p.mailbox[56] == 9);
    wk && wq && bk && bq
}

fn ep_consistent(p: &Position) -> (r: bool)
    requires
        p.ep <= NO_SQUARE,
    ensures
        r == p.ep_ok(),
{
    proof {
        reveal(Position::ep_ok);
    }
    if p.ep == NO_SQUARE {
        return true;
    }
    let e = p.ep as usize;
    if p.stm == Color::White {
        40 <= e && e < 48 && p.mailbox[e] == EMPTY && p.mailbox[e - 8] == 6
    } else {
        16 <= e && e < 24 && p.mailbox[e] == EMPTY && p.mailbox[e + 8] == 0
    }
}

fn pawns_consistent(p: &Position) -> (r: bool)
    ensures
        r == p.pawns_ok(),
{
    proof {
        reveal(Position::pawns_ok);
    }
    let mut i: usize = 0;
    while i < 16
        invariant
            i <= 16,
            forall|k: int| 0 <= k < i ==> #[trigger] no_pawn_at(p.mailbox@, back_sq(k)),
        decreases 16 - i,
    {
        let s = if i < 8 {
            i
        } else {
            i + 48
        };
        let m = p.mailbox[s];
        if m != EMPTY && m % 6 == 0 {
            proof {
                assert(code_piece(p.mailbox[s as int]) == PieceType::Pawn);
                assert(0 <= s < 8 || 56 <= s < 64);
                reveal(Position::pawns_ok);
                assert(!p.pawns_ok());
            }
            return false;
        }
        proof {
            assert(no_pawn_at(p.mailbox@, back_sq(i as int)));
        }
        i += 1;
    }
    proof {
        assert forall|s: int| (0 <= s < 8 || 56 <= s < 64) implies #[trigger] code_piece(p.mailbox[s])
            != PieceType::Pawn || p.mailbox[s] == EMPTY by {
            let k = if s < 8 {
                s
            } else {
                s - 48
            };
            assert(back_sq(k) == s);
            assert(no_pawn_at(p.mailbox@, back_sq(k)));
        }
    }
    true
}

/// The `k`-th square of the first and last ranks.
pub open spec fn back_sq(k: int) -> int {
    if k < 8 {
        k
    } else {
        k + 48
    }
}

pub open spec fn no_pawn_at(mb: Seq<u8>, s: int) -> bool {
    code_piece(mb[s]) != PieceType::Pawn || mb[s] == EMPTY
}


// ---------------------------------------------------------------------------
// Parsing
// ---------------------------------------------------------------------------
impl Position {
    /// Parse a FEN string. At least four fields are needed; a missing or
    /// unreadable halfmove clock reads as 0, a fullmove number as 1. Refused:
    /// anything but one king per side, the side not to move in check, and
    /// state the board contradicts.
    pub fn from_fen(fen: &str) -> (r: Result<Position, FenError>)
        ensures
            r == fen_result(fen.spec_bytes()),
            r matches Ok(p) ==> p.wf(),
    {
        let b = fen.as_bytes();
        let spans = split_fields(b);
        let ghost fs = fields_spec(b@);
        if spans.len() < 4 {
            return Err(FenError::Fields);
        }
        let (l0, h0) = spans[0];
        let (l1, h1) = spans[1];
        let (l2, h2) = spans[2];
        let (l3, h3) = spans[3];
        proof {
            assert(span_ok(b@, spans@[0], fs[0], b@.len() as int));
            assert(span_ok(b@, spans@[1], fs[1], b@.len() as int));
            assert(span_ok(b@, spans@[2], fs[2], b@.len() as int));
            assert(span_ok(b@, spans@[3], fs[3], b@.len() as int));
        }
        let mut pos = match parse_board(b, l0, h0) {
            Ok(p) => p,
            Err(e) => {
                return Err(e);
            },
        };
        let stm = if span_is(b, l1, h1, 119) {
            Color::White
        } else if span_is(b, l1, h1, 98) {
            Color::Black
        } else {
            return Err(FenError::SideToMove);
        };
        let cr = match parse_castling(b, l2, h2) {
            Some(v) => v,
            None => {
                return Err(FenError::Castling);
            },
        };
        let ep = match parse_ep(b, l3, h3) {
            Ok(e) => e,
            Err(e) => {
                return Err(e);
            },
        };
        let hm: u8 = if spans.len() > 4 {
            let (l4, h4) = spans[4];
            proof {
                assert(span_ok(b@, spans@[4], fs[4], b@.len() as int));
            }
            match parse_small(b, l4, h4, 255) {
                Some(v) => v as u8,
                None => 0,
            }
        } else {
            0
        };
        let fm: u16 = if spans.len() > 5 {
            let (l5, h5) = spans[5];
            proof {
                assert(span_ok(b@, spans@[5], fs[5], b@.len() as int));
            }
            match parse_small(b, l5, h5, 65535) {
                Some(v) => v as u16,
                None => 1,
            }
        } else {
            1
        };
        let ghost board = pos;
        pos.stm = stm;
        pos.castling = cr;
        pos.ep = ep;
        pos.halfmove = hm;
        pos.fullmove = fm;
        proof {
            board.lemma_board_ok_same_board(pos);
        }
        pos.key = pos.recompute_key();
        let ghost f: FenFields = (pos.mailbox@, stm, cr, ep, hm, fm);
        proof {
            board.lemma_board_ok_same_board(pos);
            assert(fen_fields(b@) == Ok::<FenFields, FenError>(f));
            assert(describes(pos, f));
            lemma_fen_position(pos, f);
            lemma_king_count(pos, Color::White);
            lemma_king_count(pos, Color::Black);
        }
        // basic legality: one king per side, the side not to move not in check
        if popcount(pos.pieces(Color::White, PieceType::King)) != 1 || popcount(
            pos.pieces(Color::Black, PieceType::King),
        ) != 1 {
            return Err(FenError::KingCount);
        }
        let prev = pos.stm.flip();
        proof {
            assert(pos.has_king(prev)) by {
                let code = code_of(prev, PieceType::King);
                let s = choose|s: int|
                    0 <= s < 64 && #[trigger] pos.mailbox@[s] == code && forall|t: int|
                        0 <= t < 64 && #[trigger] pos.mailbox@[t] == code ==> t == s;
                assert(pos.mailbox[s] == code);
            }
        }
        let ksq = pos.king_sq(prev);
        if pos.attackers_to(ksq, pos.stm, pos.occupied()) != 0 {
            return Err(FenError::OpponentInCheck);
        }
        if !(castling_consistent(&pos) && ep_consistent(&pos) && pawns_consistent(&pos)) {
            return Err(FenError::Inconsistent);
        }
        proof {
            assert(pos.has_king(Color::White)) by {
                let code = code_of(Color::White, PieceType::King);
                let s = choose|s: int|
                    0 <= s < 64 && #[trigger] pos.mailbox@[s] == code && forall|t: int|
                        0 <= t < 64 && #[trigger] pos.mailbox@[t] == code ==> t == s;
                assert(pos.mailbox[s] == code);
            }
            assert(pos.has_king(Color::Black)) by {
                let code = code_of(Color::Black, PieceType::King);
                let s = choose|s: int|
                    0 <= s < 64 && #[trigger] pos.mailbox@[s] == code && forall|t: int|
                        0 <= t < 64 && #[trigger] pos.mailbox@[t] == code ==> t == s;
                assert(pos.mailbox[s] == code);
            }
            reveal(Position::kings_unique);
            assert forall|s: int, t: int|
                0 <= s < 64 && 0 <= t < 64 && #[trigger] pos.mailbox[s] == #[trigger] pos.mailbox[t]
                    && code_piece(pos.mailbox[s]) == PieceType::King && pos.mailbox[s] != EMPTY
                    implies s == t by {
                assert(pos.sq_ok(s));
                let m = pos.mailbox[s];
                assert(m == 5 || m == 11);
                if m == 5 {
                    assert(code_of(Color::White, PieceType::King) == 5);
                } else {
                    assert(code_of(Color::Black, PieceType::King) == 11);
                }
            }
        }
        Ok(pos)
    }
}


// ---------------------------------------------------------------------------
// Printing
// ---------------------------------------------------------------------------
/// FEN letter of a mailbox code (upper case white).
pub open spec fn piece_char_spec(m: u8) -> char {
    if m == 0 {
        'P'
    } else if m == 1 {
        'N'
    } else if m == 2 {
        'B'
    } else if m == 3 {
        'R'
    } else if m == 4 {
        'Q'
    } else if m == 5 {
        'K'
    } else if m == 6 {
        'p'
    } else if m == 7 {
        'n'
    } else if m == 8 {
        'b'
    } else if m == 9 {
        'r'
    } else if m == 10 {
        'q'
    } else {
        'k'
    }
}

/// A run of `n` empty squares, if any.
pub open spec fn run_fen(n: int) -> Seq<char> {
    if n > 0 {
        seq![digit_char(n)]
    } else {
        Seq::empty()
    }
}

/// Files `file..8` of `rank`, after `empties` empty squares not yet written.
pub open spec fn row_fen(mb: Seq<u8>, rank: int, file: int, empties: int) -> Seq<char>
    decreases 8 - file,
{
    if file >= 8 {
        run_fen(empties)
    } else {
        let m = mb[rank * 8 + file];
        if m == EMPTY {
            row_fen(mb, rank, file + 1, empties + 1)
        } else {
            run_fen(empties) + seq![piece_char_spec(m)] + row_fen(mb, rank, file + 1, 0)
        }
    }
}

/// The first `k` ranks from rank 8 down, separated by `/`.
pub open spec fn board_fen(mb: Seq<u8>, k: int) -> Seq<char>
    decreases k,
{
    if k <= 0 {
        Seq::empty()
    } else if k == 1 {
        row_fen(mb, 7, 0, 0)
    } else {
        board_fen(mb, k - 1) + seq!['/'] + row_fen(mb, 8 - k, 0, 0)
    }
}

pub open spec fn castling_fen(c: u8) -> Seq<char> {
    if c == 0 {
        seq!['-']
    } else {
        (if c & WK != 0 {
            seq!['K']
        } else {
            Seq::empty()
        }) + (if c & WQ != 0 {
            seq!['Q']
        } else {
            Seq::empty()
        }) + (if c & BK != 0 {
            seq!['k']
        } else {
            Seq::empty()
        }) + (if c & BQ != 0 {
            seq!['q']
        } else {
            Seq::empty()
        })
    }
}

/// The FEN of a position.
pub open spec fn fen_string(p: Position) -> Seq<char> {
    board_fen(p.mailbox@, 8) + seq![' '] + seq![
        if p.stm == Color::White {
            'w'
        } else {
            'b'
        },
    ] + seq![' '] + castling_fen(p.castling) + seq![' '] + (if p.ep == NO_SQUARE {
        seq!['-']
    } else {
        square_name_spec(p.ep as int)
    }) + seq![' '] + dec_spec(p.halfmove as nat) + seq![' '] + dec_spec(p.fullmove as nat)
}

fn piece_char(m: u8) -> (r: char)
    ensures
        r == piece_char_spec(m),
        printable_char(r),
{
    if m == 0 {
        'P'
    } else if m == 1 {
        'N'
    } else if m == 2 {
        'B'
    } else if m == 3 {
        'R'
    } else if m == 4 {
        'Q'
    } else if m == 5 {
        'K'
    } else if m == 6 {
        'p'
    } else if m == 7 {
        'n'
    } else if m == 8 {
        'b'
    } else if m == 9 {
        'r'
    } else if m == 10 {
        'q'
    } else {
        'k'
    }
}

fn push_run(s: &mut String, n: u8)
    requires
        n <= 8,
    ensures
        final(s)@ == old(s)@ + run_fen(n as int),
{
    if n > 0 {
        push_dec(s, n as u64);
        proof {
            assert(dec_spec(n as nat) == seq![digit_char(n as int)]);
        }
    } else {
        proof {
            assert(old(s)@ + run_fen(n as int) =~= old(s)@);
        }
    }
}

fn push_row(s: &mut String, mb: &[u8; 64], rank: usize)
    requires
        rank < 8,
    ensures
        final(s)@ == old(s)@ + row_fen(mb@, rank as int, 0, 0),
{
    let mut empties: u8 = 0;
    let mut file: usize = 0;
    while file < 8
        invariant
            rank < 8,
            file <= 8,
            empties <= file,
            s@ + row_fen(mb@, rank as int, file as int, empties as int) == old(s)@ + row_fen(
                mb@,
                rank as int,
                0,
                0,
            ),
        decreases 8 - file,
    {
        let m = mb[rank * 8 + file];
        let ghost before = s@;
        if m == EMPTY {
            empties += 1;
        } else {
            push_run(s, empties);
            push_char(s, piece_char(m));
            proof {
                assert(s@ == before + run_fen(empties as int) + seq![piece_char_spec(m)]);
                assert(before + row_fen(mb@, rank as int, file as int, empties as int) =~= s@
                    + row_fen(mb@, rank as int, file + 1, 0));
            }
            empties = 0;
        }
        file += 1;
    }
    push_run(s, empties);
    proof {
        assert(old(s)@ + row_fen(mb@, rank as int, 0, 0) =~= s@);
    }
}

fn push_castling(s: &mut String, c: u8)
    ensures
        final(s)@ == old(s)@ + castling_fen(c),
{
    if c == 0 {
        push_char(s, '-');
    } else {
        let ghost c0 = s@;
        if c & WK != 0 {
            push_char(s, 'K');
        }
        let ghost c1 = s@;
        if c & WQ != 0 {
            push_char(s, 'Q');
        }
        let ghost c2 = s@;
        if c & BK != 0 {
            push_char(s, 'k');
        }
        let ghost c3 = s@;
        if c & BQ != 0 {
            push_char(s, 'q');
        }
        proof {
            assert(c1 =~= c0 + (if c & WK != 0 {
                seq!['K']
            } else {
                Seq::empty()
            }));
            assert(c2 =~= c1 + (if c & WQ != 0 {
                seq!['Q']
            } else {
                Seq::empty()
            }));
            assert(c3 =~= c2 + (if c & BK != 0 {
                seq!['k']
            } else {
                Seq::empty()
            }));
            assert(s@ =~= c3 + (if c & BQ != 0 {
                seq!['q']
            } else {
                Seq::empty()
            }));
            assert(s@ =~= c0 + castling_fen(c));
        }
    }
}

fn push_board(s: &mut String, mb: &[u8; 64])
    requires
        old(s)@.len() == 0,
    ensures
        final(s)@ == board_fen(mb@, 8),
{
    let mut k: usize = 0;
    proof {
        assert(s@ =~= board_fen(mb@, 0));
    }
    while k < 8
        invariant
            k <= 8,
            s@ == board_fen(mb@, k as int),
        decreases 8 - k,
    {
        if k > 0 {
            push_char(s, '/');
        }
        push_row(s, mb, 7 - k);
        proof {
            if k == 0 {
                assert(s@ =~= board_fen(mb@, 1));
            } else {
                assert(s@ =~= board_fen(mb@, k + 1));
            }
        }
        k += 1;
    }
}

impl Position {
    /// The FEN of this position.
    pub fn to_fen(&self) -> (r: String)
        requires
            self.ep <= NO_SQUARE,
        ensures
            r@ == fen_string(*self),
    {
        let mut s = String::new();
        push_board(&mut s, &self.mailbox);
        let ghost b = s@;
        push_char(&mut s, ' ');
        push_char(
            &mut s,
            if self.stm == Color::White {
                'w'
            } else {
                'b'
            },
        );
        push_char(&mut s, ' ');
        let ghost b1 = s@;
        push_castling(&mut s, self.castling);
        push_char(&mut s, ' ');
        let ghost b2 = s@;
        if self.ep == NO_SQUARE {
            push_char(&mut s, '-');
        } else {
            let name = square_name(self.ep);
            s.append(name.as_str());
        }
        let ghost b3 = s@;
        push_char(&mut s, ' ');
        push_dec(&mut s, self.halfmove as u64);
        push_char(&mut s, ' ');
        push_dec(&mut s, self.fullmove as u64);
        proof {
            let stm_c = if self.stm == Color::White {
                'w'
            } else {
                'b'
            };
            let ep_s = if self.ep == NO_SQUARE {
                seq!['-']
            } else {
                square_name_spec(self.ep as int)
            };
            assert(b1 =~= b + seq![' '] + seq![stm_c] + seq![' ']);
            assert(b2 =~= b1 + castling_fen(self.castling) + seq![' ']);
            assert(b3 =~= b2 + ep_s);
            assert(s@ =~= b3 + seq![' '] + dec_spec(self.halfmove as nat) + seq![' '] + dec_spec(
                self.fullmove as nat,
            ));
        }
        proof {
            assert(s@ =~= fen_string(*self));
        }
        s
    }
}

// ---------------------------------------------------------------------------
// Reading back what was written
// ---------------------------------------------------------------------------
/// The bytes of an ASCII character sequence.
pub open spec fn bytes_of(cs: Seq<char>) -> Seq<u8> {
    Seq::new(cs.len(), |i: int| cs[i] as u8)
}

proof fn lemma_bytes_of_add(a: Seq<char>, b: Seq<char>)
    ensures
        bytes_of(a + b) == bytes_of(a) + bytes_of(b),
{
    assert(bytes_of(a + b) =~= bytes_of(a) + bytes_of(b));
}

/// No character of `cs` is whitespace or beyond ASCII.
pub open spec fn plain(cs: Seq<char>) -> bool {
    forall|i: int| 0 <= i < cs.len() ==> 33 <= #[trigger] (cs[i] as int) <= 126
}

proof fn lemma_dec_roundtrip(n: nat)
    ensures
        parse_dec_spec(bytes_of(dec_spec(n))) == Some(n),
        dec_spec(n).len() > 0,
        plain(dec_spec(n)),
        all_digits(bytes_of(dec_spec(n))),
        digits_value(bytes_of(dec_spec(n))) == n,
        unsigned_body(bytes_of(dec_spec(n))) == bytes_of(dec_spec(n)),
    decreases n,
{
    let d = dec_spec(n);
    let b = bytes_of(d);
    if n < 10 {
        assert(d == seq![digit_char(n as int)]);
        assert(b.len() == 1);
        assert(b[0] == 48 + n);
        assert(b.drop_last() =~= Seq::<u8>::empty());
        assert(digits_value(b.drop_last()) == 0);
        assert(b.last() == b[0]);
        assert(digits_value(b) == n);
        assert(unsigned_body(b) == b);
    } else {
        lemma_dec_roundtrip(n / 10);
        let pre = dec_spec(n / 10);
        assert(d == pre.push(digit_char((n % 10) as int)));
        assert(b.drop_last() =~= bytes_of(pre));
        assert(b.last() == 48 + n % 10);
        assert(digits_value(b) == digits_value(bytes_of(pre)) * 10 + n % 10);
        assert(digits_value(bytes_of(pre)) == n / 10);
        assert(b[0] == bytes_of(pre)[0]);
        assert(unsigned_body(b) == b);
        assert forall|i: int| 0 <= i < b.len() implies is_digit(#[trigger] b[i]) by {
            if i < b.len() - 1 {
                assert(b[i] == bytes_of(pre)[i]);
            }
        }
        assert forall|i: int| 0 <= i < d.len() implies 33 <= #[trigger] (d[i] as int) <= 126 by {
            if i < d.len() - 1 {
                assert(d[i] == pre[i]);
            }
        }
    }
}

proof fn lemma_square_roundtrip(sq: int)
    requires
        0 <= sq < 64,
    ensures
        parse_square_spec(bytes_of(square_name_spec(sq))) == Some(sq),
        square_name_spec(sq).len() == 2,
        plain(square_name_spec(sq)),
{
    let b = bytes_of(square_name_spec(sq));
    assert(b[0] == 97 + sq % 8);
    assert(b[1] == 49 + sq / 8);
}

proof fn lemma_castle_bits(c: u8)
    by (bit_vector)
    requires
        c < 16,
    ensures
        c == ((((0u8 | (if c & 1 != 0 { 1u8 } else { 0u8 })) | (if c & 2 != 0 { 2u8 } else { 0u8 })) | (if c
            & 4 != 0 { 4u8 } else { 0u8 })) | (if c & 8 != 0 { 8u8 } else { 0u8 })),
        (c == 0) == (c & 1 == 0 && c & 2 == 0 && c & 4 == 0 && c & 8 == 0),
        forall|x: u8| #[trigger] (x | 0u8) == x,
{
}

proof fn lemma_castling_prefix(t: Seq<u8>, u: Seq<u8>, n: int)
    requires
        0 <= n <= t.len(),
        n <= u.len(),
        forall|i: int| 0 <= i < n ==> #[trigger] t[i] == u[i],
    ensures
        castling_run(t, n) == castling_run(u, n),
    decreases n,
{
    if n > 0 {
        lemma_castling_prefix(t, u, n - 1);
    }
}

/// One more character of a castling field.
proof fn lemma_castling_push(s: Seq<u8>, x: u8)
    ensures
        castling_run(s.push(x), s.len() + 1int) == (match castling_run(s, s.len() as int) {
            None => None,
            Some(v) => match castle_char(x) {
                None => None,
                Some(bit) => Some(v | bit),
            },
        }),
{
    lemma_castling_prefix(s.push(x), s, s.len() as int);
}

/// The castling field of rights `c`, pushed after `pre`, as bytes.
proof fn lemma_castling_roundtrip(c: u8)
    requires
        c < 16,
    ensures
        castling_run(bytes_of(castling_fen(c)), castling_fen(c).len() as int) == Some(c),
        castling_fen(c).len() > 0,
        plain(castling_fen(c)),
{
    lemma_castle_bits(c);
    let b1 = c & WK != 0;
    let b2 = c & WQ != 0;
    let b3 = c & BK != 0;
    let b4 = c & BQ != 0;
    if c == 0 {
        let b = bytes_of(castling_fen(c));
        assert(b =~= Seq::<u8>::empty().push(45u8));
        lemma_castling_push(Seq::<u8>::empty(), 45u8);
    } else {
        let p1: Seq<u8> = if b1 { seq![75u8] } else { Seq::empty() };
        let p2: Seq<u8> = if b2 { p1.push(81u8) } else { p1 };
        let p3: Seq<u8> = if b3 { p2.push(107u8) } else { p2 };
        let p4: Seq<u8> = if b4 { p3.push(113u8) } else { p3 };
        assert(bytes_of(castling_fen(c)) =~= p4);
        let v1: u8 = if b1 { 0u8 | 1u8 } else { 0u8 };
        let v2: u8 = if b2 { v1 | 2u8 } else { v1 };
        let v3: u8 = if b3 { v2 | 4u8 } else { v2 };
        let v4: u8 = if b4 { v3 | 8u8 } else { v3 };
        if b1 {
            lemma_castling_push(Seq::<u8>::empty(), 75u8);
            assert(p1 =~= Seq::<u8>::empty().push(75u8));
        }
        assert(castling_run(p1, p1.len() as int) == Some(v1));
        if b2 {
            lemma_castling_push(p1, 81u8);
        }
        assert(castling_run(p2, p2.len() as int) == Some(v2));
        if b3 {
            lemma_castling_push(p2, 107u8);
        }
        assert(castling_run(p3, p3.len() as int) == Some(v3));
        if b4 {
            lemma_castling_push(p3, 113u8);
        }
        assert(castling_run(p4, p4.len() as int) == Some(v4));
        assert(v4 == c);
    }
}

/// The board-field parser run from state `st` over the characters `s`.
pub open spec fn run_from(st: BoardState, s: Seq<u8>) -> Result<BoardState, FenError>
    decreases s.len(),
{
    if s.len() == 0 {
        Ok(st)
    } else {
        match run_from(st, s.drop_last()) {
            Err(e) => Err(e),
            Ok(st2) => board_step(st2, s.last()),
        }
    }
}

pub open spec fn empty_board() -> Seq<u8> {
    Seq::new(64, |i: int| EMPTY)
}

proof fn lemma_board_run_from(s: Seq<u8>, n: int)
    requires
        0 <= n <= s.len(),
    ensures
        board_run(s, n) == run_from((7, 0, empty_board()), s.subrange(0, n)),
    decreases n,
{
    if n > 0 {
        lemma_board_run_from(s, n - 1);
        assert(s.subrange(0, n).drop_last() =~= s.subrange(0, n - 1));
    } else {
        assert(s.subrange(0, 0) =~= Seq::<u8>::empty());
    }
}

proof fn lemma_run_from_add(st: BoardState, a: Seq<u8>, b: Seq<u8>)
    ensures
        run_from(st, a + b) == (match run_from(st, a) {
            Err(e) => Err(e),
            Ok(st2) => run_from(st2, b),
        }),
    decreases b.len(),
{
    if b.len() == 0 {
        assert(a + b =~= a);
    } else {
        lemma_run_from_add(st, a, b.drop_last());
        assert((a + b).drop_last() =~= a + b.drop_last());
        assert((a + b).last() == b.last());
    }
}

/// `mb` on the squares before the cursor (ranks above `rank`, files below
/// `file` on `rank`), empty elsewhere.
pub open spec fn board_upto(mb: Seq<u8>, rank: int, file: int) -> Seq<u8> {
    Seq::new(
        64,
        |q: int|
            if q / 8 > rank || (q / 8 == rank && q % 8 < file) {
                mb[q]
            } else {
                EMPTY
            },
    )
}

/// Every square of the mailbox is empty or holds a piece code.
pub open spec fn mailbox_ok(mb: Seq<u8>) -> bool {
    &&& mb.len() == 64
    &&& forall|q: int| 0 <= q < 64 ==> (#[trigger] mb[q] < 12 || mb[q] == EMPTY)
}

proof fn lemma_piece_letter_roundtrip(m: u8)
    requires
        m < 12,
    ensures
        piece_code_spec(piece_char_spec(m) as u8) == Some(m),
        33 <= (piece_char_spec(m) as int) <= 126,
        !(49 <= piece_char_spec(m) as u8 <= 56),
        piece_char_spec(m) as u8 != 47,
{
}

/// Parsing the FEN of files `file..8` of `rank` (after `empties` pending
/// empty squares) from the cursor before those empties fills in the rank.
proof fn lemma_row_roundtrip(mb: Seq<u8>, r: int, f: int, e: int)
    requires
        0 <= r < 8,
        0 <= e <= f <= 8,
        mailbox_ok(mb),
        forall|j: int| f - e <= j < f ==> #[trigger] mb[r * 8 + j] == EMPTY,
    ensures
        run_from((r, f - e, board_upto(mb, r, f - e)), bytes_of(row_fen(mb, r, f, e))) == Ok::<BoardState, FenError>(
            (r, 8, board_upto(mb, r, 8)),
        ),
        plain(row_fen(mb, r, f, e)),
        f - e < 8 ==> row_fen(mb, r, f, e).len() > 0,
    decreases 8 - f,
{
    let st0: BoardState = (r, f - e, board_upto(mb, r, f - e));
    if e > 0 {
        assert(board_upto(mb, r, f - e) =~= board_upto(mb, r, f)) by {
            assert forall|q: int| 0 <= q < 64 implies #[trigger] board_upto(mb, r, f - e)[q] == board_upto(mb, r, f)[q] by {
                if q / 8 == r && f - e <= q % 8 < f {
                    assert(mb[r * 8 + q % 8] == EMPTY);
                    assert(q == r * 8 + q % 8);
                }
            }
        }
        let dig = bytes_of(run_fen(e));
        assert(dig =~= seq![(48 + e) as u8]);
        assert(dig.drop_last() =~= Seq::<u8>::empty());
        assert(run_from(st0, Seq::<u8>::empty()) == Ok::<BoardState, FenError>(st0));
        assert(run_from(st0, dig.drop_last()) == Ok::<BoardState, FenError>(st0));
        assert(dig.last() == (48 + e) as u8);
        assert(board_step(st0, (48 + e) as u8) == Ok::<BoardState, FenError>((r, f, board_upto(mb, r, f - e))));
        assert(run_from(st0, dig) == Ok::<BoardState, FenError>((r, f, board_upto(mb, r, f))));
    } else {
        assert(bytes_of(run_fen(e)) =~= Seq::<u8>::empty());
    }
    let st1: BoardState = (r, f, board_upto(mb, r, f));
    assert(run_from(st0, bytes_of(run_fen(e))) == Ok::<BoardState, FenError>(st1));
    if f >= 8 {
        assert(row_fen(mb, r, f, e) == run_fen(e));
        assert(board_upto(mb, r, f) =~= board_upto(mb, r, 8));
    } else {
        let m = mb[r * 8 + f];
        if m == EMPTY {
            lemma_row_roundtrip(mb, r, f + 1, e + 1);
        } else {
            assert(m < 12);
            lemma_piece_letter_roundtrip(m);
            lemma_row_roundtrip(mb, r, f + 1, 0);
            let pc = seq![piece_char_spec(m)];
            let rest = row_fen(mb, r, f + 1, 0);
            assert(row_fen(mb, r, f, e) == run_fen(e) + pc + rest);
            lemma_bytes_of_add(run_fen(e) + pc, rest);
            lemma_bytes_of_add(run_fen(e), pc);
            lemma_run_from_add(st0, bytes_of(run_fen(e)) + bytes_of(pc), bytes_of(rest));
            lemma_run_from_add(st0, bytes_of(run_fen(e)), bytes_of(pc));
            let bp = bytes_of(pc);
            assert(bp.drop_last() =~= Seq::<u8>::empty());
            assert(run_from(st1, bp.drop_last()) == Ok::<BoardState, FenError>(st1));
            assert(board_upto(mb, r, f).update(r * 8 + f, m) =~= board_upto(mb, r, f + 1));
            assert(run_from(st1, bp) == Ok::<BoardState, FenError>((r, f + 1, board_upto(mb, r, f + 1))));
            assert forall|i: int| 0 <= i < row_fen(mb, r, f, e).len() implies 33 <= #[trigger] (row_fen(mb, r, f, e)[i] as int) <= 126 by {
                let a = run_fen(e);
                if i < a.len() {
                    assert(row_fen(mb, r, f, e)[i] == a[i]);
                } else if i == a.len() {
                } else {
                    assert(row_fen(mb, r, f, e)[i] == rest[i - a.len() - 1]);
                }
            }
        }
    }
}

proof fn lemma_plain_add(a: Seq<char>, b: Seq<char>)
    requires
        plain(a),
        plain(b),
    ensures
        plain(a + b),
{
    assert forall|i: int| 0 <= i < (a + b).len() implies 33 <= #[trigger] ((a + b)[i] as int) <= 126 by {
        if i < a.len() {
            assert((a + b)[i] == a[i]);
        } else {
            assert((a + b)[i] == b[i - a.len()]);
        }
    }
}

/// Parsing the FEN of the first `k` ranks from rank 8 fills in those ranks.
proof fn lemma_board_roundtrip(mb: Seq<u8>, k: int)
    requires
        1 <= k <= 8,
        mailbox_ok(mb),
    ensures
        run_from((7, 0, empty_board()), bytes_of(board_fen(mb, k))) == Ok::<BoardState, FenError>(
            (8 - k, 8, board_upto(mb, 8 - k, 8)),
        ),
        plain(board_fen(mb, k)),
        board_fen(mb, k).len() > 0,
    decreases k,
{
    if k == 1 {
        lemma_row_roundtrip(mb, 7, 0, 0);
        assert(board_upto(mb, 7, 0) =~= empty_board());
    } else {
        lemma_board_roundtrip(mb, k - 1);
        let a = board_fen(mb, k - 1);
        let sl = seq!['/'];
        let row = row_fen(mb, 8 - k, 0, 0);
        assert(board_fen(mb, k) == a + sl + row);
        lemma_bytes_of_add(a + sl, row);
        lemma_bytes_of_add(a, sl);
        let init: BoardState = (7, 0, empty_board());
        lemma_run_from_add(init, bytes_of(a) + bytes_of(sl), bytes_of(row));
        lemma_run_from_add(init, bytes_of(a), bytes_of(sl));
        let st_a: BoardState = (9 - k, 8, board_upto(mb, 9 - k, 8));
        let bs = bytes_of(sl);
        assert(bs.drop_last() =~= Seq::<u8>::empty());
        assert(run_from(st_a, bs.drop_last()) == Ok::<BoardState, FenError>(st_a));
        assert(board_upto(mb, 9 - k, 8) =~= board_upto(mb, 8 - k, 0));
        assert(run_from(st_a, bs) == Ok::<BoardState, FenError>((8 - k, 0, board_upto(mb, 8 - k, 0))));
        lemma_row_roundtrip(mb, 8 - k, 0, 0);
        assert(plain(sl));
        lemma_plain_add(a, sl);
        lemma_plain_add(a + sl, row);
    }
}

proof fn lemma_split_prefix(b: Seq<u8>, c: Seq<u8>, n: int)
    requires
        0 <= n <= b.len(),
        n <= c.len(),
        forall|i: int| 0 <= i < n ==> #[trigger] b[i] == c[i],
    ensures
        split_state(b, n) == split_state(c, n),
    decreases n,
{
    if n > 0 {
        lemma_split_prefix(b, c, n - 1);
    }
}

/// Bytes that are neither whitespace nor control characters.
pub open spec fn word(w: Seq<u8>) -> bool {
    &&& w.len() > 0
    &&& forall|i: int| 0 <= i < w.len() ==> 33 <= #[trigger] w[i] <= 126
}

/// A word after a completed field is the field in progress; a space after it
/// completes it.
proof fn lemma_split_word(pre: Seq<u8>, w: Seq<u8>, done: Seq<Seq<u8>>)
    requires
        split_state(pre, pre.len() as int) == (done, Seq::<u8>::empty()),
        word(w),
    ensures
        split_state(pre + w, (pre + w).len() as int) == (done, w),
        split_state(pre + w + seq![32u8], (pre + w).len() + 1int) == (done.push(w), Seq::<u8>::empty()),
    decreases w.len(),
{
    let x = pre + w;
    if w.len() == 1 {
        lemma_split_prefix(x, pre, pre.len() as int);
        assert(!is_ws(w[0]));
        assert(Seq::<u8>::empty().push(w[0]) =~= w);
    } else {
        let wd = w.drop_last();
        assert forall|i: int| 0 <= i < wd.len() implies 33 <= #[trigger] wd[i] <= 126 by {
            assert(wd[i] == w[i]);
        }
        lemma_split_word(pre, wd, done);
        lemma_split_prefix(x, pre + wd, (pre + wd).len() as int);
        assert(!is_ws(w.last()));
        assert(x[x.len() - 1] == w.last());
        assert(wd.push(w.last()) =~= w);
    }
    let y = x + seq![32u8];
    lemma_split_prefix(y, x, x.len() as int);
    assert(y[y.len() - 1] == 32u8);
}

proof fn lemma_plain_word(cs: Seq<char>)
    requires
        plain(cs),
        cs.len() > 0,
    ensures
        word(bytes_of(cs)),
{
    assert forall|i: int| 0 <= i < bytes_of(cs).len() implies 33 <= #[trigger] bytes_of(cs)[i] <= 126 by {
        assert(33 <= (cs[i] as int) <= 126);
    }
}

/// Six words separated by single spaces are six fields.
proof fn lemma_six_fields(a: Seq<u8>, b: Seq<u8>, c: Seq<u8>, d: Seq<u8>, e: Seq<u8>, f: Seq<u8>)
    requires
        word(a),
        word(b),
        word(c),
        word(d),
        word(e),
        word(f),
    ensures
        fields_spec(a + seq![32u8] + b + seq![32u8] + c + seq![32u8] + d + seq![32u8] + e + seq![32u8] + f)
            == seq![a, b, c, d, e, f],
{
    let sp = seq![32u8];
    let e0 = Seq::<u8>::empty();
    assert(seq![a].push(b) =~= seq![a, b]);
    assert(seq![a, b].push(c) =~= seq![a, b, c]);
    assert(seq![a, b, c].push(d) =~= seq![a, b, c, d]);
    assert(seq![a, b, c, d].push(e) =~= seq![a, b, c, d, e]);
    assert(seq![a, b, c, d, e].push(f) =~= seq![a, b, c, d, e, f]);
    assert(Seq::<Seq<u8>>::empty().push(a) =~= seq![a]);
    assert(split_state(e0, 0) == (Seq::<Seq<u8>>::empty(), e0));
    lemma_split_word(e0, a, Seq::empty());
    assert(e0 + a =~= a);
    let x1 = a + sp;
    lemma_split_word(x1, b, seq![a]);
    let x2 = x1 + b + sp;
    lemma_split_word(x2, c, seq![a, b]);
    let x3 = x2 + c + sp;
    lemma_split_word(x3, d, seq![a, b, c]);
    let x4 = x3 + d + sp;
    lemma_split_word(x4, e, seq![a, b, c, d]);
    let x5 = x4 + e + sp;
    lemma_split_word(x5, f, seq![a, b, c, d, e]);
    let all = a + sp + b + sp + c + sp + d + sp + e + sp + f;
    assert(all =~= x5 + f);
}

/// Printable ASCII characters (space included).
pub open spec fn ascii_text(cs: Seq<char>) -> bool {
    forall|i: int| 0 <= i < cs.len() ==> 32 <= #[trigger] (cs[i] as int) <= 126
}

proof fn lemma_ascii_add(a: Seq<char>, b: Seq<char>)
    requires
        ascii_text(a),
        ascii_text(b),
    ensures
        ascii_text(a + b),
{
    assert forall|i: int| 0 <= i < (a + b).len() implies 32 <= #[trigger] ((a + b)[i] as int) <= 126 by {
        if i < a.len() {
            assert((a + b)[i] == a[i]);
        } else {
            assert((a + b)[i] == b[i - a.len()]);
        }
    }
}

/// A well-formed position has exactly one king of each color.
proof fn lemma_one_king(p: Position, c: Color)
    requires
        p.wf(),
    ensures
        one_on_board(p.mailbox@, code_of(c, PieceType::King)),
{
    reveal(Position::kings_unique);
    let code = code_of(c, PieceType::King);
    crate::position::lemma_code_parts(c, PieceType::King);
    let s = choose|s: int| 0 <= s < 64 && #[trigger] p.mailbox[s] == code;
    assert forall|t: int| 0 <= t < 64 && #[trigger] p.mailbox@[t] == code implies t == s by {
        assert(p.mailbox[s] == p.mailbox[t]);
    }
    assert(p.mailbox@[s] == code);
}

/// The side-to-move field of `p`'s FEN.
spec fn stm_text(p: Position) -> Seq<char> {
    seq![
        if p.stm == Color::White {
            'w'
        } else {
            'b'
        },
    ]
}

/// The en-passant field of `p`'s FEN.
spec fn ep_text(p: Position) -> Seq<char> {
    if p.ep == NO_SQUARE {
        seq!['-']
    } else {
        square_name_spec(p.ep as int)
    }
}

/// The six fields of `p`'s FEN, as text.
spec fn fen_parts(p: Position) -> Seq<Seq<char>> {
    seq![
        board_fen(p.mailbox@, 8),
        stm_text(p),
        castling_fen(p.castling),
        ep_text(p),
        dec_spec(p.halfmove as nat),
        dec_spec(p.fullmove as nat),
    ]
}

/// Every field of a well-formed position's FEN is a nonempty run of
/// printable characters other than space.
proof fn lemma_fen_parts_plain(p: Position)
    requires
        p.wf(),
    ensures
        forall|i: int| 0 <= i < 6 ==> plain(#[trigger] fen_parts(p)[i]) && fen_parts(p)[i].len() > 0,
{
    let mb = p.mailbox@;
    assert(mailbox_ok(mb)) by {
        assert forall|q: int| 0 <= q < 64 implies (#[trigger] mb[q] < 12 || mb[q] == EMPTY) by {
            assert(p.sq_ok(q));
        }
    }
    lemma_board_roundtrip(mb, 8);
    lemma_castling_roundtrip(p.castling);
    lemma_dec_roundtrip(p.halfmove as nat);
    lemma_dec_roundtrip(p.fullmove as nat);
    if p.ep != NO_SQUARE {
        lemma_square_roundtrip(p.ep as int);
    }
    assert(plain(stm_text(p)));
    assert(plain(ep_text(p)));
}

/// The FEN text of `p` is its six fields joined by single spaces.
proof fn lemma_fen_join(p: Position)
    ensures
        fen_string(p) == fen_parts(p)[0] + seq![' '] + fen_parts(p)[1] + seq![' '] + fen_parts(p)[2]
            + seq![' '] + fen_parts(p)[3] + seq![' '] + fen_parts(p)[4] + seq![' '] + fen_parts(p)[5],
{
}

/// The bytes of `p`'s FEN are the bytes of its six fields joined by spaces.
proof fn lemma_fen_bytes(p: Position)
    requires
        p.wf(),
    ensures
        ascii_text(fen_string(p)),
        bytes_of(fen_string(p)) == bytes_of(fen_parts(p)[0]) + seq![32u8] + bytes_of(fen_parts(p)[1])
            + seq![32u8] + bytes_of(fen_parts(p)[2]) + seq![32u8] + bytes_of(fen_parts(p)[3]) + seq![32u8]
            + bytes_of(fen_parts(p)[4]) + seq![32u8] + bytes_of(fen_parts(p)[5]),
{
    lemma_fen_parts_plain(p);
    lemma_fen_join(p);
    let a = fen_parts(p)[0];
    let b = fen_parts(p)[1];
    let c = fen_parts(p)[2];
    let d = fen_parts(p)[3];
    let e = fen_parts(p)[4];
    let f = fen_parts(p)[5];
    let sp = seq![' '];
    assert(bytes_of(sp) =~= seq![32u8]);
    lemma_bytes_of_add(a, sp);
    lemma_bytes_of_add(a + sp, b);
    lemma_bytes_of_add(a + sp + b, sp);
    lemma_bytes_of_add(a + sp + b + sp, c);
    lemma_bytes_of_add(a + sp + b + sp + c, sp);
    lemma_bytes_of_add(a + sp + b + sp + c + sp, d);
    lemma_bytes_of_add(a + sp + b + sp + c + sp + d, sp);
    lemma_bytes_of_add(a + sp + b + sp + c + sp + d + sp, e);
    lemma_bytes_of_add(a + sp + b + sp + c + sp + d + sp + e, sp);
    lemma_bytes_of_add(a + sp + b + sp + c + sp + d + sp + e + sp, f);
    assert(ascii_text(sp));
    assert(plain(a) && plain(b) && plain(c) && plain(d) && plain(e) && plain(f));
    assert forall|cs: Seq<char>| plain(cs) implies #[trigger] ascii_text(cs) by {}
    lemma_ascii_add(a, sp);
    lemma_ascii_add(a + sp, b);
    lemma_ascii_add(a + sp + b, sp);
    lemma_ascii_add(a + sp + b + sp, c);
    lemma_ascii_add(a + sp + b + sp + c, sp);
    lemma_ascii_add(a + sp + b + sp + c + sp, d);
    lemma_ascii_add(a + sp + b + sp + c + sp + d, sp);
    lemma_ascii_add(a + sp + b + sp + c + sp + d + sp, e);
    lemma_ascii_add(a + sp + b + sp + c + sp + d + sp + e, sp);
    lemma_ascii_add(a + sp + b + sp + c + sp + d + sp + e + sp, f);
}

/// The fields read from the bytes of `p`'s FEN are the bytes of its fields.
proof fn lemma_fen_split(p: Position, s: &str)
    requires
        p.wf(),
        s@ == fen_string(p),
    ensures
        fields_spec(s.spec_bytes()) == seq![
            bytes_of(fen_parts(p)[0]),
            bytes_of(fen_parts(p)[1]),
            bytes_of(fen_parts(p)[2]),
            bytes_of(fen_parts(p)[3]),
            bytes_of(fen_parts(p)[4]),
            bytes_of(fen_parts(p)[5]),
        ],
{
    lemma_fen_bytes(p);
    assert(vstd::string::is_ascii(s)) by {
        assert forall|i: int| 0 <= i < s@.len() implies '\0' <= #[trigger] s@[i] <= '\u{7f}' by {
            assert(32 <= (s@[i] as int) <= 126);
        }
    }
    vstd::string::is_ascii_spec_bytes(s);
    assert(s.spec_bytes() =~= bytes_of(s@));
    lemma_fen_parts_plain(p);
    assert(plain(fen_parts(p)[0]) && fen_parts(p)[0].len() > 0);
    assert(plain(fen_parts(p)[1]) && fen_parts(p)[1].len() > 0);
    assert(plain(fen_parts(p)[2]) && fen_parts(p)[2].len() > 0);
    assert(plain(fen_parts(p)[3]) && fen_parts(p)[3].len() > 0);
    assert(plain(fen_parts(p)[4]) && fen_parts(p)[4].len() > 0);
    assert(plain(fen_parts(p)[5]) && fen_parts(p)[5].len() > 0);
    lemma_plain_word(fen_parts(p)[0]);
    lemma_plain_word(fen_parts(p)[1]);
    lemma_plain_word(fen_parts(p)[2]);
    lemma_plain_word(fen_parts(p)[3]);
    lemma_plain_word(fen_parts(p)[4]);
    lemma_plain_word(fen_parts(p)[5]);
    lemma_six_fields(
        bytes_of(fen_parts(p)[0]),
        bytes_of(fen_parts(p)[1]),
        bytes_of(fen_parts(p)[2]),
        bytes_of(fen_parts(p)[3]),
        bytes_of(fen_parts(p)[4]),
        bytes_of(fen_parts(p)[5]),
    );
}

/// The fields of `p`'s FEN read back as `p`'s own.
proof fn lemma_fields_of_parts(p: Position, fs: Seq<Seq<u8>>)
    requires
        mailbox_ok(p.mailbox@),
        p.castling < 16,
        p.ep == NO_SQUARE || p.ep < 64,
        fs == seq![
            bytes_of(fen_parts(p)[0]),
            bytes_of(fen_parts(p)[1]),
            bytes_of(fen_parts(p)[2]),
            bytes_of(fen_parts(p)[3]),
            bytes_of(fen_parts(p)[4]),
            bytes_of(fen_parts(p)[5]),
        ],
    ensures
        fs.len() == 6,
        board_run(fs[0], fs[0].len() as int) == Ok::<BoardState, FenError>((0, 8, p.mailbox@)),
        fs[1] == seq![119u8] <==> p.stm == Color::White,
        fs[1] == seq![119u8] || fs[1] == seq![98u8],
        castling_run(fs[2], fs[2].len() as int) == Some(p.castling),
        ep_spec(fs[3]) == Ok::<u8, FenError>(p.ep),
        num_field(fs, 4, 255, 0) == p.halfmove,
        num_field(fs, 5, 65535, 1) == p.fullmove,
{
    let mb = p.mailbox@;
    assert(board_run(fs[0], fs[0].len() as int) == Ok::<BoardState, FenError>((0, 8, mb))) by {
        let b_b = bytes_of(fen_parts(p)[0]);
        lemma_board_roundtrip(mb, 8);
        lemma_board_run_from(b_b, b_b.len() as int);
        assert(b_b.subrange(0, b_b.len() as int) =~= b_b);
        assert(board_upto(mb, 0, 8) =~= mb);
    }
    if p.stm == Color::White {
        assert(fs[1] =~= seq![119u8]);
    } else {
        assert(fs[1] =~= seq![98u8]);
        assert(fs[1][0] != seq![119u8][0]);
    }
    lemma_castling_roundtrip(p.castling);
    if p.ep == NO_SQUARE {
        assert(fs[3] =~= seq![45u8]);
    } else {
        lemma_square_roundtrip(p.ep as int);
        assert(fs[3].len() == 2);
        assert(fs[3] != seq![45u8]);
    }
    lemma_dec_roundtrip(p.halfmove as nat);
    lemma_dec_roundtrip(p.fullmove as nat);
}

/// The fields of `p`'s FEN read back as `p`'s own.
proof fn lemma_fen_read(p: Position, s: &str)
    requires
        p.wf(),
        s@ == fen_string(p),
    ensures
        fen_fields(s.spec_bytes()) == Ok::<FenFields, FenError>(
            (p.mailbox@, p.stm, p.castling, p.ep, p.halfmove, p.fullmove),
        ),
{
    let mb = p.mailbox@;
    lemma_fen_split(p, s);
    assert(mailbox_ok(mb)) by {
        assert forall|q: int| 0 <= q < 64 implies (#[trigger] mb[q] < 12 || mb[q] == EMPTY) by {
            assert(p.sq_ok(q));
        }
    }
    lemma_fields_of_parts(p, fields_spec(s.spec_bytes()));
}

/// What `to_fen` writes, `from_fen` reads back as the same position. (A
/// position whose side not to move is in check has no FEN `from_fen`
/// accepts.)
pub proof fn lemma_fen_roundtrip(p: Position, s: &str)
    requires
        p.wf(),
        !opponent_in_check(p),
        s@ == fen_string(p),
    ensures
        fen_result(s.spec_bytes()) == Ok::<Position, FenError>(p),
{
    let mb = p.mailbox@;
    lemma_fen_read(p, s);
    let f: FenFields = (mb, p.stm, p.castling, p.ep, p.halfmove, p.fullmove);
    lemma_one_king(p, Color::White);
    lemma_one_king(p, Color::Black);
    assert(code_of(Color::White, PieceType::King) == 5);
    assert(code_of(Color::Black, PieceType::King) == 11);
    assert(describes(p, f));
    lemma_fen_position(p, f);
}

} // verus!
