//! Syzygy endgame tablebase probing, backed by the `shakmaty-syzygy` crate (a
//! correct table decoder is not worth rebuilding). The directories come from
//! the UCI `SyzygyPath` option; the caller loads them (that reads the disk)
//! and installs the result here.

use crate::position::{NO_SQUARE, Position};
use shakmaty::fen::Fen;
use shakmaty::{CastlingMode, Chess};
use shakmaty_syzygy::{Tablebase, Wdl};
use vstd::prelude::*;
use vstd::string::StringSliceAdditionalSpecFns;

verus! {

#[verifier::external_type_specification]
#[verifier::external_body]
pub struct ExChess(shakmaty::Chess);

#[verifier::external_type_specification]
#[verifier::external_body]
pub struct ExFen(shakmaty::fen::Fen);

/// Parses a FEN with `shakmaty`'s `FromStr` for `Fen` (`Fen::from_ascii`);
/// `None` where it reports an error. Nothing is promised of the parsed value.
#[verifier::external_body]
fn parse_fen(text: &str) -> Option<Fen> {
    text.parse::<Fen>().ok()
}

/// `Fen::into_position` with standard castling, as a `Chess` position;
/// `None` where `shakmaty` rejects the setup. Nothing is promised of the
/// position.
#[verifier::external_body]
fn fen_into_chess(fen: Fen) -> Option<Chess> {
    fen.into_position(CastlingMode::Standard).ok()
}

/// `Tablebase::probe_wdl_after_zeroing` on the installed tables, the `Wdl`
/// given as its discriminant (-2 loss ... 2 win); `None` without tables or
/// where the probe fails (no table, castling rights, too many pieces, an I/O
/// error). The value depends on the table files, so only its range is
/// stated.
#[verifier::external_body]
fn probe_wdl_code(tbs: &Tablebases, pos: &Chess) -> (r: Option<i8>)
    ensures
        r matches Some(v) ==> -2 <= v <= 2,
{
    match tbs.tables.as_ref()?.probe_wdl_after_zeroing(pos) {
        Ok(Wdl::Loss) => Some(-2),
        Ok(Wdl::BlessedLoss) => Some(-1),
        Ok(Wdl::Draw) => Some(0),
        Ok(Wdl::CursedWin) => Some(1),
        Ok(Wdl::Win) => Some(2),
        Err(_) => None,
    }
}

/// `Tablebase::max_pieces` of the installed tables (0 without tables): the
/// largest table added, in men. Which tables were found depends on the disk;
/// the contract claims only that a standard-chess tablebase takes no table
/// of more than seven men, so the result is at most 7.
#[verifier::external_body]
fn tb_max_pieces(tbs: &Tablebases) -> (r: usize)
    ensures
        r <= 7,
{
    match tbs.tables.as_ref() {
        Some(tb) => tb.max_pieces(),
        None => 0,
    }
}

/// A probe result from the side to move's point of view: 1 win, -1 loss, 0
/// draw. Cursed wins and blessed losses count as draws (the 50-move rule
/// saves them).
pub open spec fn wdl_value_spec(code: i8) -> int {
    if code == 2 {
        1
    } else if code == -2 {
        -1
    } else {
        0
    }
}

pub fn wdl_value(code: i8) -> (r: i32)
    ensures
        r == wdl_value_spec(code),
{
    if code == 2 {
        1
    } else if code == -2 {
        -1
    } else {
        0
    }
}

/// The tablebases in use. The tables are loaded from disk by the caller
/// (`Tablebase::add_directory`) and installed in `tables`; the field is
/// opaque here.
#[verifier::external_body]
pub struct Tablebases {
    pub tables: Option<Tablebase<Chess>>,
}

impl Tablebases {
    /// Largest loaded table in men (0 when tablebases are off).
    pub fn max_pieces(&self) -> (r: usize)
        ensures
            r <= 7,
    {
        tb_max_pieces(self)
    }

    /// WDL of a position just after a zeroing move (halfmove clock 0), from
    /// the side to move's point of view: `Some(1)` win, `Some(-1)` loss,
    /// `Some(0)` draw; `None` when no table covers it. Cursed wins and
    /// blessed losses count as draws.
    pub fn probe_wdl(&self, pos: &Position) -> (r: Option<i32>)
        requires
            pos.ep <= NO_SQUARE,
        ensures
            r matches Some(v) ==> -1 <= v <= 1,
    {
        let fen = pos.to_fen();
        let parsed = match parse_fen(fen.as_str()) {
            Some(f) => f,
            None => {
                return None;
            },
        };
        let chess = match fen_into_chess(parsed) {
            Some(c) => c,
            None => {
                return None;
            },
        };
        match probe_wdl_code(self, &chess) {
            Some(code) => Some(wdl_value(code)),
            None => None,
        }
    }
}

/// The `SyzygyPath` entries: the parts between separators `sep`, trimmed of
/// ASCII spaces and tabs, without empty ones and `<empty>` (any case).
pub fn syzygy_dirs(path: &str, sep: u8) -> (r: Vec<(usize, usize)>)
    ensures
        forall|k: int|
            0 <= k < r@.len() ==> #[trigger] r@[k].0 < r@[k].1 <= path.spec_bytes().len(),
        forall|k: int|
            0 <= k < r@.len() ==> !dir_trim(path.spec_bytes()[r@[k].0 as int]) && !dir_trim(
                path.spec_bytes()[r@[k].1 - 1],
            ),
        forall|k: int|
            0 <= k < r@.len() ==> !empty_marker_spec(
                #[trigger] path.spec_bytes().subrange(r@[k].0 as int, r@[k].1 as int),
            ),
{
    let b = path.as_bytes();
    let mut out: Vec<(usize, usize)> = Vec::new();
    let mut start: usize = 0;
    let mut i: usize = 0;
    while i <= b.len()
        invariant
            start <= i,
            i <= b@.len() + 1,
            start <= b@.len(),
            b@ == path.spec_bytes(),
            forall|k: int| 0 <= k < out@.len() ==> #[trigger] out@[k].0 < out@[k].1 <= b@.len(),
            forall|k: int|
                0 <= k < out@.len() ==> !dir_trim(b@[out@[k].0 as int]) && !dir_trim(
                    b@[out@[k].1 - 1],
                ),
            forall|k: int|
                0 <= k < out@.len() ==> !empty_marker_spec(
                    #[trigger] b@.subrange(out@[k].0 as int, out@[k].1 as int),
                ),
        decreases b@.len() + 1 - i,
    {
        if i == b.len() || b[i] == sep {
            // trim the part [start, i)
            let mut lo = start;
            let mut hi = i;
            while lo < hi && (b[lo] == 32 || b[lo] == 9 || b[lo] == 10 || b[lo] == 13)
                invariant
                    start <= lo <= hi <= i <= b@.len(),
                decreases hi - lo,
            {
                lo += 1;
            }
            while hi > lo && (b[hi - 1] == 32 || b[hi - 1] == 9 || b[hi - 1] == 10 || b[hi - 1] == 13)
                invariant
                    start <= lo <= hi <= i <= b@.len(),
                    lo < hi ==> !dir_trim(b@[lo as int]),
                decreases hi - lo,
            {
                hi -= 1;
            }
            if lo < hi && !is_empty_marker(b, lo, hi) {
                out.push((lo, hi));
            }
            if i == b.len() {
                break;
            }
            start = i + 1;
        }
        i += 1;
    }
    out
}

/// The whitespace `trim` removes around a directory (ASCII space, tab, line
/// feed, carriage return).
pub open spec fn dir_trim(c: u8) -> bool {
    c == 32 || c == 9 || c == 10 || c == 13
}

/// A byte with ASCII capitals made small.
pub open spec fn ascii_lower(c: u8) -> u8 {
    if 65 <= c <= 90 {
        (c + 32) as u8
    } else {
        c
    }
}

/// `<empty>`.
pub open spec fn empty_word() -> Seq<u8> {
    seq![60u8, 101u8, 109u8, 112u8, 116u8, 121u8, 62u8]
}

/// The bytes `s` spell `<empty>` in any letter case.
pub open spec fn empty_marker_spec(s: Seq<u8>) -> bool {
    s.len() == 7 && forall|i: int| 0 <= i < 7 ==> ascii_lower(#[trigger] s[i]) == empty_word()[i]
}

/// `b[lo..hi]` is `<empty>` in any letter case.
fn is_empty_marker(b: &[u8], lo: usize, hi: usize) -> (r: bool)
    requires
        lo <= hi <= b@.len(),
    ensures
        r == empty_marker_spec(b@.subrange(lo as int, hi as int)),
{
    let w: [u8; 7] = [60, 101, 109, 112, 116, 121, 62];
    let ghost word = empty_word();
    let ghost s = b@.subrange(lo as int, hi as int);
    assert(w@ == word);
    if hi - lo != 7 {
        return false;
    }
    let mut i: usize = 0;
    while i < 7
        invariant
            hi - lo == 7,
            lo <= hi <= b@.len(),
            i <= 7,
            w@ == word,
            word == empty_word(),
            s == b@.subrange(lo as int, hi as int),
            forall|k: int| 0 <= k < i ==> ascii_lower(#[trigger] s[k]) == word[k],
        decreases 7 - i,
    {
        let c = b[lo + i];
        let lc = if 65 <= c && c <= 90 {
            c + 32
        } else {
            c
        };
        assert(s[i as int] == c);
        if lc != w[i] {
            proof {
                assert(ascii_lower(s[i as int]) != word[i as int]);
            }
            return false;
        }
        i += 1;
    }
    true
}

} // verus!
