//! UCI command logic: the `setoption` parser and the options it sets, the
//! ponder time budget, and matching a move string against the legal moves.

use crate::fen::{all_digits, digits_value, fields_spec, lemma_digits_value_mono, parse_dec_spec, span_ok, split_fields, unsigned_body};
use crate::movegen::{MoveList, generate_moves, generated, lemma_listed_generated, lemma_playable, listed};
use crate::position::Position;
use crate::search::{Limits, alloc_spec, opt_or, sat_sub, usable_time};
use crate::tune::{Param, Tunables, bytes_eq, default_spec, lookup_bytes, param_of, with_spec};
use crate::types::{Move, uci_spec};
use vstd::prelude::*;
use vstd::string::StringSliceAdditionalSpecFns;

verus! {

// ---------------------------------------------------------------------------
// Numbers
// ---------------------------------------------------------------------------
/// A string of at least one decimal digit, and its value.
pub open spec fn digits_only(s: Seq<u8>) -> Option<nat> {
    if s.len() > 0 && all_digits(s) {
        Some(digits_value(s))
    } else {
        None
    }
}

/// A signed decimal number: an optional `-` or `+`, then digits, as Rust's
/// signed integer parsing accepts.
pub open spec fn parse_int_spec(s: Seq<u8>) -> Option<int> {
    if s.len() > 0 && s[0] == 45 {
        match digits_only(s.drop_first()) {
            Some(v) => Some(-(v as int)),
            None => None,
        }
    } else {
        match parse_dec_spec(s) {
            Some(v) => Some(v as int),
            None => None,
        }
    }
}

/// The digits in `b[lo..hi]` if they form a number up to `max`.
fn parse_digits(b: &[u8], lo: usize, hi: usize, max: u64) -> (r: Option<u64>)
    requires
        lo <= hi <= b@.len(),
    ensures
        r == (match digits_only(b@.subrange(lo as int, hi as int)) {
            Some(v) => if v <= max {
                Some(v as u64)
            } else {
                None::<u64>
            },
            None => None::<u64>,
        }),
{
    let ghost d = b@.subrange(lo as int, hi as int);
    if lo == hi {
        return None;
    }
    let mut i = lo;
    let mut v: u64 = 0;
    while i < hi
        invariant
            lo <= i <= hi <= b@.len(),
            lo < hi,
            d == b@.subrange(lo as int, hi as int),
            forall|k: int| lo <= k < i ==> crate::fen::is_digit(#[trigger] b@[k]),
            v <= max,
            v == digits_value(b@.subrange(lo as int, i as int)),
        decreases hi - i,
    {
        let c = b[i];
        if c < 48 || c > 57 {
            proof {
                assert(d[i - lo] == c);
                assert(!all_digits(d));
            }
            return None;
        }
        let ghost pre = b@.subrange(lo as int, i + 1);
        proof {
            assert(pre.drop_last() =~= b@.subrange(lo as int, i as int));
            assert(pre.last() == c);
        }
        let nv: u128 = v as u128 * 10 + (c - 48) as u128;
        i += 1;
        proof {
            assert(nv == digits_value(b@.subrange(lo as int, i as int)));
        }
        if nv > max as u128 {
            proof {
                if all_digits(d) {
                    assert(d.subrange(0, i - lo) =~= b@.subrange(lo as int, i as int));
                    lemma_digits_value_mono(d, i - lo);
                }
            }
            return None;
        }
        v = nv as u64;
    }
    proof {
        assert(b@.subrange(lo as int, i as int) =~= d);
    }
    Some(v)
}

/// The unsigned number (optional `+`) in `b` if it is at most `max`.
pub fn parse_unsigned(b: &[u8], max: u64) -> (r: Option<u64>)
    ensures
        r == (match parse_dec_spec(b@) {
            Some(v) => if v <= max {
                Some(v as u64)
            } else {
                None::<u64>
            },
            None => None::<u64>,
        }),
{
    if b.len() > 0 && b[0] == 43 {
        proof {
            assert(b@.subrange(1, b@.len() as int) =~= unsigned_body(b@));
        }
        parse_digits(b, 1, b.len(), max)
    } else {
        proof {
            assert(b@.subrange(0, b@.len() as int) =~= unsigned_body(b@));
        }
        parse_digits(b, 0, b.len(), max)
    }
}

/// The signed number in `b` if it fits an `i32`.
pub fn parse_i32(b: &[u8]) -> (r: Option<i32>)
    ensures
        r == (match parse_int_spec(b@) {
            Some(v) => if i32::MIN <= v <= i32::MAX {
                Some(v as i32)
            } else {
                None::<i32>
            },
            None => None::<i32>,
        }),
{
    if b.len() > 0 && b[0] == 45 {
        proof {
            assert(b@.subrange(1, b@.len() as int) =~= b@.drop_first());
        }
        match parse_digits(b, 1, b.len(), 0x8000_0000) {
            Some(m) => Some((0 - m as i64) as i32),
            None => None,
        }
    } else {
        match parse_unsigned(b, 0x7fff_ffff) {
            Some(m) => Some(m as i32),
            None => None,
        }
    }
}

// ---------------------------------------------------------------------------
// setoption
// ---------------------------------------------------------------------------
/// ASCII lower case.
pub open spec fn lower_byte(c: u8) -> u8 {
    if 65 <= c && c <= 90 {
        (c + 32) as u8
    } else {
        c
    }
}

/// Tokens joined by single spaces.
pub open spec fn join_spec(ts: Seq<Seq<u8>>) -> Seq<u8>
    decreases ts.len(),
{
    if ts.len() == 0 {
        Seq::empty()
    } else if ts.len() == 1 {
        ts[0]
    } else {
        join_spec(ts.drop_last()) + seq![32u8] + ts.last()
    }
}

/// Index of the first token from `from` on that equals `w`.
pub open spec fn first_index(ts: Seq<Seq<u8>>, w: Seq<u8>, from: int) -> Option<int>
    decreases ts.len() - from,
{
    if from < 0 || from >= ts.len() {
        None
    } else if ts[from] == w {
        Some(from)
    } else {
        first_index(ts, w, from + 1)
    }
}

/// What a `setoption` line holds.
pub enum SetOption {
    /// no `name` token: nothing to do
    Ignored,
    /// `value` before `name`: not a command this engine can read
    Misordered,
    /// the option's lower-case name and its value (tokens joined by spaces)
    Assign { key: Vec<u8>, value: Vec<u8> },
}

/// `setoption name <id> value <x>`: the tokens after the first word, split at
/// the first `name` and the first `value` (id and value may hold spaces).
/// `None` without `name`; `Some(None)` when `value` comes before `name`.
pub open spec fn setoption_spec(b: Seq<u8>) -> Option<Option<(Seq<u8>, Seq<u8>)>> {
    let ts = fields_spec(b);
    let name_w = seq![110u8, 97, 109, 101];
    let value_w = seq![118u8, 97, 108, 117, 101];
    match first_index(ts, name_w, 1) {
        None => None,
        Some(ni) => match first_index(ts, value_w, 1) {
            Some(vi) => if vi < ni {
                Some(None)
            } else {
                Some(
                    Some(
                        (
                            join_spec(ts.subrange(ni + 1, vi)).map_values(|c: u8| lower_byte(c)),
                            join_spec(ts.subrange(vi + 1, ts.len() as int)),
                        ),
                    ),
                )
            },
            None => Some(
                Some(
                    (
                        join_spec(ts.subrange(ni + 1, ts.len() as int)).map_values(
                            |c: u8| lower_byte(c),
                        ),
                        Seq::empty(),
                    ),
                ),
            ),
        },
    }
}

/// First token index at or after `from` whose text is `w`.
fn find_token(b: &[u8], spans: &Vec<(usize, usize)>, from: usize, w: &[u8]) -> (r: Option<usize>)
    requires
        spans@.len() == fields_spec(b@).len(),
        forall|k: int| 0 <= k < spans@.len() ==> span_ok(b@, #[trigger] spans@[k], fields_spec(b@)[k], b@.len() as int),
    ensures
        match r {
            Some(i) => first_index(fields_spec(b@), w@, from as int) == Some(i as int),
            None => first_index(fields_spec(b@), w@, from as int) is None,
        },
    decreases spans@.len() - from,
{
    if from >= spans.len() {
        return None;
    }
    let (lo, hi) = spans[from];
    proof {
        assert(span_ok(b@, spans@[from as int], fields_spec(b@)[from as int], b@.len() as int));
    }
    if bytes_eq_span(b, lo, hi, w) {
        Some(from)
    } else {
        find_token(b, spans, from + 1, w)
    }
}

/// `b[lo..hi]` equals `w`.
fn bytes_eq_span(b: &[u8], lo: usize, hi: usize, w: &[u8]) -> (r: bool)
    requires
        lo <= hi <= b@.len(),
    ensures
        r == (b@.subrange(lo as int, hi as int) == w@),
{
    if hi - lo != w.len() {
        return false;
    }
    let mut i: usize = 0;
    while i < w.len()
        invariant
            hi - lo == w@.len(),
            lo <= hi <= b@.len(),
            i <= w@.len(),
            forall|k: int| 0 <= k < i ==> b@[lo + k] == w@[k],
        decreases w@.len() - i,
    {
        if b[lo + i] != w[i] {
            proof {
                assert(b@.subrange(lo as int, hi as int)[i as int] != w@[i as int]);
            }
            return false;
        }
        i += 1;
    }
    proof {
        assert(b@.subrange(lo as int, hi as int) =~= w@);
    }
    true
}

/// The tokens `from..to` joined by spaces, lower-cased if asked.
fn join_tokens(b: &[u8], spans: &Vec<(usize, usize)>, from: usize, to: usize, lower: bool) -> (r: Vec<u8>)
    requires
        from <= to <= spans@.len(),
        spans@.len() == fields_spec(b@).len(),
        forall|k: int| 0 <= k < spans@.len() ==> span_ok(b@, #[trigger] spans@[k], fields_spec(b@)[k], b@.len() as int),
    ensures
        r@ == (if lower {
            join_spec(fields_spec(b@).subrange(from as int, to as int)).map_values(|c: u8| lower_byte(c))
        } else {
            join_spec(fields_spec(b@).subrange(from as int, to as int))
        }),
{
    let ghost ts = fields_spec(b@);
    let mut out: Vec<u8> = Vec::new();
    let mut k = from;
    proof {
        assert(join_spec(ts.subrange(from as int, from as int)) =~= Seq::<u8>::empty());
        assert(out@ =~= Seq::<u8>::empty().map_values(|c: u8| lower_byte(c)));
    }
    while k < to
        invariant
            from <= k <= to <= spans@.len(),
            ts == fields_spec(b@),
            spans@.len() == ts.len(),
            forall|j: int| 0 <= j < spans@.len() ==> span_ok(b@, #[trigger] spans@[j], ts[j], b@.len() as int),
            out@ == (if lower {
                join_spec(ts.subrange(from as int, k as int)).map_values(|c: u8| lower_byte(c))
            } else {
                join_spec(ts.subrange(from as int, k as int))
            }),
        decreases to - k,
    {
        let ghost before = out@;
        let ghost jb = join_spec(ts.subrange(from as int, k as int));
        if k > from {
            out.push(32u8);
        }
        let (lo, hi) = spans[k];
        proof {
            assert(span_ok(b@, spans@[k as int], ts[k as int], b@.len() as int));
        }
        let ghost mid = out@;
        let mut i = lo;
        while i < hi
            invariant
                lo <= i <= hi <= b@.len(),
                out@ == mid + (if lower {
                    b@.subrange(lo as int, i as int).map_values(|c: u8| lower_byte(c))
                } else {
                    b@.subrange(lo as int, i as int)
                }),
            decreases hi - i,
        {
            let c = b[i];
            let lc = if lower && 65 <= c && c <= 90 {
                c + 32
            } else {
                c
            };
            out.push(lc);
            i += 1;
            proof {
                if lower {
                    assert(b@.subrange(lo as int, i as int).map_values(|c: u8| lower_byte(c)) =~= b@.subrange(
                        lo as int,
                        i - 1,
                    ).map_values(|c: u8| lower_byte(c)).push(lower_byte(c)));
                } else {
                    assert(b@.subrange(lo as int, i as int) =~= b@.subrange(lo as int, i - 1).push(c));
                }
            }
        }
        proof {
            let tk = ts[k as int];
            assert(b@.subrange(lo as int, hi as int) == tk);
            let js = ts.subrange(from as int, k + 1);
            if k == from {
                assert(js =~= seq![tk]);
                assert(join_spec(js) == tk);
            } else {
                assert(js.drop_last() =~= ts.subrange(from as int, k as int));
                assert(js.last() == tk);
                assert(join_spec(js) == jb + seq![32u8] + tk);
            }
            if lower {
                assert(out@ =~= join_spec(js).map_values(|c: u8| lower_byte(c)));
            } else {
                assert(out@ =~= join_spec(js));
            }
        }
        k += 1;
    }
    out
}

// ---------------------------------------------------------------------------
// go
// ---------------------------------------------------------------------------
/// The arguments of a `go` command. A keyword takes the next token as its
/// number (nothing when that token is not one); a later keyword overrides
/// an earlier one.
#[derive(Clone, Copy)]
pub struct GoArgs {
    pub wtime: Option<u64>,
    pub btime: Option<u64>,
    pub winc: Option<u64>,
    pub binc: Option<u64>,
    pub movestogo: Option<u64>,
    pub movetime: Option<u64>,
    pub depth: Option<u32>,
    pub nodes: Option<u64>,
    pub infinite: bool,
    pub ponder: bool,
}

pub open spec fn no_go_args() -> GoArgs {
    GoArgs {
        wtime: None,
        btime: None,
        winc: None,
        binc: None,
        movestogo: None,
        movetime: None,
        depth: None,
        nodes: None,
        infinite: false,
        ponder: false,
    }
}

/// Which keyword of `go` a token is: 1 wtime, 2 btime, 3 winc, 4 binc,
/// 5 movestogo, 6 movetime, 7 depth, 8 nodes, 9 mate, 10 infinite,
/// 11 ponder, 0 none.
pub open spec fn go_keyword(t: Seq<u8>) -> int {
    if t == seq![119u8, 116, 105, 109, 101] {
        1
    } else if t == seq![98u8, 116, 105, 109, 101] {
        2
    } else if t == seq![119u8, 105, 110, 99] {
        3
    } else if t == seq![98u8, 105, 110, 99] {
        4
    } else if t == seq![109u8, 111, 118, 101, 115, 116, 111, 103, 111] {
        5
    } else if t == seq![109u8, 111, 118, 101, 116, 105, 109, 101] {
        6
    } else if t == seq![100u8, 101, 112, 116, 104] {
        7
    } else if t == seq![110u8, 111, 100, 101, 115] {
        8
    } else if t == seq![109u8, 97, 116, 101] {
        9
    } else if t == seq![105u8, 110, 102, 105, 110, 105, 116, 101] {
        10
    } else if t == seq![112u8, 111, 110, 100, 101, 114] {
        11
    } else {
        0
    }
}

/// The unsigned number that token `j` holds, if there is such a token and
/// it is one.
pub open spec fn go_num(ts: Seq<Seq<u8>>, j: int) -> Option<u64> {
    if 0 <= j < ts.len() {
        match parse_dec_spec(ts[j]) {
            Some(v) => if v <= u64::MAX {
                Some(v as u64)
            } else {
                None
            },
            None => None,
        }
    } else {
        None
    }
}

/// The arguments read from token `i` on, over what was read before.
pub open spec fn go_fold(ts: Seq<Seq<u8>>, i: int, a: GoArgs) -> GoArgs
    decreases ts.len() + 2 - i,
{
    if i < 0 || i >= ts.len() {
        a
    } else {
        let k = go_keyword(ts[i]);
        let v = go_num(ts, i + 1);
        if k == 1 {
            go_fold(ts, i + 2, GoArgs { wtime: v, ..a })
        } else if k == 2 {
            go_fold(ts, i + 2, GoArgs { btime: v, ..a })
        } else if k == 3 {
            go_fold(ts, i + 2, GoArgs { winc: v, ..a })
        } else if k == 4 {
            go_fold(ts, i + 2, GoArgs { binc: v, ..a })
        } else if k == 5 {
            go_fold(ts, i + 2, GoArgs { movestogo: v, ..a })
        } else if k == 6 {
            go_fold(ts, i + 2, GoArgs { movetime: v, ..a })
        } else if k == 7 {
            go_fold(
                ts,
                i + 2,
                GoArgs {
                    depth: match v {
                        Some(d) => Some(if d > u32::MAX {
                            u32::MAX
                        } else {
                            d as u32
                        }),
                        None => None,
                    },
                    ..a
                },
            )
        } else if k == 8 {
            go_fold(ts, i + 2, GoArgs { nodes: v, ..a })
        } else if k == 9 {
            // mate in n: search 2n plies, within the ply limit
            go_fold(
                ts,
                i + 2,
                match v {
                    Some(n) => GoArgs {
                        depth: Some(if 2 * n > 127 {
                            127u32
                        } else {
                            (2 * n) as u32
                        }),
                        ..a
                    },
                    None => a,
                },
            )
        } else if k == 10 {
            go_fold(ts, i + 1, GoArgs { infinite: true, ..a })
        } else if k == 11 {
            go_fold(ts, i + 1, GoArgs { ponder: true, infinite: true, ..a })
        } else {
            go_fold(ts, i + 1, a)
        }
    }
}

/// The arguments of the `go` line `b` (its first token is the command).
pub open spec fn go_spec(b: Seq<u8>) -> GoArgs {
    go_fold(fields_spec(b), 1, no_go_args())
}

/// The keyword code of `b[lo..hi]` (see `go_keyword`).
fn go_keyword_of(b: &[u8], lo: usize, hi: usize) -> (r: u8)
    requires
        lo <= hi <= b@.len(),
    ensures
        r as int == go_keyword(b@.subrange(lo as int, hi as int)),
{
    let w0: [u8; 5] = [119, 116, 105, 109, 101];
    proof {
        assert(w0@ =~= seq![119u8, 116, 105, 109, 101]);
    }
    if bytes_eq_span(b, lo, hi, w0.as_slice()) {
        return 1;
    }
    let w1: [u8; 5] = [98, 116, 105, 109, 101];
    proof {
        assert(w1@ =~= seq![98u8, 116, 105, 109, 101]);
    }
    if bytes_eq_span(b, lo, hi, w1.as_slice()) {
        return 2;
    }
    let w2: [u8; 4] = [119, 105, 110, 99];
    proof {
        assert(w2@ =~= seq![119u8, 105, 110, 99]);
    }
    if bytes_eq_span(b, lo, hi, w2.as_slice()) {
        return 3;
    }
    let w3: [u8; 4] = [98, 105, 110, 99];
    proof {
        assert(w3@ =~= seq![98u8, 105, 110, 99]);
    }
    if bytes_eq_span(b, lo, hi, w3.as_slice()) {
        return 4;
    }
    let w4: [u8; 9] = [109, 111, 118, 101, 115, 116, 111, 103, 111];
    proof {
        assert(w4@ =~= seq![109u8, 111, 118, 101, 115, 116, 111, 103, 111]);
    }
    if bytes_eq_span(b, lo, hi, w4.as_slice()) {
        return 5;
    }
    let w5: [u8; 8] = [109, 111, 118, 101, 116, 105, 109, 101];
    proof {
        assert(w5@ =~= seq![109u8, 111, 118, 101, 116, 105, 109, 101]);
    }
    if bytes_eq_span(b, lo, hi, w5.as_slice()) {
        return 6;
    }
    let w6: [u8; 5] = [100, 101, 112, 116, 104];
    proof {
        assert(w6@ =~= seq![100u8, 101, 112, 116, 104]);
    }
    if bytes_eq_span(b, lo, hi, w6.as_slice()) {
        return 7;
    }
    let w7: [u8; 5] = [110, 111, 100, 101, 115];
    proof {
        assert(w7@ =~= seq![110u8, 111, 100, 101, 115]);
    }
    if bytes_eq_span(b, lo, hi, w7.as_slice()) {
        return 8;
    }
    let w8: [u8; 4] = [109, 97, 116, 101];
    proof {
        assert(w8@ =~= seq![109u8, 97, 116, 101]);
    }
    if bytes_eq_span(b, lo, hi, w8.as_slice()) {
        return 9;
    }
    let w9: [u8; 8] = [105, 110, 102, 105, 110, 105, 116, 101];
    proof {
        assert(w9@ =~= seq![105u8, 110, 102, 105, 110, 105, 116, 101]);
    }
    if bytes_eq_span(b, lo, hi, w9.as_slice()) {
        return 10;
    }
    let w10: [u8; 6] = [112, 111, 110, 100, 101, 114];
    proof {
        assert(w10@ =~= seq![112u8, 111, 110, 100, 101, 114]);
    }
    if bytes_eq_span(b, lo, hi, w10.as_slice()) {
        return 11;
    }
    0
}


/// The unsigned number (optional `+`) in `b[lo..hi]`, if it fits a `u64`.
fn parse_u64_span(b: &[u8], lo: usize, hi: usize) -> (r: Option<u64>)
    requires
        lo <= hi <= b@.len(),
    ensures
        r == (match parse_dec_spec(b@.subrange(lo as int, hi as int)) {
            Some(v) => if v <= u64::MAX {
                Some(v as u64)
            } else {
                None::<u64>
            },
            None => None::<u64>,
        }),
{
    let ghost t = b@.subrange(lo as int, hi as int);
    if lo < hi && b[lo] == 43 {
        proof {
            assert(unsigned_body(t) =~= b@.subrange(lo + 1, hi as int));
        }
        parse_digits(b, lo + 1, hi, u64::MAX)
    } else {
        proof {
            assert(unsigned_body(t) =~= t);
        }
        parse_digits(b, lo, hi, u64::MAX)
    }
}

/// Read a `go` line.
pub fn parse_go(line: &str) -> (r: GoArgs)
    ensures
        r == go_spec(line.spec_bytes()),
{
    let b = line.as_bytes();
    let spans = split_fields(b);
    let n = spans.len();
    let ghost ts = fields_spec(b@);
    let mut a = GoArgs {
        wtime: None,
        btime: None,
        winc: None,
        binc: None,
        movestogo: None,
        movetime: None,
        depth: None,
        nodes: None,
        infinite: false,
        ponder: false,
    };
    let mut i: usize = 1;
    while i < n
        invariant
            n == spans@.len(),
            n == ts.len(),
            ts == fields_spec(b@),
            forall|k: int| 0 <= k < spans@.len() ==> span_ok(b@, #[trigger] spans@[k], ts[k], b@.len() as int),
            1 <= i <= n + 1,
            go_fold(ts, 1, no_go_args()) == go_fold(ts, i as int, a),
        decreases n + 2 - i,
    {
        let (lo, hi) = spans[i];
        proof {
            assert(span_ok(b@, spans@[i as int], ts[i as int], b@.len() as int));
        }
        let k = go_keyword_of(b, lo, hi);
        let v: Option<u64> = if i + 1 < n {
            let (lo2, hi2) = spans[i + 1];
            proof {
                assert(span_ok(b@, spans@[i + 1], ts[i + 1], b@.len() as int));
            }
            parse_u64_span(b, lo2, hi2)
        } else {
            None
        };
        proof {
            assert(v == go_num(ts, i + 1));
            reveal_with_fuel(go_fold, 2);
        }
        if k == 1 {
            a.wtime = v;
            i += 1;
            if i < n {
                i += 1;
            }
        } else if k == 2 {
            a.btime = v;
            i += 1;
            if i < n {
                i += 1;
            }
        } else if k == 3 {
            a.winc = v;
            i += 1;
            if i < n {
                i += 1;
            }
        } else if k == 4 {
            a.binc = v;
            i += 1;
            if i < n {
                i += 1;
            }
        } else if k == 5 {
            a.movestogo = v;
            i += 1;
            if i < n {
                i += 1;
            }
        } else if k == 6 {
            a.movetime = v;
            i += 1;
            if i < n {
                i += 1;
            }
        } else if k == 7 {
            a.depth = match v {
                Some(d) => Some(
                    if d > 0xffff_ffff {
                        0xffff_ffffu32
                    } else {
                        d as u32
                    },
                ),
                None => None,
            };
            i += 1;
            if i < n {
                i += 1;
            }
        } else if k == 8 {
            a.nodes = v;
            i += 1;
            if i < n {
                i += 1;
            }
        } else if k == 9 {
            match v {
                Some(m) => {
                    a.depth = Some(
                        if m > 63 {
                            127u32
                        } else {
                            (m * 2) as u32
                        },
                    );
                },
                None => {},
            }
            i += 1;
            if i < n {
                i += 1;
            }
        } else if k == 10 {
            a.infinite = true;
            i += 1;
        } else if k == 11 {
            a.ponder = true;
            a.infinite = true;
            i += 1;
        } else {
            i += 1;
        }
    }
    a
}

/// The search limits of a `go` command for the side to move (`white`): its
/// own clock and increment, the rest as given.
pub fn go_limits(a: &GoArgs, white: bool, overhead: u64) -> (r: Limits)
    ensures
        r.time == (if white {
            a.wtime
        } else {
            a.btime
        }),
        r.inc == (if white {
            a.winc
        } else {
            a.binc
        }),
        r.movetime == a.movetime,
        r.depth == a.depth,
        r.nodes == a.nodes,
        r.movestogo == a.movestogo,
        r.overhead == overhead,
{
    Limits {
        time: if white {
            a.wtime
        } else {
            a.btime
        },
        inc: if white {
            a.winc
        } else {
            a.binc
        },
        movetime: a.movetime,
        depth: a.depth,
        nodes: a.nodes,
        overhead,
        movestogo: a.movestogo,
    }
}

/// Read a `setoption` line.
pub fn parse_setoption(line: &str) -> (r: SetOption)
    ensures
        match setoption_spec(line.spec_bytes()) {
            None => r is Ignored,
            Some(None) => r is Misordered,
            Some(Some((k, v))) => r matches SetOption::Assign { key, value } && key@ == k && value@ == v,
        },
{
    let b = line.as_bytes();
    let spans = split_fields(b);
    let n = spans.len();
    let name_w: [u8; 4] = [110, 97, 109, 101];
    let value_w: [u8; 5] = [118, 97, 108, 117, 101];
    let ns = name_w.as_slice();
    let vs = value_w.as_slice();
    proof {
        assert(ns@ =~= seq![110u8, 97, 109, 101]);
        assert(vs@ =~= seq![118u8, 97, 108, 117, 101]);
    }
    let ni = match find_token(b, &spans, 1, ns) {
        Some(i) => i,
        None => {
            return SetOption::Ignored;
        },
    };
    proof {
        lemma_first_index_range(fields_spec(b@), ns@, 1);
        assert(ni < spans@.len());
    }
    match find_token(b, &spans, 1, vs) {
        Some(vi) => {
            proof {
                lemma_first_index_range(fields_spec(b@), vs@, 1);
                assert(vi < spans@.len());
            }
            proof {
                assert(first_index(fields_spec(b@), vs@, 1) == Some(vi as int));
                assert(first_index(fields_spec(b@), ns@, 1) == Some(ni as int));
                if vi == ni {
                    assert(fields_spec(b@)[vi as int] == vs@);
                    assert(fields_spec(b@)[ni as int] == ns@);
                    assert(vs@.len() != ns@.len());
                }
            }
            if vi < ni {
                SetOption::Misordered
            } else {
                let key = join_tokens(b, &spans, ni + 1, vi, true);
                let value = join_tokens(b, &spans, vi + 1, n, false);
                SetOption::Assign { key, value }
            }
        },
        None => {
            let key = join_tokens(b, &spans, ni + 1, n, true);
            SetOption::Assign { key, value: Vec::new() }
        },
    }
}

proof fn lemma_first_index_range(ts: Seq<Seq<u8>>, w: Seq<u8>, from: int)
    ensures
        match first_index(ts, w, from) {
            Some(i) => from <= i < ts.len() && ts[i] == w,
            None => true,
        },
    decreases ts.len() - from,
{
    if 0 <= from < ts.len() && ts[from] != w {
        lemma_first_index_range(ts, w, from + 1);
    }
}


// ---------------------------------------------------------------------------
// Options
// ---------------------------------------------------------------------------
/// The UCI options the engine backs, by lower-case name.
#[derive(PartialEq, Eq, Structural, Clone, Copy, Debug)]
pub enum OptionKind {
    Hash,
    ClearHash,
    Threads,
    MultiPv,
    Ponder,
    MoveOverhead,
    MoveOverheadOld,
    NodesTime,
    ShowWdl,
    SkillLevel,
    LimitStrength,
    UciElo,
    EvalFile,
    UseNnue,
    DebugLogFile,
    /// anything else: a tunable, if the name is one
    Other,
}

/// The option a lower-case name selects.
pub open spec fn option_kind(key: Seq<u8>) -> OptionKind {
    if key == seq![104u8, 97, 115, 104] {
        OptionKind::Hash  // "hash"
    } else if key == seq![99u8, 108, 101, 97, 114, 32, 104, 97, 115, 104] {
        OptionKind::ClearHash  // "clear hash"
    } else if key == seq![116u8, 104, 114, 101, 97, 100, 115] {
        OptionKind::Threads  // "threads"
    } else if key == seq![109u8, 117, 108, 116, 105, 112, 118] {
        OptionKind::MultiPv  // "multipv"
    } else if key == seq![112u8, 111, 110, 100, 101, 114] {
        OptionKind::Ponder  // "ponder"
    } else if key == seq![109u8, 111, 118, 101, 32, 111, 118, 101, 114, 104, 101, 97, 100] {
        OptionKind::MoveOverhead  // "move overhead"
    } else if key == seq![109u8, 111, 118, 101, 111, 118, 101, 114, 104, 101, 97, 100] {
        OptionKind::MoveOverheadOld  // "moveoverhead"
    } else if key == seq![110u8, 111, 100, 101, 115, 116, 105, 109, 101] {
        OptionKind::NodesTime  // "nodestime"
    } else if key == seq![117u8, 99, 105, 95, 115, 104, 111, 119, 119, 100, 108] {
        OptionKind::ShowWdl  // "uci_showwdl"
    } else if key == seq![115u8, 107, 105, 108, 108, 32, 108, 101, 118, 101, 108] {
        OptionKind::SkillLevel  // "skill level"
    } else if key == seq![117u8, 99, 105, 95, 108, 105, 109, 105, 116, 115, 116, 114, 101, 110, 103, 116, 104] {
        OptionKind::LimitStrength  // "uci_limitstrength"
    } else if key == seq![117u8, 99, 105, 95, 101, 108, 111] {
        OptionKind::UciElo  // "uci_elo"
    } else if key == seq![101u8, 118, 97, 108, 102, 105, 108, 101] {
        OptionKind::EvalFile  // "evalfile"
    } else if key == seq![117u8, 115, 101, 110, 110, 117, 101] {
        OptionKind::UseNnue  // "usennue"
    } else if key == seq![100u8, 101, 98, 117, 103, 32, 108, 111, 103, 32, 102, 105, 108, 101] {
        OptionKind::DebugLogFile  // "debug log file"
    } else {
        OptionKind::Other
    }
}

pub fn option_kind_of(key: &[u8]) -> (r: OptionKind)
    ensures
        r == option_kind(key@),
{
    let n0: [u8; 4] = [104, 97, 115, 104];
    let n1: [u8; 10] = [99, 108, 101, 97, 114, 32, 104, 97, 115, 104];
    let n2: [u8; 7] = [116, 104, 114, 101, 97, 100, 115];
    let n3: [u8; 7] = [109, 117, 108, 116, 105, 112, 118];
    let n4: [u8; 6] = [112, 111, 110, 100, 101, 114];
    let n5: [u8; 13] = [109, 111, 118, 101, 32, 111, 118, 101, 114, 104, 101, 97, 100];
    let n6: [u8; 12] = [109, 111, 118, 101, 111, 118, 101, 114, 104, 101, 97, 100];
    let n7: [u8; 9] = [110, 111, 100, 101, 115, 116, 105, 109, 101];
    let n8: [u8; 11] = [117, 99, 105, 95, 115, 104, 111, 119, 119, 100, 108];
    let n9: [u8; 11] = [115, 107, 105, 108, 108, 32, 108, 101, 118, 101, 108];
    let n10: [u8; 17] = [117, 99, 105, 95, 108, 105, 109, 105, 116, 115, 116, 114, 101, 110, 103, 116, 104];
    let n11: [u8; 7] = [117, 99, 105, 95, 101, 108, 111];
    let n12: [u8; 8] = [101, 118, 97, 108, 102, 105, 108, 101];
    let n13: [u8; 7] = [117, 115, 101, 110, 110, 117, 101];
    let n14: [u8; 14] = [100, 101, 98, 117, 103, 32, 108, 111, 103, 32, 102, 105, 108, 101];
    proof {
        assert(n0@ =~= seq![104u8, 97, 115, 104]);
        assert(n1@ =~= seq![99u8, 108, 101, 97, 114, 32, 104, 97, 115, 104]);
        assert(n2@ =~= seq![116u8, 104, 114, 101, 97, 100, 115]);
        assert(n3@ =~= seq![109u8, 117, 108, 116, 105, 112, 118]);
        assert(n4@ =~= seq![112u8, 111, 110, 100, 101, 114]);
        assert(n5@ =~= seq![109u8, 111, 118, 101, 32, 111, 118, 101, 114, 104, 101, 97, 100]);
        assert(n6@ =~= seq![109u8, 111, 118, 101, 111, 118, 101, 114, 104, 101, 97, 100]);
        assert(n7@ =~= seq![110u8, 111, 100, 101, 115, 116, 105, 109, 101]);
        assert(n8@ =~= seq![117u8, 99, 105, 95, 115, 104, 111, 119, 119, 100, 108]);
        assert(n9@ =~= seq![115u8, 107, 105, 108, 108, 32, 108, 101, 118, 101, 108]);
        assert(n10@ =~= seq![117u8, 99, 105, 95, 108, 105, 109, 105, 116, 115, 116, 114, 101, 110, 103, 116, 104]);
        assert(n11@ =~= seq![117u8, 99, 105, 95, 101, 108, 111]);
        assert(n12@ =~= seq![101u8, 118, 97, 108, 102, 105, 108, 101]);
        assert(n13@ =~= seq![117u8, 115, 101, 110, 110, 117, 101]);
        assert(n14@ =~= seq![100u8, 101, 98, 117, 103, 32, 108, 111, 103, 32, 102, 105, 108, 101]);
    }
    if bytes_eq(key, n0.as_slice()) {
        OptionKind::Hash
    } else if bytes_eq(key, n1.as_slice()) {
        OptionKind::ClearHash
    } else if bytes_eq(key, n2.as_slice()) {
        OptionKind::Threads
    } else if bytes_eq(key, n3.as_slice()) {
        OptionKind::MultiPv
    } else if bytes_eq(key, n4.as_slice()) {
        OptionKind::Ponder
    } else if bytes_eq(key, n5.as_slice()) {
        OptionKind::MoveOverhead
    } else if bytes_eq(key, n6.as_slice()) {
        OptionKind::MoveOverheadOld
    } else if bytes_eq(key, n7.as_slice()) {
        OptionKind::NodesTime
    } else if bytes_eq(key, n8.as_slice()) {
        OptionKind::ShowWdl
    } else if bytes_eq(key, n9.as_slice()) {
        OptionKind::SkillLevel
    } else if bytes_eq(key, n10.as_slice()) {
        OptionKind::LimitStrength
    } else if bytes_eq(key, n11.as_slice()) {
        OptionKind::UciElo
    } else if bytes_eq(key, n12.as_slice()) {
        OptionKind::EvalFile
    } else if bytes_eq(key, n13.as_slice()) {
        OptionKind::UseNnue
    } else if bytes_eq(key, n14.as_slice()) {
        OptionKind::DebugLogFile
    } else {
        OptionKind::Other
    }
}

/// Settings of the engine that `setoption` changes.
#[derive(Clone, Copy, Debug)]
pub struct EngineOptions {
    pub move_overhead: u64,
    pub threads: usize,
    pub multipv: usize,
    pub show_wdl: bool,
    pub ponder_enabled: bool,
    pub nodestime: u64,
    pub skill: i32,
    /// UCI_LimitStrength: when on, the skill is derived from `uci_elo`
    pub limit_strength: bool,
    pub uci_elo: i32,
    pub use_nnue: bool,
    pub tunables: Tunables,
}

/// What the caller must do after an option changed.
#[derive(PartialEq, Eq, Structural, Clone, Copy, Debug)]
pub enum OptionEffect {
    Nothing,
    /// resize the transposition table to this many MB
    ResizeHash(usize),
    ClearHash,
    /// load the network named by the value (empty or `<internal>`: the
    /// built-in one)
    EvalFile,
    /// log to the file named by the value (empty: stop logging)
    DebugLog,
}

pub open spec fn clamp_spec(v: int, lo: int, hi: int) -> int {
    if v < lo {
        lo
    } else if v > hi {
        hi
    } else {
        v
    }
}

/// `true`, in any letter case.
pub open spec fn is_true(v: Seq<u8>) -> bool {
    v.map_values(|c: u8| lower_byte(c)) == seq![116u8, 114, 117, 101]
}

/// The unsigned value of `v` if it fits a `usize`.
pub open spec fn uint_value(v: Seq<u8>) -> Option<int> {
    match parse_dec_spec(v) {
        Some(x) => if x <= usize::MAX {
            Some(x as int)
        } else {
            None
        },
        None => None,
    }
}

/// The unsigned value of `v` if it fits a `u64`.
pub open spec fn u64_value(v: Seq<u8>) -> Option<int> {
    match parse_dec_spec(v) {
        Some(x) => if x <= u64::MAX {
            Some(x as int)
        } else {
            None
        },
        None => None,
    }
}

/// The signed value of `v` if it fits an `i32`.
pub open spec fn i32_value(v: Seq<u8>) -> Option<int> {
    match parse_int_spec(v) {
        Some(x) => if i32::MIN <= x <= i32::MAX {
            Some(x)
        } else {
            None
        },
        None => None,
    }
}

/// The options after `setoption` with lower-case name `key` and value
/// `value`, and what the caller must do. A value that does not parse
/// changes nothing; numbers are clamped to each option's range.
pub open spec fn apply_spec(o: EngineOptions, key: Seq<u8>, value: Seq<u8>) -> (EngineOptions, OptionEffect) {
    match option_kind(key) {
        OptionKind::Hash => match uint_value(value) {
            Some(v) => (o, OptionEffect::ResizeHash(clamp_spec(v, 1, 4096) as usize)),
            None => (o, OptionEffect::Nothing),
        },
        OptionKind::ClearHash => (o, OptionEffect::ClearHash),
        OptionKind::Threads => match uint_value(value) {
            Some(v) => (EngineOptions { threads: clamp_spec(v, 1, 32) as usize, ..o }, OptionEffect::Nothing),
            None => (o, OptionEffect::Nothing),
        },
        OptionKind::MultiPv => match uint_value(value) {
            Some(v) => (EngineOptions { multipv: clamp_spec(v, 1, 256) as usize, ..o }, OptionEffect::Nothing),
            None => (o, OptionEffect::Nothing),
        },
        OptionKind::Ponder => (EngineOptions { ponder_enabled: is_true(value), ..o }, OptionEffect::Nothing),
        OptionKind::MoveOverhead | OptionKind::MoveOverheadOld => match u64_value(value) {
            Some(v) => (EngineOptions { move_overhead: clamp_spec(v, 0, 5000) as u64, ..o }, OptionEffect::Nothing),
            None => (o, OptionEffect::Nothing),
        },
        OptionKind::NodesTime => match u64_value(value) {
            Some(v) => (EngineOptions { nodestime: clamp_spec(v, 0, 10000) as u64, ..o }, OptionEffect::Nothing),
            None => (o, OptionEffect::Nothing),
        },
        OptionKind::ShowWdl => (EngineOptions { show_wdl: is_true(value), ..o }, OptionEffect::Nothing),
        OptionKind::SkillLevel => match i32_value(value) {
            Some(v) => (EngineOptions { skill: clamp_spec(v, 0, 20) as i32, ..o }, OptionEffect::Nothing),
            None => (o, OptionEffect::Nothing),
        },
        OptionKind::LimitStrength => (EngineOptions { limit_strength: is_true(value), ..o }, OptionEffect::Nothing),
        OptionKind::UciElo => match i32_value(value) {
            Some(v) => (EngineOptions { uci_elo: clamp_spec(v, 1320, 3190) as i32, ..o }, OptionEffect::Nothing),
            None => (o, OptionEffect::Nothing),
        },
        OptionKind::EvalFile => (o, OptionEffect::EvalFile),
        OptionKind::UseNnue => (EngineOptions { use_nnue: is_true(value), ..o }, OptionEffect::Nothing),
        OptionKind::DebugLogFile => (o, OptionEffect::DebugLog),
        OptionKind::Other => match i32_value(value) {
            Some(v) => match param_of(key) {
                Some(p) => (EngineOptions { tunables: with_spec(o.tunables, p, v as i32), ..o }, OptionEffect::Nothing),
                None => (o, OptionEffect::Nothing),
            },
            None => (o, OptionEffect::Nothing),
        },
    }
}

fn is_true_bytes(v: &[u8]) -> (r: bool)
    ensures
        r == is_true(v@),
{
    let t: [u8; 4] = [116, 114, 117, 101];
    if v.len() != 4 {
        proof {
            assert(v@.map_values(|c: u8| lower_byte(c)).len() != 4);
        }
        return false;
    }
    let mut i: usize = 0;
    while i < 4
        invariant
            v@.len() == 4,
            i <= 4,
            t@ == seq![116u8, 114, 117, 101],
            forall|k: int| 0 <= k < i ==> lower_byte(#[trigger] v@[k]) == t@[k],
        decreases 4 - i,
    {
        let c = v[i];
        let lc = if 65 <= c && c <= 90 {
            c + 32
        } else {
            c
        };
        if lc != t[i] {
            proof {
                assert(v@.map_values(|c: u8| lower_byte(c))[i as int] != t@[i as int]);
            }
            return false;
        }
        i += 1;
    }
    proof {
        assert(v@.map_values(|c: u8| lower_byte(c)) =~= seq![116u8, 114, 117, 101]);
    }
    true
}

fn clamp_u64(v: u64, lo: u64, hi: u64) -> (r: u64)
    requires
        lo <= hi,
    ensures
        r == clamp_spec(v as int, lo as int, hi as int),
{
    if v < lo {
        lo
    } else if v > hi {
        hi
    } else {
        v
    }
}

fn clamp_i32(v: i32, lo: i32, hi: i32) -> (r: i32)
    requires
        lo <= hi,
    ensures
        r == clamp_spec(v as int, lo as int, hi as int),
{
    if v < lo {
        lo
    } else if v > hi {
        hi
    } else {
        v
    }
}

impl EngineOptions {
    /// The defaults the engine starts with.
    pub fn new() -> (r: EngineOptions)
        ensures
            r.move_overhead == 0 && r.threads == 1 && r.multipv == 1 && !r.show_wdl
                && !r.ponder_enabled && r.nodestime == 0 && r.skill == 20 && !r.limit_strength
                && r.uci_elo == 1320 && r.use_nnue && r.tunables == default_spec(),
    {
        EngineOptions {
            move_overhead: 0,
            threads: 1,
            multipv: 1,
            show_wdl: false,
            ponder_enabled: false,
            nodestime: 0,
            skill: 20,
            limit_strength: false,
            uci_elo: 1320,
            use_nnue: true,
            tunables: Tunables::new(),
        }
    }

    /// Apply `setoption` with lower-case name `key` and value `value`.
    pub fn apply(&mut self, key: &[u8], value: &[u8]) -> (r: OptionEffect)
        ensures
            (*final(self), r) == apply_spec(*old(self), key@, value@),
    {
        match option_kind_of(key) {
            OptionKind::Hash => match parse_unsigned(value, usize::MAX as u64) {
                Some(v) => OptionEffect::ResizeHash(clamp_u64(v, 1, 4096) as usize),
                None => OptionEffect::Nothing,
            },
            OptionKind::ClearHash => OptionEffect::ClearHash,
            OptionKind::Threads => {
                match parse_unsigned(value, usize::MAX as u64) {
                    Some(v) => {
                        self.threads = clamp_u64(v, 1, 32) as usize;
                    },
                    None => {},
                }
                OptionEffect::Nothing
            },
            OptionKind::MultiPv => {
                match parse_unsigned(value, usize::MAX as u64) {
                    Some(v) => {
                        self.multipv = clamp_u64(v, 1, 256) as usize;
                    },
                    None => {},
                }
                OptionEffect::Nothing
            },
            OptionKind::Ponder => {
                self.ponder_enabled = is_true_bytes(value);
                OptionEffect::Nothing
            },
            OptionKind::MoveOverhead | OptionKind::MoveOverheadOld => {
                match parse_unsigned(value, u64::MAX) {
                    Some(v) => {
                        self.move_overhead = clamp_u64(v, 0, 5000);
                    },
                    None => {},
                }
                OptionEffect::Nothing
            },
            OptionKind::NodesTime => {
                match parse_unsigned(value, u64::MAX) {
                    Some(v) => {
                        self.nodestime = clamp_u64(v, 0, 10000);
                    },
                    None => {},
                }
                OptionEffect::Nothing
            },
            OptionKind::ShowWdl => {
                self.show_wdl = is_true_bytes(value);
                OptionEffect::Nothing
            },
            OptionKind::SkillLevel => {
                match parse_i32(value) {
                    Some(v) => {
                        self.skill = clamp_i32(v, 0, 20);
                    },
                    None => {},
                }
                OptionEffect::Nothing
            },
            OptionKind::LimitStrength => {
                self.limit_strength = is_true_bytes(value);
                OptionEffect::Nothing
            },
            OptionKind::UciElo => {
                match parse_i32(value) {
                    Some(v) => {
                        self.uci_elo = clamp_i32(v, 1320, 3190);
                    },
                    None => {},
                }
                OptionEffect::Nothing
            },
            OptionKind::EvalFile => OptionEffect::EvalFile,
            OptionKind::UseNnue => {
                self.use_nnue = is_true_bytes(value);
                OptionEffect::Nothing
            },
            OptionKind::DebugLogFile => OptionEffect::DebugLog,
            OptionKind::Other => {
                // runtime-tunable search parameters (no-op if the id is unknown)
                match parse_i32(value) {
                    Some(v) => match lookup_bytes(key) {
                        Some(Param::LmrBase) => {
                            self.tunables.lmr_base = v;
                        },
                        Some(Param::LmrDiv) => {
                            self.tunables.lmr_div = v;
                        },
                        Some(Param::RfpMargin) => {
                            self.tunables.rfp_margin = v;
                        },
                        Some(Param::FutBase) => {
                            self.tunables.fut_base = v;
                        },
                        Some(Param::FutScale) => {
                            self.tunables.fut_scale = v;
                        },
                        Some(Param::SeMargin) => {
                            self.tunables.se_margin = v;
                        },
                        None => {},
                    },
                    None => {},
                }
                OptionEffect::Nothing
            },
        }
    }

    /// Skill 0..=20: with UCI_LimitStrength, UCI_Elo mapped linearly from
    /// [1320, 3190] onto [0, 20] and rounded to nearest; otherwise the Skill
    /// Level option.
    pub fn effective_skill(&self) -> (r: i32)
        requires
            1320 <= self.uci_elo <= 3190,
        ensures
            self.limit_strength ==> r == ((self.uci_elo - 1320) * 40 + 1870) / 3740,
            !self.limit_strength ==> r == self.skill,
    {
        if self.limit_strength {
            // round((elo - 1320) * 20 / 1870); the quotient is never exactly
            // half-way, so rounding half up is exact
            (self.uci_elo - 1320) * 40 / 3740 + if ((self.uci_elo - 1320) * 40) % 3740 >= 1870 {
                1
            } else {
                0
            }
        } else {
            self.skill
        }
    }
}

// ---------------------------------------------------------------------------
// Ponder budget and move lookup
// ---------------------------------------------------------------------------
/// The divisor of the clock: moves to go clamped to 1..=50, else 25.
pub open spec fn time_div(l: Limits) -> u64 {
    match l.movestogo {
        Some(m) => clamp_spec(m as int, 1, 50) as u64,
        None => 25,
    }
}

pub open spec fn ponder_alloc(l: Limits) -> int {
    (usable_time(opt_or(l.time, 0), l.overhead) as int) / (time_div(l) as int) + opt_or(l.inc, 0) / 2
}

/// The soft budget a timed search would use, installed on `ponderhit`.
pub open spec fn ponder_budget_spec(l: Limits) -> u64 {
    match l.movetime {
        Some(mt) => sat_sub(mt, l.overhead),
        None => match l.time {
            Some(t0) => {
                let t = usable_time(t0, l.overhead);
                let a = ponder_alloc(l);
                let h = if 3 * a <= t / 3 {
                    3 * a
                } else {
                    (t / 3) as int
                };
                (if h >= 1 {
                    h
                } else {
                    1
                }) as u64
            },
            None => u64::MAX,
        },
    }
}

pub fn ponder_budget(l: &Limits) -> (r: u64)
    requires
        l.movetime is Some || l.time is None || 3 * ponder_alloc(*l) <= u64::MAX,
    ensures
        r == ponder_budget_spec(*l),
{
    match l.movetime {
        Some(mt) => mt.saturating_sub(l.overhead),
        None => match l.time {
            Some(t0) => {
                let inc = match l.inc {
                    Some(i) => i,
                    None => 0,
                };
                let t1 = t0.saturating_sub(l.overhead);
                let t = if t1 >= 1 {
                    t1
                } else {
                    1
                };
                let div: u64 = match l.movestogo {
                    Some(m) => clamp_u64(m, 1, 50),
                    None => 25,
                };
                let alloc = t / div + inc / 2;
                let h = if 3 * alloc <= t / 3 {
                    3 * alloc
                } else {
                    t / 3
                };
                if h >= 1 {
                    h
                } else {
                    1
                }
            },
            None => u64::MAX,
        },
    }
}

/// Character-wise equality of two strings.
fn str_eq(a: &str, b: &str) -> (r: bool)
    ensures
        r == (a@ == b@),
{
    let n = a.unicode_len();
    if n != b.unicode_len() {
        return false;
    }
    let mut i: usize = 0;
    while i < n
        invariant
            n == a@.len(),
            n == b@.len(),
            i <= n,
            forall|k: int| 0 <= k < i ==> a@[k] == b@[k],
        decreases n - i,
    {
        if a.get_char(i) != b.get_char(i) {
            return false;
        }
        i += 1;
    }
    proof {
        assert(a@ =~= b@);
    }
    true
}

/// The legal move of `pos` written `s` in UCI notation, if any (the first in
/// generation order): `None` exactly when no listed move is written `s`.
pub fn find_uci_move(pos: &Position, s: &str) -> (r: Option<Move>)
    requires
        pos.wf(),
    ensures
        r matches Some(m) ==> pos.move_ok(m) && listed(*pos, m, false) && uci_spec(m) == s@,
        r is None ==> forall|m: Move| #[trigger] listed(*pos, m, false) ==> uci_spec(m) != s@,
{
    let mut list = MoveList::new();
    generate_moves(pos, &mut list);
    proof {
        assert(list.moves@.subrange(0, 0) =~= Seq::<Move>::empty());
    }
    let n = list.len();
    let mut i: usize = 0;
    while i < n
        invariant
            pos.wf(),
            n == list.moves@.len(),
            i <= n,
            forall|k: int| 0 <= k < n ==> crate::movegen::playable(*pos, #[trigger] list.moves@[k]),
            forall|k: int| 0 <= k < n ==> listed(*pos, #[trigger] list.moves@[k], false),
            forall|k: int| 0 <= k < i ==> uci_spec(#[trigger] list.moves@[k]) != s@,
            generated(*pos, Seq::empty(), list.moves@, false),
        decreases n - i,
    {
        let mv = list.get(i);
        let name = mv.to_uci();
        if str_eq(name.as_str(), s) {
            proof {
                lemma_playable(*pos, mv);
            }
            return Some(mv);
        }
        i += 1;
    }
    proof {
        assert forall|m: Move| #[trigger] listed(*pos, m, false) implies uci_spec(m) != s@ by {
            lemma_listed_generated(*pos, list.moves@, m);
            let k = choose|k: int| 0 <= k < list.moves@.len() && list.moves@[k] == m;
            assert(uci_spec(list.moves@[k]) != s@);
        }
    }
    None
}

} // verus!
