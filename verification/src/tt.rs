//! Transposition table: fixed-size, multiply-shift indexing, single slot per
//! index, depth-preferred replacement. Each slot is one `u64` packing
//! [mv:16 | score:16 | depth:8 | bound:8 | keycheck:16]; a never-written slot
//! is 0, and every stored entry has depth >= 1, so 0 marks an empty slot.

use crate::eval::{MATE_BOUND, Score};
use crate::types::Move;
use vstd::prelude::*;

verus! {

pub const BOUND_EXACT: u8 = 0;

pub const BOUND_LOWER: u8 = 1;  // score >= beta (fail high)

pub const BOUND_UPPER: u8 = 2;  // score <= alpha (fail low)

/// Unpacked entry returned by `probe`.
#[derive(Copy, Clone)]
pub struct TtEntry {
    pub key: u64,
    pub mv: u16,
    pub score: i16,
    pub depth: u8,
    pub bound: u8,
}

/// 16-bit key check: the low bits of the key, which the multiply-shift index
/// (dominated by the high bits) barely uses.
pub open spec fn keycheck_spec(key: u64) -> u16 {
    (key % 0x1_0000) as u16
}

fn keycheck(key: u64) -> (r: u16)
    ensures
        r == keycheck_spec(key),
{
    proof {
        assert(key as u16 == (key % 0x1_0000) as u16) by (bit_vector);
    }
    key as u16
}

pub open spec fn pack_spec(kc: u16, mv: u16, score: i16, depth: u8, bound: u8) -> u64 {
    (mv as u64) | ((score as u16 as u64) << 16) | ((depth as u64) << 32) | ((bound as u64) << 40)
        | ((kc as u64) << 48)
}

pub open spec fn unpack_spec(d: u64) -> (u16, u16, i16, u8, u8) {
    ((d >> 48) as u16, d as u16, (d >> 16) as u16 as i16, (d >> 32) as u8, (d >> 40) as u8)
}

fn pack(kc: u16, mv: u16, score: i16, depth: u8, bound: u8) -> (r: u64)
    ensures
        r == pack_spec(kc, mv, score, depth, bound),
{
    (mv as u64) | ((score as u16 as u64) << 16) | ((depth as u64) << 32) | ((bound as u64) << 40)
        | ((kc as u64) << 48)
}

/// Returns (keycheck, mv, score, depth, bound).
fn unpack(d: u64) -> (r: (u16, u16, i16, u8, u8))
    ensures
        r == unpack_spec(d),
{
    ((d >> 48) as u16, d as u16, (d >> 16) as u16 as i16, (d >> 32) as u8, (d >> 40) as u8)
}

/// Unpacking a packed slot gives back every field.
pub proof fn lemma_pack_unpack(kc: u16, mv: u16, score: i16, depth: u8, bound: u8)
    ensures
        unpack_spec(pack_spec(kc, mv, score, depth, bound)) == (kc, mv, score, depth, bound),
        depth >= 1 ==> pack_spec(kc, mv, score, depth, bound) != 0,
{
    let s = score as u16;
    let d = pack_spec(kc, mv, score, depth, bound);
    assert(d == (mv as u64) | ((s as u64) << 16) | ((depth as u64) << 32) | ((bound as u64) << 40)
        | ((kc as u64) << 48));
    let x = (mv as u64) | ((s as u64) << 16) | ((depth as u64) << 32) | ((bound as u64) << 40) | ((
    kc as u64) << 48);
    assert(s == score as u16 && x == (mv as u64) | ((s as u64) << 16) | ((depth as u64) << 32) | ((
    bound as u64) << 40) | ((kc as u64) << 48) ==> ((x >> 48) as u16 == kc && x as u16 == mv && (x
        >> 16) as u16 == s && (x >> 32) as u8 == depth && (x >> 40) as u8 == bound && (depth >= 1
        ==> x != 0) && (score as u16) as i16 == score)) by (bit_vector);
}

pub struct Tt {
    slots: Vec<u64>,
}

/// Slot index of `key` in a table of `n` slots (multiply-shift).
pub open spec fn index_spec(key: u64, n: int) -> int {
    (key as int * n) / 0x1_0000_0000_0000_0000
}

/// What `probe` reports for slot contents `d` and `key`.
pub open spec fn probe_spec(d: u64, key: u64) -> Option<TtEntry> {
    if d != 0 && unpack_spec(d).0 == keycheck_spec(key) {
        let (kc, mv, score, depth, bound) = unpack_spec(d);
        Some(TtEntry { key, mv, score, depth, bound })
    } else {
        None
    }
}

/// A probe answers only for its own key: an entry comes back only when the
/// slot is filled and its top 16 bits equal the probed key's low 16 bits.
pub proof fn law_probe_checks_key(d: u64, key: u64)
    ensures
        probe_spec(d, key) is Some ==> d != 0 && (d >> 48) as u16 == (key % 0x1_0000) as u16,
        probe_spec(d, key) matches Some(e) ==> e.key == key,
{
}

/// A slot written for one key answers no key with other low 16 bits: after
/// a store for `k1`, probing `k2` in the same slot finds nothing.
pub proof fn law_store_other_key(d: u64, k1: u64, k2: u64, mv: u16, score: Score, depth: u32, bound: u8)
    requires
        k1 % 0x1_0000 != k2 % 0x1_0000,
    ensures
        match store_spec(d, k1, mv, score, depth, bound) {
            Some(v) => probe_spec(v, k2) is None,
            None => true,
        },
{
    match store_spec(d, k1, mv, score, depth, bound) {
        Some(v) => {
            let kc = keycheck_spec(k1);
            let same = d != 0 && unpack_spec(d).0 == kc;
            let mv2 = if same && mv == 0 {
                unpack_spec(d).1
            } else {
                mv
            };
            lemma_pack_unpack(kc, mv2, score as i16, depth as u8, bound);
            assert(unpack_spec(v).0 == kc);
        },
        None => {},
    }
}

/// The slot value `store` writes over old contents `d`, or `None` when it
/// keeps the old entry.
pub open spec fn store_spec(d: u64, key: u64, mv: u16, score: Score, depth: u32, bound: u8) -> Option<u64> {
    let kc = keycheck_spec(key);
    let same = d != 0 && unpack_spec(d).0 == kc;
    if same && unpack_spec(d).3 as u32 > depth && bound != BOUND_EXACT {
        None
    } else {
        let mv2 = if same && mv == 0 {
            unpack_spec(d).1
        } else {
            mv
        };
        Some(pack_spec(kc, mv2, score as i16, depth as u8, bound))
    }
}

impl Tt {
    pub closed spec fn len_spec(&self) -> int {
        self.slots@.len() as int
    }

    /// The raw slot contents.
    pub closed spec fn slots_spec(&self) -> Seq<u64> {
        self.slots@
    }

    /// The slot sequence has the table's length, and a well-formed table has
    /// a slot, in which every key has its index.
    pub proof fn lemma_shape(&self, key: u64)
        ensures
            self.slots_spec().len() == self.len_spec(),
            self.wf() ==> self.len_spec() > 0,
            self.wf() ==> 0 <= index_spec(key, self.len_spec()) < self.len_spec(),
    {
        if self.wf() {
            let n = self.len_spec();
            let m: int = 0x1_0000_0000_0000_0000;
            assert(key as int * n < m * n) by (nonlinear_arith)
                requires
                    key < m,
                    n > 0,
            ;
            assert(0 <= (key as int * n) / m < n) by (nonlinear_arith)
                requires
                    key as int * n < m * n,
                    key >= 0,
                    n > 0,
            ;
        }
    }

    pub closed spec fn wf(&self) -> bool {
        0 < self.slots@.len()
    }

    /// Slot count for a table of `mb` megabytes (8 bytes per slot).
    pub open spec fn slots_for(mb: int) -> int {
        (if mb < 1 {
            1
        } else {
            mb
        }) * 131072
    }

    pub fn new(mb: usize) -> (r: Tt)
        requires
            mb <= usize::MAX / 1048576,
        ensures
            r.wf(),
            r.len_spec() == Self::slots_for(mb as int),
            forall|i: int| 0 <= i < r.len_spec() ==> #[trigger] r.slots_spec()[i] == 0,
    {
        let mut tt = Tt { slots: Vec::new() };
        tt.resize(mb);
        tt
    }

    /// Reallocate to `mb` megabytes; all entries are cleared.
    pub fn resize(&mut self, mb: usize)
        requires
            mb <= usize::MAX / 1048576,
        ensures
            final(self).wf(),
            final(self).len_spec() == Self::slots_for(mb as int),
            forall|i: int| 0 <= i < final(self).len_spec() ==> #[trigger] final(self).slots_spec()[i] == 0,
    {
        let m = if mb < 1 {
            1
        } else {
            mb
        };
        let n = m * 131072;
        let mut v: Vec<u64> = Vec::new();
        let mut i: usize = 0;
        while i < n
            invariant
                0 <= i <= n,
                v@.len() == i,
                forall|j: int| 0 <= j < i ==> #[trigger] v@[j] == 0,
            decreases n - i,
        {
            v.push(0);
            i += 1;
        }
        self.slots = v;
    }

    /// Wipe all entries.
    pub fn clear(&mut self)
        ensures
            final(self).len_spec() == old(self).len_spec(),
            forall|i: int| 0 <= i < final(self).len_spec() ==> #[trigger] final(self).slots_spec()[i] == 0,
            old(self).wf() ==> final(self).wf(),
            forall|n: int| n <= final(self).len_spec() ==> #[trigger] Self::filled(final(self).slots_spec(), n) == 0,
    {
        let n = self.slots.len();
        let mut i: usize = 0;
        while i < n
            invariant
                0 <= i <= n,
                n == self.slots@.len(),
                n == old(self).slots@.len(),
                forall|j: int| 0 <= j < i ==> #[trigger] self.slots@[j] == 0,
            decreases n - i,
        {
            self.slots[i] = 0;
            i += 1;
        }
        proof {
            assert forall|n: int| n <= self.len_spec() implies #[trigger] Self::filled(self.slots_spec(), n) == 0 by {
                Self::lemma_filled_empty(self.slots_spec(), n);
            }
        }
    }

    /// Number of filled slots among the first `n`.
    pub open spec fn filled(slots: Seq<u64>, n: int) -> int
        decreases n,
    {
        if n <= 0 {
            0
        } else {
            Self::filled(slots, n - 1) + if slots[n - 1] != 0 {
                1int
            } else {
                0int
            }
        }
    }

    /// Empty slots count as nothing: a cleared table reads as empty.
    pub proof fn lemma_filled_empty(slots: Seq<u64>, n: int)
        requires
            n <= slots.len(),
            forall|i: int| 0 <= i < slots.len() ==> #[trigger] slots[i] == 0,
        ensures
            Self::filled(slots, n) == 0,
        decreases n,
    {
        if n > 0 {
            Self::lemma_filled_empty(slots, n - 1);
        }
    }

    /// TT fill estimate in permille (0..1000), for `info hashfull`: the share
    /// of filled slots among the first min(1000, len).
    pub fn hashfull(&self) -> (r: u32)
        requires
            self.wf(),
        ensures
            ({
                let n = if self.len_spec() < 1000 {
                    self.len_spec()
                } else {
                    1000
                };
                r == Self::filled(self.slots_spec(), n) * 1000 / n
            }),
            r <= 1000,
    {
        let n = if self.slots.len() < 1000 {
            self.slots.len()
        } else {
            1000
        };
        let mut filled: usize = 0;
        let mut i: usize = 0;
        while i < n
            invariant
                0 <= i <= n,
                n <= self.slots@.len(),
                filled == Self::filled(self.slots@, i as int),
                filled <= i,
            decreases n - i,
        {
            if self.slots[i] != 0 {
                filled += 1;
            }
            i += 1;
        }
        proof {
            assert(filled * 1000 / (n as int) <= 1000) by (nonlinear_arith)
                requires
                    filled <= n,
                    n > 0,
            ;
        }
        (filled * 1000 / n) as u32
    }

    fn index(&self, key: u64) -> (r: usize)
        requires
            self.wf(),
        ensures
            r == index_spec(key, self.len_spec()),
            r < self.len_spec(),
    {
        let n = self.slots.len();
        proof {
            let m: int = 0x1_0000_0000_0000_0000;
            assert(key as int * n < m * n) by (nonlinear_arith)
                requires
                    key < m,
                    n > 0,
            ;
            assert((key as int * n) / m < n) by (nonlinear_arith)
                requires
                    key as int * n < m * n,
                    n > 0,
            ;
            assert(key as int * n <= 0xffff_ffff_ffff_ffff * 0xffff_ffff_ffff_ffff) by (nonlinear_arith)
                requires
                    key <= 0xffff_ffff_ffff_ffff,
                    n <= 0xffff_ffff_ffff_ffff,
            ;
        }
        let p: u128 = key as u128 * n as u128;
        proof {
            assert(p >> 64 == p / 0x1_0000_0000_0000_0000) by (bit_vector);
        }
        (p >> 64) as usize
    }

    pub fn probe(&self, key: u64) -> (r: Option<TtEntry>)
        requires
            self.wf(),
        ensures
            r == probe_spec(self.slots_spec()[index_spec(key, self.len_spec())], key),
            r is Some ==> (self.slots_spec()[index_spec(key, self.len_spec())] >> 48) as u16 == (key
                % 0x1_0000) as u16,
    {
        proof {
            self.lemma_shape(key);
            law_probe_checks_key(self.slots_spec()[index_spec(key, self.len_spec())], key);
        }
        let d = self.slots[self.index(key)];
        if d != 0 {
            let (kc, mv, score, depth, bound) = unpack(d);
            if kc == keycheck(key) {
                return Some(TtEntry { key, mv, score, depth, bound });
            }
        }
        None
    }

    /// The stored move for `key`, or the null move.
    pub fn probe_move(&self, key: u64) -> (r: Move)
        requires
            self.wf(),
        ensures
            r == (match probe_spec(self.slots_spec()[index_spec(key, self.len_spec())], key) {
                Some(e) => Move(e.mv),
                None => Move(0),
            }),
    {
        match self.probe(key) {
            Some(e) => Move(e.mv),
            None => Move(0),
        }
    }

    /// Keep deeper data for the same position unless a new exact bound
    /// arrives; keep the old move when the new store has none.
    pub fn store(&mut self, key: u64, mv: Move, score: Score, depth: u32, bound: u8)
        requires
            old(self).wf(),
        ensures
            final(self).wf(),
            final(self).len_spec() == old(self).len_spec(),
            ({
                let i = index_spec(key, old(self).len_spec());
                let d = old(self).slots_spec()[i];
                match store_spec(d, key, mv.0, score, depth, bound) {
                    Some(v) => final(self).slots_spec() == old(self).slots_spec().update(i, v),
                    None => final(self).slots_spec() == old(self).slots_spec(),
                }
            }),
    {
        let kc = keycheck(key);
        let i = self.index(key);
        let d = self.slots[i];
        let same = d != 0 && unpack(d).0 == kc;
        // keep deeper data for the same position unless we bring a new exact bound
        let m = if same {
            let (_, omv, _, odepth, _) = unpack(d);
            if odepth as u32 > depth && bound != BOUND_EXACT {
                return;
            }
            // preserve the old move if the new store has none
            if mv.0 == 0 {
                omv
            } else {
                mv.0
            }
        } else {
            mv.0
        };
        self.slots[i] = pack(kc, m, score as i16, depth as u8, bound);
    }
}

/// A store followed by a probe of the same key returns what was stored
/// (move, truncated score, depth and bound), unless the store kept a deeper
/// entry for the same position; a kept move stands in for a null move.
pub proof fn lemma_store_then_probe(
    d: u64,
    key: u64,
    mv: u16,
    score: Score,
    depth: u32,
    bound: u8,
)
    requires
        1 <= depth < 256,
    ensures
        match store_spec(d, key, mv, score, depth, bound) {
            Some(v) => probe_spec(v, key) matches Some(e) && e.score == score as i16 && e.depth
                == depth as u8 && e.bound == bound && (mv != 0 ==> e.mv == mv),
            None => probe_spec(d, key) is Some,
        },
{
    let kc = keycheck_spec(key);
    let same = d != 0 && unpack_spec(d).0 == kc;
    let mv2 = if same && mv == 0 {
        unpack_spec(d).1
    } else {
        mv
    };
    lemma_pack_unpack(kc, mv2, score as i16, depth as u8, bound);
}

/// Mate scores are ply-relative at the node; make them root-relative for
/// storage and back again on probe.
pub open spec fn score_to_tt_spec(s: int, ply: int) -> int {
    if s >= MATE_BOUND {
        s + ply
    } else if s <= -MATE_BOUND {
        s - ply
    } else {
        s
    }
}

pub open spec fn score_from_tt_spec(s: int, ply: int) -> int {
    if s >= MATE_BOUND {
        s - ply
    } else if s <= -MATE_BOUND {
        s + ply
    } else {
        s
    }
}

pub fn score_to_tt(s: Score, ply: usize) -> (r: Score)
    requires
        ply <= i32::MAX,
        s >= MATE_BOUND ==> s + ply <= i32::MAX,
        s <= -MATE_BOUND ==> s - ply >= i32::MIN,
    ensures
        r == score_to_tt_spec(s as int, ply as int),
{
    if s >= MATE_BOUND {
        s + ply as Score
    } else if s <= -MATE_BOUND {
        s - ply as Score
    } else {
        s
    }
}

pub fn score_from_tt(s: Score, ply: usize) -> (r: Score)
    requires
        ply <= i32::MAX,
        s >= MATE_BOUND ==> s - ply >= i32::MIN,
        s <= -MATE_BOUND ==> s + ply <= i32::MAX,
    ensures
        r == score_from_tt_spec(s as int, ply as int),
{
    if s >= MATE_BOUND {
        s - ply as Score
    } else if s <= -MATE_BOUND {
        s + ply as Score
    } else {
        s
    }
}

/// Reading back a stored score at the same ply gives the original score.
pub proof fn lemma_score_tt_roundtrip(s: int, ply: int)
    requires
        0 <= ply,
    ensures
        score_from_tt_spec(score_to_tt_spec(s, ply), ply) == s,
{
}

} // verus!
