//! Table-driven slider attacks: for each square, the occupancy bits on the
//! square's rays are packed into an index (parallel bit extract, PEXT) that
//! selects a precomputed attack set. The tables are built once from the ray
//! walk and hold, for every index, the attacks of the occupancy that the
//! index deposits back onto the rays.

use crate::bitboard::{
    BISHOP_DELTAS, ROOK_DELTAS, between, between_spec, line_through, line_through_spec, ray_past, ray_past_spec, bb,
    bb_spec, bishop_deltas, bishop_spec, group_bits, in_bb, lemma_bits_ext,
    lemma_clear_lsb, lemma_lsb, lemma_popcount_bound, lsb, lsb_spec, popcount, popcount_spec, ray_spec,
    rook_deltas, rook_spec, slider_attacks_slow, slider_spec,
};
use crate::types::{Square, file_spec, rank_spec};
use vstd::arithmetic::power2::{lemma2_to64, lemma2_to64_rest, lemma_pow2_pos, lemma_pow2_strictly_increases, lemma_pow2_unfold, pow2};
use vstd::prelude::*;

verus! {

/// The bits of `val`, lowest first, placed on the members of `mask`, lowest
/// first: the k-th member of `mask` is set exactly when bit k of `val` is.
pub open spec fn deposit_spec(val: u64, mask: u64) -> u64
    decreases mask,
{
    if mask == 0 {
        0
    } else {
        proof {
            lemma_clear_lsb(mask);
        }
        (if val & 1 == 1 {
            bb_spec(lsb_spec(mask))
        } else {
            0
        }) | deposit_spec(val >> 1, mask & ((mask - 1) as u64))
    }
}

/// The members of `mask` that `occ` holds, packed into the low bits, lowest
/// member first.
pub open spec fn pext_spec(occ: u64, mask: u64) -> u64
    decreases mask,
{
    if mask == 0 {
        0
    } else {
        proof {
            lemma_clear_lsb(mask);
        }
        (pext_spec(occ, mask & ((mask - 1) as u64)) << 1) | (if in_bb(occ, lsb_spec(mask)) {
            1u64
        } else {
            0u64
        })
    }
}

/// Shifting a bit in below a value with a clear top bit.
proof fn lemma_shift_in(hi: u64, b: u64)
    by (bit_vector)
    requires
        hi < 0x8000_0000_0000_0000u64,
        b <= 1,
    ensures
        ((hi << 1) | b) as int == hi * 2 + b,
        ((hi << 1) | b) & 1 == b,
        ((hi << 1) | b) >> 1 == hi,
{
}

/// An extracted index has one bit per member of the mask.
pub proof fn lemma_pext_bound(occ: u64, mask: u64)
    ensures
        (pext_spec(occ, mask) as int) < pow2(popcount_spec(mask)),
    decreases mask,
{
    lemma_popcount_bound(mask);
    if mask == 0 {
        lemma2_to64();
    } else {
        lemma_clear_lsb(mask);
        let rest = mask & ((mask - 1) as u64);
        lemma_pext_bound(occ, rest);
        let hi = pext_spec(occ, rest);
        let c = popcount_spec(rest);
        lemma_pow2_unfold(popcount_spec(mask));
        lemma2_to64();
        lemma2_to64_rest();
        assert(c <= 63);
        if c < 63 {
            lemma_pow2_strictly_increases(c, 63);
        }
        assert(hi < 0x8000_0000_0000_0000u64);
        let b: u64 = if in_bb(occ, lsb_spec(mask)) {
            1
        } else {
            0
        };
        lemma_shift_in(hi, b);
    }
}

/// Depositing an extracted index gives back the occupancy on the mask.
pub proof fn lemma_deposit_pext(occ: u64, mask: u64)
    ensures
        deposit_spec(pext_spec(occ, mask), mask) == occ & mask,
    decreases mask,
{
    broadcast use group_bits;

    if mask == 0 {
        lemma_bits_ext(0, occ & mask);
    } else {
        lemma_clear_lsb(mask);
        lemma_lsb(mask);
        lemma_popcount_bound(mask);
        let s = lsb_spec(mask);
        let rest = mask & ((mask - 1) as u64);
        lemma_deposit_pext(occ, rest);
        lemma_pext_bound(occ, rest);
        lemma2_to64();
        let c = popcount_spec(rest);
        lemma2_to64_rest();
        assert(c <= 63);
        if c < 63 {
            lemma_pow2_strictly_increases(c, 63);
        }
        let hi = pext_spec(occ, rest);
        assert(hi < 0x8000_0000_0000_0000u64);
        let b: u64 = if in_bb(occ, s) {
            1
        } else {
            0
        };
        let v = (hi << 1) | b;
        lemma_shift_in(hi, b);
        assert(v == pext_spec(occ, mask));
        let lo = if v & 1 == 1 {
            bb_spec(s)
        } else {
            0
        };
        assert(deposit_spec(v, mask) == lo | (occ & rest));
        assert forall|t: int| 0 <= t < 64 implies in_bb(lo | (occ & rest), t) == in_bb(occ & mask, t) by {
            if v & 1 == 1 {
                crate::bitboard::lemma_has_bit(s as u64, t);
            }
        }
        lemma_bits_ext(lo | (occ & rest), occ & mask);
    }
}

/// A ray walk reads the occupancy only on the squares of the empty-board
/// ray, so any mask holding those squares can be applied first.
proof fn lemma_ray_masked(f: int, r: int, df: int, dr: int, occ: u64, m: u64, fuel: nat)
    requires
        forall|t: int| #[trigger] in_bb(ray_spec(f, r, df, dr, 0, fuel), t) ==> in_bb(m, t),
    ensures
        ray_spec(f, r, df, dr, occ, fuel) == ray_spec(f, r, df, dr, occ & m, fuel),
    decreases fuel,
{
    broadcast use group_bits;

    if fuel > 0 {
        let nf = f + df;
        let nr = r + dr;
        if 0 <= nf < 8 && 0 <= nr < 8 {
            let s = nr * 8 + nf;
            crate::bitboard::lemma_has_bit(s as u64, s);
            assert(in_bb(ray_spec(f, r, df, dr, 0, fuel), s));
            assert forall|t: int| #[trigger] in_bb(ray_spec(nf, nr, df, dr, 0, (fuel - 1) as nat), t) implies in_bb(
                m,
                t,
            ) by {
                assert(in_bb(ray_spec(f, r, df, dr, 0, fuel), t));
            }
            lemma_ray_masked(nf, nr, df, dr, occ, m, (fuel - 1) as nat);
        }
    }
}

/// The same for a union of rays.
proof fn lemma_slider_masked(sq: int, occ: u64, d: Seq<(i8, i8)>, n: int, m: u64)
    requires
        forall|t: int| #[trigger] in_bb(slider_spec(sq, 0, d, n), t) ==> in_bb(m, t),
    ensures
        slider_spec(sq, occ, d, n) == slider_spec(sq, occ & m, d, n),
    decreases n,
{
    broadcast use group_bits;

    if n > 0 {
        let ry = ray_spec(file_spec(sq), rank_spec(sq), d[n - 1].0 as int, d[n - 1].1 as int, 0, 8);
        assert forall|t: int| #[trigger] in_bb(slider_spec(sq, 0, d, n - 1), t) implies in_bb(m, t) by {
            assert(in_bb(slider_spec(sq, 0, d, n), t));
        }
        assert forall|t: int| #[trigger] in_bb(ry, t) implies in_bb(m, t) by {
            assert(in_bb(slider_spec(sq, 0, d, n), t));
        }
        lemma_slider_masked(sq, occ, d, n - 1, m);
        lemma_ray_masked(file_spec(sq), rank_spec(sq), d[n - 1].0 as int, d[n - 1].1 as int, occ, m, 8);
    }
}

/// Deposit the bits of `val` on the members of `mask`.
pub fn deposit_bits(val: u64, mask: u64) -> (r: u64)
    ensures
        r == deposit_spec(val, mask),
    decreases mask,
{
    if mask == 0 {
        return 0;
    }
    proof {
        lemma_clear_lsb(mask);
    }
    let s = lsb(mask);
    let rest = mask & (mask - 1);
    let lo = if val & 1 == 1 {
        bb(s)
    } else {
        0
    };
    lo | deposit_bits(val >> 1, rest)
}

/// Extract the bits of `val` on the members of `mask`, packed low.
pub fn pext(val: u64, mask: u64) -> (r: u64)
    ensures
        r == pext_spec(val, mask),
        deposit_spec(r, mask) == val & mask,
        (r as int) < pow2(popcount_spec(mask)),
    decreases mask,
{
    proof {
        lemma_deposit_pext(val, mask);
        lemma_pext_bound(val, mask);
    }
    if mask == 0 {
        return 0;
    }
    proof {
        lemma_clear_lsb(mask);
    }
    let s = lsb(mask);
    let rest = mask & (mask - 1);
    let hi = pext(val, rest);
    let b: u64 = if (val >> s) & 1 == 1 {
        1
    } else {
        0
    };
    (hi << 1) | b
}

/// Attack tables of one slider kind: per square its ray mask on the empty
/// board and the attacks for every index the mask can extract.
pub struct PextTable {
    pub deltas: Vec<(i8, i8)>,
    pub masks: Vec<u64>,
    pub attacks: Vec<Vec<u64>>,
}

impl PextTable {
    /// Every square's mask is its empty-board rays; where the square's table
    /// is filled (always, for rook and bishop rays), entry `i` holds the
    /// attacks with the occupancy `i` deposits on the mask.
    pub open spec fn table_ok(&self) -> bool {
        &&& self.masks@.len() == 64
        &&& self.attacks@.len() == 64
        &&& forall|sq: int|
            0 <= sq < 64 ==> #[trigger] self.masks@[sq] == slider_spec(
                sq,
                0,
                self.deltas@,
                self.deltas@.len() as int,
            )
        &&& forall|sq: int, i: int|
            0 <= sq < 64 && 0 <= i < self.attacks@[sq]@.len() ==> #[trigger] self.attacks@[sq]@[i]
                == slider_spec(sq, deposit_spec(i as u64, self.masks@[sq]), self.deltas@, self.deltas@.len() as int)
        &&& forall|sq: int|
            0 <= sq < 64 ==> #[trigger] self.attacks@[sq]@.len() == 0 || self.attacks@[sq]@.len() == pow2(
                popcount_spec(self.masks@[sq]),
            )
    }
}

/// Build the tables of the slider moving along `deltas`. A square whose
/// rays hold more than 16 squares (none for rook or bishop rays) gets an
/// empty table and is looked up by walking.
pub fn build_pext_table(deltas: &[(i8, i8)]) -> (t: PextTable)
    ensures
        t.table_ok(),
        t.deltas@ == deltas@,
{
    let mut ds: Vec<(i8, i8)> = Vec::new();
    let mut j: usize = 0;
    while j < deltas.len()
        invariant
            j <= deltas@.len(),
            ds@ == deltas@.subrange(0, j as int),
        decreases deltas@.len() - j,
    {
        ds.push(deltas[j]);
        j += 1;
        proof {
            assert(ds@ =~= deltas@.subrange(0, j as int));
        }
    }
    proof {
        assert(ds@ =~= deltas@);
    }
    let mut masks: Vec<u64> = Vec::new();
    let mut attacks: Vec<Vec<u64>> = Vec::new();
    let mut sq: u8 = 0;
    while sq < 64
        invariant
            sq <= 64,
            ds@ == deltas@,
            masks@.len() == sq,
            attacks@.len() == sq,
            forall|s: int| 0 <= s < sq ==> #[trigger] masks@[s] == slider_spec(s, 0, ds@, ds@.len() as int),
            forall|s: int, i: int|
                0 <= s < sq && 0 <= i < attacks@[s]@.len() ==> #[trigger] attacks@[s]@[i] == slider_spec(
                    s,
                    deposit_spec(i as u64, masks@[s]),
                    ds@,
                    ds@.len() as int,
                ),
            forall|s: int|
                0 <= s < sq ==> #[trigger] attacks@[s]@.len() == 0 || attacks@[s]@.len() == pow2(
                    popcount_spec(masks@[s]),
                ),
        decreases 64 - sq,
    {
        let mask = slider_attacks_slow(sq, 0, &ds);
        let bits = popcount(mask);
        let mut row: Vec<u64> = Vec::new();
        if bits <= 16 {
            let size: u64 = 1u64 << (bits as u64);
            proof {
                lemma2_to64();
                if bits < 16 {
                    lemma_pow2_strictly_increases(bits as nat, 16);
                }
                vstd::bits::lemma_u64_shl_is_mul(1, bits as u64);
            }
            let mut idx: u64 = 0;
            while idx < size
                invariant
                    sq < 64,
                    idx <= size,
                    size == pow2(popcount_spec(mask)),
                    size <= 65536,
                    row@.len() == idx,
                    forall|i: int| 0 <= i < idx ==> #[trigger] row@[i] == slider_spec(
                        sq as int,
                        deposit_spec(i as u64, mask),
                        ds@,
                        ds@.len() as int,
                    ),
                decreases size - idx,
            {
                let occ = deposit_bits(idx, mask);
                row.push(slider_attacks_slow(sq, occ, &ds));
                idx += 1;
            }
        }
        masks.push(mask);
        attacks.push(row);
        sq += 1;
    }
    PextTable { deltas: ds, masks, attacks }
}

/// The attacks of `t`'s slider on `sq` with the occupancy `occ`: the
/// entry that the occupancy on the square's rays selects.
pub fn table_attacks(t: &PextTable, sq: Square, occ: u64) -> (r: u64)
    requires
        t.table_ok(),
        sq < 64,
    ensures
        r == slider_spec(sq as int, occ, t.deltas@, t.deltas@.len() as int),
{
    let mask = t.masks[sq as usize];
    let idx = pext(occ, mask);
    let row = &t.attacks[sq as usize];
    if idx < row.len() as u64 {
        proof {
            let d = t.deltas@;
            let n = d.len() as int;
            assert(row@[idx as int] == slider_spec(sq as int, deposit_spec(idx, mask), d, n));
            lemma_slider_masked(sq as int, occ, d, n, mask);
        }
        row[idx as usize]
    } else {
        slider_attacks_slow(sq, occ, t.deltas.as_slice())
    }
}

/// The attack tables of both slider kinds.
pub struct SliderTables {
    pub rook: PextTable,
    pub bishop: PextTable,
}

impl SliderTables {
    pub open spec fn tables_ok(&self) -> bool {
        &&& self.rook.table_ok()
        &&& self.rook.deltas@ == rook_deltas()
        &&& self.bishop.table_ok()
        &&& self.bishop.deltas@ == bishop_deltas()
    }
}

/// Build the rook and bishop tables (once, at startup).
pub fn init_attack_tables() -> (t: SliderTables)
    ensures
        t.tables_ok(),
{
    let rd = ROOK_DELTAS;
    let bd = BISHOP_DELTAS;
    assert(rd@ == rook_deltas());
    assert(bd@ == bishop_deltas());
    SliderTables { rook: build_pext_table(&rd), bishop: build_pext_table(&bd) }
}

/// Rook attacks from `sq` with the occupancy `occ`, by table.
pub fn rook_attacks_table(t: &SliderTables, sq: Square, occ: u64) -> (r: u64)
    requires
        t.tables_ok(),
        sq < 64,
    ensures
        r == rook_spec(sq as int, occ),
{
    proof {
        reveal(rook_spec);
    }
    table_attacks(&t.rook, sq, occ)
}

/// Bishop attacks from `sq` with the occupancy `occ`, by table.
pub fn bishop_attacks_table(t: &SliderTables, sq: Square, occ: u64) -> (r: u64)
    requires
        t.tables_ok(),
        sq < 64,
    ensures
        r == bishop_spec(sq as int, occ),
{
    proof {
        reveal(bishop_spec);
    }
    table_attacks(&t.bishop, sq, occ)
}

/// The line tables: for every pair of squares `(a, b)` at index
/// `a * 64 + b`, the squares strictly between them, the whole line through
/// them, and the ray from `a` beyond `b` (empty when not on one line).
pub struct LineTables {
    pub between: Vec<u64>,
    pub through: Vec<u64>,
    pub ray_past: Vec<u64>,
}

impl LineTables {
    pub open spec fn tables_ok(&self) -> bool {
        &&& self.between@.len() == 4096
        &&& self.through@.len() == 4096
        &&& self.ray_past@.len() == 4096
        &&& forall|a: int, b: int|
            0 <= a < 64 && 0 <= b < 64 ==> {
                &&& #[trigger] self.between@[a * 64 + b] == between_spec(a, b)
                &&& self.through@[a * 64 + b] == line_through_spec(a, b)
                &&& self.ray_past@[a * 64 + b] == ray_past_spec(a, b)
            }
    }
}

/// Build the line tables.
pub fn build_line_tables() -> (t: LineTables)
    ensures
        t.tables_ok(),
{
    let mut bt: Vec<u64> = Vec::new();
    let mut th: Vec<u64> = Vec::new();
    let mut rp: Vec<u64> = Vec::new();
    let mut a: u8 = 0;
    while a < 64
        invariant
            a <= 64,
            bt@.len() == a * 64,
            th@.len() == a * 64,
            rp@.len() == a * 64,
            forall|x: int, y: int|
                0 <= x < a && 0 <= y < 64 ==> {
                    &&& #[trigger] bt@[x * 64 + y] == between_spec(x, y)
                    &&& th@[x * 64 + y] == line_through_spec(x, y)
                    &&& rp@[x * 64 + y] == ray_past_spec(x, y)
                },
        decreases 64 - a,
    {
        let mut b: u8 = 0;
        while b < 64
            invariant
                a < 64,
                b <= 64,
                bt@.len() == a * 64 + b,
                th@.len() == a * 64 + b,
                rp@.len() == a * 64 + b,
                forall|x: int, y: int|
                    0 <= x < a && 0 <= y < 64 ==> {
                        &&& #[trigger] bt@[x * 64 + y] == between_spec(x, y)
                        &&& th@[x * 64 + y] == line_through_spec(x, y)
                        &&& rp@[x * 64 + y] == ray_past_spec(x, y)
                    },
                forall|y: int|
                    0 <= y < b ==> {
                        &&& #[trigger] bt@[a * 64 + y] == between_spec(a as int, y)
                        &&& th@[a * 64 + y] == line_through_spec(a as int, y)
                        &&& rp@[a * 64 + y] == ray_past_spec(a as int, y)
                    },
            decreases 64 - b,
        {
            bt.push(between(a, b));
            th.push(line_through(a, b));
            rp.push(ray_past(a, b));
            b += 1;
        }
        a += 1;
    }
    LineTables { between: bt, through: th, ray_past: rp }
}

/// The squares strictly between `a` and `b`, by table.
pub fn between_table(t: &LineTables, a: Square, b: Square) -> (r: u64)
    requires
        t.tables_ok(),
        a < 64,
        b < 64,
    ensures
        r == between_spec(a as int, b as int),
{
    t.between[a as usize * 64 + b as usize]
}

/// The line through `a` and `b`, by table.
pub fn through_table(t: &LineTables, a: Square, b: Square) -> (r: u64)
    requires
        t.tables_ok(),
        a < 64,
        b < 64,
    ensures
        r == line_through_spec(a as int, b as int),
{
    proof {
        assert(t.between@[a * 64 + b] == between_spec(a as int, b as int));
    }
    t.through[a as usize * 64 + b as usize]
}

/// The ray from `a` beyond `b`, by table.
pub fn ray_past_table(t: &LineTables, a: Square, b: Square) -> (r: u64)
    requires
        t.tables_ok(),
        a < 64,
        b < 64,
    ensures
        r == ray_past_spec(a as int, b as int),
{
    proof {
        assert(t.between@[a * 64 + b] == between_spec(a as int, b as int));
    }
    t.ray_past[a as usize * 64 + b as usize]
}

} // verus!
