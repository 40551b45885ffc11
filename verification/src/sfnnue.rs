//! Evaluation with a classic Stockfish HalfKAv2_hm network (22528 -> 1024 ->
//! 15 -> 32 -> 1 with 8 layer stacks), non-incremental: the accumulator is
//! rebuilt for every evaluation.

use crate::bitboard::popcount_spec;
use crate::eval::Score;
use crate::nnue::{div_trunc, tdiv};
use crate::position::{EMPTY, Position, code_color, code_piece};
use crate::types::{Color, PieceType, Square, piece_index};
use vstd::prelude::*;

verus! {

pub const IN: usize = 22528;

/// Feature-transformer (accumulator) width.
pub const L1: usize = 1024;

pub const HALF: usize = 512;

/// Logical outputs of the first layer (it emits one more).
pub const L2: usize = 15;

pub const FC0_OUT: usize = 16;

pub const L3: usize = 32;

pub const BUCKETS: usize = 8;

/// Features per king bucket: 11 piece kinds times 64 squares.
pub const PS_NB: usize = 704;

/// The format version in a network file's first word.
pub const SF_VERSION: u32 = 0x7AF3_2F20;

/// King bucket number per raw king square.
pub const KB: [u32; 64] = [
    28, 29, 30, 31, 31, 30, 29, 28, 24, 25, 26, 27, 27, 26, 25, 24, 20, 21, 22, 23, 23, 22, 21, 20,
    16, 17, 18, 19, 19, 18, 17, 16, 12, 13, 14, 15, 15, 14, 13, 12, 8, 9, 10, 11, 11, 10, 9, 8, 4,
    5, 6, 7, 7, 6, 5, 4, 0, 1, 2, 3, 3, 2, 1, 0,
];

/// Within-bucket offset per piece code (`8 * black + piece + 1`), from
/// White's point of view and from Black's.
pub const PS_W: [u32; 16] = [0, 0, 128, 256, 384, 512, 640, 0, 0, 64, 192, 320, 448, 576, 640, 0];

pub const PS_B: [u32; 16] = [0, 64, 192, 320, 448, 576, 640, 0, 0, 0, 128, 256, 384, 512, 640, 0];

// ---------------------------------------------------------------------------
// File layout
// ---------------------------------------------------------------------------
pub open spec fn u32_at(b: Seq<u8>, at: int) -> int {
    b[at] + 256 * b[at + 1] + 65536 * b[at + 2] + 16777216 * b[at + 3]
}

pub open spec fn i32_at(b: Seq<u8>, at: int) -> int {
    let u = u32_at(b, at);
    if u >= 0x8000_0000 {
        u - 0x1_0000_0000
    } else {
        u
    }
}

pub open spec fn i16_at(b: Seq<u8>, at: int) -> int {
    let u = b[at] + 256 * b[at + 1];
    if u >= 32768 {
        u - 65536
    } else {
        u
    }
}

pub open spec fn i8_at(b: Seq<u8>, at: int) -> int {
    if b[at] >= 128 {
        b[at] - 256
    } else {
        b[at] as int
    }
}

/// Bytes of one layer stack: an architecture hash, then three affine layers
/// (32-bit biases, 8-bit weights).
pub const BUCKET_BYTES: usize = 4 + (FC0_OUT * 4 + FC0_OUT * L1) + (L3 * 4 + L3 * 32) + (4 + 32);

/// Offset of the feature-transformer biases after a description of `d` bytes.
pub open spec fn ft_at(d: int) -> int {
    12 + d + 4
}

pub open spec fn ftw_at(d: int) -> int {
    ft_at(d) + 2 * L1
}

pub open spec fn psqt_at(d: int) -> int {
    ftw_at(d) + 2 * IN * L1
}

pub open spec fn bucket_at(d: int, k: int) -> int {
    psqt_at(d) + 4 * IN * BUCKETS + k * BUCKET_BYTES
}

/// Exact length of a file with a description of `d` bytes.
pub open spec fn sf_len(d: int) -> int {
    bucket_at(d, BUCKETS as int)
}

/// A well-formed file: the version word, and exactly the layout's length for
/// its description length.
pub open spec fn sf_format_ok(b: Seq<u8>) -> bool {
    &&& b.len() >= 12
    &&& u32_at(b, 0) == SF_VERSION
    &&& b.len() == sf_len(u32_at(b, 8))
}

/// One layer stack.
pub struct SfBucket {
    pub fc0_b: Vec<i32>,
    /// `FC0_OUT` rows of `L1` weights
    pub fc0_w: Vec<i8>,
    pub fc1_b: Vec<i32>,
    /// `L3` rows of 32 weights (30 used, 2 padding)
    pub fc1_w: Vec<i8>,
    pub fc2_b: i32,
    pub fc2_w: Vec<i8>,
}

pub struct SfNetwork {
    pub ft_bias: Vec<i16>,
    /// `IN` rows of `L1` weights, feature-major
    pub ft_w: Vec<i16>,
    /// `IN` rows of `BUCKETS` piece-square values
    pub psqt: Vec<i32>,
    pub buckets: Vec<SfBucket>,
}

impl SfBucket {
    pub open spec fn wf(&self) -> bool {
        &&& self.fc0_b@.len() == FC0_OUT
        &&& self.fc0_w@.len() == FC0_OUT * L1
        &&& self.fc1_b@.len() == L3
        &&& self.fc1_w@.len() == L3 * 32
        &&& self.fc2_w@.len() == 32
    }

    /// The stack holds the values stored at byte offset `at` of `b`.
    pub open spec fn read_from(&self, b: Seq<u8>, at: int) -> bool {
        let a0 = at + 4;
        let a1 = a0 + FC0_OUT * 4 + FC0_OUT * L1;
        let a2 = a1 + L3 * 4 + L3 * 32;
        &&& forall|i: int| 0 <= i < FC0_OUT ==> #[trigger] self.fc0_b@[i] == i32_at(b, a0 + 4 * i)
        &&& forall|i: int|
            0 <= i < FC0_OUT * L1 ==> #[trigger] self.fc0_w@[i] == i8_at(b, a0 + FC0_OUT * 4 + i)
        &&& forall|i: int| 0 <= i < L3 ==> #[trigger] self.fc1_b@[i] == i32_at(b, a1 + 4 * i)
        &&& forall|i: int| 0 <= i < L3 * 32 ==> #[trigger] self.fc1_w@[i] == i8_at(b, a1 + L3 * 4 + i)
        &&& self.fc2_b == i32_at(b, a2)
        &&& forall|i: int| 0 <= i < 32 ==> #[trigger] self.fc2_w@[i] == i8_at(b, a2 + 4 + i)
    }
}

impl SfNetwork {
    pub open spec fn wf(&self) -> bool {
        &&& self.ft_bias@.len() == L1
        &&& self.ft_w@.len() == IN * L1
        &&& self.psqt@.len() == IN * BUCKETS
        &&& self.buckets@.len() == BUCKETS
        &&& forall|k: int| 0 <= k < BUCKETS ==> #[trigger] self.buckets@[k].wf()
    }

    /// The network holds the values stored in the file `b`.
    pub open spec fn read_from(&self, b: Seq<u8>) -> bool {
        let d = u32_at(b, 8);
        &&& forall|i: int| 0 <= i < L1 ==> #[trigger] self.ft_bias@[i] == i16_at(b, ft_at(d) + 2 * i)
        &&& forall|i: int| 0 <= i < IN * L1 ==> #[trigger] self.ft_w@[i] == i16_at(b, ftw_at(d) + 2 * i)
        &&& forall|i: int|
            0 <= i < IN * BUCKETS ==> #[trigger] self.psqt@[i] == i32_at(b, psqt_at(d) + 4 * i)
        &&& forall|k: int| 0 <= k < BUCKETS ==> #[trigger] self.buckets@[k].read_from(b, bucket_at(d, k))
    }
}

/// Why a byte string is not a network.
#[derive(Clone, Copy, PartialEq, Eq, Structural, Debug)]
pub enum SfError {
    /// Wrong version word, or a length other than the layout's.
    Format,
}

/// Little-endian reads from a byte string at a moving offset.
pub struct Reader<'a> {
    pub b: &'a [u8],
    pub at: usize,
}

impl<'a> Reader<'a> {
    pub fn u32(&mut self) -> (r: u32)
        requires
            old(self).at + 4 <= old(self).b@.len(),
        ensures
            r == u32_at(old(self).b@, old(self).at as int),
            final(self).at == old(self).at + 4,
            final(self).b == old(self).b,
    {
        let a = self.at;
        let v = self.b[a] as u32 + 256 * (self.b[a + 1] as u32) + 65536 * (self.b[a + 2] as u32) + 16777216 * (
        self.b[a + 3] as u32);
        self.at = a + 4;
        v
    }

    pub fn i32(&mut self) -> (r: i32)
        requires
            old(self).at + 4 <= old(self).b@.len(),
        ensures
            r == i32_at(old(self).b@, old(self).at as int),
            final(self).at == old(self).at + 4,
            final(self).b == old(self).b,
    {
        let u = self.u32();
        if u >= 0x8000_0000 {
            (u as i64 - 0x1_0000_0000i64) as i32
        } else {
            u as i32
        }
    }

    pub fn i16(&mut self) -> (r: i16)
        requires
            old(self).at + 2 <= old(self).b@.len(),
        ensures
            r == i16_at(old(self).b@, old(self).at as int),
            final(self).at == old(self).at + 2,
            final(self).b == old(self).b,
    {
        let a = self.at;
        let u = self.b[a] as i32 + 256 * (self.b[a + 1] as i32);
        self.at = a + 2;
        if u >= 32768 {
            (u - 65536) as i16
        } else {
            u as i16
        }
    }

    pub fn i8(&mut self) -> (r: i8)
        requires
            old(self).at + 1 <= old(self).b@.len(),
        ensures
            r == i8_at(old(self).b@, old(self).at as int),
            final(self).at == old(self).at + 1,
            final(self).b == old(self).b,
    {
        let a = self.at;
        let v = self.b[a];
        self.at = a + 1;
        if v >= 128 {
            (v as i16 - 256) as i8
        } else {
            v as i8
        }
    }
}

/// Reads `n` 32-bit words.
fn read_i32s(r: &mut Reader, n: usize) -> (v: Vec<i32>)
    requires
        old(r).at + 4 * n <= old(r).b@.len(),
    ensures
        v@.len() == n,
        forall|i: int| 0 <= i < n ==> #[trigger] v@[i] == i32_at(old(r).b@, old(r).at + 4 * i),
        final(r).at == old(r).at + 4 * n,
        final(r).b == old(r).b,
{
    let ghost start = r.at as int;
    let mut v: Vec<i32> = Vec::with_capacity(n);
    let mut i: usize = 0;
    while i < n
        invariant
            r.b == old(r).b,
            start == old(r).at,
            start + 4 * n <= r.b@.len(),
            i <= n,
            r.at == start + 4 * i,
            v@.len() == i,
            forall|j: int| 0 <= j < i ==> #[trigger] v@[j] == i32_at(r.b@, start + 4 * j),
        decreases n - i,
    {
        let w = r.i32();
        v.push(w);
        i += 1;
    }
    v
}

/// Reads `n` 16-bit words.
fn read_i16s(r: &mut Reader, n: usize) -> (v: Vec<i16>)
    requires
        old(r).at + 2 * n <= old(r).b@.len(),
    ensures
        v@.len() == n,
        forall|i: int| 0 <= i < n ==> #[trigger] v@[i] == i16_at(old(r).b@, old(r).at + 2 * i),
        final(r).at == old(r).at + 2 * n,
        final(r).b == old(r).b,
{
    let ghost start = r.at as int;
    let mut v: Vec<i16> = Vec::with_capacity(n);
    let mut i: usize = 0;
    while i < n
        invariant
            r.b == old(r).b,
            start == old(r).at,
            start + 2 * n <= r.b@.len(),
            i <= n,
            r.at == start + 2 * i,
            v@.len() == i,
            forall|j: int| 0 <= j < i ==> #[trigger] v@[j] == i16_at(r.b@, start + 2 * j),
        decreases n - i,
    {
        let w = r.i16();
        v.push(w);
        i += 1;
    }
    v
}

/// Reads `n` bytes as 8-bit weights.
fn read_i8s(r: &mut Reader, n: usize) -> (v: Vec<i8>)
    requires
        old(r).at + n <= old(r).b@.len(),
    ensures
        v@.len() == n,
        forall|i: int| 0 <= i < n ==> #[trigger] v@[i] == i8_at(old(r).b@, old(r).at + i),
        final(r).at == old(r).at + n,
        final(r).b == old(r).b,
{
    let ghost start = r.at as int;
    let mut v: Vec<i8> = Vec::with_capacity(n);
    let mut i: usize = 0;
    while i < n
        invariant
            r.b == old(r).b,
            start == old(r).at,
            start + n <= r.b@.len(),
            i <= n,
            r.at == start + i,
            v@.len() == i,
            forall|j: int| 0 <= j < i ==> #[trigger] v@[j] == i8_at(r.b@, start + j),
        decreases n - i,
    {
        let w = r.i8();
        v.push(w);
        i += 1;
    }
    v
}

/// Reads one affine layer: `out` 32-bit biases, then `out * pad` 8-bit
/// weights, row-major.
fn read_affine(r: &mut Reader, out: usize, pad: usize) -> (res: (Vec<i32>, Vec<i8>))
    requires
        out * pad <= usize::MAX,
        out <= 64,
        old(r).at + 4 * out + out * pad <= old(r).b@.len(),
    ensures
        res.0@.len() == out,
        res.1@.len() == out * pad,
        forall|i: int| 0 <= i < out ==> #[trigger] res.0@[i] == i32_at(old(r).b@, old(r).at + 4 * i),
        forall|i: int| 0 <= i < out * pad ==> #[trigger] res.1@[i] == i8_at(old(r).b@, old(r).at + 4 * out + i),
        final(r).at == old(r).at + 4 * out + out * pad,
        final(r).b == old(r).b,
{
    let bias = read_i32s(r, out);
    let w = read_i8s(r, out * pad);
    (bias, w)
}

/// Reads one layer stack.
fn read_bucket(r: &mut Reader) -> (k: SfBucket)
    requires
        old(r).at + BUCKET_BYTES <= old(r).b@.len(),
    ensures
        k.wf(),
        k.read_from(old(r).b@, old(r).at as int),
        final(r).at == old(r).at + BUCKET_BYTES,
        final(r).b == old(r).b,
{
    let _arch_hash = r.u32();
    let (fc0_b, fc0_w) = read_affine(r, FC0_OUT, L1);
    let (fc1_b, fc1_w) = read_affine(r, L3, 32);
    let (fc2_b, fc2_w) = read_affine(r, 1, 32);
    SfBucket { fc0_b, fc0_w, fc1_b, fc1_w, fc2_b: fc2_b[0], fc2_w }
}

impl SfNetwork {
    /// Parses a network file: the version, a hash, a description (skipped), a
    /// hash, the feature transformer (biases, weights, piece-square values),
    /// then the layer stacks. Nothing may follow.
    pub fn load(bytes: &[u8]) -> (r: Result<SfNetwork, SfError>)
        ensures
            !sf_format_ok(bytes@) ==> r == Err::<SfNetwork, SfError>(SfError::Format),
            sf_format_ok(bytes@) ==> (r matches Ok(net) && net.wf() && net.read_from(bytes@)),
    {
        let len = bytes.len();
        if len < 12 {
            return Err(SfError::Format);
        }
        let mut r = Reader { b: bytes, at: 0 };
        let ver = r.u32();
        if ver != SF_VERSION {
            return Err(SfError::Format);
        }
        let _hash = r.u32();
        let desc_len = r.u32() as usize;
        // the exact length the layout needs for this description
        let body: usize = 4 + 2 * L1 + 2 * IN * L1 + 4 * IN * BUCKETS + BUCKETS * BUCKET_BYTES;
        if desc_len > len || len - desc_len < 12 || len - desc_len - 12 != body {
            return Err(SfError::Format);
        }
        r.at = 12 + desc_len;
        let _ft_hash = r.u32();
        let ft_bias = read_i16s(&mut r, L1);
        let ft_w = read_i16s(&mut r, IN * L1);
        let psqt = read_i32s(&mut r, IN * BUCKETS);
        let mut buckets: Vec<SfBucket> = Vec::with_capacity(BUCKETS);
        let mut k: usize = 0;
        while k < BUCKETS
            invariant
                r.b == bytes,
                bytes@.len() == len,
                sf_format_ok(bytes@),
                desc_len == u32_at(bytes@, 8),
                k <= BUCKETS,
                r.at == bucket_at(desc_len as int, k as int),
                buckets@.len() == k,
                forall|j: int| 0 <= j < k ==> #[trigger] buckets@[j].wf(),
                forall|j: int|
                    0 <= j < k ==> #[trigger] buckets@[j].read_from(bytes@, bucket_at(desc_len as int, j)),
            decreases BUCKETS - k,
        {
            let bk = read_bucket(&mut r);
            buckets.push(bk);
            proof {
                assert((k + 1) * BUCKET_BYTES == k * BUCKET_BYTES + BUCKET_BYTES) by (nonlinear_arith);
            }
            k += 1;
        }
        Ok(SfNetwork { ft_bias, ft_w, psqt, buckets })
    }
}

// ---------------------------------------------------------------------------
// Features
// ---------------------------------------------------------------------------
/// 7 (mirror the files) when the king stands on files a..d, else 0.
pub open spec fn sf_orient(ksq: int) -> int {
    if ksq % 8 < 4 {
        7
    } else {
        0
    }
}

/// `sq ^ 7`.
pub open spec fn sf_flip_file(sq: int) -> int {
    8 * (sq / 8) + (7 - sq % 8)
}

/// `sq ^ 56`.
pub open spec fn sf_flip_rank(sq: int) -> int {
    8 * (7 - sq / 8) + sq % 8
}

/// Piece code of a `col` piece of type `pt`: `8 * black + piece + 1`.
pub open spec fn sf_piece(col: Color, pt: PieceType) -> int {
    (if col == Color::Black {
        8int
    } else {
        0int
    }) + piece_index(pt) + 1
}

/// Feature index of piece code `sfpc` on `s` from `persp`, whose king stands
/// on `ksq`: the square mirrored by the king's file half and (for Black)
/// vertically, plus the piece's offset, plus the king bucket's block.
pub open spec fn make_index_spec(persp: Color, s: int, sfpc: int, ksq: int) -> int {
    let s1 = if sf_orient(ksq) == 7 {
        sf_flip_file(s)
    } else {
        s
    };
    let sq = if persp == Color::Black {
        sf_flip_rank(s1)
    } else {
        s1
    };
    let ps = if persp == Color::White {
        PS_W[sfpc] as int
    } else {
        PS_B[sfpc] as int
    };
    let kq = if persp == Color::Black {
        sf_flip_rank(ksq)
    } else {
        ksq
    };
    sq + ps + KB[kq] as int * PS_NB
}

fn make_index(persp: Color, s: Square, sfpc: usize, ksq: Square) -> (r: usize)
    requires
        s < 64,
        ksq < 64,
        1 <= sfpc <= 14,
    ensures
        r == make_index_spec(persp, s as int, sfpc as int, ksq as int),
        r < IN,
{
    let s1: usize = if (ksq % 8) < 4 {
        8 * (s as usize / 8) + (7 - s as usize % 8)
    } else {
        s as usize
    };
    let sq: usize = if persp == Color::Black {
        8 * (7 - s1 / 8) + s1 % 8
    } else {
        s1
    };
    let ps: usize = if persp == Color::White {
        PS_W[sfpc] as usize
    } else {
        PS_B[sfpc] as usize
    };
    let kq: usize = if persp == Color::Black {
        8 * (7 - ksq as usize / 8) + ksq as usize % 8
    } else {
        ksq as usize
    };
    proof {
        assert(PS_W[sfpc as int] <= 640);
        assert(PS_B[sfpc as int] <= 640);
        assert(KB[kq as int] <= 31);
    }
    sq + ps + KB[kq] as usize * PS_NB
}

/// Features of the pieces on squares `0..n` from `persp` with the king on `ksq`.
pub open spec fn sf_feats(pos: Position, persp: Color, ksq: int, n: int) -> Seq<int>
    decreases n,
{
    if n <= 0 {
        Seq::empty()
    } else {
        let prev = sf_feats(pos, persp, ksq, n - 1);
        let m = pos.mailbox[n - 1];
        if m == EMPTY {
            prev
        } else {
            prev.push(make_index_spec(persp, n - 1, sf_piece(code_color(m), code_piece(m)), ksq))
        }
    }
}

/// Lane `d` summed over the feature rows `fs`.
pub open spec fn ft_sum(net: &SfNetwork, fs: Seq<int>, d: int) -> int
    decreases fs.len(),
{
    if fs.len() == 0 {
        0
    } else {
        ft_sum(net, fs.drop_last(), d) + net.ft_w@[fs.last() * L1 + d]
    }
}

/// Bucket `k` of the piece-square values summed over `fs`.
pub open spec fn psqt_sum(net: &SfNetwork, fs: Seq<int>, k: int) -> int
    decreases fs.len(),
{
    if fs.len() == 0 {
        0
    } else {
        psqt_sum(net, fs.drop_last(), k) + net.psqt@[fs.last() * BUCKETS + k]
    }
}

/// The raw king square of `c` (its lowest king bit).
pub open spec fn sf_king(pos: Position, c: Color) -> int {
    pos.king_sq_spec(c)
}

/// The accumulator lanes of a perspective.
pub open spec fn acc_lanes(net: &SfNetwork, pos: Position, persp: Color) -> Seq<int> {
    let fs = sf_feats(pos, persp, sf_king(pos, persp), 64);
    Seq::new(L1 as nat, |d: int| net.ft_bias@[d] + ft_sum(net, fs, d))
}

pub open spec fn psqt_total(net: &SfNetwork, pos: Position, persp: Color, k: int) -> int {
    psqt_sum(net, sf_feats(pos, persp, sf_king(pos, persp), 64), k)
}

proof fn lemma_sf_feats(pos: Position, persp: Color, ksq: int, n: int)
    requires
        0 <= n <= 64,
        0 <= ksq < 64,
        pos.board_ok(),
    ensures
        sf_feats(pos, persp, ksq, n).len() <= n,
        forall|i: int|
            0 <= i < sf_feats(pos, persp, ksq, n).len() ==> 0 <= #[trigger] sf_feats(pos, persp, ksq, n)[i] < IN,
    decreases n,
{
    if n > 0 {
        lemma_sf_feats(pos, persp, ksq, n - 1);
        let prev = sf_feats(pos, persp, ksq, n - 1);
        let m = pos.mailbox[n - 1];
        if m != EMPTY {
            assert(pos.sq_ok(n - 1));
            let pc = sf_piece(code_color(m), code_piece(m));
            assert(1 <= pc <= 14);
            let s = n - 1;
            let s1 = if sf_orient(ksq) == 7 { sf_flip_file(s) } else { s };
            assert(0 <= s1 < 64);
            let kq = if persp == Color::Black { sf_flip_rank(ksq) } else { ksq };
            assert(0 <= kq < 64);
            assert(PS_W[pc] <= 640 && PS_B[pc] <= 640);
            assert(KB[kq] <= 31);
            let f = make_index_spec(persp, s, pc, ksq);
            assert(0 <= f < IN);
            assert forall|i: int| 0 <= i < prev.push(f).len() implies 0 <= #[trigger] prev.push(f)[i] < IN by {
                if i < prev.len() {
                    assert(prev.push(f)[i] == prev[i]);
                }
            }
        }
    }
}

// ---------------------------------------------------------------------------
// Evaluation
// ---------------------------------------------------------------------------
/// Clipped ReLU to 0..=127.
pub open spec fn clip127(x: int) -> int {
    if x < 0 {
        0
    } else if x > 127 {
        127
    } else {
        x
    }
}

/// Output `i` of the feature transform: the side to move's half first, each
/// half the product of its clipped lanes `j` and `j + 512`, scaled by 1/128.
pub open spec fn ft_out(us: Seq<int>, them: Seq<int>, i: int) -> int {
    let p = if i < HALF {
        us
    } else {
        them
    };
    let j = i % (HALF as int);
    (clip127(p[j]) * clip127(p[j + HALF])) / 128
}

/// `sum_{i < n} x[i] * w[off + i]`.
pub open spec fn dot8(x: Seq<int>, w: Seq<i8>, off: int, n: int) -> int
    decreases n,
{
    if n <= 0 {
        0
    } else {
        dot8(x, w, off, n - 1) + x[n - 1] * w[off + n - 1]
    }
}

/// The evaluation from the accumulator lanes and piece-square totals of the
/// side to move (`us`, `pu`) and of the other side (`them`, `pt`), with layer
/// stack `bkt`, before the final range limit.
pub open spec fn sf_eval_spec(net: &SfNetwork, us: Seq<int>, them: Seq<int>, pu: int, pt: int, bkt: int) -> int {
    let b = net.buckets@[bkt];
    let fc0 = fc0_seq(b, ft_seq(us, them));
    let cr1 = cr1_seq(b, in1_seq(fc0));
    let fc2 = b.fc2_b + dot8(cr1, b.fc2_w@, 0, 32);
    let fwd = tdiv(fc0[L2 as int] * 9600, 8128);
    let psqt = tdiv(pu - pt, 2);
    tdiv(tdiv(psqt + fc2 + fwd, 16) * 3, 5)
}

/// The feature transform's outputs.
pub open spec fn ft_seq(us: Seq<int>, them: Seq<int>) -> Seq<int> {
    Seq::new(L1 as nat, |i: int| ft_out(us, them, i))
}

/// The first layer's outputs.
pub open spec fn fc0_seq(b: SfBucket, ft: Seq<int>) -> Seq<int> {
    Seq::new(FC0_OUT as nat, |o: int| b.fc0_b@[o] + dot8(ft, b.fc0_w@, o * L1, L1 as int))
}

/// The second layer's inputs: the squares of the first 15 outputs (scaled
/// by 2^-19, at most 127), their clipped values (scaled by 1/64), and two
/// zeros of padding.
pub open spec fn in1_seq(fc0: Seq<int>) -> Seq<int> {
    Seq::new(
        32,
        |i: int|
            if i < L2 {
                let v = (fc0[i] * fc0[i]) / 524288;
                if v > 127 {
                    127
                } else {
                    v
                }
            } else if i < 2 * L2 {
                clip127(fc0[i - L2] / 64)
            } else {
                0
            },
    )
}

/// The second layer's clipped outputs.
pub open spec fn cr1_seq(b: SfBucket, in1: Seq<int>) -> Seq<int> {
    Seq::new(L3 as nat, |o: int| clip127((b.fc1_b@[o] + dot8(in1, b.fc1_w@, o * 32, 32)) / 64))
}

/// A value limited to the 32-bit range.
pub open spec fn sat32(x: int) -> int {
    if x > i32::MAX {
        i32::MAX as int
    } else if x < i32::MIN {
        i32::MIN as int
    } else {
        x
    }
}

/// The evaluation of a position from the side to move's perspective.
pub open spec fn evaluate_sf_spec(net: &SfNetwork, pos: Position) -> int {
    let bkt = (popcount_spec(pos.occupied_spec()) - 1) / 4;
    let w = acc_lanes(net, pos, Color::White);
    let b = acc_lanes(net, pos, Color::Black);
    let pw = psqt_total(net, pos, Color::White, bkt);
    let pb = psqt_total(net, pos, Color::Black, bkt);
    sat32(
        if pos.stm == Color::White {
            sf_eval_spec(net, w, b, pw, pb, bkt)
        } else {
            sf_eval_spec(net, b, w, pb, pw, bkt)
        },
    )
}

proof fn lemma_ft_sum_push(net: &SfNetwork, fs: Seq<int>, f: int, d: int)
    ensures
        ft_sum(net, fs.push(f), d) == ft_sum(net, fs, d) + net.ft_w@[f * L1 + d],
        psqt_sum(net, fs.push(f), d) == psqt_sum(net, fs, d) + net.psqt@[f * BUCKETS + d],
{
    assert(fs.push(f).drop_last() =~= fs);
}

/// The accumulator lanes and piece-square totals of one perspective.
fn accumulate(net: &SfNetwork, pos: &Position, persp: Color, ksq: Square) -> (r: (Vec<i32>, Vec<i64>))
    requires
        net.wf(),
        pos.board_ok(),
        ksq < 64,
    ensures
        r.0@.len() == L1,
        r.1@.len() == BUCKETS,
        forall|d: int|
            0 <= d < L1 ==> #[trigger] r.0@[d] == net.ft_bias@[d] + ft_sum(net, sf_feats(*pos, persp, ksq as int, 64), d),
        forall|k: int|
            0 <= k < BUCKETS ==> #[trigger] r.1@[k] == psqt_sum(net, sf_feats(*pos, persp, ksq as int, 64), k),
        forall|k: int| 0 <= k < BUCKETS ==> -0x8000_0000 * 64 <= #[trigger] r.1@[k] <= 0x8000_0000 * 64,
{
    let mut acc: Vec<i32> = Vec::with_capacity(L1);
    let mut d: usize = 0;
    while d < L1
        invariant
            net.wf(),
            d <= L1,
            acc@.len() == d,
            forall|j: int| 0 <= j < d ==> #[trigger] acc@[j] == net.ft_bias@[j],
        decreases L1 - d,
    {
        acc.push(net.ft_bias[d] as i32);
        d += 1;
    }
    let mut psq: Vec<i64> = vec![0, 0, 0, 0, 0, 0, 0, 0];
    let mut sq: u8 = 0;
    while sq < 64
        invariant
            net.wf(),
            pos.board_ok(),
            ksq < 64,
            sq <= 64,
            acc@.len() == L1,
            psq@.len() == BUCKETS,
            forall|j: int|
                0 <= j < L1 ==> #[trigger] acc@[j] == net.ft_bias@[j] + ft_sum(net, sf_feats(*pos, persp, ksq as int, sq as int), j),
            forall|j: int| 0 <= j < L1 ==> -32768 * (sq + 1) <= #[trigger] acc@[j] <= 32768 * (sq + 1),
            forall|k: int|
                0 <= k < BUCKETS ==> #[trigger] psq@[k] == psqt_sum(net, sf_feats(*pos, persp, ksq as int, sq as int), k),
            forall|k: int| 0 <= k < BUCKETS ==> -0x8000_0000 * sq <= #[trigger] psq@[k] <= 0x8000_0000 * sq,
        decreases 64 - sq,
    {
        let ghost fs = sf_feats(*pos, persp, ksq as int, sq as int);
        if let Some((col, pt)) = pos.piece_on(sq) {
            let sfpc = (if col == Color::Black {
                8
            } else {
                0
            }) + pt.idx() + 1;
            let f = make_index(persp, sq, sfpc, ksq);
            proof {
                assert(sfpc == sf_piece(col, pt));
                crate::position::lemma_code_parts(col, pt);
                assert(sf_feats(*pos, persp, ksq as int, sq + 1) == fs.push(f as int));
            }
            let base = f * L1;
            let ghost a0 = acc@;
            let mut j: usize = 0;
            while j < L1
                invariant
                    net.wf(),
                    f < IN,
                    base == f * L1,
                    j <= L1,
                    acc@.len() == L1,
                    a0.len() == L1,
                    sq < 64,
                    forall|l: int| 0 <= l < L1 ==> -32768 * (sq + 1) <= #[trigger] a0[l] <= 32768 * (sq + 1),
                    forall|l: int| 0 <= l < j ==> #[trigger] acc@[l] == a0[l] + net.ft_w@[base + l],
                    forall|l: int| j <= l < L1 ==> #[trigger] acc@[l] == a0[l],
                decreases L1 - j,
            {
                let v = acc[j] + net.ft_w[base + j] as i32;
                acc.set(j, v);
                j += 1;
            }
            let pbase = f * BUCKETS;
            let ghost p0 = psq@;
            let mut k: usize = 0;
            while k < BUCKETS
                invariant
                    net.wf(),
                    f < IN,
                    pbase == f * BUCKETS,
                    k <= BUCKETS,
                    psq@.len() == BUCKETS,
                    p0.len() == BUCKETS,
                    sq < 64,
                    forall|l: int| 0 <= l < BUCKETS ==> -0x8000_0000 * sq <= #[trigger] p0[l] <= 0x8000_0000 * sq,
                    forall|l: int| 0 <= l < k ==> #[trigger] psq@[l] == p0[l] + net.psqt@[pbase + l],
                    forall|l: int| k <= l < BUCKETS ==> #[trigger] psq@[l] == p0[l],
                decreases BUCKETS - k,
            {
                let v = psq[k] + net.psqt[pbase + k] as i64;
                psq.set(k, v);
                k += 1;
            }
            proof {
                assert forall|l: int| 0 <= l < L1 implies #[trigger] acc@[l] == net.ft_bias@[l] + ft_sum(net, sf_feats(*pos, persp, ksq as int, sq + 1), l) by {
                    lemma_ft_sum_push(net, fs, f as int, l);
                }
                assert forall|l: int| 0 <= l < BUCKETS implies #[trigger] psq@[l] == psqt_sum(net, sf_feats(*pos, persp, ksq as int, sq + 1), l) by {
                    lemma_ft_sum_push(net, fs, f as int, l);
                }
            }
        } else {
            proof {
                assert(sf_feats(*pos, persp, ksq as int, sq + 1) == fs);
            }
        }
        sq += 1;
    }
    (acc, psq)
}

/// The values of a 32-bit vector as integers.
pub open spec fn ints32(v: Seq<i32>) -> Seq<int> {
    Seq::new(v.len(), |i: int| v[i] as int)
}

/// The values of a 64-bit vector as integers.
pub open spec fn ints64(v: Seq<i64>) -> Seq<int> {
    Seq::new(v.len(), |i: int| v[i] as int)
}

fn clip(x: i64) -> (r: i64)
    ensures
        r == clip127(x as int),
{
    if x < 0 {
        0
    } else if x > 127 {
        127
    } else {
        x
    }
}

/// The feature transform: clipped lane products of both halves of each
/// perspective, the side to move's first.
fn ft_transform(us: &Vec<i32>, them: &Vec<i32>) -> (r: Vec<i64>)
    requires
        us@.len() == L1,
        them@.len() == L1,
    ensures
        r@.len() == L1,
        forall|i: int| 0 <= i < L1 ==> #[trigger] r@[i] == ft_out(ints32(us@), ints32(them@), i),
        forall|i: int| 0 <= i < L1 ==> 0 <= #[trigger] r@[i] <= 127,
{
    let mut r: Vec<i64> = Vec::with_capacity(L1);
    let mut i: usize = 0;
    while i < L1
        invariant
            us@.len() == L1,
            them@.len() == L1,
            i <= L1,
            r@.len() == i,
            forall|k: int| 0 <= k < i ==> #[trigger] r@[k] == ft_out(ints32(us@), ints32(them@), k),
            forall|k: int| 0 <= k < i ==> 0 <= #[trigger] r@[k] <= 127,
        decreases L1 - i,
    {
        let j = i % HALF;
        let (a, b) = if i < HALF {
            (clip(us[j] as i64), clip(us[j + HALF] as i64))
        } else {
            (clip(them[j] as i64), clip(them[j + HALF] as i64))
        };
        assert(0 <= a * b <= 16129) by (nonlinear_arith)
            requires
                0 <= a <= 127,
                0 <= b <= 127,
        ;
        let v = (a * b) / 128;
        r.push(v);
        i += 1;
    }
    r
}

/// `sum_{i < n} x[i] * w[off + i]` for inputs in 0..=127.
fn dot8_exec(x: &Vec<i64>, w: &Vec<i8>, off: usize, n: usize) -> (r: i64)
    requires
        off + n <= w@.len(),
        n <= x@.len(),
        n <= L1,
        forall|i: int| 0 <= i < n ==> 0 <= #[trigger] x@[i] <= 127,
    ensures
        r == dot8(ints64(x@), w@, off as int, n as int),
        -16256 * n <= r <= 16256 * n,
{
    let wl = w.len();
    let mut acc: i64 = 0;
    let mut i: usize = 0;
    while i < n
        invariant
            wl == w@.len(),
            off + n <= w@.len(),
            n <= x@.len(),
            n <= L1,
            forall|k: int| 0 <= k < n ==> 0 <= #[trigger] x@[k] <= 127,
            i <= n,
            acc == dot8(ints64(x@), w@, off as int, i as int),
            -16256 * i <= acc <= 16256 * i,
        decreases n - i,
    {
        let xi = x[i];
        let wi = w[off + i] as i64;
        assert(-16256 <= xi * wi <= 16256) by (nonlinear_arith)
            requires
                0 <= xi <= 127,
                -128 <= wi <= 127,
        ;
        acc = acc + xi * wi;
        i += 1;
        proof {
            assert(ints64(x@)[i - 1] == xi);
        }
    }
    acc
}

/// Floor of `x / 64`, clipped to 0..=127.
fn clip_shift6(x: i64) -> (r: i64)
    ensures
        r == clip127(x as int / 64),
        0 <= r <= 127,
{
    if x < 0 {
        proof {
            assert(x as int / 64 < 0) by (nonlinear_arith)
                requires
                    x < 0,
            ;
        }
        0
    } else {
        clip(x / 64)
    }
}

/// The first layer over the feature transform.
fn layer0(b: &SfBucket, ft: &Vec<i64>) -> (r: Vec<i64>)
    requires
        b.wf(),
        ft@.len() == L1,
        forall|i: int| 0 <= i < L1 ==> 0 <= #[trigger] ft@[i] <= 127,
    ensures
        ints64(r@) == fc0_seq(*b, ints64(ft@)),
        r@.len() == FC0_OUT,
        forall|k: int| 0 <= k < FC0_OUT ==> -0x8000_0000 - 16256 * 1024 <= #[trigger] r@[k] <= 0x8000_0000 + 16256 * 1024,
{
    let mut fc0: Vec<i64> = Vec::with_capacity(FC0_OUT);
    let mut o: usize = 0;
    while o < FC0_OUT
        invariant
            b.wf(),
            ft@.len() == L1,
            forall|i: int| 0 <= i < L1 ==> 0 <= #[trigger] ft@[i] <= 127,
            o <= FC0_OUT,
            fc0@.len() == o,
            forall|k: int| 0 <= k < o ==> #[trigger] fc0@[k] == b.fc0_b@[k] + dot8(ints64(ft@), b.fc0_w@, k * L1, L1 as int),
            forall|k: int| 0 <= k < o ==> -0x8000_0000 - 16256 * 1024 <= #[trigger] fc0@[k] <= 0x8000_0000 + 16256 * 1024,
        decreases FC0_OUT - o,
    {
        proof {
            assert(o * L1 + L1 <= FC0_OUT * L1) by (nonlinear_arith)
                requires
                    o < FC0_OUT,
            ;
        }
        let d = dot8_exec(ft, &b.fc0_w, o * L1, L1);
        fc0.push(b.fc0_b[o] as i64 + d);
        o += 1;
    }
    proof {
        assert(ints64(fc0@) =~= fc0_seq(*b, ints64(ft@)));
    }
    fc0
}

/// The second layer's inputs from the first layer's outputs.
fn activations(fc0: &Vec<i64>) -> (r: Vec<i64>)
    requires
        fc0@.len() == FC0_OUT,
        forall|k: int| 0 <= k < FC0_OUT ==> -0x8000_0000 - 16256 * 1024 <= #[trigger] fc0@[k] <= 0x8000_0000 + 16256 * 1024,
    ensures
        ints64(r@) == in1_seq(ints64(fc0@)),
        r@.len() == 32,
        forall|k: int| 0 <= k < 32 ==> 0 <= #[trigger] r@[k] <= 127,
{
    let mut in1: Vec<i64> = Vec::with_capacity(32);
    let mut i: usize = 0;
    while i < 32
        invariant
            fc0@.len() == FC0_OUT,
            forall|k: int| 0 <= k < FC0_OUT ==> -0x8000_0000 - 16256 * 1024 <= #[trigger] fc0@[k] <= 0x8000_0000 + 16256 * 1024,
            i <= 32,
            in1@.len() == i,
            forall|k: int| 0 <= k < i ==> #[trigger] in1@[k] == in1_seq(ints64(fc0@))[k],
            forall|k: int| 0 <= k < i ==> 0 <= #[trigger] in1@[k] <= 127,
        decreases 32 - i,
    {
        if i < L2 {
            let x = fc0[i];
            assert(0 <= x * x <= 5000000000000000000) by (nonlinear_arith)
                requires
                    -0x8000_0000 - 16256 * 1024 <= x <= 0x8000_0000 + 16256 * 1024,
            ;
            let v = (x * x) / 524288;
            in1.push(if v > 127 {
                127
            } else {
                v
            });
        } else if i < 2 * L2 {
            in1.push(clip_shift6(fc0[i - L2]));
        } else {
            in1.push(0);
        }
        i += 1;
    }
    proof {
        assert(ints64(in1@) =~= in1_seq(ints64(fc0@)));
    }
    in1
}

/// The second layer, clipped.
fn layer1(b: &SfBucket, in1: &Vec<i64>) -> (r: Vec<i64>)
    requires
        b.wf(),
        in1@.len() == 32,
        forall|k: int| 0 <= k < 32 ==> 0 <= #[trigger] in1@[k] <= 127,
    ensures
        ints64(r@) == cr1_seq(*b, ints64(in1@)),
        r@.len() == L3,
        forall|k: int| 0 <= k < L3 ==> 0 <= #[trigger] r@[k] <= 127,
{
    let mut cr1: Vec<i64> = Vec::with_capacity(L3);
    let mut o: usize = 0;
    while o < L3
        invariant
            b.wf(),
            in1@.len() == 32,
            forall|k: int| 0 <= k < 32 ==> 0 <= #[trigger] in1@[k] <= 127,
            o <= L3,
            cr1@.len() == o,
            forall|k: int| 0 <= k < o ==> #[trigger] cr1@[k] == clip127((b.fc1_b@[k] + dot8(ints64(in1@), b.fc1_w@, k * 32, 32)) / 64),
            forall|k: int| 0 <= k < o ==> 0 <= #[trigger] cr1@[k] <= 127,
        decreases L3 - o,
    {
        proof {
            assert(o * 32 + 32 <= L3 * 32) by (nonlinear_arith)
                requires
                    o < L3,
            ;
        }
        let d = dot8_exec(in1, &b.fc1_w, o * 32, 32);
        cr1.push(clip_shift6(b.fc1_b[o] as i64 + d));
        o += 1;
    }
    proof {
        assert(ints64(cr1@) =~= cr1_seq(*b, ints64(in1@)));
    }
    cr1
}

/// The network's output from the side to move's lanes and piece-square
/// total and the other side's, with layer stack `bkt`.
fn sf_output(net: &SfNetwork, us: &Vec<i32>, them: &Vec<i32>, pu: i64, pt: i64, bkt: usize) -> (r: Score)
    requires
        net.wf(),
        us@.len() == L1,
        them@.len() == L1,
        bkt < BUCKETS,
        -0x1_0000_0000 * 64 <= pu <= 0x1_0000_0000 * 64,
        -0x1_0000_0000 * 64 <= pt <= 0x1_0000_0000 * 64,
    ensures
        r == sat32(sf_eval_spec(net, ints32(us@), ints32(them@), pu as int, pt as int, bkt as int)),
{
    let ft = ft_transform(us, them);
    proof {
        assert(ints64(ft@) =~= ft_seq(ints32(us@), ints32(them@)));
        assert(net.buckets@[bkt as int].wf());
    }
    let b = &net.buckets[bkt];
    let fc0 = layer0(b, &ft);
    let in1 = activations(&fc0);
    let cr1 = layer1(b, &in1);
    let fc2 = b.fc2_b as i64 + dot8_exec(&cr1, &b.fc2_w, 0, 32);
    let fwd = div_trunc(fc0[L2] * 9600, 8128);
    let psqt = div_trunc(pu - pt, 2);
    let v = div_trunc(div_trunc(psqt + fc2 + fwd, 16) * 3, 5);
    if v > i32::MAX as i64 {
        i32::MAX
    } else if v < i32::MIN as i64 {
        i32::MIN
    } else {
        v as i32
    }
}

/// Evaluates a position with the network: both perspectives' accumulators
/// from scratch, the feature transform, the layer stack chosen by the piece
/// count, then positional output plus half the piece-square difference,
/// scaled to centipawns.
pub fn evaluate_sf(net: &SfNetwork, pos: &Position) -> (r: Score)
    requires
        net.wf(),
        pos.wf(),
        1 <= popcount_spec(pos.occupied_spec()) <= 32,
    ensures
        r == evaluate_sf_spec(net, *pos),
{
    let wk = pos.king_sq(Color::White);
    let bk = pos.king_sq(Color::Black);
    let (acc_w, psqt_w) = accumulate(net, pos, Color::White, wk);
    let (acc_b, psqt_b) = accumulate(net, pos, Color::Black, bk);
    let n = crate::bitboard::popcount(pos.occupied());
    let bkt = ((n - 1) / 4) as usize;
    proof {
        assert(ints32(acc_w@) =~= acc_lanes(net, *pos, Color::White));
        assert(ints32(acc_b@) =~= acc_lanes(net, *pos, Color::Black));
    }
    if pos.stm == Color::White {
        sf_output(net, &acc_w, &acc_b, psqt_w[bkt], psqt_b[bkt], bkt)
    } else {
        sf_output(net, &acc_b, &acc_w, psqt_b[bkt], psqt_w[bkt], bkt)
    }
}

} // verus!
