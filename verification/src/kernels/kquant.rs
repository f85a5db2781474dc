//! Packed quantized block formats.
//!
//! Q4_K and Q6_K are super-block formats, 256 weights per block with
//! hierarchical scales; Q4_0 holds 32 weights under one scale. A weight of any
//! of them is `d * sc * q - dmin * m`: the half-precision block scales `d` and
//! `dmin`, and small integers `sc`, `q` and `m` packed into the block.
use crate::arith::{arith, from_i32, integer, is_arith, Arith, Op};
use crate::bytes::{read_u16, signed, to_i8, u16_at};
use crate::float_bits::{f16_to_f32, widened};
use crate::kernels::quant::lemma_row_in;
use vstd::prelude::*;

verus! {

/// Width of a super-block.
pub const QK_K: usize = 256;

/// Q4_K: `d`, `dmin`, twelve bytes of 6-bit scales and mins, 128 bytes of nibbles.
pub const Q4_K_BLOCK_BYTES: usize = 144;

/// Q6_K: 128 bytes of low nibbles, 64 of high bit pairs, 16 scales, `d`.
pub const Q6_K_BLOCK_BYTES: usize = 210;

/// Width of a Q4_0 block.
pub const Q4_0_BLOCK: usize = 32;

/// Q4_0: `d`, then sixteen bytes of nibbles, the low ones first.
pub const Q4_0_BLOCK_BYTES: usize = 18;

#[derive(Debug, Clone, Copy, PartialEq, Eq, Structural)]
pub enum KQuantKind {
    Q40,
    Q4K,
    Q6K,
}

impl KQuantKind {
    pub open spec fn bytes(self) -> int {
        match self {
            KQuantKind::Q40 => 18,
            KQuantKind::Q4K => 144,
            KQuantKind::Q6K => 210,
        }
    }

    pub open spec fn values(self) -> int {
        match self {
            KQuantKind::Q40 => 32,
            _ => 256,
        }
    }

    pub open spec fn scales(self) -> int {
        match self {
            KQuantKind::Q4K => 2,
            _ => 1,
        }
    }

    /// Bytes of one packed block.
    pub fn block_bytes(self) -> (n: usize)
        ensures
            n == self.bytes(),
    {
        match self {
            KQuantKind::Q40 => Q4_0_BLOCK_BYTES,
            KQuantKind::Q4K => Q4_K_BLOCK_BYTES,
            KQuantKind::Q6K => Q6_K_BLOCK_BYTES,
        }
    }

    /// Weights per block.
    pub fn block_values(self) -> (n: usize)
        ensures
            n == self.values(),
    {
        match self {
            KQuantKind::Q40 => Q4_0_BLOCK,
            _ => QK_K,
        }
    }

    /// Half-precision scale fields per block: Q4_K has `d` and `dmin`, the
    /// others `d` alone.
    pub fn scales_per_block(self) -> (n: usize)
        ensures
            n == self.scales(),
    {
        match self {
            KQuantKind::Q4K => 2,
            _ => 1,
        }
    }
}

/// The integers of one weight.
#[derive(Debug, Clone, Copy, PartialEq, Eq, Structural)]
pub struct Weight {
    pub sc: i32,
    pub q: i32,
    pub m: i32,
}

/// The 6-bit scale of group `j` of a Q4_K block, whose packed field starts at `s`.
pub open spec fn q4k_scale(data: Seq<u8>, s: int, j: int) -> int {
    if j < 4 {
        data[s + j] as int % 64
    } else {
        data[s + j + 4] % 16 + 16 * (data[s + j - 4] / 64)
    }
}

/// The 6-bit min of group `j` of a Q4_K block.
pub open spec fn q4k_min(data: Seq<u8>, s: int, j: int) -> int {
    if j < 4 {
        data[s + j + 4] as int % 64
    } else {
        data[s + j + 4] / 16 + 16 * (data[s + j] / 64)
    }
}

/// Low or high half of a byte.
pub open spec fn nibble(b: u8, high: bool) -> int {
    if high {
        b as int / 16
    } else {
        b as int % 16
    }
}

/// Bit pair `g` of a byte.
pub open spec fn bit_pair(b: u8, g: int) -> int {
    if g == 0 {
        b as int % 4
    } else if g == 1 {
        b as int / 4 % 4
    } else if g == 2 {
        b as int / 16 % 4
    } else {
        b as int / 64
    }
}

/// Weight `j` of the block of `data` that starts at `base`.
pub open spec fn weight_at(kind: KQuantKind, data: Seq<u8>, base: int, j: int) -> Weight {
    match kind {
        // y = d * (q - 8)
        KQuantKind::Q40 => Weight {
            sc: 1,
            q: (nibble(data[base + 2 + j % 16], j >= 16) - 8) as i32,
            m: 0,
        },
        // Two 32-wide groups share 32 bytes, low nibbles then high ones.
        KQuantKind::Q4K => Weight {
            sc: q4k_scale(data, base + 4, j / 32) as i32,
            q: nibble(data[base + 16 + j / 64 * 32 + j % 32], j % 64 >= 32) as i32,
            m: q4k_min(data, base + 4, j / 32) as i32,
        },
        // Four 32-wide groups per half share 64 bytes of nibbles and 32 of bit pairs.
        KQuantKind::Q6K => {
            let half = j / 128;
            let g = j % 128 / 32;
            let l = j % 32;
            Weight {
                sc: signed(data[base + 192 + half * 8 + g * 2 + l / 16] as int, 0x80) as i32,
                q: (nibble(data[base + half * 64 + g % 2 * 32 + l], g >= 2) + 16 * bit_pair(
                    data[base + 128 + half * 32 + l],
                    g,
                ) - 32) as i32,
                m: 0,
            }
        },
    }
}

/// Offset of the `d` field of a block.
pub open spec fn d_offset(kind: KQuantKind) -> int {
    match kind {
        KQuantKind::Q6K => 208,
        _ => 0,
    }
}

/// The `d` of the block that starts at `base`, as a single.
pub open spec fn block_d(kind: KQuantKind, data: Seq<u8>, base: int) -> u32 {
    widened(u16_at(data, base + d_offset(kind)))
}

/// The `dmin` of the block that starts at `base`; zero where the format has none.
pub open spec fn block_dmin(kind: KQuantKind, data: Seq<u8>, base: int) -> u32 {
    match kind {
        KQuantKind::Q4K => widened(u16_at(data, base + 2)),
        _ => 0,
    }
}

/// The integers of a weight are small.
pub proof fn lemma_weight_range(kind: KQuantKind, data: Seq<u8>, base: int, j: int)
    requires
        0 <= base,
        0 <= j < kind.values(),
        base + kind.bytes() <= data.len(),
    ensures
        -128 <= weight_at(kind, data, base, j).sc <= 127,
        -32 <= weight_at(kind, data, base, j).q <= 31,
        0 <= weight_at(kind, data, base, j).m <= 63,
{
}

/// Unpack the 6-bit (scale, min) pair `j` of a Q4_K block from its packed field.
pub fn q4k_scale_min(j: usize, s: &[u8]) -> (r: (u8, u8))
    requires
        j < 8,
        s.len() >= 12,
    ensures
        r.0 == q4k_scale(s@, 0, j as int),
        r.1 == q4k_min(s@, 0, j as int),
{
    if j < 4 {
        (s[j] % 64, s[j + 4] % 64)
    } else {
        (s[j + 4] % 16 + 16 * (s[j - 4] / 64), s[j + 4] / 16 + 16 * (s[j] / 64))
    }
}

fn nibble_of(b: u8, high: bool) -> (n: u8)
    ensures
        n == nibble(b, high),
        n < 16,
{
    if high {
        b / 16
    } else {
        b % 16
    }
}

fn bit_pair_of(b: u8, g: usize) -> (n: u8)
    ensures
        n == bit_pair(b, g as int),
        n < 4,
{
    if g == 0 {
        b % 4
    } else if g == 1 {
        b / 4 % 4
    } else if g == 2 {
        b / 16 % 4
    } else {
        b / 64
    }
}

/// Unpack weight `j` of the block that starts at `base`.
pub fn unpack_weight(kind: KQuantKind, data: &[u8], base: usize, j: usize) -> (w: Weight)
    requires
        j < kind.values(),
        base + kind.bytes() <= data.len(),
    ensures
        w == weight_at(kind, data@, base as int, j as int),
{
    match kind {
        KQuantKind::Q40 => {
            let q: u8 = nibble_of(data[base + 2 + j % 16], j >= 16);
            Weight { sc: 1, q: q as i32 - 8, m: 0 }
        },
        KQuantKind::Q4K => {
            let g: usize = j / 32;
            let s: usize = base + 4;
            let q: u8 = nibble_of(data[base + 16 + j / 64 * 32 + j % 32], j % 64 >= 32);
            let sc: u8 = if g < 4 {
                data[s + g] % 64
            } else {
                data[s + g + 4] % 16 + 16 * (data[s + g - 4] / 64)
            };
            let m: u8 = if g < 4 {
                data[s + g + 4] % 64
            } else {
                data[s + g + 4] / 16 + 16 * (data[s + g] / 64)
            };
            Weight { sc: sc as i32, q: q as i32, m: m as i32 }
        },
        KQuantKind::Q6K => {
            let half: usize = j / 128;
            let g: usize = j % 128 / 32;
            let l: usize = j % 32;
            let low: u8 = nibble_of(data[base + half * 64 + g % 2 * 32 + l], g >= 2);
            let high: u8 = bit_pair_of(data[base + 128 + half * 32 + l], g);
            let sc: i8 = to_i8(data[base + 192 + half * 8 + g * 2 + l / 16]);
            Weight { sc: sc as i32, q: low as i32 + 16 * (high as i32) - 32, m: 0 }
        },
    }
}

/// The `d` and `dmin` of the block that starts at `base`.
pub fn unpack_scales(kind: KQuantKind, data: &[u8], base: usize) -> (r: (u32, u32))
    requires
        base + kind.bytes() <= data.len(),
    ensures
        r.0 == block_d(kind, data@, base as int),
        r.1 == block_dmin(kind, data@, base as int),
{
    match kind {
        KQuantKind::Q40 => (f16_to_f32(read_u16(data, base)), 0),
        KQuantKind::Q4K => (
            f16_to_f32(read_u16(data, base)),
            f16_to_f32(read_u16(data, base + 2)),
        ),
        KQuantKind::Q6K => (f16_to_f32(read_u16(data, base + 208)), 0),
    }
}

/// `d * sc * q - dmin * m`.
pub open spec fn affine(k: Arith, d: u32, sc: int, q: int, dmin: u32, m: int) -> u32 {
    k(
        Op::Sub,
        k(Op::Mul, k(Op::Mul, d, integer(k, sc)), integer(k, q)),
        k(Op::Mul, dmin, integer(k, m)),
    )
}

/// Weight `j` of the block at `base`, multiplied out.
pub open spec fn weight_value(k: Arith, kind: KQuantKind, data: Seq<u8>, base: int, j: int) -> u32 {
    let w = weight_at(kind, data, base, j);
    affine(
        k,
        block_d(kind, data, base),
        w.sc as int,
        w.q as int,
        block_dmin(kind, data, base),
        w.m as int,
    )
}

/// The weights of the block at `base`, multiplied out.
pub open spec fn block_weights(k: Arith, kind: KQuantKind, data: Seq<u8>, base: int) -> Seq<u32> {
    Seq::new(kind.values() as nat, |j: int| weight_value(k, kind, data, base, j))
}

/// Dequantize the block that starts at `base`, appending its weights to `out`.
pub fn dequant_block<F: Fn(Op, u32, u32) -> u32>(
    kind: KQuantKind,
    data: &[u8],
    base: usize,
    out: &mut Vec<u32>,
    calc: &F,
)
    requires
        base + kind.bytes() <= data.len(),
        is_arith(*calc),
    ensures
        final(out)@ == old(out)@ + block_weights(arith(*calc), kind, data@, base as int),
{
    let (d, dmin) = unpack_scales(kind, data, base);
    let n: usize = kind.block_values();
    let ghost all = block_weights(arith(*calc), kind, data@, base as int);
    let mut j: usize = 0;
    while j < n
        invariant
            base + kind.bytes() <= data.len(),
            is_arith(*calc),
            n == kind.values(),
            j <= n,
            d == block_d(kind, data@, base as int),
            dmin == block_dmin(kind, data@, base as int),
            all == block_weights(arith(*calc), kind, data@, base as int),
            out@ =~= old(out)@ + all.take(j as int),
        decreases n - j,
    {
        let w = unpack_weight(kind, data, base, j);
        let scaled: u32 = calc(
            Op::Mul,
            calc(Op::Mul, d, from_i32(w.sc, calc)),
            from_i32(w.q, calc),
        );
        let v: u32 = calc(Op::Sub, scaled, calc(Op::Mul, dmin, from_i32(w.m, calc)));
        proof {
            assert(v == all[j as int]);
        }
        out.push(v);
        j += 1;
    }
}

/// Dequantize one Q4_0 block, appending its 32 weights to `out`.
pub fn dequant_q40_block<F: Fn(Op, u32, u32) -> u32>(b: &[u8], out: &mut Vec<u32>, calc: &F)
    requires
        b.len() >= 18,
        is_arith(*calc),
    ensures
        final(out)@ == old(out)@ + block_weights(arith(*calc), KQuantKind::Q40, b@, 0),
{
    dequant_block(KQuantKind::Q40, b, 0, out, calc);
}

/// Dequantize one Q4_K block, appending its 256 weights to `out`.
pub fn dequant_q4k_block<F: Fn(Op, u32, u32) -> u32>(b: &[u8], out: &mut Vec<u32>, calc: &F)
    requires
        b.len() >= 144,
        is_arith(*calc),
    ensures
        final(out)@ == old(out)@ + block_weights(arith(*calc), KQuantKind::Q4K, b@, 0),
{
    dequant_block(KQuantKind::Q4K, b, 0, out, calc);
}

/// Dequantize one Q6_K block, appending its 256 weights to `out`.
pub fn dequant_q6k_block<F: Fn(Op, u32, u32) -> u32>(b: &[u8], out: &mut Vec<u32>, calc: &F)
    requires
        b.len() >= 210,
        is_arith(*calc),
    ensures
        final(out)@ == old(out)@ + block_weights(arith(*calc), KQuantKind::Q6K, b@, 0),
{
    dequant_block(KQuantKind::Q6K, b, 0, out, calc);
}

/// What blocks `first..first + n` of `data` dequantize to.
pub open spec fn dequantized(
    k: Arith,
    kind: KQuantKind,
    data: Seq<u8>,
    first: int,
    n: int,
) -> Seq<u32> {
    Seq::new(
        (n * kind.values()) as nat,
        |i: int|
            weight_value(
                k,
                kind,
                data,
                (first + i / kind.values()) * kind.bytes(),
                i % kind.values(),
            ),
    )
}

/// Dequantizes `n` blocks, from block `first` on.
pub fn dequant_blocks<F: Fn(Op, u32, u32) -> u32>(
    kind: KQuantKind,
    data: &[u8],
    first: usize,
    n: usize,
    calc: &F,
) -> (out: Vec<u32>)
    requires
        (first + n) * kind.bytes() <= data.len(),
        is_arith(*calc),
    ensures
        out@ == dequantized(arith(*calc), kind, data@, first as int, n as int),
{
    let mut out: Vec<u32> = Vec::new();
    let mut c: usize = 0;
    let bb: usize = kind.block_bytes();
    let ghost k = arith(*calc);
    while c < n
        invariant
            (first + n) * kind.bytes() <= data.len(),
            is_arith(*calc),
            k == arith(*calc),
            bb == kind.bytes(),
            c <= n,
            out@ =~= dequantized(k, kind, data@, first as int, c as int),
        decreases n - c,
    {
        let ghost before = out@;
        let ghost v = kind.values();
        proof {
            assert((first + c) * bb + bb <= (first + n) * bb) by (nonlinear_arith)
                requires
                    c < n,
                    bb >= 0,
            ;
            assert(first + c <= (first + c) * bb) by (nonlinear_arith)
                requires
                    bb >= 1,
                    first + c >= 0,
            ;
        }
        dequant_block(kind, data, (first + c) * bb, &mut out, calc);
        proof {
            let all = dequantized(k, kind, data@, first as int, c + 1);
            assert forall|i: int| 0 <= i < out@.len() implies out@[i] == all[i] by {
                if i < c * v {
                    assert(out@[i] == before[i]);
                } else {
                    let j = i - c * v;
                    if kind == KQuantKind::Q40 {
                        assert(i / 32 == c && i % 32 == j);
                    } else {
                        assert(i / 256 == c && i % 256 == j);
                    }
                }
            }
            assert(out@ =~= all);
        }
        c += 1;
    }
    out
}

/// A row-major matrix of packed blocks, each row a whole number of them.
#[derive(Debug)]
pub struct KQuantMatrix {
    pub rows: usize,
    pub cols: usize,
    pub kind: KQuantKind,
    /// The blocks, row after row.
    pub blocks: Vec<u8>,
    /// The block scales as singles, in the order of the blocks: they are
    /// widened once, at load, not in every product.
    pub dscales: Vec<u32>,
}

/// The scales of block `n` of `data` are where `dscales` has them.
pub open spec fn has_scales(kind: KQuantKind, data: Seq<u8>, dscales: Seq<u32>, n: int) -> bool {
    let base = n * kind.bytes();
    match kind {
        KQuantKind::Q4K => dscales[2 * n] == block_d(kind, data, base) && dscales[2 * n + 1]
            == block_dmin(kind, data, base),
        _ => dscales[n] == block_d(kind, data, base),
    }
}

impl KQuantMatrix {
    /// Blocks in a row.
    pub open spec fn row_blocks(&self) -> int {
        self.cols as int / self.kind.values()
    }

    /// As many blocks as the cells need, and their scales.
    pub open spec fn wf(&self) -> bool {
        &&& self.cols as int % self.kind.values() == 0
        &&& self.rows * self.cols <= usize::MAX
        &&& self.blocks@.len() == self.rows * self.row_blocks() * self.kind.bytes()
        &&& self.dscales@.len() == self.rows * self.row_blocks() * self.kind.scales()
        &&& forall|n: int|
            0 <= n < self.rows * self.row_blocks() ==> #[trigger] has_scales(
                self.kind,
                self.blocks@,
                self.dscales@,
                n,
            )
    }

    /// Row `r`, multiplied out.
    pub open spec fn row_values(&self, k: Arith, r: int) -> Seq<u32> {
        dequantized(k, self.kind, self.blocks@, r * self.row_blocks(), self.row_blocks())
    }

    /// The whole matrix, multiplied out.
    pub open spec fn all_values(&self, k: Arith) -> Seq<u32> {
        dequantized(k, self.kind, self.blocks@, 0, self.rows * self.row_blocks())
    }

    /// Weight `j` of row `r`.
    pub open spec fn weight(&self, r: int, j: int) -> Weight {
        weight_at(
            self.kind,
            self.blocks@,
            (r * self.row_blocks() + j / self.kind.values()) * self.kind.bytes(),
            j % self.kind.values(),
        )
    }

    /// Wrap raw packed bytes, of which there must be as many as the shape asks.
    pub fn from_raw(rows: usize, cols: usize, kind: KQuantKind, blocks: Vec<u8>) -> (m: Self)
        requires
            cols as int % kind.values() == 0,
            rows * cols <= usize::MAX,
            blocks@.len() == rows * (cols as int / kind.values()) * kind.bytes(),
        ensures
            m.wf(),
            m.rows == rows,
            m.cols == cols,
            m.kind == kind,
            m.blocks@ == blocks@,
    {
        let bb: usize = kind.block_bytes();
        let n: usize = blocks.len() / bb;
        let ghost total = rows * (cols as int / kind.values());
        proof {
            assert(n == total) by (nonlinear_arith)
                requires
                    n == (total * bb) / (bb as int),
                    bb > 0,
            ;
        }
        let mut dscales: Vec<u32> = Vec::new();
        let mut k: usize = 0;
        while k < n
            invariant
                bb == kind.bytes(),
                n == blocks.len() / bb,
                blocks@.len() == n * bb,
                k <= n,
                dscales@.len() == k * kind.scales(),
                forall|i: int|
                    0 <= i < k ==> #[trigger] has_scales(kind, blocks@, dscales@, i),
            decreases n - k,
        {
            let ghost before = dscales@;
            proof {
                assert(k * bb + bb <= n * bb) by (nonlinear_arith)
                    requires
                        k < n,
                        bb >= 0,
                ;
            }
            let (d, dmin) = unpack_scales(kind, blocks.as_slice(), k * bb);
            dscales.push(d);
            if kind == KQuantKind::Q4K {
                dscales.push(dmin);
            }
            proof {
                assert forall|i: int| 0 <= i < k + 1 implies #[trigger] has_scales(
                    kind,
                    blocks@,
                    dscales@,
                    i,
                ) by {
                    if i < k {
                        assert(has_scales(kind, blocks@, before, i));
                    }
                }
            }
            k += 1;
        }
        KQuantMatrix { rows, cols, kind, blocks, dscales }
    }

    /// The block format.
    pub fn kind(&self) -> (k: KQuantKind)
        ensures
            k == self.kind,
    {
        self.kind
    }

    /// Bytes of packed storage.
    pub fn stored_bytes(&self) -> (n: usize)
        ensures
            n == self.blocks@.len(),
    {
        self.blocks.len()
    }

    /// A row's blocks, and all before them, are there.
    proof fn lemma_row_blocks(&self, r: int)
        requires
            self.wf(),
            0 <= r < self.rows,
        ensures
            0 <= r * self.row_blocks(),
            r * self.row_blocks() + self.row_blocks() <= self.rows * self.row_blocks(),
            (r * self.row_blocks() + self.row_blocks()) * self.kind.bytes() <= self.blocks@.len(),
            (r * self.row_blocks() + self.row_blocks()) * self.kind.scales() <= self.dscales@.len(),
            self.row_blocks() * self.kind.values() == self.cols,
    {
        let n = self.row_blocks();
        let a = r * n + n;
        let t = self.rows * n;
        lemma_row_in(r, self.rows as int, n);
        let bb = self.kind.bytes();
        let sc = self.kind.scales();
        assert(a * bb <= t * bb && a * sc <= t * sc) by (nonlinear_arith)
            requires
                a <= t,
                bb >= 0,
                sc >= 0,
        ;
        vstd::arithmetic::div_mod::lemma_fundamental_div_mod(
            self.cols as int,
            self.kind.values(),
        );
        let v = self.kind.values();
        assert(v * n == n * v) by (nonlinear_arith);
    }

    /// The packed bytes of row `r`.
    pub fn row(&self, r: usize) -> (s: &[u8])
        requires
            self.wf(),
            r < self.rows,
        ensures
            s@ == self.blocks@.subrange(
                r * self.row_blocks() * self.kind.bytes(),
                (r * self.row_blocks() + self.row_blocks()) * self.kind.bytes(),
            ),
    {
        let n: usize = self.cols / self.kind.block_values();
        let bb: usize = self.kind.block_bytes();
        proof {
            self.lemma_row_blocks(r as int);
            assert(self.blocks.len() == self.blocks@.len());
            self.lemma_block_products(r as int, bb as int);
        }
        vstd::slice::slice_subrange(self.blocks.as_slice(), r * n * bb, (r * n + n) * bb)
    }

    proof fn lemma_block_products(&self, r: int, bb: int)
        requires
            0 <= r,
            bb >= 1,
        ensures
            0 <= r * self.row_blocks() <= r * self.row_blocks() * bb,
            r * self.row_blocks() * bb <= (r * self.row_blocks() + self.row_blocks()) * bb,
            r * self.row_blocks() + self.row_blocks() <= (r * self.row_blocks() + self.row_blocks())
                * bb,
    {
        let n = self.row_blocks();
        assert(n >= 0);
        let a = r * n;
        assert(0 <= a) by (nonlinear_arith)
            requires
                a == r * n,
                r >= 0,
                n >= 0,
        ;
        assert(a <= a * bb && a * bb <= (a + n) * bb && a + n <= (a + n) * bb) by (nonlinear_arith)
            requires
                a >= 0,
                n >= 0,
                bb >= 1,
        ;
    }

    /// The block scales of row `r`.
    pub fn row_dscales(&self, r: usize) -> (s: &[u32])
        requires
            self.wf(),
            r < self.rows,
        ensures
            s@ == self.dscales@.subrange(
                r * self.row_blocks() * self.kind.scales(),
                (r * self.row_blocks() + self.row_blocks()) * self.kind.scales(),
            ),
    {
        let n: usize = self.cols / self.kind.block_values();
        let sc: usize = self.kind.scales_per_block();
        proof {
            self.lemma_row_blocks(r as int);
            assert(self.dscales.len() == self.dscales@.len());
            self.lemma_block_products(r as int, sc as int);
        }
        vstd::slice::slice_subrange(self.dscales.as_slice(), r * n * sc, (r * n + n) * sc)
    }

    /// Dequantize one row.
    pub fn dequantize_row<F: Fn(Op, u32, u32) -> u32>(&self, r: usize, calc: &F) -> (out: Vec<u32>)
        requires
            self.wf(),
            r < self.rows,
            is_arith(*calc),
        ensures
            out@.len() == self.cols,
            out@ == self.row_values(arith(*calc), r as int),
    {
        let n: usize = self.cols / self.kind.block_values();
        proof {
            self.lemma_row_blocks(r as int);
            assert(self.blocks.len() == self.blocks@.len());
            self.lemma_block_products(r as int, self.kind.bytes());
        }
        dequant_blocks(self.kind, self.blocks.as_slice(), r * n, n, calc)
    }

    /// Dequantize the whole matrix.
    pub fn dequantize<F: Fn(Op, u32, u32) -> u32>(&self, calc: &F) -> (out: Vec<u32>)
        requires
            self.wf(),
            is_arith(*calc),
        ensures
            out@ == self.all_values(arith(*calc)),
    {
        let n: usize = self.blocks.len() / self.kind.block_bytes();
        proof {
            let t = self.rows * self.row_blocks();
            let bb = self.kind.bytes();
            assert(n == t) by (nonlinear_arith)
                requires
                    n == (t * bb) / bb,
                    bb > 0,
            ;
        }
        dequant_blocks(self.kind, self.blocks.as_slice(), 0, n, calc)
    }
}

/// A packed matrix takes a block's bytes for every block's worth of weights.
pub proof fn law_packed_compresses(m: KQuantMatrix)
    requires
        m.wf(),
    ensures
        m.blocks@.len() * m.kind.values() == m.rows * m.cols * m.kind.bytes(),
{
    let n = m.row_blocks();
    let v = m.kind.values();
    let b = m.kind.bytes();
    vstd::arithmetic::div_mod::lemma_fundamental_div_mod(m.cols as int, v);
    assert(m.rows * n * b * v == m.rows * (v * n) * b) by (nonlinear_arith);
}

/// Dequantizing one row gives that row of the whole matrix dequantized.
pub proof fn law_row_is_part_of_whole(k: Arith, m: KQuantMatrix, r: int)
    requires
        m.wf(),
        0 <= r < m.rows,
    ensures
        m.row_values(k, r) == m.all_values(k).subrange(r * m.cols, r * m.cols + m.cols),
{
    m.lemma_row_blocks(r);
    let n = m.row_blocks();
    let v = m.kind.values();
    let row = m.row_values(k, r);
    let whole = m.all_values(k);
    lemma_row_in(r, m.rows as int, m.cols as int);
    assert(m.rows * n * v == m.rows * m.cols) by (nonlinear_arith)
        requires
            n * v == m.cols,
    ;
    let part = whole.subrange(r * m.cols, r * m.cols + m.cols);
    assert forall|i: int| 0 <= i < row.len() implies row[i] == part[i] by {
        let c = r * m.cols + i;
        assert(c == (r * n) * v + i) by (nonlinear_arith)
            requires
                c == r * m.cols + i,
                n * v == m.cols,
        ;
        vstd::arithmetic::div_mod::lemma_fundamental_div_mod(i, v);
        let a = r * n;
        assert(c / v == a + i / v && c % v == i % v) by {
            vstd::arithmetic::div_mod::lemma_fundamental_div_mod_converse(
                c,
                v,
                a + i / v,
                i % v,
            );
        }
    }
    assert(row =~= part);
}

} // verus!
