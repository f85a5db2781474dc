//! Laws of quantized weights and activations.
use crate::arith::{Arith, Op};
use crate::float_bits::{greater32, is_nan32, magnitude32, widened};
use crate::kernels::kquant::{
    block_d, block_dmin, dequantized, has_scales, weight_at, weight_value, KQuantKind,
    KQuantMatrix, Weight,
};
use crate::kernels::matmul::{
    act_codes, act_scales, byte_dot, kquant_dot_value, q8_q8_value, term_value, term_values,
};
use crate::kernels::native_dot::{code_dot, row_weights, term_at};
use crate::kernels::quant::{code_sum, group, law_max_magnitude, max_magnitude, quantizes};
use crate::laws::numerics::lemma_partial_sums;
use vstd::arithmetic::div_mod::lemma_fundamental_div_mod_converse;
use vstd::prelude::*;

verus! {

/// `m` is the largest magnitude of the 32 values from `32 g` on, values that are no
/// number aside.
pub open spec fn is_peak(w: Seq<u32>, g: int, m: u32) -> bool {
    &&& forall|i: int|
        32 * g <= i < 32 * g + 32 ==> #[trigger] w[i] % 0x8000_0000 <= m || w[i] % 0x8000_0000
            > 0x7f80_0000
    &&& m == 0 || exists|i: int|
        32 * g <= i < 32 * g + 32 && #[trigger] w[i] % 0x8000_0000 == m && m <= 0x7f80_0000
}

proof fn lemma_peak(w: Seq<u32>, g: int, m: u32)
    requires
        0 <= g,
        32 * g + 32 <= w.len(),
        is_peak(w, g, m),
    ensures
        max_magnitude(group(w, g)) == m,
        m <= 0x7f80_0000,
{
    let s = group(w, g);
    law_max_magnitude(s);
    let n = max_magnitude(s);
    if m != 0 {
        let i = choose|i: int|
            32 * g <= i < 32 * g + 32 && #[trigger] w[i] % 0x8000_0000 == m && m <= 0x7f80_0000;
        assert(s[i - 32 * g] == w[i]);
    }
    if n != 0 {
        let i = choose|i: int|
            0 <= i < s.len() && !is_nan32(#[trigger] s[i]) && magnitude32(s[i]) == n;
        assert(s[i] == w[32 * g + i]);
    }
}

/// Values are quantized in groups of 32: a group's scale is its largest magnitude over
/// 127, or one for a group of zeros, and a code is the low byte of its value over the scale of
/// its own group, rounded.
pub proof fn law_group_is_quantized(
    k: Arith,
    w: Seq<u32>,
    q: Seq<i8>,
    scales: Seq<u32>,
    g: int,
    m: u32,
    i: int,
)
    requires
        quantizes(k, w, q, scales),
        0 <= g < scales.len(),
        is_peak(w, g, m),
        32 * g <= i < 32 * g + 32,
    ensures
        scales[g] == (if m > 0 {
            k(Op::Div, m, 0x42fe_0000)
        } else {
            0x3f80_0000
        }),
        (q[i] + 256) % 256 == k(
            Op::Code,
            k(Op::Mul, w[i], k(Op::Div, 0x3f80_0000, scales[g])),
            0,
        ) as int % 256,
{
    lemma_peak(w, g, m);
    assert(greater32(m, 0) <==> m > 0);
    assert(q[i] == q[i] && i / 32 == g);
}

/// Activations are quantized as weights are.
pub proof fn law_acts_are_quantized(k: Arith, x: Seq<u32>)
    requires
        x.len() % 32 == 0,
    ensures
        quantizes(k, x, act_codes(k, x), act_scales(k, x)),
{
}

/// Two values share a byte of a Q4_0 block, 16 places apart: each is a nibble less 8,
/// the earlier one the low nibble.
#[verifier::spinoff_prover]
pub proof fn law_q40_codes(data: Seq<u8>, base: int, j: int, a: Weight, b: Weight)
    requires
        0 <= j < 16,
        a == weight_at(KQuantKind::Q40, data, base, j),
        b == weight_at(KQuantKind::Q40, data, base, j + 16),
    ensures
        -8 <= a.q < 8,
        -8 <= b.q < 8,
        data[base + 2 + j] == (a.q + 8) + 16 * (b.q + 8),
        a.sc == 1 && b.sc == 1 && a.m == 0 && b.m == 0,
{
}

/// Two values share a byte of a Q4_K block, 32 places apart: each is a nibble, the earlier
/// one the low one.
#[verifier::spinoff_prover]
pub proof fn law_q4k_codes(data: Seq<u8>, base: int, p: int, l: int, a: Weight, b: Weight)
    requires
        0 <= p < 4,
        0 <= l < 32,
        a == weight_at(KQuantKind::Q4K, data, base, 64 * p + l),
        b == weight_at(KQuantKind::Q4K, data, base, 64 * p + 32 + l),
    ensures
        0 <= a.q < 16,
        0 <= b.q < 16,
        data[base + 16 + 32 * p + l] == a.q + 16 * b.q,
{
    assert((64 * p + l) / 64 == p && (64 * p + 32 + l) / 64 == p);
    assert((64 * p + l) % 32 == l && (64 * p + 32 + l) % 32 == l);
}

#[verifier::spinoff_prover]
proof fn lemma_six_bits(x: int, y: int, z: int)
    requires
        0 <= x < 256,
        0 <= y < 256,
        0 <= z < 256,
    ensures
        0 <= x % 64 < 64 && 0 <= y % 64 < 64,
        0 <= z % 16 + 16 * (x / 64) < 64 && 0 <= z / 16 + 16 * (y / 64) < 64,
        x == x % 64 + 64 * ((z % 16 + 16 * (x / 64)) / 16),
        y == y % 64 + 64 * ((z / 16 + 16 * (y / 64)) / 16),
        z == (z % 16 + 16 * (x / 64)) % 16 + 16 * ((z / 16 + 16 * (y / 64)) % 16),
{
}

/// The eight groups of 32 of a Q4_K block have scales and minimums of six bits, which
/// twelve bytes hold: the low six bits of the first eight those of the first four groups,
/// the last four bytes the low nibbles of the others, and the top bits of the first eight
/// the rest.
#[verifier::spinoff_prover]
pub proof fn law_q4k_scales(
    data: Seq<u8>,
    base: int,
    i: int,
    l: int,
    r: int,
    a: Weight,
    b: Weight,
)
    requires
        0 <= i < 4,
        0 <= l < 32,
        0 <= r < 32,
        a == weight_at(KQuantKind::Q4K, data, base, 32 * i + l),
        b == weight_at(KQuantKind::Q4K, data, base, 32 * (i + 4) + r),
    ensures
        0 <= a.sc < 64,
        0 <= b.sc < 64,
        0 <= a.m < 64,
        0 <= b.m < 64,
        data[base + 4 + i] == a.sc + 64 * (b.sc / 16),
        data[base + 8 + i] == a.m + 64 * (b.m / 16),
        data[base + 12 + i] == b.sc % 16 + 16 * (b.m % 16),
{
    assert((32 * i + l) / 32 == i && (32 * (i + 4) + r) / 32 == i + 4);
    let x = data[base + 4 + i] as int;
    let y = data[base + 8 + i] as int;
    let z = data[base + 12 + i] as int;
    lemma_six_bits(x, y, z);
    assert(a.sc == x % 64);
    assert(a.m == y % 64);
    assert(b.sc == z % 16 + 16 * (x / 64));
    assert(b.m == z / 16 + 16 * (y / 64));
}

proof fn lemma_nibble_and_pair(n: int, p: int)
    requires
        0 <= n < 16,
        0 <= p < 4,
    ensures
        0 <= n + 16 * p < 64,
        (n + 16 * p) % 16 == n,
        (n + 16 * p) / 16 == p,
{
}

#[verifier::spinoff_prover]
proof fn lemma_bit_pairs(x: int, y: int, z: int, a: int, b: int, c: int, d: int)
    requires
        0 <= x < 256,
        0 <= y < 256,
        0 <= z < 256,
        a == x % 16 + 16 * (z % 4),
        b == y % 16 + 16 * (z / 4 % 4),
        c == x / 16 + 16 * (z / 16 % 4),
        d == y / 16 + 16 * (z / 64),
    ensures
        0 <= a < 64 && 0 <= b < 64 && 0 <= c < 64 && 0 <= d < 64,
        x == a % 16 + 16 * (c % 16),
        y == b % 16 + 16 * (d % 16),
        z == a / 16 + 4 * (b / 16) + 16 * (c / 16) + 64 * (d / 16),
{
    lemma_nibble_and_pair(x % 16, z % 4);
    lemma_nibble_and_pair(y % 16, z / 4 % 4);
    lemma_nibble_and_pair(x / 16, z / 16 % 4);
    lemma_nibble_and_pair(y / 16, z / 64);
    assert(z == z % 4 + 4 * (z / 4 % 4) + 16 * (z / 16 % 4) + 64 * (z / 64)) by {
        let u = z / 4;
        let v = u / 4;
        assert(z / 16 == v && z / 64 == v / 4);
    }
}

#[verifier::spinoff_prover]
proof fn lemma_q6k_code(data: Seq<u8>, base: int, half: int, g: int, l: int)
    requires
        0 <= half < 2,
        0 <= g < 4,
        0 <= l < 32,
    ensures
        ({
            let low = data[base + 64 * half + 32 * (g % 2) + l] as int;
            let high = data[base + 128 + 32 * half + l] as int;
            weight_at(KQuantKind::Q6K, data, base, 128 * half + 32 * g + l).q == (if g >= 2 {
                low / 16
            } else {
                low % 16
            }) + 16 * (if g == 0 {
                high % 4
            } else if g == 1 {
                high / 4 % 4
            } else if g == 2 {
                high / 16 % 4
            } else {
                high / 64
            }) - 32
        }),
{
    let j = 128 * half + 32 * g + l;
    assert(j / 128 == half);
    assert(j % 128 == 32 * g + l);
    assert(j % 128 / 32 == g);
    assert(j % 32 == l);
    assert(base + half * 64 + g % 2 * 32 + l == base + 64 * half + 32 * (g % 2) + l);
    assert(base + 128 + half * 32 + l == base + 128 + 32 * half + l);
}

/// Four values share two bytes of nibbles and one of bit pairs in a Q6_K block, 32 places
/// apart: each is six bits less 32.
#[verifier::spinoff_prover]
pub proof fn law_q6k_codes(
    data: Seq<u8>,
    base: int,
    half: int,
    l: int,
    a: Weight,
    b: Weight,
    c: Weight,
    d: Weight,
)
    requires
        0 <= half < 2,
        0 <= l < 32,
        a == weight_at(KQuantKind::Q6K, data, base, 128 * half + l),
        b == weight_at(KQuantKind::Q6K, data, base, 128 * half + 32 + l),
        c == weight_at(KQuantKind::Q6K, data, base, 128 * half + 64 + l),
        d == weight_at(KQuantKind::Q6K, data, base, 128 * half + 96 + l),
    ensures
        -32 <= a.q < 32 && -32 <= b.q < 32 && -32 <= c.q < 32 && -32 <= d.q < 32,
        data[base + 64 * half + l] == (a.q + 32) % 16 + 16 * ((c.q + 32) % 16),
        data[base + 64 * half + 32 + l] == (b.q + 32) % 16 + 16 * ((d.q + 32) % 16),
        data[base + 128 + 32 * half + l] == (a.q + 32) / 16 + 4 * ((b.q + 32) / 16) + 16 * ((c.q
            + 32) / 16) + 64 * ((d.q + 32) / 16),
{
    let x = data[base + 64 * half + l] as int;
    let y = data[base + 64 * half + 32 + l] as int;
    let z = data[base + 128 + 32 * half + l] as int;
    lemma_q6k_code(data, base, half, 0, l);
    lemma_q6k_code(data, base, half, 1, l);
    lemma_q6k_code(data, base, half, 2, l);
    lemma_q6k_code(data, base, half, 3, l);
    lemma_bit_pairs(x, y, z, a.q + 32, b.q + 32, c.q + 32, d.q + 32);
}

/// Every 16 values of a Q6_K block share a scale, a byte in two's complement.
#[verifier::spinoff_prover]
pub proof fn law_q6k_scales(data: Seq<u8>, base: int, s: int, l: int, a: Weight)
    requires
        0 <= s < 16,
        0 <= l < 16,
        a == weight_at(KQuantKind::Q6K, data, base, 16 * s + l),
    ensures
        -128 <= a.sc < 128,
        a.m == 0,
        data[base + 192 + s] == (if a.sc < 0 {
            a.sc + 256
        } else {
            a.sc as int
        }),
{
    let j = 16 * s + l;
    let half = j / 128;
    let g = j % 128 / 32;
    assert(half * 8 + g * 2 + j % 32 / 16 == s);
}

/// The half that scales a packed block stands in its first two bytes, for Q6_K in its last
/// two; the one that scales the minimums of a Q4_K block stands behind the first.
pub proof fn law_block_scales(data: Seq<u8>, base: int)
    ensures
        block_d(KQuantKind::Q40, data, base) == widened(
            (data[base] + 256 * data[base + 1]) as u16,
        ),
        block_d(KQuantKind::Q4K, data, base) == widened(
            (data[base] + 256 * data[base + 1]) as u16,
        ),
        block_dmin(KQuantKind::Q4K, data, base) == widened(
            (data[base + 2] + 256 * data[base + 3]) as u16,
        ),
        block_d(KQuantKind::Q6K, data, base) == widened(
            (data[base + 208] + 256 * data[base + 209]) as u16,
        ),
        block_dmin(KQuantKind::Q40, data, base) == 0,
        block_dmin(KQuantKind::Q6K, data, base) == 0,
{
}

/// The number of values in a packed block.
pub open spec fn block_values(kind: KQuantKind) -> int {
    match kind {
        KQuantKind::Q40 => 32,
        KQuantKind::Q4K => 256,
        KQuantKind::Q6K => 256,
    }
}

/// The number of bytes in a packed block.
pub open spec fn block_bytes(kind: KQuantKind) -> int {
    match kind {
        KQuantKind::Q40 => 18,
        KQuantKind::Q4K => 144,
        KQuantKind::Q6K => 210,
    }
}

/// The bits of a small integer, handed to the arithmetic.
pub open spec fn whole(k: Arith, n: int) -> u32 {
    k(Op::Integer, (n % 0x1_0000_0000) as u32, 0)
}

/// Value `j` of block `b` is the block's scale times the value's scale times its code, less
/// the block's minimum times the value's.
#[verifier::spinoff_prover]
pub proof fn law_packed_value(
    k: Arith,
    kind: KQuantKind,
    data: Seq<u8>,
    first: int,
    n: int,
    b: int,
    j: int,
    base: int,
    w: Weight,
)
    requires
        0 <= b < n,
        0 <= j < block_values(kind),
        base == (first + b) * block_bytes(kind),
        w == weight_at(kind, data, base, j),
    ensures
        dequantized(k, kind, data, first, n).len() == n * block_values(kind),
        dequantized(k, kind, data, first, n)[b * block_values(kind) + j] == k(
            Op::Sub,
            k(
                Op::Mul,
                k(Op::Mul, block_d(kind, data, base), whole(k, w.sc as int)),
                whole(k, w.q as int),
            ),
            k(Op::Mul, block_dmin(kind, data, base), whole(k, w.m as int)),
        ),
{
    let v = block_values(kind);
    assert(kind.values() == v && kind.bytes() == block_bytes(kind));
    lemma_fundamental_div_mod_converse(b * v + j, v, b, j);
    assert(0 <= b * v + j < n * v) by (nonlinear_arith)
        requires
            0 <= b < n,
            0 <= j < v,
    ;
}

#[verifier::spinoff_prover]
proof fn lemma_same_q40(data: Seq<u8>, x: int, other: Seq<u8>, y: int, j: int)
    requires
        0 <= j < 32,
        forall|i: int| 0 <= i < 18 ==> #[trigger] data[x + i] == other[y + i],
    ensures
        weight_at(KQuantKind::Q40, data, x, j) == weight_at(KQuantKind::Q40, other, y, j),
        block_d(KQuantKind::Q40, data, x) == block_d(KQuantKind::Q40, other, y),
        block_dmin(KQuantKind::Q40, data, x) == block_dmin(KQuantKind::Q40, other, y),
{
    assert(data[x + 0] == other[y + 0] && data[x + 1] == other[y + 1]);
    assert(data[x + (2 + j % 16)] == other[y + (2 + j % 16)]);
}

#[verifier::spinoff_prover]
proof fn lemma_same_q4k(data: Seq<u8>, x: int, other: Seq<u8>, y: int, j: int)
    requires
        0 <= j < 256,
        forall|i: int| 0 <= i < 144 ==> #[trigger] data[x + i] == other[y + i],
    ensures
        weight_at(KQuantKind::Q4K, data, x, j) == weight_at(KQuantKind::Q4K, other, y, j),
        block_d(KQuantKind::Q4K, data, x) == block_d(KQuantKind::Q4K, other, y),
        block_dmin(KQuantKind::Q4K, data, x) == block_dmin(KQuantKind::Q4K, other, y),
{
    assert(data[x + 0] == other[y + 0] && data[x + 1] == other[y + 1]);
    assert(data[x + 2] == other[y + 2] && data[x + 3] == other[y + 3]);
    let s = j / 32;
    assert(data[x + (4 + s)] == other[y + (4 + s)]);
    assert(data[x + (8 + s)] == other[y + (8 + s)]);
    if s >= 4 {
        assert(data[x + s] == other[y + s]);
    }
    let at = 16 + j / 64 * 32 + j % 32;
    assert(data[x + at] == other[y + at]);
}

#[verifier::spinoff_prover]
proof fn lemma_same_q6k(data: Seq<u8>, x: int, other: Seq<u8>, y: int, j: int)
    requires
        0 <= j < 256,
        forall|i: int| 0 <= i < 210 ==> #[trigger] data[x + i] == other[y + i],
    ensures
        weight_at(KQuantKind::Q6K, data, x, j) == weight_at(KQuantKind::Q6K, other, y, j),
        block_d(KQuantKind::Q6K, data, x) == block_d(KQuantKind::Q6K, other, y),
        block_dmin(KQuantKind::Q6K, data, x) == block_dmin(KQuantKind::Q6K, other, y),
{
    assert(data[x + 208] == other[y + 208] && data[x + 209] == other[y + 209]);
    let half = j / 128;
    let g = j % 128 / 32;
    let l = j % 32;
    let at = 192 + half * 8 + g * 2 + l / 16;
    assert(data[x + at] == other[y + at]);
    let low = half * 64 + g % 2 * 32 + l;
    assert(data[x + low] == other[y + low]);
    let high = 128 + half * 32 + l;
    assert(data[x + high] == other[y + high]);
}

/// Packed blocks stand alone: two blocks of the same bytes have the same values.
#[verifier::spinoff_prover]
pub proof fn law_packed_blocks_stand_alone(
    k: Arith,
    kind: KQuantKind,
    data: Seq<u8>,
    n: int,
    b: int,
    other: Seq<u8>,
    m: int,
    c: int,
    j: int,
)
    requires
        0 <= b < n,
        0 <= c < m,
        0 <= j < block_values(kind),
        n * block_bytes(kind) <= data.len(),
        m * block_bytes(kind) <= other.len(),
        forall|i: int|
            0 <= i < block_bytes(kind) ==> data[b * block_bytes(kind) + i] == #[trigger] other[c
                * block_bytes(kind) + i],
    ensures
        dequantized(k, kind, data, 0, n)[b * block_values(kind) + j] == dequantized(
            k,
            kind,
            other,
            0,
            m,
        )[c * block_values(kind) + j],
{
    let size = block_bytes(kind);
    let x = b * size;
    let y = c * size;
    let w = weight_at(kind, data, x, j);
    law_packed_value(k, kind, data, 0, n, b, j, x, w);
    law_packed_value(k, kind, other, 0, m, c, j, y, weight_at(kind, other, y, j));
    assert forall|i: int| 0 <= i < size implies #[trigger] data[x + i] == other[y + i] by {
        assert(other[c * size + i] == other[y + i]);
    }
    match kind {
        KQuantKind::Q40 => lemma_same_q40(data, x, other, y, j),
        KQuantKind::Q4K => lemma_same_q4k(data, x, other, y, j),
        KQuantKind::Q6K => lemma_same_q6k(data, x, other, y, j),
    }
}

/// The scales that a packed matrix keeps at hand are those of its blocks.
pub proof fn law_scales_at_hand(m: KQuantMatrix, b: int)
    requires
        m.wf(),
        0 <= b < m.rows * (m.cols as int / block_values(m.kind)),
    ensures
        m.kind is Q4K ==> m.dscales@[2 * b] == block_d(m.kind, m.blocks@, b * 144)
            && m.dscales@[2 * b + 1] == block_dmin(m.kind, m.blocks@, b * 144),
        m.kind is Q40 ==> m.dscales@[b] == block_d(m.kind, m.blocks@, b * 18),
        m.kind is Q6K ==> m.dscales@[b] == block_d(m.kind, m.blocks@, b * 210),
{
    assert(m.kind.values() == block_values(m.kind));
    assert(has_scales(m.kind, m.blocks@, m.dscales@, b));
}

/// A packed matrix is made of its rows, and a row of its blocks.
#[verifier::spinoff_prover]
pub proof fn law_packed_rows(k: Arith, m: KQuantMatrix, r: int, b: int, j: int, n: int)
    requires
        m.wf(),
        n == m.cols as int / block_values(m.kind),
        0 <= r < m.rows,
        0 <= b < n,
        0 <= j < block_values(m.kind),
    ensures
        m.row_values(k, r)[b * block_values(m.kind) + j] == weight_value(
            k,
            m.kind,
            m.blocks@,
            (r * n + b) * block_bytes(m.kind),
            j,
        ),
        m.all_values(k)[(r * n + b) * block_values(m.kind) + j] == weight_value(
            k,
            m.kind,
            m.blocks@,
            (r * n + b) * block_bytes(m.kind),
            j,
        ),
{
    let v = block_values(m.kind);
    assert(m.kind.values() == v && m.kind.bytes() == block_bytes(m.kind));
    let row = r * n;
    assert(0 <= r * n + b < m.rows * n) by (nonlinear_arith)
        requires
            0 <= r < m.rows,
            0 <= b < n,
    ;
    lemma_fundamental_div_mod_converse(b * v + j, v, b, j);
    lemma_fundamental_div_mod_converse((r * n + b) * v + j, v, r * n + b, j);
    let all = m.rows * n;
    let at = r * n + b;
    assert(0 <= b * v + j < n * v) by (nonlinear_arith)
        requires
            0 <= b < n,
            0 <= j < v,
    ;
    assert(0 <= at * v + j < all * v) by (nonlinear_arith)
        requires
            0 <= at < all,
            0 <= j < v,
    ;
}

/// Sums and dot products of codes take every code once.
pub proof fn law_code_sums_step(
    a: Seq<i8>,
    b: Seq<i8>,
    w: spec_fn(int) -> Weight,
    lo: int,
    n: nat,
)
    ensures
        code_sum(a, lo, 0) == 0 && byte_dot(a, b, lo, 0) == 0 && code_dot(a, w, lo, 0) == 0,
        code_sum(a, lo, n + 1) == code_sum(a, lo, n) + a[lo + n],
        byte_dot(a, b, lo, n + 1) == byte_dot(a, b, lo, n) + a[lo + n] * b[lo + n],
        code_dot(a, w, lo, n + 1) == code_dot(a, w, lo, n) + a[lo + n] * w(lo + n).q,
{
}

/// A dot product of eight-bit codes with eight-bit codes is the sum over the groups of 32
/// of the two scales times the dot product of the codes.
pub proof fn law_q8_by_q8(
    k: Arith,
    codes: Seq<i8>,
    sa: Seq<u32>,
    q: Seq<i8>,
    scales: Seq<u32>,
    part: Seq<u32>,
)
    requires
        part.len() == scales.len() + 1,
        part[0] == 0,
        forall|g: int|
            0 <= g < scales.len() ==> #[trigger] part[g + 1] == k(
                Op::Add,
                part[g],
                k(
                    Op::Mul,
                    k(Op::Mul, scales[g], sa[g]),
                    whole(k, byte_dot(codes, q, 32 * g, 32)),
                ),
            ),
    ensures
        q8_q8_value(k, codes, sa, q, scales) == part[scales.len() as int],
{
    let terms = Seq::new(
        scales.len(),
        |g: int|
            k(
                Op::Mul,
                k(Op::Mul, scales[g], sa[g]),
                crate::arith::integer(k, byte_dot(codes, q, 32 * g, 32)),
            ),
    );
    assert forall|g: int| 0 <= g < terms.len() implies #[trigger] part[g + 1] == k(
        Op::Add,
        part[g],
        terms[g],
    ) by {
        assert(part[g + 1] == k(
            Op::Add,
            part[g],
            k(Op::Mul, k(Op::Mul, scales[g], sa[g]), whole(k, byte_dot(codes, q, 32 * g, 32))),
        ));
    }
    lemma_partial_sums(k, terms, part, scales.len() as int);
    assert(terms.take(scales.len() as int) =~= terms);
}

/// The number of values that a term of a native dot product covers.
pub open spec fn term_values_wide(kind: KQuantKind) -> int {
    match kind {
        KQuantKind::Q40 => 32,
        KQuantKind::Q4K => 32,
        KQuantKind::Q6K => 16,
    }
}

/// What term `t` of the native dot product of row `r` is: the scales times the dot product
/// of the codes, less the minimum times the sum of the activation codes.
pub open spec fn is_native_term(
    k: Arith,
    m: KQuantMatrix,
    codes: Seq<i8>,
    scales: Seq<u32>,
    r: int,
    t: int,
    out: u32,
) -> bool {
    let wide = term_values_wide(m.kind);
    let lo = t * wide;
    let block = r * (m.cols as int / block_values(m.kind)) + lo / block_values(m.kind);
    let base = block * block_bytes(m.kind);
    let w = |j: int|
        weight_at(
            m.kind,
            m.blocks@,
            (r * (m.cols as int / block_values(m.kind)) + j / block_values(m.kind)) * block_bytes(
                m.kind,
            ),
            j % block_values(m.kind),
        );
    let d = block_d(m.kind, m.blocks@, base);
    let dmin = block_dmin(m.kind, m.blocks@, base);
    let sa = scales[lo / 32];
    let dot = code_dot(codes, w, lo, wide as nat) as i32;
    let sum = code_sum(codes, lo, wide as nat) as i32;
    out == match m.kind {
        KQuantKind::Q40 => k(Op::Mul, k(Op::Mul, d, sa), whole(k, dot as int)),
        KQuantKind::Q4K => k(
            Op::Mul,
            sa,
            k(
                Op::Sub,
                k(Op::Mul, k(Op::Mul, d, whole(k, w(lo).sc as int)), whole(k, dot as int)),
                k(Op::Mul, k(Op::Mul, dmin, whole(k, w(lo).m as int)), whole(k, sum as int)),
            ),
        ),
        KQuantKind::Q6K => k(
            Op::Mul,
            k(Op::Mul, k(Op::Mul, d, sa), whole(k, w(lo).sc as int)),
            whole(k, dot as int),
        ),
    }
}

/// A native dot product with a packed row is the sum of its terms, one for every run of
/// values that share their scales.
#[verifier::spinoff_prover]
pub proof fn law_native_dot_product(
    k: Arith,
    m: KQuantMatrix,
    codes: Seq<i8>,
    scales: Seq<u32>,
    r: int,
    terms: Seq<u32>,
    part: Seq<u32>,
)
    requires
        terms.len() == m.cols as int / term_values_wide(m.kind),
        forall|t: int|
            0 <= t < terms.len() ==> is_native_term(
                k,
                m,
                codes,
                scales,
                r,
                t,
                #[trigger] terms[t],
            ),
        part.len() == terms.len() + 1,
        part[0] == 0,
        forall|t: int|
            0 <= t < terms.len() ==> #[trigger] part[t + 1] == k(Op::Add, part[t], terms[t]),
    ensures
        kquant_dot_value(k, m, codes, scales, r) == part[terms.len() as int],
{
    let found = term_values(k, m, codes, scales, r);
    assert(m.kind.values() == block_values(m.kind) && m.kind.bytes() == block_bytes(m.kind));
    let w = |j: int|
        weight_at(
            m.kind,
            m.blocks@,
            (r * (m.cols as int / block_values(m.kind)) + j / block_values(m.kind)) * block_bytes(
                m.kind,
            ),
            j % block_values(m.kind),
        );
    assert(w =~= row_weights(m, r));
    assert forall|t: int| 0 <= t < terms.len() implies #[trigger] found[t] == terms[t] by {
        assert(is_native_term(k, m, codes, scales, r, t, terms[t]));
        let term = term_at(m, codes, scales, r, t);
        assert(found[t] == term_value(k, m.kind, term));
    }
    assert(found =~= terms);
    lemma_partial_sums(k, terms, part, terms.len() as int);
    assert(terms.take(terms.len() as int) =~= terms);
}

} // verus!
