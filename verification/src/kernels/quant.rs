//! Q8 block quantization: int8 values in groups of 32 that share one scale.
//!
//! Scales are singles, held as bit patterns. Finding the largest magnitude of a
//! group needs no arithmetic; the scale and the codes do.
use crate::arith::{arith, from_i32, integer, is_arith, Arith, Op, ONE};
use crate::bytes::{signed, to_i8};
use crate::float_bits::{greater32, greater_f32, is_nan32, magnitude32};
use vstd::prelude::*;

verus! {

/// Values that share one scale.
pub const Q8_BLOCK: usize = 32;

/// The largest magnitude pattern among the numbers of `s`; NaNs are passed over.
pub open spec fn max_magnitude(s: Seq<u32>) -> u32
    decreases s.len(),
{
    if s.len() == 0 {
        0
    } else {
        let m = max_magnitude(s.drop_last());
        if !is_nan32(s.last()) && magnitude32(s.last()) > m {
            magnitude32(s.last())
        } else {
            m
        }
    }
}

/// `max_magnitude` is attained, or zero, and nothing exceeds it.
pub proof fn law_max_magnitude(s: Seq<u32>)
    ensures
        forall|i: int|
            0 <= i < s.len() ==> is_nan32(#[trigger] s[i]) || magnitude32(s[i]) <= max_magnitude(s),
        max_magnitude(s) == 0 || exists|i: int|
            0 <= i < s.len() && !is_nan32(#[trigger] s[i]) && magnitude32(s[i]) == max_magnitude(s),
    decreases s.len(),
{
    if s.len() > 0 {
        let r = s.drop_last();
        law_max_magnitude(r);
        assert forall|i: int| 0 <= i < s.len() implies is_nan32(#[trigger] s[i]) || magnitude32(
            s[i],
        ) <= max_magnitude(s) by {
            if i < r.len() {
                assert(r[i] == s[i]);
            }
        }
        if max_magnitude(s) != 0 {
            if max_magnitude(s) == max_magnitude(r) && max_magnitude(r) != 0 {
                let i = choose|i: int|
                    0 <= i < r.len() && !is_nan32(#[trigger] r[i]) && magnitude32(r[i])
                        == max_magnitude(r);
                assert(s[i] == r[i]);
            } else {
                assert(magnitude32(s[s.len() - 1]) == max_magnitude(s));
            }
        }
    }
}

/// Group `g` of `w`.
pub open spec fn group(w: Seq<u32>, g: int) -> Seq<u32> {
    w.subrange(32 * g, 32 * g + 32)
}

/// The single 127, the largest code.
pub const LARGEST_CODE: u32 = 0x42fe_0000;

/// The scale of a group whose largest magnitude is `m`: `m / 127`, and one where
/// every value is zero.
pub open spec fn group_scale(k: Arith, m: u32) -> u32 {
    if greater32(m, 0) {
        k(Op::Div, m, LARGEST_CODE)
    } else {
        ONE
    }
}

/// The code of `x` at a scale: `x * (1 / scale)`, rounded.
pub open spec fn code_of(k: Arith, x: u32, scale: u32) -> i8 {
    let word = k(Op::Code, k(Op::Mul, x, k(Op::Div, ONE, scale)), 0);
    signed(word as int % 256, 128) as i8
}

/// `q` and `scales` are what quantizing `w` group by group gives: each scale
/// from the group's largest magnitude, each code from its value and the scale.
pub open spec fn quantizes(k: Arith, w: Seq<u32>, q: Seq<i8>, scales: Seq<u32>) -> bool {
    &&& q.len() == w.len()
    &&& 32 * scales.len() == w.len()
    &&& forall|g: int|
        0 <= g < scales.len() ==> #[trigger] scales[g] == group_scale(
            k,
            max_magnitude(group(w, g)),
        )
    &&& forall|i: int| 0 <= i < w.len() ==> #[trigger] q[i] == code_of(k, w[i], scales[i / 32])
}

/// There is one way to quantize a row.
pub proof fn law_quantizing_is_unique(
    k: Arith,
    w: Seq<u32>,
    q: Seq<i8>,
    scales: Seq<u32>,
    other_q: Seq<i8>,
    other_scales: Seq<u32>,
)
    requires
        quantizes(k, w, q, scales),
        quantizes(k, w, other_q, other_scales),
    ensures
        q == other_q,
        scales == other_scales,
{
    assert(scales =~= other_scales);
    assert(q =~= other_q);
}

/// Largest magnitude of the group of 32 values that starts at `base`.
fn group_max(w: &[u32], base: usize) -> (m: u32)
    requires
        base + 32 <= w.len(),
    ensures
        m == max_magnitude(w@.subrange(base as int, base + 32)),
{
    let mut m: u32 = 0;
    let mut i: usize = 0;
    let ghost block = w@.subrange(base as int, base + 32);
    while i < 32
        invariant
            base + 32 <= w.len(),
            block == w@.subrange(base as int, base + 32),
            i <= 32,
            m == max_magnitude(block.take(i as int)),
        decreases 32 - i,
    {
        let a: u32 = w[base + i] % 0x8000_0000;
        proof {
            assert(block.take(i + 1).drop_last() =~= block.take(i as int));
        }
        if a <= 0x7f80_0000 && a > m {
            m = a;
        }
        i += 1;
    }
    proof {
        assert(block.take(32) =~= block);
    }
    m
}

/// Quantizes `w`, whose length is a whole number of groups.
fn quantize_groups<F: Fn(Op, u32, u32) -> u32>(w: &[u32], calc: &F) -> (r: (Vec<i8>, Vec<u32>))
    requires
        w.len() % 32 == 0,
        is_arith(*calc),
    ensures
        quantizes(arith(*calc), w@, r.0@, r.1@),
{
    let n: usize = w.len() / 32;
    let mut q: Vec<i8> = Vec::new();
    let mut scales: Vec<u32> = Vec::new();
    let ghost k = arith(*calc);
    let mut g: usize = 0;
    while g < n
        invariant
            n == w.len() / 32,
            w.len() % 32 == 0,
            is_arith(*calc),
            k == arith(*calc),
            g <= n,
            q@.len() == 32 * g,
            scales@.len() == g,
            forall|h: int|
                0 <= h < g ==> #[trigger] scales@[h] == group_scale(k, max_magnitude(group(w@, h))),
            forall|i: int|
                0 <= i < 32 * g ==> #[trigger] q@[i] == code_of(k, w@[i], scales@[i / 32]),
        decreases n - g,
    {
        let base: usize = 32 * g;
        let m: u32 = group_max(w, base);
        let scale: u32 = if greater_f32(m, 0) {
            calc(Op::Div, m, LARGEST_CODE)
        } else {
            ONE
        };
        let inv: u32 = calc(Op::Div, ONE, scale);
        scales.push(scale);
        let mut i: usize = 0;
        while i < 32
            invariant
                base == 32 * g,
                base + 32 <= w.len(),
                is_arith(*calc),
                k == arith(*calc),
                inv == k(Op::Div, ONE, scale),
                i <= 32,
                q@.len() == base + i,
                scales@.len() == g + 1,
                scale == scales@[g as int],
                forall|c: int|
                    0 <= c < base + i ==> #[trigger] q@[c] == code_of(k, w@[c], scales@[c / 32]),
            decreases 32 - i,
        {
            let word: u32 = calc(Op::Code, calc(Op::Mul, w[base + i], inv), 0);
            q.push(to_i8((word % 256) as u8));
            i += 1;
        }
        g += 1;
    }
    (q, scales)
}

/// A row-major weight matrix stored as Q8 groups, each row in groups of its own.
#[derive(Debug)]
pub struct QuantMatrix {
    pub rows: usize,
    pub cols: usize,
    /// The codes, row after row.
    pub q: Vec<i8>,
    /// The scales, row after row.
    pub scales: Vec<u32>,
}

impl QuantMatrix {
    /// Codes for every cell, and one scale for every 32 of them.
    pub open spec fn wf(&self) -> bool {
        &&& self.cols % 32 == 0
        &&& self.q@.len() == self.rows * self.cols
        &&& 32 * self.scales@.len() == self.q@.len()
    }

    /// Wraps codes and scales.
    pub fn from_parts(rows: usize, cols: usize, q: Vec<i8>, scales: Vec<u32>) -> (m: Self)
        requires
            cols % 32 == 0,
            q@.len() == rows * cols,
            32 * scales@.len() == q@.len(),
        ensures
            m.wf(),
            m.rows == rows,
            m.cols == cols,
            m.q@ == q@,
            m.scales@ == scales@,
    {
        QuantMatrix { rows, cols, q, scales }
    }

    /// Scales per row.
    pub fn groups_per_row(&self) -> (n: usize)
        ensures
            n == self.cols / 32,
    {
        self.cols / Q8_BLOCK
    }

    /// Bytes of weight storage.
    pub fn stored_bytes(&self) -> (n: usize)
        requires
            self.q@.len() + 4 * self.scales@.len() <= usize::MAX,
        ensures
            n == self.q@.len() + 4 * self.scales@.len(),
    {
        self.q.len() + self.scales.len() * 4
    }

    /// The codes of row `r`.
    pub fn row_codes(&self, r: usize) -> (s: &[i8])
        requires
            self.wf(),
            r < self.rows,
        ensures
            s@ == self.q@.subrange(r * self.cols, r * self.cols + self.cols),
    {
        proof {
            lemma_row_in(r as int, self.rows as int, self.cols as int);
            assert(self.q.len() == self.q@.len());
        }
        vstd::slice::slice_subrange(
            self.q.as_slice(),
            r * self.cols,
            r * self.cols + self.cols,
        )
    }

    /// The scales of row `r`.
    pub fn row_scales(&self, r: usize) -> (s: &[u32])
        requires
            self.wf(),
            r < self.rows,
        ensures
            s@ == self.scales@.subrange(
                r * (self.cols / 32),
                r * (self.cols / 32) + self.cols / 32,
            ),
    {
        let n: usize = self.cols / 32;
        proof {
            lemma_row_in(r as int, self.rows as int, n as int);
            assert(self.rows * self.cols == 32 * (self.rows * n)) by (nonlinear_arith)
                requires
                    self.cols == 32 * n,
            ;
            assert(self.scales.len() == self.scales@.len());
        }
        vstd::slice::slice_subrange(self.scales.as_slice(), r * n, r * n + n)
    }
}

/// A row lies within its matrix.
pub proof fn lemma_row_in(r: int, rows: int, cols: int)
    requires
        0 <= r < rows,
        0 <= cols,
    ensures
        0 <= r * cols,
        r * cols + cols <= rows * cols,
{
    assert(r * cols + cols <= rows * cols) by (nonlinear_arith)
        requires
            0 <= r < rows,
            0 <= cols,
    ;
    assert(0 <= r * cols) by (nonlinear_arith)
        requires
            0 <= r,
            0 <= cols,
    ;
}

/// A quantized matrix takes nine bytes where a dense one takes thirty-two.
pub proof fn law_q8_compresses(m: QuantMatrix)
    requires
        m.wf(),
    ensures
        32 * (m.q@.len() + 4 * m.scales@.len()) == 9 * (4 * (m.rows * m.cols)),
{
}

/// Quantizes a dense weight matrix, given by its bit patterns.
pub fn quantize_q8<F: Fn(Op, u32, u32) -> u32>(
    rows: usize,
    cols: usize,
    w: &[u32],
    calc: &F,
) -> (m: QuantMatrix)
    requires
        w.len() == rows * cols,
        cols % 32 == 0,
        is_arith(*calc),
    ensures
        m.wf(),
        m.rows == rows,
        m.cols == cols,
        quantizes(arith(*calc), w@, m.q@, m.scales@),
{
    proof {
        let n = cols / 32;
        assert(rows * cols == 32 * (rows * n)) by (nonlinear_arith)
            requires
                cols == 32 * n,
        ;
    }
    let (q, scales) = quantize_groups(w, calc);
    QuantMatrix::from_parts(rows, cols, q, scales)
}

/// Reconstructs the dense matrix: each code times its group's scale.
pub fn dequantize_q8<F: Fn(Op, u32, u32) -> u32>(m: &QuantMatrix, calc: &F) -> (out: Vec<u32>)
    requires
        m.wf(),
        is_arith(*calc),
    ensures
        out@ == Seq::new(
            m.q@.len(),
            |i: int|
                arith(*calc)(Op::Mul, integer(arith(*calc), m.q@[i] as int), m.scales@[i / 32]),
        ),
{
    let ghost k = arith(*calc);
    let mut out: Vec<u32> = Vec::new();
    let mut i: usize = 0;
    while i < m.q.len()
        invariant
            m.wf(),
            is_arith(*calc),
            k == arith(*calc),
            i <= m.q.len(),
            out@ =~= Seq::new(
                i as nat,
                |c: int| k(Op::Mul, integer(k, m.q@[c] as int), m.scales@[c / 32]),
            ),
        decreases m.q.len() - i,
    {
        let v: u32 = calc(Op::Mul, from_i32(m.q[i] as i32, calc), m.scales[i / 32]);
        out.push(v);
        i += 1;
    }
    out
}

/// The sum of the `n` codes that start at `lo`.
pub open spec fn code_sum(q: Seq<i8>, lo: int, n: nat) -> int
    decreases n,
{
    if n == 0 {
        0
    } else {
        code_sum(q, lo, (n - 1) as nat) + q[lo + n - 1]
    }
}

/// A row of activations, quantized in groups of 32, with the sum of each group.
#[derive(Debug)]
pub struct QuantActs {
    pub q: Vec<i8>,
    pub scales: Vec<u32>,
    pub sums: Vec<i32>,
}

impl QuantActs {
    pub open spec fn wf(&self) -> bool {
        &&& self.q@.len() == 32 * self.scales@.len()
        &&& self.sums@.len() == self.scales@.len()
        &&& forall|g: int|
            0 <= g < self.sums@.len() ==> #[trigger] self.sums@[g] == code_sum(self.q@, 32 * g, 32)
    }

    /// Wraps codes and scales, and sums the codes of each group.
    pub fn from_parts(q: Vec<i8>, scales: Vec<u32>) -> (a: Self)
        requires
            q@.len() == 32 * scales@.len(),
        ensures
            a.wf(),
            a.q@ == q@,
            a.scales@ == scales@,
    {
        let mut sums: Vec<i32> = Vec::new();
        let mut g: usize = 0;
        while g < scales.len()
            invariant
                q@.len() == 32 * scales@.len(),
                q.len() == q@.len(),
                g <= scales.len(),
                sums@.len() == g,
                forall|h: int|
                    0 <= h < g ==> #[trigger] sums@[h] == code_sum(q@, 32 * h, 32),
            decreases scales.len() - g,
        {
            let mut s: i32 = 0;
            let mut i: usize = 0;
            while i < 32
                invariant
                    q@.len() == 32 * scales@.len(),
                    q.len() == q@.len(),
                    g < scales.len(),
                    i <= 32,
                    s == code_sum(q@, 32 * g, i as nat),
                    -128 * i <= s <= 128 * i,
                decreases 32 - i,
            {
                s = s + q[32 * g + i] as i32;
                i += 1;
            }
            sums.push(s);
            g += 1;
        }
        QuantActs { q, scales, sums }
    }
}

/// Quantizes a row of activations, given by their bit patterns.
pub fn quantize_acts<F: Fn(Op, u32, u32) -> u32>(x: &[u32], calc: &F) -> (a: QuantActs)
    requires
        x.len() % 32 == 0,
        is_arith(*calc),
    ensures
        a.wf(),
        quantizes(arith(*calc), x@, a.q@, a.scales@),
{
    let (q, scales) = quantize_groups(x, calc);
    QuantActs::from_parts(q, scales)
}

} // verus!
