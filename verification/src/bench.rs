//! What the benchmark multiplies, and how far quantized products are from dense
//! ones.
use crate::arith::{arith, from_usize, is_arith, natural, products, sum_of_products, total, Arith, Op, NEG_ZERO};
use crate::kernels::kquant::{KQuantKind, KQuantMatrix};
use crate::kernels::matmul::{dense_rows, matmul_f32, matmul_q8_f32, product, q8_rows};
use crate::kernels::quant::{max_magnitude, quantize_q8, quantizes, QuantMatrix};
use vstd::prelude::*;

verus! {

/// A thousandth.
pub const ACTIVATION_STEP: u32 = 0x3a83_126f;

/// Seven ten-thousandths.
pub const WEIGHT_STEP: u32 = 0x3a37_8034;

/// The sine or cosine of `0`, `step`, `2 * step` and so on.
pub open spec fn wave(k: Arith, op: Op, step: u32, n: int) -> Seq<u32> {
    Seq::new(n as nat, |i: int| k(op, k(Op::Mul, natural(k, i), step), 0))
}

/// `n` values of a wave.
pub fn wave_of<F: Fn(Op, u32, u32) -> u32>(op: Op, step: u32, n: usize, calc: &F) -> (out: Vec<u32>)
    requires
        is_arith(*calc),
    ensures
        out@ == wave(arith(*calc), op, step, n as int),
{
    let mut out: Vec<u32> = Vec::new();
    let mut i: usize = 0;
    while i < n
        invariant
            is_arith(*calc),
            i <= n,
            out@ =~= wave(arith(*calc), op, step, n as int).take(i as int),
        decreases n - i,
    {
        let v: u32 = calc(op, calc(Op::Mul, from_usize(i, calc), step), 0);
        out.push(v);
        i += 1;
    }
    out
}

/// The root of the mean square.
pub open spec fn rms_value(k: Arith, s: Seq<u32>) -> u32 {
    k(
        Op::Sqrt,
        k(Op::Div, total(k, NEG_ZERO, products(k, s, s)), natural(k, s.len() as int)),
        0,
    )
}

/// The root of the mean square.
pub fn rms<F: Fn(Op, u32, u32) -> u32>(values: &[u32], calc: &F) -> (r: u32)
    requires
        is_arith(*calc),
    ensures
        r == rms_value(arith(*calc), values@),
{
    let square: u32 = sum_of_products(values, values, calc);
    calc(Op::Sqrt, calc(Op::Div, square, from_usize(values.len(), calc)), 0)
}

/// `a[i] - b[i]`, as far as there are both.
pub open spec fn differences(k: Arith, a: Seq<u32>, b: Seq<u32>) -> Seq<u32> {
    Seq::new(
        if a.len() < b.len() {
            a.len()
        } else {
            b.len()
        },
        |i: int| k(Op::Sub, a[i], b[i]),
    )
}

/// The largest distance between values in the same place; those that cannot be
/// told are passed over.
pub fn largest_difference<F: Fn(Op, u32, u32) -> u32>(a: &[u32], b: &[u32], calc: &F) -> (r: u32)
    requires
        is_arith(*calc),
    ensures
        r == max_magnitude(differences(arith(*calc), a@, b@)),
{
    let ghost d = differences(arith(*calc), a@, b@);
    let n: usize = if a.len() < b.len() {
        a.len()
    } else {
        b.len()
    };
    let mut r: u32 = 0;
    let mut i: usize = 0;
    while i < n
        invariant
            is_arith(*calc),
            d == differences(arith(*calc), a@, b@),
            n == d.len(),
            n <= a.len(),
            n <= b.len(),
            i <= n,
            r == max_magnitude(d.take(i as int)),
        decreases n - i,
    {
        let v: u32 = calc(Op::Sub, a[i], b[i]);
        let m: u32 = v % 0x8000_0000;
        proof {
            assert(d.take(i + 1).drop_last() =~= d.take(i as int));
        }
        if m <= 0x7f80_0000 && m > r {
            r = m;
        }
        i += 1;
    }
    proof {
        assert(d.take(n as int) =~= d);
    }
    r
}

/// Byte `j` of sample block `i`: a scale of about a tenth, then a pattern.
pub open spec fn sample_byte(i: int, j: int) -> u8 {
    if j == 0 {
        0x66
    } else if j == 1 {
        0x2e
    } else {
        ((i * 31 + (j - 2) * 7) % 256) as u8
    }
}

/// Sample blocks of 4-bit weights.
pub open spec fn sample_blocks(n_blocks: int) -> Seq<u8> {
    Seq::new((n_blocks * 18) as nat, |p: int| sample_byte(p / 18, p % 18))
}

/// Only the low byte of the block's number counts.
proof fn lemma_sample_wraps(i: int, j: int)
    requires
        0 <= i,
    ensures
        (i % 256 * 31 + (j - 2) * 7) % 256 == (i * 31 + (j - 2) * 7) % 256,
{
    let low = i % 256 * 31 + (j - 2) * 7;
    assert(i * 31 + (j - 2) * 7 == 256 * (i / 256 * 31) + low);
    vstd::arithmetic::div_mod::lemma_mod_multiples_vanish(i / 256 * 31, low, 256);
}

/// Sample blocks of 4-bit weights.
pub fn sample_q40(n_blocks: usize) -> (out: Vec<u8>)
    requires
        n_blocks * 18 <= usize::MAX,
    ensures
        out@ == sample_blocks(n_blocks as int),
{
    let n: usize = n_blocks * 18;
    let mut out: Vec<u8> = Vec::new();
    let mut p: usize = 0;
    while p < n
        invariant
            n == n_blocks * 18,
            p <= n,
            out@ =~= sample_blocks(n_blocks as int).take(p as int),
        decreases n - p,
    {
        let i: usize = p / 18;
        let j: usize = p % 18;
        let b: u8 = if j == 0 {
            0x66
        } else if j == 1 {
            0x2e
        } else {
            let low: usize = i % 256;
            proof {
                lemma_sample_wraps(i as int, j as int);
            }
            ((low * 31 + (j - 2) * 7) % 256) as u8
        };
        out.push(b);
        p += 1;
    }
    out
}

/// One row of activations, and a weight matrix in three forms.
#[derive(Debug)]
pub struct Problem {
    pub k: usize,
    pub n_rows: usize,
    pub a: Vec<u32>,
    pub w: Vec<u32>,
    pub q8: QuantMatrix,
    pub q40: KQuantMatrix,
}

/// `p` is the problem of `n_rows` rows of `k`.
pub open spec fn is_problem(ar: Arith, k: int, n_rows: int, p: Problem) -> bool {
    &&& p.k == k
    &&& p.n_rows == n_rows
    &&& p.a@ == wave(ar, Op::Sin, ACTIVATION_STEP, k)
    &&& p.w@ == wave(ar, Op::Cos, WEIGHT_STEP, n_rows * k)
    &&& p.q8.wf()
    &&& p.q8.rows == n_rows
    &&& p.q8.cols == k
    &&& quantizes(ar, p.w@, p.q8.q@, p.q8.scales@)
    &&& p.q40.wf()
    &&& p.q40.rows == n_rows
    &&& p.q40.cols == k
    &&& p.q40.kind == KQuantKind::Q40
    &&& p.q40.blocks@ == sample_blocks(n_rows * (k / 32))
}

/// Makes up a problem.
pub fn problem<F: Fn(Op, u32, u32) -> u32>(k: usize, n_rows: usize, calc: &F) -> (p: Problem)
    requires
        is_arith(*calc),
        k % 32 == 0,
        n_rows * k <= usize::MAX,
    ensures
        is_problem(arith(*calc), k as int, n_rows as int, p),
        p.wf(),
{
    let ghost groups = (k / 32) as int;
    proof {
        assert(n_rows * k == 32 * (n_rows * groups)) by (nonlinear_arith)
            requires
                k == 32 * groups,
        ;
        assert(0 <= n_rows * groups) by (nonlinear_arith)
            requires
                groups >= 0,
        ;
    }
    let a: Vec<u32> = wave_of(Op::Sin, ACTIVATION_STEP, k, calc);
    let w: Vec<u32> = wave_of(Op::Cos, WEIGHT_STEP, n_rows * k, calc);
    let q8 = quantize_q8(n_rows, k, w.as_slice(), calc);
    let raw: Vec<u8> = sample_q40(n_rows * k / 32);
    let q40 = KQuantMatrix::from_raw(n_rows, k, KQuantKind::Q40, raw);
    Problem { k, n_rows, a, w, q8, q40 }
}

/// How far the quantized product is from the dense one.
#[derive(Debug, Clone, Copy, PartialEq, Eq, Structural)]
pub struct Accuracy {
    pub max_err: u32,
    /// The root mean square of the dense outputs.
    pub rms: u32,
    /// `max_err` in relation to it.
    pub rel_err: u32,
}

/// The accuracy of `quant` against `dense`.
pub open spec fn accuracy_of(ar: Arith, dense: Seq<u32>, quant: Seq<u32>) -> Accuracy {
    let max_err = max_magnitude(differences(ar, dense, quant));
    let rms = rms_value(ar, dense);
    Accuracy { max_err, rms, rel_err: ar(Op::Div, max_err, rms) }
}

impl Problem {
    /// The shapes agree.
    pub open spec fn wf(&self) -> bool {
        &&& self.a@.len() == self.k
        &&& self.w@.len() == self.n_rows * self.k
        &&& self.q8.wf()
        &&& self.q8.rows == self.n_rows
        &&& self.q8.cols == self.k
    }

    /// The dense product.
    pub open spec fn dense(&self, ar: Arith) -> Seq<u32> {
        product(
            self.a@,
            1,
            self.k as int,
            self.n_rows as int,
            dense_rows(ar, self.w@, self.k as int),
        )
    }

    /// The product with Q8 weights.
    pub open spec fn quant(&self, ar: Arith) -> Seq<u32> {
        product(self.a@, 1, self.k as int, self.n_rows as int, q8_rows(ar, self.q8))
    }

    /// Runs both products and holds them against each other.
    pub fn accuracy<F: Fn(Op, u32, u32) -> u32>(&self, calc: &F) -> (r: Accuracy)
        requires
            is_arith(*calc),
            self.wf(),
        ensures
            r == accuracy_of(arith(*calc), self.dense(arith(*calc)), self.quant(arith(*calc))),
    {
        let dense: Vec<u32> = matmul_f32(
            self.a.as_slice(),
            self.w.as_slice(),
            1,
            self.k,
            self.n_rows,
            calc,
        );
        let quant: Vec<u32> = matmul_q8_f32(self.a.as_slice(), &self.q8, 1, calc);
        let max_err: u32 = largest_difference(dense.as_slice(), quant.as_slice(), calc);
        let rms: u32 = rms(dense.as_slice(), calc);
        Accuracy { max_err, rms, rel_err: calc(Op::Div, max_err, rms) }
    }
}

} // verus!
