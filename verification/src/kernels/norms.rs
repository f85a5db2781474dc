//! Normalization, activations and softmax: what stands between the matmuls.
use crate::arith::{
    arith, from_usize, multiply_all, is_arith, natural, products, scale_all, scaled, sum_of_products, total, Arith, Op, HALF,
    NEG_INFINITY, NEG_ZERO, ONE, ZERO,
};
use crate::float_bits::{greater32, greater_f32};
use crate::kernels::rows::{is_rows, lemma_is_rows_push, row_of, row_slice};
use vstd::prelude::*;

verus! {

/// What a row is multiplied by to make its mean square one:
/// `1 / sqrt(mean(x * x) + eps)`.
pub open spec fn norm_factor(k: Arith, row: Seq<u32>, eps: u32) -> u32 {
    let mean = k(Op::Div, total(k, NEG_ZERO, products(k, row, row)), natural(k, row.len() as int));
    k(Op::Div, ONE, k(Op::Sqrt, k(Op::Add, mean, eps), 0))
}

/// A row, normalized and weighted.
pub open spec fn normed(k: Arith, row: Seq<u32>, weight: Seq<u32>, eps: u32) -> Seq<u32> {
    products(k, scaled(k, row, norm_factor(k, row, eps)), weight)
}

/// One row of `rmsnorm`.
pub fn norm_row<F: Fn(Op, u32, u32) -> u32>(
    row: &[u32],
    weight: &[u32],
    eps: u32,
    calc: &F,
) -> (out: Vec<u32>)
    requires
        is_arith(*calc),
        weight.len() == row.len(),
    ensures
        out@ == normed(arith(*calc), row@, weight@, eps),
{
    let mean: u32 = calc(Op::Div, sum_of_products(row, row, calc), from_usize(row.len(), calc));
    let inv: u32 = calc(Op::Div, ONE, calc(Op::Sqrt, calc(Op::Add, mean, eps), 0));
    let unit: Vec<u32> = scale_all(row, inv, calc);
    multiply_all(unit.as_slice(), weight, calc)
}

/// RMSNorm over the last dimension: `x` has `rows` rows of `dim` values, each
/// divided by its root mean square and multiplied by `weight`.
pub fn rmsnorm<F: Fn(Op, u32, u32) -> u32>(
    x: &[u32],
    weight: &[u32],
    rows: usize,
    dim: usize,
    eps: u32,
    calc: &F,
) -> (out: Vec<u32>)
    requires
        is_arith(*calc),
        x.len() == rows * dim,
        weight.len() == dim,
    ensures
        is_rows(
            out@,
            rows as int,
            dim as int,
            |r: int| normed(arith(*calc), row_of(x@, r, dim as int), weight@, eps),
        ),
{
    let mut out: Vec<u32> = Vec::new();
    let mut r: usize = 0;
    let ghost f = |r: int| normed(arith(*calc), row_of(x@, r, dim as int), weight@, eps);
    while r < rows
        invariant
            is_arith(*calc),
            x.len() == rows * dim,
            weight.len() == dim,
            f == (|r: int| normed(arith(*calc), row_of(x@, r, dim as int), weight@, eps)),
            r <= rows,
            is_rows(out@, r as int, dim as int, f),
        decreases rows - r,
    {
        let row: &[u32] = row_slice(x, r, dim, Ghost(rows as int));
        let mut y: Vec<u32> = norm_row(row, weight, eps, calc);
        proof {
            lemma_is_rows_push(out@, y@, r as int, dim as int, f);
        }
        out.append(&mut y);
        r += 1;
    }
    out
}

/// `x * sigmoid(x)`.
pub open spec fn silu_value(k: Arith, x: u32) -> u32 {
    k(Op::Mul, x, k(Op::Div, ONE, k(Op::Add, ONE, k(Op::Exp, k(Op::Neg, x, 0), 0))))
}

/// SiLU in place, the nonlinearity of SwiGLU.
pub fn silu<F: Fn(Op, u32, u32) -> u32>(x: &mut Vec<u32>, calc: &F)
    requires
        is_arith(*calc),
    ensures
        final(x)@ == old(x)@.map_values(|v: u32| silu_value(arith(*calc), v)),
{
    let ghost before = x@;
    let n: usize = x.len();
    let mut i: usize = 0;
    while i < n
        invariant
            is_arith(*calc),
            n == before.len(),
            x@.len() == n,
            i <= n,
            forall|j: int| 0 <= j < i ==> #[trigger] x@[j] == silu_value(arith(*calc), before[j]),
            forall|j: int| i <= j < n ==> #[trigger] x@[j] == before[j],
        decreases n - i,
    {
        let v: u32 = x[i];
        let denominator: u32 = calc(Op::Add, ONE, calc(Op::Exp, calc(Op::Neg, v, 0), 0));
        let y: u32 = calc(Op::Mul, v, calc(Op::Div, ONE, denominator));
        x.set(i, y);
        i += 1;
    }
    proof {
        assert(x@ =~= before.map_values(|v: u32| silu_value(arith(*calc), v)));
    }
}

/// The square root of `2 / pi`.
pub const SQRT_2_OVER_PI: u32 = 0x3f4c_422a;

/// `0.044715`.
pub const GELU_CUBIC: u32 = 0x3d37_2713;

/// `x / 2 * (1 + tanh(sqrt(2 / pi) * (x + 0.044715 * x^3)))`.
pub open spec fn gelu_value(k: Arith, x: u32) -> u32 {
    let cube = k(Op::Mul, k(Op::Mul, x, x), x);
    let inner = k(Op::Mul, SQRT_2_OVER_PI, k(Op::Add, x, k(Op::Mul, GELU_CUBIC, cube)));
    k(Op::Mul, k(Op::Mul, HALF, x), k(Op::Add, ONE, k(Op::Tanh, inner, 0)))
}

/// Tanh-approximated GELU in place.
pub fn gelu_tanh<F: Fn(Op, u32, u32) -> u32>(x: &mut Vec<u32>, calc: &F)
    requires
        is_arith(*calc),
    ensures
        final(x)@ == old(x)@.map_values(|v: u32| gelu_value(arith(*calc), v)),
{
    let ghost before = x@;
    let n: usize = x.len();
    let mut i: usize = 0;
    while i < n
        invariant
            is_arith(*calc),
            n == before.len(),
            x@.len() == n,
            i <= n,
            forall|j: int| 0 <= j < i ==> #[trigger] x@[j] == gelu_value(arith(*calc), before[j]),
            forall|j: int| i <= j < n ==> #[trigger] x@[j] == before[j],
        decreases n - i,
    {
        let v: u32 = x[i];
        let cube: u32 = calc(Op::Mul, calc(Op::Mul, v, v), v);
        let inner: u32 = calc(
            Op::Mul,
            SQRT_2_OVER_PI,
            calc(Op::Add, v, calc(Op::Mul, GELU_CUBIC, cube)),
        );
        let y: u32 = calc(
            Op::Mul,
            calc(Op::Mul, HALF, v),
            calc(Op::Add, ONE, calc(Op::Tanh, inner, 0)),
        );
        x.set(i, y);
        i += 1;
    }
    proof {
        assert(x@ =~= before.map_values(|v: u32| gelu_value(arith(*calc), v)));
    }
}

/// The largest of the values, minus infinity if there are none.
pub open spec fn maximum(k: Arith, s: Seq<u32>) -> u32
    decreases s.len(),
{
    if s.len() == 0 {
        NEG_INFINITY
    } else {
        k(Op::Max, maximum(k, s.drop_last()), s.last())
    }
}

/// `exp(x - max)` of every value.
pub open spec fn exponentials(k: Arith, s: Seq<u32>) -> Seq<u32> {
    Seq::new(s.len(), |i: int| k(Op::Exp, k(Op::Sub, s[i], maximum(k, s)), 0))
}

/// The softmax of `s`: `exp(x - max)`, divided by the sum of these. Should the
/// sum not be positive, every value is multiplied by zero instead.
pub open spec fn softmaxed(k: Arith, s: Seq<u32>) -> Seq<u32> {
    let e = exponentials(k, s);
    let sum = total(k, NEG_ZERO, e);
    scaled(
        k,
        e,
        if greater32(sum, ZERO) {
            k(Op::Div, ONE, sum)
        } else {
            ZERO
        },
    )
}

/// Numerically stable softmax of one vector.
pub fn softmax<F: Fn(Op, u32, u32) -> u32>(logits: &[u32], calc: &F) -> (out: Vec<u32>)
    requires
        is_arith(*calc),
    ensures
        out@ == softmaxed(arith(*calc), logits@),
{
    let n: usize = logits.len();
    let mut max: u32 = NEG_INFINITY;
    let mut i: usize = 0;
    while i < n
        invariant
            is_arith(*calc),
            n == logits.len(),
            i <= n,
            max == maximum(arith(*calc), logits@.take(i as int)),
        decreases n - i,
    {
        proof {
            assert(logits@.take(i + 1).drop_last() =~= logits@.take(i as int));
        }
        max = calc(Op::Max, max, logits[i]);
        i += 1;
    }
    proof {
        assert(logits@.take(n as int) =~= logits@);
    }
    let ghost e = exponentials(arith(*calc), logits@);
    let mut exps: Vec<u32> = Vec::new();
    let mut sum: u32 = NEG_ZERO;
    let mut j: usize = 0;
    while j < n
        invariant
            is_arith(*calc),
            n == logits.len(),
            e == exponentials(arith(*calc), logits@),
            max == maximum(arith(*calc), logits@),
            j <= n,
            exps@ =~= e.take(j as int),
            sum == total(arith(*calc), NEG_ZERO, e.take(j as int)),
        decreases n - j,
    {
        let v: u32 = calc(Op::Exp, calc(Op::Sub, logits[j], max), 0);
        proof {
            assert(e.take(j + 1).drop_last() =~= e.take(j as int));
        }
        exps.push(v);
        sum = calc(Op::Add, sum, v);
        j += 1;
    }
    proof {
        assert(e.take(n as int) =~= e);
    }
    let inv: u32 = if greater_f32(sum, ZERO) {
        calc(Op::Div, ONE, sum)
    } else {
        ZERO
    };
    scale_all(exps.as_slice(), inv, calc)
}

} // verus!
