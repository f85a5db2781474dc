//! Laws of the benchmark's problems and of the demonstration block.
use crate::arith::{natural, Arith, Op};
use crate::bench::{
    accuracy_of, differences, is_problem, rms_value, sample_blocks, wave, Problem,
};
use crate::demo::{are_nodes, input, weights};
use crate::graph::Operation;
use crate::kernels::kquant::KQuantKind;
use crate::kernels::matmul::{dot_value, q8_dot_value};
use crate::kernels::quant::max_magnitude;
use crate::laws::numerics::lemma_partial_sums;
use vstd::prelude::*;

verus! {

/// A wave's values are the function at evenly spaced places.
pub proof fn law_wave_value(k: Arith, op: Op, step: u32, n: int, i: int)
    requires
        0 <= i < n,
    ensures
        wave(k, op, step, n).len() == n,
        wave(k, op, step, n)[i] == k(op, k(Op::Mul, natural(k, i), step), 0),
{
}

/// The root of the mean square.
pub proof fn law_root_mean_square(k: Arith, s: Seq<u32>, part: Seq<u32>)
    requires
        part.len() == s.len() + 1,
        part[0] == 0x8000_0000,
        forall|j: int|
            0 <= j < s.len() ==> #[trigger] part[j + 1] == k(
                Op::Add,
                part[j],
                k(Op::Mul, s[j], s[j]),
            ),
    ensures
        rms_value(k, s) == k(
            Op::Sqrt,
            k(Op::Div, part[s.len() as int], natural(k, s.len() as int)),
            0,
        ),
{
    let squares = crate::arith::products(k, s, s);
    assert forall|j: int| 0 <= j < squares.len() implies #[trigger] part[j + 1] == k(
        Op::Add,
        part[j],
        squares[j],
    ) by {
        assert(part[j + 1] == k(Op::Add, part[j], k(Op::Mul, s[j], s[j])));
    }
    lemma_partial_sums(k, squares, part, s.len() as int);
    assert(squares.take(s.len() as int) =~= squares);
}

/// Accuracy is the largest difference, by magnitude, also as a part of the root mean square
/// of the dense result.
pub proof fn law_accuracy(k: Arith, dense: Seq<u32>, quant: Seq<u32>, d: Seq<u32>)
    requires
        dense.len() == quant.len(),
        d.len() == dense.len(),
        forall|i: int|
            0 <= i < d.len() ==> #[trigger] d[i] == k(Op::Sub, dense[i], quant[i]),
    ensures
        accuracy_of(k, dense, quant).max_err == max_magnitude(d),
        accuracy_of(k, dense, quant).rms == rms_value(k, dense),
        accuracy_of(k, dense, quant).rel_err == k(Op::Div, max_magnitude(d), rms_value(k, dense)),
{
    assert(d =~= differences(k, dense, quant));
}

/// The benchmark's blocks: the half 0.1 and bytes that count up.
pub proof fn law_sample_blocks(n: int, i: int, j: int)
    requires
        0 <= i < n,
        0 <= j < 16,
    ensures
        sample_blocks(n).len() == 18 * n,
        sample_blocks(n)[18 * i] == 0x66,
        sample_blocks(n)[18 * i + 1] == 0x2e,
        sample_blocks(n)[18 * i + 2 + j] == (31 * i + 7 * j) % 256,
{
    assert((18 * i) / 18 == i && (18 * i) % 18 == 0);
    assert((18 * i + 1) / 18 == i && (18 * i + 1) % 18 == 1);
    assert((18 * i + 2 + j) / 18 == i && (18 * i + 2 + j) % 18 == 2 + j);
    assert(0 <= 18 * i && 18 * i + 2 + j < 18 * n);
}

/// A problem is a sine wave to multiply with a cosine wave, dense and quantized.
pub proof fn law_problem(ar: Arith, k: int, n_rows: int, p: Problem, i: int)
    requires
        is_problem(ar, k, n_rows, p),
        0 <= k,
        0 <= n_rows,
    ensures
        p.a@.len() == k,
        0 <= i < k ==> p.a@[i] == ar(Op::Sin, ar(Op::Mul, natural(ar, i), 0x3a83_126f), 0),
        0 <= i < n_rows * k ==> p.w@[i] == ar(Op::Cos, ar(Op::Mul, natural(ar, i), 0x3a37_8034), 0),
        p.q8.rows == n_rows && p.q8.cols == k,
        p.q40.rows == n_rows && p.q40.cols == k && p.q40.kind == KQuantKind::Q40,
        p.q40.blocks@ == sample_blocks(n_rows * (k / 32)),
{
}

/// The results that are held against each other: every row of the weights, dense and
/// quantized, times the activations.
pub proof fn law_problem_results(ar: Arith, p: Problem, r: int)
    requires
        p.wf(),
        0 <= r < p.n_rows,
    ensures
        p.dense(ar).len() == p.n_rows && p.quant(ar).len() == p.n_rows,
        p.dense(ar)[r] == dot_value(ar, p.a@, p.w@.subrange(r * p.k, r * p.k + p.k)),
        p.quant(ar)[r] == q8_dot_value(
            ar,
            p.a@,
            p.q8.q@.subrange(r * p.k, r * p.k + p.k),
            p.q8.scales@.subrange(r * (p.k as int / 32), r * (p.k as int / 32) + p.k as int / 32),
        ),
{
    assert(r / p.n_rows as int == 0 && r % p.n_rows as int == r) by {
        vstd::arithmetic::div_mod::lemma_fundamental_div_mod_converse(r, p.n_rows as int, 0, r);
    }
    assert(p.a@.subrange(0, p.k as int) =~= p.a@);
}

/// The demonstration's input and weights are sine waves, the weights a tenth as high.
pub proof fn law_demonstration_values(k: Arith, step: u32, n: int, i: int)
    requires
        0 <= i < n,
    ensures
        weights(k, step, n).len() == n,
        weights(k, step, n)[i] == k(
            Op::Mul,
            k(Op::Sin, k(Op::Mul, natural(k, i), step), 0),
            0x3dcc_cccd,
        ),
        input(k).len() == 512,
        i < 512 ==> input(k)[i] == k(Op::Sin, k(Op::Mul, natural(k, i), 0x3c23_d70a), 0),
{
}

/// A projection of node `x` from `from` values to `to`, with weights of that step.
pub open spec fn projects(k: Arith, op: Operation, x: int, step: u32, from: int, to: int) -> bool {
    op matches Operation::MatmulF32 { x: id, weight, k: cols, n_rows } && id.index() == x
        && weight@ == weights(k, step, to * from) && cols == from && n_rows == to
}

/// The demonstration is a block of a model: a norm, projections to queries, keys and values,
/// rotations, attention, and a projection back, added to the input; then a norm and two
/// projections, added to that.
#[verifier::spinoff_prover]
pub proof fn law_demonstration_block(k: Arith, ops: Seq<Operation>)
    requires
        are_nodes(k, ops),
    ensures
        ops.len() == 14,
        ops[0] is Input,
        ops[1] matches Operation::RmsNorm { x, weight, dim, eps } && x.index() == 0 && dim == 64
            && eps == 0x3727_c5ac && weight@ == Seq::new(64, |i: int| 0x3f80_0000u32),
        projects(k, ops[2], 1, 0x3a90_2de0, 64, 64),
        projects(k, ops[3], 1, 0x3aaa_64c3, 64, 32),
        projects(k, ops[4], 1, 0x3ade_d289, 64, 32),
        ops[5] matches Operation::Rope { x, n_heads, head_dim, theta_base } && x.index() == 2
            && n_heads == 4 && head_dim == 16 && theta_base == 0x461c_4000,
        ops[6] matches Operation::Rope { x, n_heads, head_dim, theta_base } && x.index() == 3
            && n_heads == 2 && head_dim == 16 && theta_base == 0x461c_4000,
        ops[7] matches Operation::Attention { q, k: key, v, n_heads, n_kv_heads, head_dim }
            && q.index() == 5 && key.index() == 6 && v.index() == 4 && n_heads == 4 && n_kv_heads
            == 2 && head_dim == 16,
        projects(k, ops[8], 7, 0x3af9_096c, 64, 64),
        ops[9] matches Operation::Add { a, b } && a.index() == 8 && b.index() == 0,
        ops[10] matches Operation::RmsNorm { x, weight, dim, eps } && x.index() == 9 && dim == 64
            && eps == 0x3727_c5ac && weight@ == Seq::new(64, |i: int| 0x3f80_0000u32),
        projects(k, ops[11], 10, 0x3a37_8034, 64, 128),
        projects(k, ops[12], 11, 0x3a6b_edfa, 128, 64),
        ops[13] matches Operation::Add { a, b } && a.index() == 12 && b.index() == 9,
{
    assert(crate::demo::ones() =~= Seq::new(64, |i: int| 0x3f80_0000u32));
}

} // verus!
