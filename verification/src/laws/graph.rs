//! Laws of the compute graph: what every node's value is.
use crate::arith::{Arith, Op};
use crate::graph::{ErrorView, GraphView, Operation};
use crate::kernels::attention::{attended, heads_of};
use crate::kernels::matmul::{dense_rows, dot_value, product, q8_dot_value, q8_rows};
use crate::kernels::norms::{normed, softmaxed};
use crate::kernels::quant::{lemma_row_in, QuantMatrix};
use crate::kernels::rope::neox_turned;
use crate::kernels::rows::{matrix, row_of};
use crate::tensor::dtype::DType;
use crate::tensor::owned::{
    elements, f32_tensor, f32_values, is_f32_tensor, law_f32_tensor_is_unique, native_bytes,
    TensorView,
};
use vstd::arithmetic::div_mod::lemma_fundamental_div_mod_converse;
use vstd::endian::{endianness, Endian};
use vstd::prelude::*;

verus! {

/// The node's value is a tensor of singles of that shape, with `x` at place `p`.
pub open spec fn gives(
    r: Result<TensorView, ErrorView>,
    shape: Seq<usize>,
    len: int,
    p: int,
    x: u32,
) -> bool {
    r matches Ok(t) && t.dtype == DType::F32 && t.shape == shape && f32_values(t).len() == len
        && f32_values(t)[p] == x
}

proof fn lemma_gives(shape: Seq<usize>, values: Seq<u32>, p: int)
    ensures
        gives(
            Ok(f32_tensor(shape, values)),
            shape,
            values.len() as int,
            p,
            values[p],
        ),
{
    law_f32_tensor_is_unique(f32_tensor(shape, values), shape, values);
}

proof fn lemma_at(n: int, w: int, r: int, i: int)
    requires
        0 <= r < n,
        0 <= i < w,
    ensures
        0 <= r * w + i < n * w,
        (r * w + i) / w == r,
        (r * w + i) % w == i,
{
    lemma_row_in(r, n, w);
    lemma_fundamental_div_mod_converse(r * w + i, w, r, i);
}

/// A product with dense weights holds, for every token, the dot products of its row with
/// the rows of the weights.
pub proof fn law_dense_product_node(
    ar: Arith,
    g: GraphView,
    i: int,
    x: int,
    w: Seq<u32>,
    k: int,
    n_rows: int,
    a: Seq<u32>,
    token: int,
    r: int,
)
    requires
        g.ops[i] matches Operation::MatmulF32 { x: id, weight, k: cols, n_rows: rows } && id.index()
            == x && weight@ == w && cols == k && rows == n_rows,
        g.operand(x) == Ok::<Seq<u32>, ErrorView>(a),
        a.len() == g.n_tokens * k,
        0 <= token < g.n_tokens,
        0 <= r < n_rows,
    ensures
        gives(
            g.eval(ar, i),
            seq![g.n_tokens as usize, n_rows as usize],
            g.n_tokens * n_rows,
            token * n_rows + r,
            dot_value(
                ar,
                a.subrange(token * k, token * k + k),
                w.subrange(r * k, r * k + k),
            ),
        ),
{
    reveal(GraphView::eval);
    let values = product(a, g.n_tokens, k, n_rows, dense_rows(ar, w, k));
    lemma_at(g.n_tokens, n_rows, token, r);
    lemma_gives(seq![g.n_tokens as usize, n_rows as usize], values, token * n_rows + r);
}

/// A product with quantized weights holds the dot products with the rows of codes and
/// scales.
pub proof fn law_quantized_product_node(
    ar: Arith,
    g: GraphView,
    i: int,
    x: int,
    m: QuantMatrix,
    a: Seq<u32>,
    token: int,
    r: int,
)
    requires
        g.ops[i] matches Operation::MatmulQ8 { x: id, weight } && id.index() == x && weight == m,
        g.operand(x) == Ok::<Seq<u32>, ErrorView>(a),
        a.len() == g.n_tokens * m.cols,
        0 <= token < g.n_tokens,
        0 <= r < m.rows,
    ensures
        gives(
            g.eval(ar, i),
            seq![g.n_tokens as usize, m.rows],
            g.n_tokens * m.rows,
            token * m.rows + r,
            q8_dot_value(
                ar,
                a.subrange(token * m.cols, token * m.cols + m.cols),
                m.q@.subrange(r * m.cols, r * m.cols + m.cols),
                m.scales@.subrange(
                    r * (m.cols as int / 32),
                    r * (m.cols as int / 32) + m.cols as int / 32,
                ),
            ),
        ),
{
    reveal(GraphView::eval);
    let values = product(a, g.n_tokens, m.cols as int, m.rows as int, q8_rows(ar, m));
    lemma_at(g.n_tokens, m.rows as int, token, r);
    lemma_gives(seq![g.n_tokens as usize, m.rows], values, token * m.rows + r);
}

/// A norm takes every row of `dim` values by itself.
pub proof fn law_norm_node(
    ar: Arith,
    g: GraphView,
    i: int,
    x: int,
    w: Seq<u32>,
    dim: int,
    e: u32,
    a: Seq<u32>,
    n: int,
    r: int,
    j: int,
)
    requires
        g.ops[i] matches Operation::RmsNorm { x: id, weight, dim: d, eps } && id.index() == x
            && weight@ == w && d == dim && eps == e,
        g.operand(x) == Ok::<Seq<u32>, ErrorView>(a),
        dim > 0,
        a.len() == n * dim,
        0 <= r < n,
        0 <= j < dim,
    ensures
        gives(
            g.eval(ar, i),
            seq![n as usize, dim as usize],
            n * dim,
            r * dim + j,
            normed(ar, a.subrange(r * dim, r * dim + dim), w, e)[j],
        ),
{
    reveal(GraphView::eval);
    lemma_fundamental_div_mod_converse(n * dim, dim, n, 0);
    let values = matrix(n, dim, |p: int| normed(ar, row_of(a, p, dim), w, e));
    lemma_at(n, dim, r, j);
    lemma_gives(seq![n as usize, dim as usize], values, r * dim + j);
}

/// A sum has the shape of its first operand and adds value to value.
pub proof fn law_sum_node(
    ar: Arith,
    g: GraphView,
    i: int,
    x: int,
    y: int,
    a: Seq<u32>,
    b: Seq<u32>,
    j: int,
)
    requires
        g.ops[i] matches Operation::Add { a: p, b: q } && p.index() == x && q.index() == y,
        g.operand(x) == Ok::<Seq<u32>, ErrorView>(a),
        g.operand(y) == Ok::<Seq<u32>, ErrorView>(b),
        a.len() == b.len(),
        0 <= j < a.len(),
    ensures
        gives(
            g.eval(ar, i),
            g.values[x]->0.shape,
            a.len() as int,
            j,
            ar(Op::Add, a[j], b[j]),
        ),
{
    reveal(GraphView::eval);
    lemma_gives(g.values[x]->0.shape, crate::arith::sums(ar, a, b), j);
}

/// A softmax is taken over all values at once.
pub proof fn law_softmax_node(ar: Arith, g: GraphView, i: int, x: int, a: Seq<u32>, j: int)
    requires
        g.ops[i] matches Operation::Softmax { x: id } && id.index() == x,
        g.operand(x) == Ok::<Seq<u32>, ErrorView>(a),
        0 <= j < a.len(),
    ensures
        gives(g.eval(ar, i), seq![a.len() as usize], a.len() as int, j, softmaxed(ar, a)[j]),
{
    reveal(GraphView::eval);
    assert(softmaxed(ar, a).len() == a.len());
    lemma_gives(seq![a.len() as usize], softmaxed(ar, a), j);
}

/// A rotation takes every row by itself, row `p` as that of position `p`, across the halves
/// of its heads.
pub proof fn law_rotation_node(
    ar: Arith,
    g: GraphView,
    i: int,
    x: int,
    heads: usize,
    wide: usize,
    theta: u32,
    a: Seq<u32>,
    p: int,
    j: int,
    w: int,
)
    requires
        g.ops[i] matches Operation::Rope { x: id, n_heads, head_dim, theta_base } && id.index() == x
            && n_heads == heads && head_dim == wide && theta_base == theta,
        g.operand(x) == Ok::<Seq<u32>, ErrorView>(a),
        w == heads * wide,
        a.len() == g.n_tokens * w,
        0 <= p < g.n_tokens,
        0 <= j < w,
    ensures
        gives(
            g.eval(ar, i),
            seq![g.n_tokens as usize, w as usize],
            g.n_tokens * w,
            p * w + j,
            neox_turned(ar, a.subrange(p * w, p * w + w), p, wide as int, theta)[j],
        ),
{
    reveal(GraphView::eval);
    let values = matrix(
        g.n_tokens,
        w,
        |r: int| neox_turned(ar, row_of(a, r, w), r, wide as int, theta),
    );
    lemma_at(g.n_tokens, w, p, j);
    lemma_gives(seq![g.n_tokens as usize, w as usize], values, p * w + j);
}

/// Attention is causal: row `p` attends to the rows up to its own.
#[verifier::spinoff_prover]
pub proof fn law_attention_node(
    ar: Arith,
    g: GraphView,
    i: int,
    q: int,
    k: int,
    v: int,
    heads: usize,
    kv_heads: usize,
    wide: usize,
    a: Seq<u32>,
    b: Seq<u32>,
    c: Seq<u32>,
    p: int,
    j: int,
    w: int,
)
    requires
        g.ops[i] matches Operation::Attention {
            q: x,
            k: y,
            v: z,
            n_heads,
            n_kv_heads,
            head_dim,
        } && x.index() == q && y.index() == k && z.index() == v && n_heads == heads && n_kv_heads
            == kv_heads && head_dim == wide,
        g.operand(q) == Ok::<Seq<u32>, ErrorView>(a),
        g.operand(k) == Ok::<Seq<u32>, ErrorView>(b),
        g.operand(v) == Ok::<Seq<u32>, ErrorView>(c),
        w == heads * wide,
        a.len() == g.n_tokens * w,
        b.len() == g.n_tokens * (kv_heads * wide),
        c.len() == g.n_tokens * (kv_heads * wide),
        0 <= p < g.n_tokens,
        0 <= j < w,
    ensures
        gives(
            g.eval(ar, i),
            seq![g.n_tokens as usize, w as usize],
            g.n_tokens * w,
            p * w + j,
            attended(
                ar,
                a.subrange(p * w, p * w + w),
                b,
                c,
                p,
                heads_of(heads, kv_heads, wide),
            )[j],
        ),
{
    reveal(GraphView::eval);
    let h = heads_of(heads, kv_heads, wide);
    assert(h.q_width() == w && h.kv_width() == kv_heads * wide);
    let values = matrix(g.n_tokens, w, |r: int| attended(ar, row_of(a, r, w), b, c, r, h));
    lemma_at(g.n_tokens, w, p, j);
    lemma_gives(seq![g.n_tokens as usize, w as usize], values, p * w + j);
}

/// A node that reads a value which is not there, or is no tensor of singles, reports it:
/// the first such operand counts.
#[verifier::spinoff_prover]
pub proof fn law_missing_operands_are_reported(ar: Arith, g: GraphView, i: int, e: ErrorView)
    ensures
        g.ops[i] is Input ==> g.eval(ar, i) == Err::<TensorView, ErrorView>(ErrorView::UnsetInput(i)),
        g.values[i] is None ==> g.operand(i) == Err::<Seq<u32>, ErrorView>(ErrorView::UnsetInput(i)),
        g.values[i] matches Some(t) ==> (t.dtype != DType::F32 ==> g.operand(i) == Err::<
            Seq<u32>,
            ErrorView,
        >(ErrorView::NotF32)),
        g.values[i] matches Some(t) ==> (t.dtype == DType::F32 ==> g.operand(i) == Ok::<
            Seq<u32>,
            ErrorView,
        >(f32_values(t))),
        g.ops[i] matches Operation::Add { a, b } ==> (g.operand(a.index()) == Err::<
            Seq<u32>,
            ErrorView,
        >(e) ==> g.eval(ar, i) == Err::<TensorView, ErrorView>(e)),
        g.ops[i] matches Operation::Softmax { x } ==> (g.operand(x.index()) == Err::<
            Seq<u32>,
            ErrorView,
        >(e) ==> g.eval(ar, i) == Err::<TensorView, ErrorView>(e)),
        g.ops[i] matches Operation::MatmulF32 { x, weight, k, n_rows } ==> (g.operand(x.index())
            == Err::<Seq<u32>, ErrorView>(e) ==> g.eval(ar, i) == Err::<TensorView, ErrorView>(e)),
        g.ops[i] matches Operation::Attention { q, k, v, n_heads, n_kv_heads, head_dim } ==> (
        g.operand(q.index()) == Err::<Seq<u32>, ErrorView>(e) ==> g.eval(ar, i) == Err::<
            TensorView,
            ErrorView,
        >(e)),
{
    reveal(GraphView::eval);
}

/// Operands of the wrong size are refused by name.
#[verifier::spinoff_prover]
pub proof fn law_wrong_sizes_are_refused(ar: Arith, g: GraphView, i: int, a: Seq<u32>, b: Seq<u32>)
    ensures
        g.ops[i] matches Operation::MatmulF32 { x, weight, k, n_rows } ==> (g.operand(x.index())
            == Ok::<Seq<u32>, ErrorView>(a) && a.len() != g.n_tokens * k ==> g.eval(ar, i) == Err::<
            TensorView,
            ErrorView,
        >(ErrorView::ShapeMismatch("matmul_f32 input"@))),
        g.ops[i] matches Operation::MatmulQ8 { x, weight } ==> (g.operand(x.index()) == Ok::<
            Seq<u32>,
            ErrorView,
        >(a) && a.len() != g.n_tokens * weight.cols ==> g.eval(ar, i) == Err::<
            TensorView,
            ErrorView,
        >(ErrorView::ShapeMismatch("matmul_q8 input"@))),
        g.ops[i] matches Operation::RmsNorm { x, weight, dim, eps } ==> (g.operand(x.index())
            == Ok::<Seq<u32>, ErrorView>(a) && dim > 0 && a.len() as int % dim as int != 0
            ==> g.eval(ar, i) == Err::<TensorView, ErrorView>(
            ErrorView::ShapeMismatch("rmsnorm dim"@),
        )),
        g.ops[i] matches Operation::Add { a: x, b: y } ==> (g.operand(x.index()) == Ok::<
            Seq<u32>,
            ErrorView,
        >(a) && g.operand(y.index()) == Ok::<Seq<u32>, ErrorView>(b) && a.len() != b.len()
            ==> g.eval(ar, i) == Err::<TensorView, ErrorView>(ErrorView::ShapeMismatch("add"@))),
        g.ops[i] matches Operation::Rope { x, n_heads, head_dim, theta_base } ==> (g.operand(
            x.index(),
        ) == Ok::<Seq<u32>, ErrorView>(a) && a.len() != g.n_tokens * (n_heads * head_dim)
            ==> g.eval(ar, i) == Err::<TensorView, ErrorView>(
            ErrorView::ShapeMismatch("rope input"@),
        )),
{
    reveal(GraphView::eval);
}

/// A tensor of singles keeps each of its values in four bytes, in the machine's order.
pub proof fn law_bytes_of_a_single(x: u32)
    ensures
        native_bytes(x).len() == 4,
        endianness() == Endian::Little ==> native_bytes(x)[0] + 256 * native_bytes(x)[1] + 65536
            * native_bytes(x)[2] + 16777216 * native_bytes(x)[3] == x,
        endianness() != Endian::Little ==> native_bytes(x)[3] + 256 * native_bytes(x)[2] + 65536
            * native_bytes(x)[1] + 16777216 * native_bytes(x)[0] == x,
{
    let n = x as int;
    let u = n / 256;
    let v = u / 256;
    assert(n / 65536 == v && n / 16777216 == v / 256);
}

/// Value `i` of a tensor of singles stands in bytes `4 i` to `4 i + 3`.
pub proof fn law_singles_stand_in_order(t: TensorView, shape: Seq<usize>, values: Seq<u32>, i: int, b: int)
    requires
        is_f32_tensor(t, shape, values),
        0 <= i < values.len(),
        0 <= b < 4,
    ensures
        t.shape == shape,
        t.data.len() == 4 * values.len(),
        t.data[4 * i + b] == native_bytes(values[i])[b],
        f32_values(t) == values,
{
    law_f32_tensor_is_unique(t, shape, values);
    assert(t.word(i)[b] == t.data[4 * i + b]);
}

/// A tensor has as many values as its dimensions multiply to.
pub proof fn law_shape_multiplies(shape: Seq<usize>, n: usize)
    ensures
        elements(Seq::empty()) == 1,
        elements(shape.push(n)) == elements(shape) * n,
{
    assert(shape.push(n).drop_last() =~= shape);
}

/// The bytes of `n` values: four for a single, one for a byte, and for blocks as many blocks
/// as it takes, each with a scale of four bytes.
pub proof fn law_packed_bytes(n: int, block: usize, blocks: int)
    requires
        0 <= n,
        block > 0,
        n <= blocks * block,
        (blocks - 1) * block < n,
    ensures
        DType::F32.packed(n) == 4 * n,
        DType::I8.packed(n) == n,
        (DType::Q8 { block }).packed(n) == blocks * (block + 4),
{
    let b = block as int;
    if n == blocks * b {
        lemma_fundamental_div_mod_converse(n, b, blocks, 0);
    } else {
        assert(blocks * b == (blocks - 1) * b + b) by (nonlinear_arith);
        lemma_fundamental_div_mod_converse(n, b, blocks - 1, n - (blocks - 1) * b);
    }
}

} // verus!
