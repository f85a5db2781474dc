//! One full transformer block over a short sequence, as a graph: an attention
//! sub-layer (norm, projections, rotary embedding, causal attention with grouped
//! queries, residual), then an MLP sub-layer (norm, up, down, residual). The
//! weights are waves, so that every run computes the same.
use crate::arith::{arith, is_arith, scale_all, scaled, sums, Arith, Op, ONE};
use crate::bench::{wave, wave_of};
use crate::graph::{law_run_keeps_values, law_sound_graphs_run, run_from, Graph, GraphError, GraphView, NodeId, Operation};
use crate::kernels::attention::{attended, heads_of, Heads};
use crate::kernels::matmul::{dense_rows, product};
use crate::kernels::norms::normed;
use crate::kernels::rope::neox_turned;
use crate::kernels::rows::{matrix, row_of};
use crate::model::config::{NORM_EPS_LLAMA, ROPE_THETA_DEFAULT};
use crate::tensor::owned::{countable, elements, f32_tensor, law_f32_tensor_is_unique, Tensor};
use vstd::prelude::*;

verus! {

/// Tokens in the sequence.
pub const SEQ_LEN: usize = 8;

pub const N_HEADS: usize = 4;

/// Two query heads share a key-value head.
pub const N_KV_HEADS: usize = 2;

pub const HEAD_DIM: usize = 16;

/// Width of the model: `N_HEADS * HEAD_DIM`.
pub const DIM: usize = 64;

/// Width of keys and values: `N_KV_HEADS * HEAD_DIM`.
pub const KV_DIM: usize = 32;

/// Width of the MLP.
pub const FFN: usize = 128;

/// A tenth.
pub const AMPLITUDE: u32 = 0x3dcc_cccd;

/// A hundredth.
pub const INPUT_STEP: u32 = 0x3c23_d70a;

pub const Q_STEP: u32 = 0x3a90_2de0;

pub const K_STEP: u32 = 0x3aaa_64c3;

pub const V_STEP: u32 = 0x3ade_d289;

pub const O_STEP: u32 = 0x3af9_096c;

pub const UP_STEP: u32 = 0x3a37_8034;

pub const DOWN_STEP: u32 = 0x3a6b_edfa;

/// Weights: a wave of the given step, scaled down.
pub open spec fn weights(k: Arith, step: u32, n: int) -> Seq<u32> {
    scaled(k, wave(k, Op::Sin, step, n), AMPLITUDE)
}

/// Norm weights of one.
pub open spec fn ones() -> Seq<u32> {
    Seq::new(DIM as nat, |i: int| ONE)
}

/// The input.
pub open spec fn input(k: Arith) -> Seq<u32> {
    wave(k, Op::Sin, INPUT_STEP, SEQ_LEN * DIM)
}

/// Every token's row, normalized.
pub open spec fn norm_rows(k: Arith, x: Seq<u32>) -> Seq<u32> {
    matrix(
        SEQ_LEN as int,
        DIM as int,
        |r: int| normed(k, row_of(x, r, DIM as int), ones(), NORM_EPS_LLAMA),
    )
}

/// Every token's row, projected from `from` to `to` values.
pub open spec fn project(k: Arith, x: Seq<u32>, step: u32, from: int, to: int) -> Seq<u32> {
    product(x, SEQ_LEN as int, from, to, dense_rows(k, weights(k, step, to * from), from))
}

/// Every token's row, `w` wide, with its position rotated in.
pub open spec fn turn_rows(k: Arith, x: Seq<u32>, w: int) -> Seq<u32> {
    matrix(
        SEQ_LEN as int,
        w,
        |p: int| neox_turned(k, row_of(x, p, w), p, HEAD_DIM as int, ROPE_THETA_DEFAULT),
    )
}

pub open spec fn heads() -> Heads {
    heads_of(N_HEADS, N_KV_HEADS, HEAD_DIM)
}

/// Causal attention of every token.
pub open spec fn attend_rows(k: Arith, q: Seq<u32>, keys: Seq<u32>, v: Seq<u32>) -> Seq<u32> {
    matrix(
        SEQ_LEN as int,
        DIM as int,
        |i: int| attended(k, row_of(q, i, DIM as int), keys, v, i, heads()),
    )
}

/// The hidden state behind the attention sub-layer.
pub open spec fn after_attention(k: Arith, x: Seq<u32>) -> Seq<u32> {
    let n = norm_rows(k, x);
    let q = turn_rows(k, project(k, n, Q_STEP, DIM as int, DIM as int), DIM as int);
    let keys = turn_rows(k, project(k, n, K_STEP, DIM as int, KV_DIM as int), KV_DIM as int);
    let v = project(k, n, V_STEP, DIM as int, KV_DIM as int);
    sums(k, project(k, attend_rows(k, q, keys, v), O_STEP, DIM as int, DIM as int), x)
}

/// The hidden state behind the MLP sub-layer.
pub open spec fn after_mlp(k: Arith, x: Seq<u32>) -> Seq<u32> {
    let up = project(k, norm_rows(k, x), UP_STEP, DIM as int, FFN as int);
    sums(k, project(k, up, DOWN_STEP, FFN as int, DIM as int), x)
}

/// The hidden state behind the block.
pub open spec fn block(k: Arith, x: Seq<u32>) -> Seq<u32> {
    after_mlp(k, after_attention(k, x))
}

/// `op` normalizes node `x`.
pub open spec fn is_norm(op: Operation, x: int) -> bool {
    op matches Operation::RmsNorm { x: id, weight, dim, eps } && id.index() == x && weight@
        == ones() && dim == DIM && eps == NORM_EPS_LLAMA
}

/// `op` projects node `x`.
pub open spec fn is_projection(
    k: Arith,
    op: Operation,
    x: int,
    step: u32,
    from: int,
    to: int,
) -> bool {
    op matches Operation::MatmulF32 { x: id, weight, k: cols, n_rows } && id.index() == x
        && weight@ == weights(k, step, to * from) && cols == from && n_rows == to
}

/// `op` rotates the positions into node `x`.
pub open spec fn is_turn(op: Operation, x: int, n_heads: int) -> bool {
    op matches Operation::Rope { x: id, n_heads: n, head_dim, theta_base } && id.index() == x && n
        == n_heads && head_dim == HEAD_DIM && theta_base == ROPE_THETA_DEFAULT
}

/// `op` is the attention over the nodes `q`, `k` and `v`.
pub open spec fn is_attention(op: Operation, q: int, k: int, v: int) -> bool {
    op matches Operation::Attention { q: a, k: b, v: c, n_heads, n_kv_heads, head_dim }
        && a.index() == q && b.index() == k && c.index() == v && n_heads == N_HEADS && n_kv_heads
        == N_KV_HEADS && head_dim == HEAD_DIM
}

/// `op` adds two nodes.
pub open spec fn is_sum(op: Operation, x: int, y: int) -> bool {
    op matches Operation::Add { a, b } && a.index() == x && b.index() == y
}

/// `ops` are the nodes of the block: the input, the attention sub-layer and the
/// MLP sub-layer, whose last node is the output.
pub open spec fn are_nodes(k: Arith, ops: Seq<Operation>) -> bool {
    &&& ops.len() == 14
    &&& ops[0] is Input
    &&& is_norm(ops[1], 0)
    &&& is_projection(k, ops[2], 1, Q_STEP, DIM as int, DIM as int)
    &&& is_projection(k, ops[3], 1, K_STEP, DIM as int, KV_DIM as int)
    &&& is_projection(k, ops[4], 1, V_STEP, DIM as int, KV_DIM as int)
    &&& is_turn(ops[5], 2, N_HEADS as int)
    &&& is_turn(ops[6], 3, N_KV_HEADS as int)
    &&& is_attention(ops[7], 5, 6, 4)
    &&& is_projection(k, ops[8], 7, O_STEP, DIM as int, DIM as int)
    &&& is_sum(ops[9], 8, 0)
    &&& is_norm(ops[10], 9)
    &&& is_projection(k, ops[11], 10, UP_STEP, DIM as int, FFN as int)
    &&& is_projection(k, ops[12], 11, DOWN_STEP, FFN as int, DIM as int)
    &&& is_sum(ops[13], 12, 9)
}

/// Node `i` holds the singles `v`.
pub open spec fn holds(g: GraphView, i: int, v: Seq<u32>) -> bool {
    &&& g.values[i] is Some
    &&& g.operand(i) == Ok::<Seq<u32>, crate::graph::ErrorView>(v)
}

/// The first `i` nodes have values, the others have none.
spec fn is_at(k: Arith, g: GraphView, i: int) -> bool {
    &&& are_nodes(k, g.ops)
    &&& g.values.len() == 14
    &&& g.n_tokens == SEQ_LEN
    &&& forall|j: int| i <= j < 14 ==> #[trigger] g.values[j] is None
}

/// One step of a run.
proof fn lemma_step(k: Arith, g: GraphView, i: int, shape: Seq<usize>, v: Seq<u32>) -> (h: GraphView)
    requires
        is_at(k, g, i),
        0 <= i < 14,
        g.eval(k, i) == Ok::<_, crate::graph::ErrorView>(f32_tensor(shape, v)),
    ensures
        h == g.with(i, f32_tensor(shape, v)),
        run_from(k, g, i) == run_from(k, h, i + 1),
        is_at(k, h, i + 1),
        holds(h, i, v),
        forall|j: int| 0 <= j < i ==> #[trigger] h.values[j] == g.values[j],
{
    let h = g.with(i, f32_tensor(shape, v));
    law_f32_tensor_is_unique(f32_tensor(shape, v), shape, v);
    h
}

proof fn lemma_norm(k: Arith, g: GraphView, i: int, x: int, a: Seq<u32>) -> (h: GraphView)
    requires
        is_at(k, g, i),
        0 <= x < i < 14,
        is_norm(g.ops[i], x),
        holds(g, x, a),
        a.len() == SEQ_LEN * DIM,
    ensures
        run_from(k, g, i) == run_from(k, h, i + 1),
        is_at(k, h, i + 1),
        holds(h, i, norm_rows(k, a)),
        forall|j: int| 0 <= j < i ==> #[trigger] h.values[j] == g.values[j],
{
    reveal(GraphView::eval);
    lemma_step(k, g, i, seq![SEQ_LEN, DIM], norm_rows(k, a))
}

proof fn lemma_projection(
    k: Arith,
    g: GraphView,
    i: int,
    x: int,
    a: Seq<u32>,
    step: u32,
    from: int,
    to: int,
) -> (h: GraphView)
    requires
        is_at(k, g, i),
        0 <= x < i < 14,
        is_projection(k, g.ops[i], x, step, from, to),
        holds(g, x, a),
        a.len() == SEQ_LEN * from,
    ensures
        run_from(k, g, i) == run_from(k, h, i + 1),
        is_at(k, h, i + 1),
        holds(h, i, project(k, a, step, from, to)),
        forall|j: int| 0 <= j < i ==> #[trigger] h.values[j] == g.values[j],
{
    reveal(GraphView::eval);
    lemma_step(k, g, i, seq![SEQ_LEN, to as usize], project(k, a, step, from, to))
}

proof fn lemma_turn(k: Arith, g: GraphView, i: int, x: int, a: Seq<u32>, n_heads: int) -> (h: GraphView)
    requires
        is_at(k, g, i),
        0 <= x < i < 14,
        is_turn(g.ops[i], x, n_heads),
        holds(g, x, a),
        a.len() == SEQ_LEN * (n_heads * HEAD_DIM),
    ensures
        run_from(k, g, i) == run_from(k, h, i + 1),
        is_at(k, h, i + 1),
        holds(h, i, turn_rows(k, a, n_heads * HEAD_DIM)),
        forall|j: int| 0 <= j < i ==> #[trigger] h.values[j] == g.values[j],
{
    reveal(GraphView::eval);
    lemma_step(
        k,
        g,
        i,
        seq![SEQ_LEN, (n_heads * HEAD_DIM) as usize],
        turn_rows(k, a, n_heads * HEAD_DIM),
    )
}

proof fn lemma_attention(
    k: Arith,
    g: GraphView,
    i: int,
    ids: (int, int, int),
    q: Seq<u32>,
    keys: Seq<u32>,
    v: Seq<u32>,
) -> (h: GraphView)
    requires
        is_at(k, g, i),
        0 <= ids.0 < i < 14,
        0 <= ids.1 < i,
        0 <= ids.2 < i,
        is_attention(g.ops[i], ids.0, ids.1, ids.2),
        holds(g, ids.0, q),
        holds(g, ids.1, keys),
        holds(g, ids.2, v),
        q.len() == SEQ_LEN * DIM,
        keys.len() == SEQ_LEN * KV_DIM,
        v.len() == SEQ_LEN * KV_DIM,
    ensures
        run_from(k, g, i) == run_from(k, h, i + 1),
        is_at(k, h, i + 1),
        holds(h, i, attend_rows(k, q, keys, v)),
        forall|j: int| 0 <= j < i ==> #[trigger] h.values[j] == g.values[j],
{
    reveal(GraphView::eval);
    assert(heads().q_width() == DIM);
    assert(heads().kv_width() == KV_DIM);
    lemma_step(k, g, i, seq![SEQ_LEN, DIM], attend_rows(k, q, keys, v))
}

proof fn lemma_sum(k: Arith, g: GraphView, i: int, x: int, y: int, a: Seq<u32>, b: Seq<u32>) -> (h:
    GraphView)
    requires
        is_at(k, g, i),
        0 <= x < i < 14,
        0 <= y < i,
        is_sum(g.ops[i], x, y),
        holds(g, x, a),
        holds(g, y, b),
        a.len() == b.len(),
    ensures
        run_from(k, g, i) == run_from(k, h, i + 1),
        is_at(k, h, i + 1),
        holds(h, i, sums(k, a, b)),
        forall|j: int| 0 <= j < i ==> #[trigger] h.values[j] == g.values[j],
{
    reveal(GraphView::eval);
    lemma_step(k, g, i, g.values[x]->0.shape, sums(k, a, b))
}

/// Running the graph computes the block.
pub proof fn law_run_is_block(k: Arith, g: GraphView, x: Seq<u32>)
    requires
        are_nodes(k, g.ops),
        g.values.len() == 14,
        g.n_tokens == SEQ_LEN,
        holds(g, 0, x),
        x.len() == SEQ_LEN * DIM,
        forall|j: int| 1 <= j < 14 ==> #[trigger] g.values[j] is None,
    ensures
        run_from(k, g, 0).error is None,
        holds(run_from(k, g, 0).graph, 13, block(k, x)),
{
    let d = DIM as int;
    let kv = KV_DIM as int;
    let f = FFN as int;
    assert(run_from(k, g, 0) == run_from(k, g, 1));
    let n = norm_rows(k, x);
    let g1 = lemma_norm(k, g, 1, 0, x);
    let q0 = project(k, n, Q_STEP, d, d);
    let g2 = lemma_projection(k, g1, 2, 1, n, Q_STEP, d, d);
    let k0 = project(k, n, K_STEP, d, kv);
    let g3 = lemma_projection(k, g2, 3, 1, n, K_STEP, d, kv);
    let v = project(k, n, V_STEP, d, kv);
    let g4 = lemma_projection(k, g3, 4, 1, n, V_STEP, d, kv);
    let g5 = lemma_turn(k, g4, 5, 2, q0, 4);
    let g6 = lemma_turn(k, g5, 6, 3, k0, 2);
    let q = turn_rows(k, q0, d);
    let keys = turn_rows(k, k0, kv);
    let g7 = lemma_attention(k, g6, 7, (5, 6, 4), q, keys, v);
    let attn = attend_rows(k, q, keys, v);
    let g8 = lemma_projection(k, g7, 8, 7, attn, O_STEP, d, d);
    let o = project(k, attn, O_STEP, d, d);
    let g9 = lemma_sum(k, g8, 9, 8, 0, o, x);
    let y = sums(k, o, x);
    assert(y == after_attention(k, x));
    let g10 = lemma_norm(k, g9, 10, 9, y);
    let n2 = norm_rows(k, y);
    let g11 = lemma_projection(k, g10, 11, 10, n2, UP_STEP, d, f);
    let up = project(k, n2, UP_STEP, d, f);
    let g12 = lemma_projection(k, g11, 12, 11, up, DOWN_STEP, f, d);
    let down = project(k, up, DOWN_STEP, f, d);
    let g13 = lemma_sum(k, g12, 13, 12, 9, down, y);
    assert(sums(k, down, y) == block(k, x));
}

/// Dense weights: a wave of the given step, scaled down.
fn make_weights<F: Fn(Op, u32, u32) -> u32>(step: u32, n: usize, calc: &F) -> (w: Vec<u32>)
    requires
        is_arith(*calc),
    ensures
        w@ == weights(arith(*calc), step, n as int),
{
    scale_all(wave_of(Op::Sin, step, n, calc).as_slice(), AMPLITUDE, calc)
}

fn make_ones() -> (w: Vec<u32>)
    ensures
        w@ == ones(),
{
    let w: Vec<u32> = vec![ONE; DIM];
    proof {
        assert(w@ =~= ones());
    }
    w
}

/// Builds the graph of the block; the first node is its input, the last its
/// output.
pub fn build<F: Fn(Op, u32, u32) -> u32>(calc: &F) -> (r: (Graph, NodeId, NodeId))
    requires
        is_arith(*calc),
    ensures
        r.0@.wf(),
        are_nodes(arith(*calc), r.0@.ops),
        r.0@.n_tokens == SEQ_LEN,
        forall|i: int| 0 <= i < 14 ==> #[trigger] r.0@.values[i] is None,
        r.1.index() == 0,
        r.2.index() == 13,
{
    let mut g = Graph::new();
    let x = g.input(SEQ_LEN);
    // Attention sub-layer.
    let n1 = g.rmsnorm(x, make_ones(), DIM, NORM_EPS_LLAMA);
    let q0 = g.matmul_f32(n1, make_weights(Q_STEP, DIM * DIM, calc), DIM, DIM);
    let k0 = g.matmul_f32(n1, make_weights(K_STEP, KV_DIM * DIM, calc), DIM, KV_DIM);
    let v0 = g.matmul_f32(n1, make_weights(V_STEP, KV_DIM * DIM, calc), DIM, KV_DIM);
    let q = g.rope(q0, N_HEADS, HEAD_DIM, ROPE_THETA_DEFAULT);
    let k = g.rope(k0, N_KV_HEADS, HEAD_DIM, ROPE_THETA_DEFAULT);
    let attn = g.attention(q, k, v0, N_HEADS, N_KV_HEADS, HEAD_DIM);
    let o = g.matmul_f32(attn, make_weights(O_STEP, DIM * DIM, calc), DIM, DIM);
    let res = g.add(o, x);
    // MLP sub-layer.
    let n2 = g.rmsnorm(res, make_ones(), DIM, NORM_EPS_LLAMA);
    let up = g.matmul_f32(n2, make_weights(UP_STEP, FFN * DIM, calc), DIM, FFN);
    let down = g.matmul_f32(up, make_weights(DOWN_STEP, DIM * FFN, calc), FFN, DIM);
    let out = g.add(down, res);
    (g, x, out)
}

/// Runs the block on its input, and returns the hidden state behind it.
pub fn demo<F: Fn(Op, u32, u32) -> u32>(calc: &F) -> (r: Result<Vec<u32>, GraphError>)
    requires
        is_arith(*calc),
    ensures
        r matches Ok(y) && y@ == block(arith(*calc), input(arith(*calc))),
{
    let ghost k = arith(*calc);
    let (mut g, x, out) = build(calc);
    let values: Vec<u32> = wave_of(Op::Sin, INPUT_STEP, SEQ_LEN * DIM, calc);
    let shape: Vec<usize> = vec![SEQ_LEN, DIM];
    proof {
        lemma_shape(shape@);
    }
    let t = Tensor::from_f32(shape, values.as_slice());
    proof {
        law_f32_tensor_is_unique(t@, t@.shape, values@);
    }
    g.set_input(x, t);
    proof {
        lemma_sound(k, g@);
        law_sound_graphs_run(k, g@, 0);
        law_run_is_block(k, g@, input(k));
        law_run_keeps_values(k, g@, 0);
    }
    g.execute(calc)?;
    g.output_f32(out)
}

/// The shape of the input can be multiplied up.
proof fn lemma_shape(shape: Seq<usize>)
    requires
        shape == seq![SEQ_LEN, DIM],
    ensures
        countable(shape),
        elements(shape) == SEQ_LEN * DIM,
{
    assert(shape.drop_last() =~= seq![SEQ_LEN]);
    assert(seq![SEQ_LEN].drop_last() =~= Seq::empty());
    assert(elements(Seq::<usize>::empty()) == 1);
    assert(elements(seq![SEQ_LEN]) == SEQ_LEN);
    assert(elements(shape) == SEQ_LEN * DIM);
    assert forall|i: int| 0 <= i <= shape.len() implies #[trigger] elements(shape.take(i))
        <= usize::MAX by {
        if i == 0 {
            assert(shape.take(0) =~= Seq::empty());
        } else if i == 1 {
            assert(shape.take(1) =~= seq![SEQ_LEN]);
        } else {
            assert(shape.take(2) =~= shape);
        }
    }
}

/// The nodes of the block can be computed.
proof fn lemma_sound(k: Arith, g: GraphView)
    requires
        are_nodes(k, g.ops),
        g.n_tokens == SEQ_LEN,
    ensures
        g.sound(),
{
    assert forall|i: int| 0 <= i < g.ops.len() implies (#[trigger] g.ops[i]).sound(
        14,
        g.n_tokens,
    ) by {
        if i == 7 {
            assert(heads().wf());
        }
    }
}

} // verus!
