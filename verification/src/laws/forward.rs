//! Laws of the forward pass.
use crate::arith::{natural, Arith, Op};
use crate::kernels::attention::attended;
use crate::kernels::kquant::KQuantMatrix;
use crate::kernels::matmul::{dot_value, kquant_dot_value, act_codes, act_scales, q8_dot_value};
use crate::kernels::norms::{gelu_value, normed, silu_value};
use crate::kernels::quant::lemma_row_in;
use crate::laws::numerics::{
    is_rotated, law_halves_are_rotated, law_neighbours_are_rotated, rotation,
};
use crate::model::config::{Activation, Config};
use crate::model::infer::{
    activated, attention_block, biased, cache_rows, embedded, empty_cache, finished, head_value,
    layer_flow, layers_flow, projected, token_flow, turned, zipped, CacheView, Flow, KvCache, Qkv,
};
use crate::model::weights::{Embedding, Layer, Linear, Model};
use vstd::prelude::*;

verus! {

/// The values of `sum` are those of `x`, each with the bias of its place added where
/// there is one.
pub open spec fn is_biased(k: Arith, x: Seq<u32>, bias: Option<Vec<u32>>, sum: Seq<u32>) -> bool {
    &&& sum.len() == x.len()
    &&& forall|i: int|
        0 <= i < x.len() ==> #[trigger] sum[i] == (if bias is Some && i < bias->0@.len() {
            k(Op::Add, x[i], bias->0@[i])
        } else {
            x[i]
        })
}

/// `y` is the row `x` of whole heads, every head rotated pair by pair by the angles of
/// position `pos`: across its halves, or neighbour against neighbour.
pub open spec fn is_turned(k: Arith, c: Config, x: Seq<u32>, pos: int, y: Seq<u32>) -> bool {
    let w = c.head_dim as int;
    &&& y.len() == x.len()
    &&& c.rope_neox ==> forall|h: int, j: int|
        #![trigger y[h * w + j]]
        0 <= h && h * w + w <= x.len() && 0 <= j < w / 2 ==> is_rotated(
            k,
            x[h * w + j],
            x[h * w + j + w / 2],
            rotation(k, pos, k(Op::Mul, 0x4000_0000, natural(k, j)), w, c.rope_theta),
            y[h * w + j],
            y[h * w + j + w / 2],
        )
    &&& !c.rope_neox ==> forall|h: int, j: int|
        #![trigger y[h * w + 2 * j]]
        0 <= h && h * w + w <= x.len() && 0 <= j < w / 2 ==> is_rotated(
            k,
            x[h * w + 2 * j],
            x[h * w + 2 * j + 1],
            rotation(k, pos, natural(k, 2 * j), w, c.rope_theta),
            y[h * w + 2 * j],
            y[h * w + 2 * j + 1],
        )
}

/// Queries and keys are rotated head by head in the model's convention.
#[verifier::spinoff_prover]
pub proof fn law_rows_are_turned(k: Arith, c: Config, x: Seq<u32>, pos: int)
    requires
        c.head_dim > 0,
        c.head_dim % 2 == 0,
    ensures
        is_turned(k, c, x, pos, turned(k, c, x, pos)),
{
    let w = c.head_dim as int;
    let y = turned(k, c, x, pos);
    if c.rope_neox {
        assert forall|h: int, j: int|
            #![trigger y[h * w + j]]
            0 <= h && h * w + w <= x.len() && 0 <= j < w / 2 implies is_rotated(
            k,
            x[h * w + j],
            x[h * w + j + w / 2],
            rotation(k, pos, k(Op::Mul, 0x4000_0000, natural(k, j)), w, c.rope_theta),
            y[h * w + j],
            y[h * w + j + w / 2],
        ) by {
            law_halves_are_rotated(k, x, pos, w, c.rope_theta, h, j);
        }
    } else {
        assert forall|h: int, j: int|
            #![trigger y[h * w + 2 * j]]
            0 <= h && h * w + w <= x.len() && 0 <= j < w / 2 implies is_rotated(
            k,
            x[h * w + 2 * j],
            x[h * w + 2 * j + 1],
            rotation(k, pos, natural(k, 2 * j), w, c.rope_theta),
            y[h * w + 2 * j],
            y[h * w + 2 * j + 1],
        ) by {
            law_neighbours_are_rotated(k, x, pos, w, c.rope_theta, h, j);
        }
    }
}

/// Biases are added to queries, keys and values before queries and keys are rotated:
/// what attention reads and the caches keep is the rotation of the sums.
#[verifier::spinoff_prover]
pub proof fn law_biases_are_added(
    k: Arith,
    c: Config,
    layer: Layer,
    raw: Qkv,
    pos: int,
    q: Seq<u32>,
    key: Seq<u32>,
    v: Seq<u32>,
)
    requires
        c.head_dim > 0,
        c.head_dim % 2 == 0,
        is_biased(k, raw.q, layer.bq, q),
        is_biased(k, raw.k, layer.bk, key),
        is_biased(k, raw.v, layer.bv, v),
    ensures
        is_turned(k, c, q, pos, finished(k, c, layer, raw, pos).q),
        is_turned(k, c, key, pos, finished(k, c, layer, raw, pos).k),
        finished(k, c, layer, raw, pos).v == v,
{
    assert(q =~= biased(k, raw.q, layer.bq));
    assert(key =~= biased(k, raw.k, layer.bk));
    assert(v =~= biased(k, raw.v, layer.bv));
    law_rows_are_turned(k, c, q, pos);
    law_rows_are_turned(k, c, key, pos);
}

/// After a layer has run, row `pos` of its key cache is the rotation of the key
/// projection of the normalized input with the key bias added, and row `pos` of its value
/// cache is the value projection with the value bias added. Everything else in the caches
/// is as it was.
#[verifier::spinoff_prover]
pub proof fn law_what_the_caches_keep(
    k: Arith,
    c: Config,
    layer: Layer,
    l: int,
    flow: Flow,
    pos: int,
    key: Seq<u32>,
    v: Seq<u32>,
)
    requires
        c.head_dim > 0,
        c.head_dim % 2 == 0,
        0 <= pos,
        0 <= l < flow.cache.k.len(),
        flow.cache.v.len() == flow.cache.k.len(),
        is_biased(
            k,
            layer.wk.outputs(k, normed(k, flow.x, layer.rms_att@, c.norm_eps)),
            layer.bk,
            key,
        ),
        is_biased(
            k,
            layer.wv.outputs(k, normed(k, flow.x, layer.rms_att@, c.norm_eps)),
            layer.bv,
            v,
        ),
        (pos + 1) * key.len() <= flow.cache.k[l].len(),
        (pos + 1) * v.len() <= flow.cache.v[l].len(),
    ensures
        ({
            let done = layer_flow(k, c, layer, l, flow, pos).cache;
            let n = key.len() as int;
            let m = v.len() as int;
            &&& done.k.len() == flow.cache.k.len()
            &&& done.v.len() == flow.cache.v.len()
            &&& done.k[l].len() == flow.cache.k[l].len()
            &&& done.v[l].len() == flow.cache.v[l].len()
            &&& is_turned(k, c, key, pos, done.k[l].subrange(pos * n, pos * n + n))
            &&& done.v[l].subrange(pos * m, pos * m + m) == v
            &&& forall|i: int|
                0 <= i < done.k[l].len() && !(pos * n <= i < pos * n + n)
                    ==> #[trigger] done.k[l][i] == flow.cache.k[l][i]
            &&& forall|i: int|
                0 <= i < done.v[l].len() && !(pos * m <= i < pos * m + m)
                    ==> #[trigger] done.v[l][i] == flow.cache.v[l][i]
            &&& forall|o: int|
                0 <= o < done.k.len() && o != l ==> #[trigger] done.k[o] == flow.cache.k[o]
            &&& forall|o: int|
                0 <= o < done.v.len() && o != l ==> #[trigger] done.v[o] == flow.cache.v[o]
        }),
{
    let xb = normed(k, flow.x, layer.rms_att@, c.norm_eps);
    let raw = projected(k, layer, xb);
    let q = biased(k, raw.q, layer.bq);
    law_biases_are_added(k, c, layer, raw, pos, q, key, v);
    let done = layer_flow(k, c, layer, l, flow, pos).cache;
    let n = key.len() as int;
    let m = v.len() as int;
    let turned_key = finished(k, c, layer, raw, pos).k;
    lemma_row_in(pos, pos + 1, n);
    lemma_row_in(pos, pos + 1, m);
    assert(done.k[l].subrange(pos * n, pos * n + n) =~= turned_key);
    assert(done.v[l].subrange(pos * m, pos * m + m) =~= v);
}

/// Where a rotation at position 0 leaves every pair as it is, row 0 of a key cache holds
/// the key projection with the bias added, value by value.
#[verifier::spinoff_prover]
pub proof fn law_the_first_key_is_the_sum(
    k: Arith,
    c: Config,
    layer: Layer,
    l: int,
    flow: Flow,
    key: Seq<u32>,
    h: int,
    d: int,
)
    requires
        c.head_dim > 0,
        c.head_dim % 2 == 0,
        0 <= l < flow.cache.k.len(),
        flow.cache.v.len() == flow.cache.k.len(),
        is_biased(
            k,
            layer.wk.outputs(k, normed(k, flow.x, layer.rms_att@, c.norm_eps)),
            layer.bk,
            key,
        ),
        key.len() <= flow.cache.k[l].len(),
        layer.wv.outputs(k, normed(k, flow.x, layer.rms_att@, c.norm_eps)).len()
            <= flow.cache.v[l].len(),
        forall|f: u32, x: u32, y: u32|
            #[trigger] is_rotated(k, x, y, k(Op::Mul, natural(k, 0), f), x, y),
        0 <= h,
        h * c.head_dim + c.head_dim <= key.len(),
        0 <= d < c.head_dim,
    ensures
        layer_flow(k, c, layer, l, flow, 0).cache.k[l][h * c.head_dim + d] == key[h * c.head_dim
            + d],
{
    let w = c.head_dim as int;
    let xb = normed(k, flow.x, layer.rms_att@, c.norm_eps);
    let v = biased(k, layer.wv.outputs(k, xb), layer.bv);
    law_what_the_caches_keep(k, c, layer, l, flow, 0, key, v);
    let row = layer_flow(k, c, layer, l, flow, 0).cache.k[l].subrange(0, key.len() as int);
    assert(0 <= h * w) by (nonlinear_arith)
        requires
            0 <= h,
            0 < w,
    ;
    assert(is_turned(k, c, key, 0, row));
    if c.rope_neox {
        let j = if d < w / 2 {
            d
        } else {
            d - w / 2
        };
        let e = k(Op::Mul, 0x4000_0000, natural(k, j));
        let f = k(Op::Pow, c.rope_theta, k(Op::Div, k(Op::Neg, e, 0), natural(k, w)));
        let x = key[h * w + j];
        let y = key[h * w + j + w / 2];
        assert(is_rotated(k, x, y, k(Op::Mul, natural(k, 0), f), x, y));
        assert(row[h * w + j] == x);
        assert(row[h * w + j + w / 2] == y);
    } else {
        let j = d / 2;
        let e = natural(k, 2 * j);
        let f = k(Op::Pow, c.rope_theta, k(Op::Div, k(Op::Neg, e, 0), natural(k, w)));
        let x = key[h * w + 2 * j];
        let y = key[h * w + 2 * j + 1];
        assert(is_rotated(k, x, y, k(Op::Mul, natural(k, 0), f), x, y));
        assert(row[h * w + 2 * j] == x);
        assert(row[h * w + 2 * j + 1] == y);
    }
}

/// `sum` is `x` with `y` added, value by value, as far as `y` goes.
pub open spec fn is_sum(k: Arith, x: Seq<u32>, y: Seq<u32>, sum: Seq<u32>) -> bool {
    &&& sum.len() == x.len()
    &&& forall|i: int|
        0 <= i < x.len() ==> #[trigger] sum[i] == (if i < y.len() {
            k(Op::Add, x[i], y[i])
        } else {
            x[i]
        })
}

/// `y` is the activation of every value of `x`, multiplied by the value of `up` at its
/// place.
pub open spec fn is_mixed(
    k: Arith,
    act: Activation,
    x: Seq<u32>,
    up: Seq<u32>,
    y: Seq<u32>,
) -> bool {
    &&& y.len() == x.len()
    &&& forall|i: int|
        0 <= i < x.len() && i < up.len() ==> #[trigger] y[i] == k(
            Op::Mul,
            match act {
                Activation::Silu => silu_value(k, x[i]),
                Activation::GeluTanh => gelu_value(k, x[i]),
            },
            up[i],
        )
}

/// A layer adds to its input what attention over the positions so far gives, projected,
/// and to that what the feed-forward part gives: each of the two reads the normalization
/// of what it is added to, with weights of its own.
#[verifier::spinoff_prover]
pub proof fn law_layer(
    k: Arith,
    c: Config,
    layer: Layer,
    l: int,
    flow: Flow,
    pos: int,
    q: Seq<u32>,
    mid: Seq<u32>,
    mix: Seq<u32>,
    out: Seq<u32>,
)
    requires
        0 <= l < flow.cache.k.len(),
        0 <= l < flow.cache.v.len(),
        layer.w1.rows() == layer.w3.rows(),
        is_biased(
            k,
            layer.wq.outputs(k, normed(k, flow.x, layer.rms_att@, c.norm_eps)),
            layer.bq,
            q,
        ),
        ({
            let cache = layer_flow(k, c, layer, l, flow, pos).cache;
            is_sum(
                k,
                flow.x,
                layer.wo.outputs(
                    k,
                    attended(k, turned(k, c, q, pos), cache.k[l], cache.v[l], pos, c.heads()),
                ),
                mid,
            )
        }),
        ({
            let xb = normed(k, mid, layer.rms_ffn@, c.norm_eps);
            is_mixed(k, c.act, layer.w1.outputs(k, xb), layer.w3.outputs(k, xb), mix)
        }),
        is_sum(k, mid, layer.w2.outputs(k, mix), out),
    ensures
        layer_flow(k, c, layer, l, flow, pos).x == out,
{
    let xb = normed(k, flow.x, layer.rms_att@, c.norm_eps);
    let raw = projected(k, layer, xb);
    let qkv = finished(k, c, layer, raw, pos);
    assert(q =~= biased(k, raw.q, layer.bq));
    let block = attention_block(k, c, layer, l, flow, qkv, pos);
    assert(block.x =~= mid);
    let xf = normed(k, mid, layer.rms_ffn@, c.norm_eps);
    assert(mix =~= zipped(
        k,
        Op::Mul,
        activated(k, c.act, layer.w1.outputs(k, xf)),
        layer.w3.outputs(k, xf),
    ));
    assert(layer_flow(k, c, layer, l, flow, pos).x =~= out);
}

/// Each value of a projection is the dot product of the input with its own row of the
/// matrix, in the way of the matrix's format.
pub proof fn law_projection_value(k: Arith, lin: Linear, x: Seq<u32>, r: int)
    requires
        lin.wf(),
        0 <= r < lin.rows(),
    ensures
        lin.outputs(k, x).len() == lin.rows(),
        lin matches Linear::F32 { w, rows, cols } ==> lin.outputs(k, x)[r] == dot_value(
            k,
            x,
            w@.subrange(r * cols, r * cols + cols),
        ),
        lin matches Linear::Q8(m) ==> lin.outputs(k, x)[r] == q8_dot_value(
            k,
            x,
            m.q@.subrange(r * m.cols, r * m.cols + m.cols),
            m.scales@.subrange(r * (m.cols as int / 32), r * (m.cols as int / 32) + m.cols as int / 32),
        ),
        lin matches Linear::KQuant(m) ==> lin.outputs(k, x)[r] == kquant_dot_value(
            k,
            m,
            act_codes(k, x),
            act_scales(k, x),
            r,
        ),
{
}

/// A token goes through the layers in order, from its own row of the embedding.
pub proof fn law_layers_run_in_order(
    k: Arith,
    model: Model,
    cache: CacheView,
    token: int,
    pos: int,
    flows: Seq<Flow>,
    n: int,
)
    requires
        flows.len() == model.layers@.len() + 1,
        flows[0] == (Flow { x: embedded(k, model, token), cache }),
        forall|l: int|
            0 <= l < model.layers@.len() ==> #[trigger] flows[l + 1] == layer_flow(
                k,
                model.config,
                model.layers@[l],
                l,
                flows[l],
                pos,
            ),
        0 <= n <= model.layers@.len(),
    ensures
        layers_flow(k, model.config, model.layers@, flows[0], pos, n as nat) == flows[n],
        n == model.layers@.len() ==> token_flow(k, model, cache, token, pos) == flows[n],
    decreases n,
{
    if n > 0 {
        law_layers_run_in_order(k, model, cache, token, pos, flows, n - 1);
        assert(flows[n - 1 + 1] == layer_flow(
            k,
            model.config,
            model.layers@[n - 1],
            n - 1,
            flows[n - 1],
            pos,
        ));
    }
}

/// The embedding of a token is its row of the table, times the scale where that is not
/// one.
pub proof fn law_embedding_value(k: Arith, model: Model, token: int, i: int)
    requires
        0 <= token,
        0 <= i < model.config.dim,
        model.tok_emb.has_row(token, model.config.dim as int),
        model.tok_emb is F32,
    ensures
        embedded(k, model, token).len() == model.config.dim,
        embedded(k, model, token)[i] == (if model.config.emb_scale == 0x3f80_0000 {
            model.tok_emb->F32_0@[token * model.config.dim + i]
        } else {
            k(
                Op::Mul,
                model.tok_emb->F32_0@[token * model.config.dim + i],
                model.config.emb_scale,
            )
        }),
{
    let n = model.config.dim as int;
    lemma_row_in(token, token + 1, n);
}

/// The embedding of a token in a packed table is the token's row, multiplied out.
pub proof fn law_packed_embedding(k: Arith, model: Model, token: int, m: KQuantMatrix)
    requires
        model.tok_emb == Embedding::KQuant(m),
    ensures
        model.config.emb_scale == 0x3f80_0000 ==> embedded(k, model, token) == m.row_values(k, token),
        model.config.emb_scale != 0x3f80_0000 ==> embedded(k, model, token) == m.row_values(
            k,
            token,
        ).map_values(|x: u32| k(Op::Mul, x, model.config.emb_scale)),
{
    if model.config.emb_scale != 0x3f80_0000 {
        assert(embedded(k, model, token) =~= m.row_values(k, token).map_values(
            |x: u32| k(Op::Mul, x, model.config.emb_scale),
        ));
    }
}

/// The caches of a model hold, layer by layer, what their fields do: keys and values.
pub proof fn law_what_a_cache_holds(cache: KvCache, l: int)
    requires
        0 <= l < cache.k@.len(),
        0 <= l < cache.v@.len(),
    ensures
        cache@.k.len() == cache.k@.len(),
        cache@.v.len() == cache.v@.len(),
        cache@.k[l] == cache.k@[l]@,
        cache@.v[l] == cache.v@[l]@,
{
}

/// A cache has a row for every position that is asked for, up to the length of the context,
/// and starts as zeros.
pub proof fn law_new_caches(c: Config, positions: int, n: nat, len: nat, l: int, i: int)
    requires
        0 <= l < n,
        0 <= i < len,
    ensures
        positions <= c.seq_len ==> cache_rows(c, positions) == positions,
        positions > c.seq_len ==> cache_rows(c, positions) == c.seq_len,
        empty_cache(n, len).k.len() == n && empty_cache(n, len).v.len() == n,
        empty_cache(n, len).k[l].len() == len && empty_cache(n, len).v[l].len() == len,
        empty_cache(n, len).k[l][i] == 0 && empty_cache(n, len).v[l][i] == 0,
{
}

/// The widths of a position's queries, and of its keys and values.
pub proof fn law_widths(c: Config)
    ensures
        c.q_width() == c.n_heads * c.head_dim,
        c.kv_width() == c.n_kv_heads * c.head_dim,
        c.heads().n_heads == c.n_heads,
        c.heads().n_kv_heads == c.n_kv_heads,
        c.heads().head_dim == c.head_dim,
{
}

/// The logit of a token is the dot product of the final normalization with the token's
/// row of the classifier or, where there is none, with its row of the embedding.
pub proof fn law_logit_value(k: Arith, model: Model, x: Seq<u32>, token: int)
    requires
        0 <= token < model.config.vocab_size,
    ensures
        ({
            let xf = normed(k, x, model.rms_final@, model.config.norm_eps);
            let logits = head_value(k, model, x);
            let n = model.config.dim;
            &&& model.wcls matches Some(head) ==> logits == head.outputs(k, xf)
            &&& model.wcls is None ==> (model.tok_emb matches Embedding::F32(w) ==> logits.len()
                == model.config.vocab_size && logits[token] == dot_value(
                k,
                xf,
                w@.subrange(token * n, token * n + n),
            ))
            &&& model.wcls is None ==> (model.tok_emb matches Embedding::KQuant(m) ==> logits.len()
                == m.rows && (token < m.rows ==> logits[token] == kquant_dot_value(
                k,
                m,
                act_codes(k, xf),
                act_scales(k, xf),
                token,
            )))
        }),
{
}

} // verus!
