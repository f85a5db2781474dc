//! Laws of the checkpoint format: where every weight stands in the file.
use crate::arith::Arith;
use crate::kernels::quant::quantizes;
use crate::model::checkpoint::{
    classifier_start, header_config, is_layer, is_model, kind_start, layer_values, load_error,
    values, CheckpointError,
};
use crate::model::config::{Activation, Config, Precision};
use crate::model::weights::{is_linear, Embedding, Layer, Linear, Model};
use vstd::prelude::*;

verus! {

/// Four bytes from `off` on, the lowest first.
pub open spec fn word(data: Seq<u8>, off: int) -> int {
    data[off] + 256 * data[off + 1] + 65536 * data[off + 2] + 16777216 * data[off + 3]
}

/// The header is seven numbers of four bytes: widths, counts and lengths in this order; a
/// negative vocabulary says that the classifier is not shared.
#[verifier::spinoff_prover]
pub proof fn law_header(data: Seq<u8>)
    requires
        data.len() >= 28,
        word(data, 0) < 0x8000_0000,
        0 < word(data, 12) < 0x8000_0000,
        word(data, 4) < 0x8000_0000,
        word(data, 8) < 0x8000_0000,
        word(data, 16) < 0x8000_0000,
        word(data, 24) < 0x8000_0000,
    ensures
        ({
            let c = header_config(data);
            &&& c.dim == word(data, 0)
            &&& c.hidden_dim == word(data, 4)
            &&& c.n_layers == word(data, 8)
            &&& c.n_heads == word(data, 12)
            &&& c.n_kv_heads == word(data, 16)
            &&& c.seq_len == word(data, 24)
            &&& word(data, 20) < 0x8000_0000 ==> c.vocab_size == word(data, 20)
                && c.shared_classifier == (word(data, 20) > 0)
            &&& word(data, 20) >= 0x8000_0000 ==> c.vocab_size == 0x1_0000_0000 - word(data, 20)
                && !c.shared_classifier
            &&& c.head_dim == word(data, 0) / word(data, 12)
            &&& c.rope_theta == 0x461c_4000
            &&& c.norm_eps == 0x3727_c5ac
            &&& !c.rope_neox
            &&& c.act == Activation::Silu
            &&& c.emb_scale == 0x3f80_0000
        }),
{
    assert(word(data, 0) / word(data, 12) <= word(data, 0)) by (nonlinear_arith)
        requires
            0 <= word(data, 0),
            0 < word(data, 12),
    ;
    assert(0 <= word(data, 0) / word(data, 12)) by (nonlinear_arith)
        requires
            0 <= word(data, 0),
            0 < word(data, 12),
    ;
}

/// The `n` values from value `at` on, which stand behind the 28 bytes of the header.
pub open spec fn is_run(data: Seq<u8>, at: int, n: int, out: Seq<u32>) -> bool {
    &&& out.len() == n
    &&& forall|i: int| 0 <= i < n ==> #[trigger] out[i] == word(data, 28 + 4 * (at + i))
}

proof fn lemma_run(data: Seq<u8>, at: int, n: int, out: Seq<u32>)
    requires
        out == values(data, at, n),
        0 <= n,
    ensures
        is_run(data, at, n, out),
{
    assert forall|i: int| 0 <= i < n implies #[trigger] out[i] == word(data, 28 + 4 * (at + i)) by {
        assert(28 + 4 * at + 4 * i == 28 + 4 * (at + i));
    }
}

/// Behind the embedding stand nine kinds of weights, each for all layers in turn: the norm
/// before attention, queries, keys, values and output, the norm before the feed-forward
/// part, its activated projection, the one back and the one that it is multiplied with.
#[verifier::spinoff_prover]
pub proof fn law_weights_stand_one_behind_the_other(c: Config)
    ensures
        ({
            let n = c.n_layers;
            let d = c.dim;
            let q = c.dim * (c.n_heads * c.head_dim);
            let k = c.dim * (c.n_kv_heads * c.head_dim);
            let h = c.hidden_dim * c.dim;
            &&& kind_start(c, 0) == c.vocab_size * d
            &&& kind_start(c, 1) == kind_start(c, 0) + n * d
            &&& kind_start(c, 2) == kind_start(c, 1) + n * q
            &&& kind_start(c, 3) == kind_start(c, 2) + n * k
            &&& kind_start(c, 4) == kind_start(c, 3) + n * k
            &&& kind_start(c, 5) == kind_start(c, 4) + n * q
            &&& kind_start(c, 6) == kind_start(c, 5) + n * d
            &&& kind_start(c, 7) == kind_start(c, 6) + n * h
            &&& kind_start(c, 8) == kind_start(c, 7) + n * h
            &&& kind_start(c, 9) == kind_start(c, 8) + n * h
        }),
{
}

/// Every weight of a layer is a run of values of its kind, and makes the matrix of its shape;
/// there are no biases.
#[verifier::spinoff_prover]
pub proof fn law_layer_of_a_checkpoint(
    ar: Arith,
    data: Seq<u8>,
    c: Config,
    l: int,
    layer: Layer,
    q: int,
    k: int,
    d: int,
    h: int,
)
    requires
        is_layer(ar, data, c, Precision::F32, l, layer),
        0 <= l,
        q == c.n_heads * c.head_dim,
        k == c.n_kv_heads * c.head_dim,
        d == c.dim,
        h == c.hidden_dim,
    ensures
        is_run(data, kind_start(c, 0) + l * d, d, layer.rms_att@),
        is_dense_run(data, kind_start(c, 1) + l * (d * q), q, d, layer.wq),
        is_dense_run(data, kind_start(c, 2) + l * (d * k), k, d, layer.wk),
        is_dense_run(data, kind_start(c, 3) + l * (d * k), k, d, layer.wv),
        is_dense_run(data, kind_start(c, 4) + l * (d * q), d, q, layer.wo),
        layer.bq is None && layer.bk is None && layer.bv is None,
        is_run(data, kind_start(c, 5) + l * d, d, layer.rms_ffn@),
        is_dense_run(data, kind_start(c, 6) + l * (h * d), h, d, layer.w1),
        is_dense_run(data, kind_start(c, 7) + l * (h * d), d, h, layer.w2),
        is_dense_run(data, kind_start(c, 8) + l * (h * d), h, d, layer.w3),
{
    assert(0 <= d * q && 0 <= d * k && 0 <= h * d) by (nonlinear_arith)
        requires
            0 <= d,
            0 <= q,
            0 <= k,
            0 <= h,
    ;
    assert(q * d == d * q && k * d == d * k && h * d == d * h) by (nonlinear_arith);
    lemma_run(data, kind_start(c, 0) + l * d, d, layer_values(data, c, 0, l));
    lemma_run(data, kind_start(c, 1) + l * (d * q), d * q, layer_values(data, c, 1, l));
    lemma_run(data, kind_start(c, 2) + l * (d * k), d * k, layer_values(data, c, 2, l));
    lemma_run(data, kind_start(c, 3) + l * (d * k), d * k, layer_values(data, c, 3, l));
    lemma_run(data, kind_start(c, 4) + l * (d * q), d * q, layer_values(data, c, 4, l));
    lemma_run(data, kind_start(c, 5) + l * d, d, layer_values(data, c, 5, l));
    lemma_run(data, kind_start(c, 6) + l * (h * d), h * d, layer_values(data, c, 6, l));
    lemma_run(data, kind_start(c, 7) + l * (h * d), h * d, layer_values(data, c, 7, l));
    lemma_run(data, kind_start(c, 8) + l * (h * d), h * d, layer_values(data, c, 8, l));
}

/// The matrix of `rows` rows of `cols` values that stand in the file from value `at` on.
pub open spec fn is_dense_run(data: Seq<u8>, at: int, rows: int, cols: int, lin: Linear) -> bool {
    lin matches Linear::F32 { w, rows: r, cols: c } && r == rows && c == cols && is_run(
        data,
        at,
        rows * cols,
        w@,
    )
}

/// A matrix is kept as it is, or quantized where that is asked for and its rows are whole
/// groups.
pub proof fn law_matrix_precision(
    ar: Arith,
    w: Seq<u32>,
    rows: int,
    cols: int,
    precision: Precision,
    lin: Linear,
)
    requires
        is_linear(ar, w, rows, cols, precision, lin),
    ensures
        lin.rows() == rows,
        lin.cols() == cols,
        precision == Precision::F32 || cols % 32 != 0 ==> (lin matches Linear::F32 { w: v, .. } && v@
            == w),
        precision == Precision::Q8 && cols % 32 == 0 ==> (lin matches Linear::Q8(m) && quantizes(
            ar,
            w,
            m.q@,
            m.scales@,
        )),
{
}

/// The embedding comes first in the file, the final norm behind the layers, and behind it and
/// the tables of rotations, as many values as the heads of all positions are wide, the
/// classifier, where it is not shared.
#[verifier::spinoff_prover]
pub proof fn law_model_of_a_checkpoint(ar: Arith, data: Seq<u8>, m: Model, l: int)
    requires
        is_model(ar, data, Precision::F32, m),
        0 <= l < m.layers@.len(),
    ensures
        ({
            let c = m.config;
            let tables = c.seq_len * c.head_dim / 2 * 2;
            &&& c == header_config(data)
            &&& m.layers@.len() == c.n_layers
            &&& is_layer(ar, data, c, Precision::F32, l, m.layers@[l])
            &&& m.tok_emb matches Embedding::F32(w) && is_run(data, 0, c.vocab_size * c.dim, w@)
            &&& is_run(data, kind_start(c, 9), c.dim as int, m.rms_final@)
            &&& c.shared_classifier ==> m.wcls is None
            &&& !c.shared_classifier ==> m.wcls is Some && is_dense_run(
                data,
                kind_start(c, 9) + c.dim + tables,
                c.vocab_size as int,
                c.dim as int,
                m.wcls->0,
            )
        }),
{
    let c = m.config;
    assert(0 <= c.vocab_size * c.dim) by (nonlinear_arith)
        requires
            0 <= c.vocab_size,
            0 <= c.dim,
    ;
    lemma_run(data, 0, c.vocab_size * c.dim, values(data, 0, c.vocab_size * c.dim));
    lemma_run(data, kind_start(c, 9), c.dim as int, m.rms_final@);
    lemma_run(
        data,
        classifier_start(c),
        c.vocab_size * c.dim,
        values(data, classifier_start(c), c.vocab_size * c.dim),
    );
}

/// A checkpoint is refused exactly if it is shorter than its header or than the weights that
/// the header announces, or if its heads do not divide its width.
#[verifier::spinoff_prover]
pub proof fn law_when_a_checkpoint_loads(data: Seq<u8>, c: Config)
    requires
        data.len() >= 28 ==> c == header_config(data),
        word(data, 0) < 0x8000_0000,
        word(data, 12) < 0x8000_0000,
    ensures
        data.len() < 28 ==> load_error(data) == Some(CheckpointError::Truncated),
        data.len() >= 28 && (word(data, 0) == 0 || word(data, 12) == 0 || word(data, 0) % word(
            data,
            12,
        ) != 0) ==> load_error(data) == Some(CheckpointError::BadHeader),
        data.len() >= 28 && word(data, 0) > 0 && word(data, 12) > 0 && word(data, 0) % word(
            data,
            12,
        ) == 0 ==> {
            let tables = c.seq_len * c.head_dim / 2 * 2;
            let n = kind_start(c, 9) + c.dim + tables + (if c.shared_classifier {
                0
            } else {
                c.vocab_size * c.dim
            });
            &&& 28 + 4 * n <= data.len() ==> load_error(data) is None
            &&& 28 + 4 * n > data.len() ==> load_error(data) == Some(CheckpointError::Truncated)
        },
{
}

} // verus!
