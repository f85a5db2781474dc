//! Laws of loading: which tensor of a file becomes which weight of the model.
use crate::arith::{Arith, Op};
use crate::bytes::window;
use crate::double_bits::narrowed;
use crate::float_bits::widened;
use crate::kernels::kquant::{dequantized, KQuantKind, KQuantMatrix};
use crate::laws::packing::stored_byte;
use crate::laws::quantization::{block_bytes, block_values};
use crate::model::config::{Activation, Precision};
use crate::model::gguf::{
    element_count, is_matrix, is_packed, is_tensor, linear_error, stored_size, tensor_error,
};
use crate::model::gguf_format::{ErrorView, GgufView, ValueView};
use crate::model::gguf_load::{
    arch_of, bias_error, config_error, gguf_config, is_bias, is_embedding, is_gguf_model, is_layer,
    is_norm, layer_error, layer_tensor, named_arch, Arch,
};
use crate::model::gguf_tokenizer::meta_array;
use crate::model::weights::{is_linear, layers_bytes, Embedding, Layer, Linear, Model};
use crate::text::decimal;
use vstd::prelude::*;

verus! {

/// The number of values of a tensor is the product of its dimensions.
pub proof fn law_dimensions_multiply(dims: Seq<u64>, d: u64)
    ensures
        element_count(Seq::empty()) == 1,
        element_count(dims.push(d)) == element_count(dims) * d,
{
    assert(dims.push(d).drop_last() =~= dims);
}

/// Four bytes of tensor `name`, the lowest first.
pub open spec fn stored_word(g: GgufView, name: Seq<char>, i: int) -> int {
    stored_byte(g, name, i) + 256 * stored_byte(g, name, i + 1) + 65536 * stored_byte(g, name, i + 2)
        + 16777216 * stored_byte(g, name, i + 3)
}

/// The values of an unpacked tensor stand in the file one after the other: singles of four
/// bytes, halves of two.
pub proof fn law_unpacked_value(ar: Arith, g: GgufView, name: Seq<char>, out: Seq<u32>, i: int)
    requires
        is_tensor(ar, g, name, out),
        0 <= i < out.len(),
    ensures
        out.len() == element_count(g.tensors[name].dims),
        g.tensors[name].ggml_type == 0 ==> out[i] == stored_word(g, name, 4 * i),
        g.tensors[name].ggml_type == 1 ==> out[i] == widened(
            (stored_byte(g, name, 2 * i) + 256 * stored_byte(g, name, 2 * i + 1)) as u16,
        ),
{
    assert(out[i] == out[i]);
}

/// The packed format of a tensor type.
pub open spec fn format_of(t: u32, kind: KQuantKind) -> bool {
    match kind {
        KQuantKind::Q40 => t == 2,
        KQuantKind::Q4K => t == 12,
        KQuantKind::Q6K => t == 14,
    }
}

/// The values of a packed tensor are those of the blocks that stand in the file from the
/// tensor's offset on.
pub proof fn law_packed_tensor(
    ar: Arith,
    g: GgufView,
    name: Seq<char>,
    out: Seq<u32>,
    kind: KQuantKind,
    blocks: Seq<u8>,
    n: int,
)
    requires
        is_tensor(ar, g, name, out),
        format_of(g.tensors[name].ggml_type, kind),
        0 <= n,
        n * block_values(kind) == element_count(g.tensors[name].dims),
        blocks.len() == n * block_bytes(kind),
        0 <= g.data_start,
        g.data_start + g.tensors[name].offset + blocks.len() <= g.data.len(),
        forall|i: int| 0 <= i < blocks.len() ==> #[trigger] blocks[i] == stored_byte(g, name, i),
    ensures
        out == dequantized(ar, kind, blocks, 0, n),
{
    let start = g.data_start + g.tensors[name].offset;
    let v = block_values(kind);
    assert(kind.values() == v && kind.bytes() == block_bytes(kind));
    assert(n * v / v == n) by (nonlinear_arith)
        requires
            v > 0,
    ;
    assert(blocks =~= window(g.data, start, n * block_bytes(kind)));
}

/// How many bytes a tensor of `n` values takes, by its type; other types and broken blocks
/// are refused.
pub proof fn law_stored_size(t: u32, n: int)
    requires
        0 <= n,
    ensures
        stored_size(t, n) == (if t == 0 {
            Some(4 * n)
        } else if t == 1 {
            Some(2 * n)
        } else if t == 2 && n % 32 == 0 {
            Some(n / 32 * 18)
        } else if t == 8 && n % 32 == 0 {
            Some(n / 32 * 34)
        } else if t == 12 && n % 256 == 0 {
            Some(n / 256 * 144)
        } else if t == 14 && n % 256 == 0 {
            Some(n / 256 * 210)
        } else {
            None
        }),
{
}

/// A tensor can be read exactly if it is listed, its type is known, its blocks are whole and
/// its bytes lie within the file.
pub proof fn law_when_a_tensor_is_read(g: GgufView, name: Seq<char>)
    ensures
        tensor_error(g, name) is None <==> {
            let n = element_count(g.tensors[name].dims);
            &&& g.tensors.dom().contains(name)
            &&& n <= usize::MAX
            &&& stored_size(g.tensors[name].ggml_type, n) is Some
            &&& g.data_start + g.tensors[name].offset + stored_size(
                g.tensors[name].ggml_type,
                n,
            )->0 <= g.data.len()
        },
        !g.tensors.dom().contains(name) ==> tensor_error(g, name) == Some(
            ErrorView::MissingTensor(name),
        ),
{
}

/// A matrix has a row for every place of the second dimension of its tensor, and as many
/// values in a row as the first.
#[verifier::spinoff_prover]
pub proof fn law_matrix_shape(
    ar: Arith,
    g: GgufView,
    name: Seq<char>,
    precision: Precision,
    lin: Linear,
    kind: KQuantKind,
)
    requires
        is_matrix(ar, g, name, precision, lin),
        g.tensors[name].dims.len() == 2,
        g.tensors[name].dims[0] <= usize::MAX,
        g.tensors[name].dims[1] <= usize::MAX,
    ensures
        lin.wf(),
        lin.cols() == g.tensors[name].dims[0],
        lin.rows() == g.tensors[name].dims[1],
        g.tensors[name].ggml_type == 8 && lin.cols() % 32 == 0 ==> lin is Q8,
        format_of(g.tensors[name].ggml_type, kind) && lin.cols() % block_values(kind) == 0 ==> (
        lin matches Linear::KQuant(m) && m.kind == kind && is_packed(g, name, m)),
        g.tensors[name].ggml_type < 2 && precision == Precision::F32 ==> (
        lin matches Linear::F32 { w, .. } && is_tensor(ar, g, name, w@)),
        g.tensors[name].ggml_type < 2 && precision == Precision::Q8 && lin.cols() % 32 == 0
            ==> lin is Q8,
{
    assert(kind.values() == block_values(kind));
    if g.tensors[name].ggml_type < 2 {
        let w = choose|w: Seq<u32>| #[trigger]
            is_tensor(ar, g, name, w) && is_linear(
                ar,
                w,
                g.tensors[name].dims[1] as int,
                g.tensors[name].dims[0] as int,
                precision,
                lin,
            );
        assert(is_tensor(ar, g, name, w));
    }
}

/// A packed matrix keeps the bytes of its tensor.
pub proof fn law_packed_matrix_keeps_the_bytes(g: GgufView, name: Seq<char>, m: KQuantMatrix, i: int)
    requires
        is_packed(g, name, m),
        format_of(g.tensors[name].ggml_type, m.kind),
        0 <= g.data_start,
        0 <= i < m.blocks@.len(),
    ensures
        m.cols == g.tensors[name].dims[0],
        m.rows == g.tensors[name].dims[1],
        m.blocks@.len() == m.rows * (m.cols as int / block_values(m.kind)) * block_bytes(m.kind),
        g.data_start + g.tensors[name].offset + m.blocks@.len() <= g.data.len() ==> m.blocks@[i]
            == stored_byte(g, name, i),
{
    assert(m.kind.values() == block_values(m.kind) && m.kind.bytes() == block_bytes(m.kind));
}

/// The bytes that a model's projections take: four for a single, one for a code and four for
/// a scale, and for packed blocks what they have, summed over the layers and the classifier.
pub proof fn law_bytes_of_the_weights(m: Model, lin: Linear, layers: Seq<Layer>, layer: Layer)
    ensures
        lin matches Linear::F32 { w, .. } ==> lin.bytes() == 4 * w@.len(),
        lin matches Linear::Q8(q) ==> lin.bytes() == q.q@.len() + 4 * q.scales@.len(),
        lin matches Linear::KQuant(q) ==> lin.bytes() == q.blocks@.len(),
        layer.bytes() == layer.wq.bytes() + layer.wk.bytes() + layer.wv.bytes() + layer.wo.bytes()
            + layer.w1.bytes() + layer.w2.bytes() + layer.w3.bytes(),
        layers_bytes(Seq::empty()) == 0,
        layers_bytes(layers.push(layer)) == layers_bytes(layers) + layer.bytes(),
        m.wcls is None ==> m.bytes() == layers_bytes(m.layers@),
        m.wcls matches Some(c) ==> m.bytes() == layers_bytes(m.layers@) + c.bytes(),
{
    assert(layers.push(layer).drop_last() =~= layers);
}

/// Metadata entry `key` is the number `n`.
pub open spec fn says(g: GgufView, key: Seq<char>, n: int) -> bool {
    g.metadata.dom().contains(key) && match g.metadata[key] {
        ValueView::U8(x) => n == x,
        ValueView::U16(x) => n == x,
        ValueView::U32(x) => n == x,
        ValueView::U64(x) => n == x,
        ValueView::I8(x) => n == x,
        ValueView::I16(x) => n == x,
        ValueView::I32(x) => n == x,
        ValueView::I64(x) => n == x,
        _ => false,
    }
}

/// A model's shape is what the metadata says under the names of its architecture: a key head
/// for every query head and heads that share the width evenly, where it does not say.
#[verifier::spinoff_prover]
pub proof fn law_shape_is_what_the_metadata_says(
    k: Arith,
    g: GgufView,
    a: Arch,
    p: Seq<char>,
    vocab: usize,
    dim: usize,
    hidden: usize,
    layers: usize,
    heads: usize,
    kv_heads: usize,
    length: usize,
    width: usize,
)
    requires
        p == (match a {
            Arch::Llama => "llama"@,
            Arch::Qwen2 => "qwen2"@,
            Arch::Gemma => "gemma"@,
        }),
        says(g, p + ".embedding_length"@, dim as int),
        says(g, p + ".feed_forward_length"@, hidden as int),
        says(g, p + ".block_count"@, layers as int),
        says(g, p + ".attention.head_count"@, heads as int),
        says(g, p + ".context_length"@, length as int),
        heads > 0,
        says(g, p + ".attention.head_count_kv"@, kv_heads as int) || (!g.metadata.dom().contains(
            p + ".attention.head_count_kv"@,
        ) && kv_heads == heads),
        says(g, p + ".attention.key_length"@, width as int) || (!g.metadata.dom().contains(
            p + ".attention.key_length"@,
        ) && width == dim / heads),
    ensures
        ({
            let c = gguf_config(k, g, a, vocab as int);
            &&& c.dim == dim
            &&& c.hidden_dim == hidden
            &&& c.n_layers == layers
            &&& c.n_heads == heads
            &&& c.n_kv_heads == kv_heads
            &&& c.seq_len == length
            &&& c.head_dim == width
            &&& c.vocab_size == vocab
        }),
{
    assert(width == dim / heads ==> width as int == dim as int / heads as int);
}

/// What an architecture fixes: Llama rotates neighbours, the others halves; Gemma alone
/// uses GELU and scales its embedding by the root of its width; the norms of Llama add 1e-5,
/// those of the others 1e-6.
pub proof fn law_architecture_fixes(k: Arith, g: GgufView, a: Arch, vocab: int, dim: usize)
    requires
        a is Gemma ==> says(g, "gemma"@ + ".embedding_length"@, dim as int),
    ensures
        ({
            let c = gguf_config(k, g, a, vocab);
            &&& c.rope_neox <==> !(a is Llama)
            &&& c.act == (if a is Gemma {
                Activation::GeluTanh
            } else {
                Activation::Silu
            })
            &&& c.norm_eps == (if a is Llama {
                0x3727_c5acu32
            } else {
                0x3586_37bdu32
            })
            &&& a is Gemma ==> c.emb_scale == k(Op::Sqrt, crate::arith::natural(k, dim as int), 0)
            &&& !(a is Gemma) ==> c.emb_scale == 0x3f80_0000
            &&& c.shared_classifier <==> !g.tensors.dom().contains("output.weight"@)
        }),
{
}

/// The base of the rotation is what the metadata says, or 10000.
pub proof fn law_rotation_base(
    k: Arith,
    g: GgufView,
    a: Arch,
    p: Seq<char>,
    vocab: int,
    x: u32,
    y: u64,
)
    requires
        p == (match a {
            Arch::Llama => "llama"@,
            Arch::Qwen2 => "qwen2"@,
            Arch::Gemma => "gemma"@,
        }),
    ensures
        g.metadata.dom().contains(p + ".rope.freq_base"@) && g.metadata[p + ".rope.freq_base"@]
            == ValueView::F32(x) ==> gguf_config(k, g, a, vocab).rope_theta == x,
        g.metadata.dom().contains(p + ".rope.freq_base"@) && g.metadata[p + ".rope.freq_base"@]
            == ValueView::F64(y) ==> gguf_config(k, g, a, vocab).rope_theta == narrowed(y),
        !g.metadata.dom().contains(p + ".rope.freq_base"@) ==> gguf_config(
            k,
            g,
            a,
            vocab,
        ).rope_theta == 0x461c_4000,
{
}

/// Three architectures are known, by their names.
pub proof fn law_architecture_names(name: Seq<char>)
    ensures
        arch_of("llama"@) == Some(Arch::Llama),
        arch_of("qwen2"@) == Some(Arch::Qwen2),
        arch_of("gemma"@) == Some(Arch::Gemma),
        name != "llama"@ && name != "qwen2"@ && name != "gemma"@ ==> arch_of(name) is None,
{
    reveal_strlit("llama");
    reveal_strlit("qwen2");
    reveal_strlit("gemma");
    assert("llama"@[0] == 'l' && "qwen2"@[0] == 'q' && "gemma"@[0] == 'g');
}

/// The tensor of layer `l` that is called `suffix`.
pub open spec fn in_layer(l: int, suffix: Seq<char>) -> Seq<char> {
    seq!['b', 'l', 'k', '.'] + decimal(l as nat) + seq!['.'] + suffix
}

/// A number is written digit by digit, the lowest last.
pub proof fn law_numbers_are_written_in_digits(n: nat)
    ensures
        n < 10 ==> decimal(n).len() == 1,
        decimal(n).last() as int == 48 + n % 10,
        n >= 10 ==> decimal(n).drop_last() == decimal(n / 10),
{
    if n >= 10 {
        assert(decimal(n).drop_last() =~= decimal(n / 10));
    }
    assert(decimal(n).last() == crate::text::digit((n % 10) as int));
}

/// Every weight of a layer is read from the tensor that is named after what it does.
#[verifier::spinoff_prover]
pub proof fn law_layer_weights_by_name(
    ar: Arith,
    g: GgufView,
    a: Arch,
    precision: Precision,
    l: int,
    layer: Layer,
)
    requires
        is_layer(ar, g, a, precision, l, layer),
    ensures
        is_norm(ar, g, a, in_layer(l, "attn_norm.weight"@), layer.rms_att@),
        is_matrix(ar, g, in_layer(l, "attn_q.weight"@), precision, layer.wq),
        is_matrix(ar, g, in_layer(l, "attn_k.weight"@), precision, layer.wk),
        is_matrix(ar, g, in_layer(l, "attn_v.weight"@), precision, layer.wv),
        is_matrix(ar, g, in_layer(l, "attn_output.weight"@), precision, layer.wo),
        is_bias(ar, g, a, in_layer(l, "attn_q.bias"@), layer.bq),
        is_bias(ar, g, a, in_layer(l, "attn_k.bias"@), layer.bk),
        is_bias(ar, g, a, in_layer(l, "attn_v.bias"@), layer.bv),
        is_norm(ar, g, a, in_layer(l, "ffn_norm.weight"@), layer.rms_ffn@),
        is_matrix(ar, g, in_layer(l, "ffn_gate.weight"@), precision, layer.w1),
        is_matrix(ar, g, in_layer(l, "ffn_down.weight"@), precision, layer.w2),
        is_matrix(ar, g, in_layer(l, "ffn_up.weight"@), precision, layer.w3),
{
    reveal_strlit("blk.");
    reveal_strlit(".");
    assert forall|suffix: Seq<char>| #[trigger] in_layer(l, suffix) == layer_tensor(l, suffix) by {
        assert("blk."@ =~= seq!['b', 'l', 'k', '.']);
        assert("."@ =~= seq!['.']);
    }
}

/// A layer can be loaded exactly if every tensor that it needs can be read.
#[verifier::spinoff_prover]
pub proof fn law_when_a_layer_loads(g: GgufView, a: Arch, l: int)
    ensures
        layer_error(g, a, l) is None <==> {
            &&& tensor_error(g, in_layer(l, "attn_norm.weight"@)) is None
            &&& linear_error(g, in_layer(l, "attn_q.weight"@)) is None
            &&& linear_error(g, in_layer(l, "attn_k.weight"@)) is None
            &&& linear_error(g, in_layer(l, "attn_v.weight"@)) is None
            &&& linear_error(g, in_layer(l, "attn_output.weight"@)) is None
            &&& bias_error(g, a, in_layer(l, "attn_q.bias"@)) is None
            &&& bias_error(g, a, in_layer(l, "attn_k.bias"@)) is None
            &&& bias_error(g, a, in_layer(l, "attn_v.bias"@)) is None
            &&& tensor_error(g, in_layer(l, "ffn_norm.weight"@)) is None
            &&& linear_error(g, in_layer(l, "ffn_gate.weight"@)) is None
            &&& linear_error(g, in_layer(l, "ffn_down.weight"@)) is None
            &&& linear_error(g, in_layer(l, "ffn_up.weight"@)) is None
        },
{
    reveal_strlit("blk.");
    reveal_strlit(".");
    assert forall|suffix: Seq<char>| #[trigger] in_layer(l, suffix) == layer_tensor(l, suffix) by {
        assert("blk."@ =~= seq!['b', 'l', 'k', '.']);
        assert("."@ =~= seq!['.']);
    }
}

/// A matrix is a tensor of two dimensions that can be read, and a bias that is not there needs
/// no reading.
pub proof fn law_when_a_matrix_loads(g: GgufView, a: Arch, name: Seq<char>)
    ensures
        linear_error(g, name) is None ==> g.tensors.dom().contains(name)
            && g.tensors[name].dims.len() == 2 && tensor_error(g, name) is None,
        g.tensors.dom().contains(name) && g.tensors[name].dims.len() != 2 ==> linear_error(g, name)
            == Some(ErrorView::NotTwoDimensional(name)),
        !g.tensors.dom().contains(name) ==> linear_error(g, name) == Some(
            ErrorView::MissingTensor(name),
        ) && bias_error(g, a, name) is None,
        !(a is Qwen2) ==> bias_error(g, a, name) is None,
        a is Qwen2 && g.tensors.dom().contains(name) ==> bias_error(g, a, name) == tensor_error(
            g,
            name,
        ),
{
}

/// Shape entries that the metadata lack are reported by name, the first of them; and a model
/// has heads.
pub proof fn law_missing_shape_is_reported(g: GgufView, a: Arch, p: Seq<char>)
    requires
        p == (match a {
            Arch::Llama => "llama"@,
            Arch::Qwen2 => "qwen2"@,
            Arch::Gemma => "gemma"@,
        }),
    ensures
        !g.metadata.dom().contains(p + ".embedding_length"@) ==> config_error(g, a) == Some(
            ErrorView::MissingMetadata(p + ".embedding_length"@),
        ),
        config_error(g, a) is None ==> g.metadata.dom().contains(p + ".embedding_length"@)
            && g.metadata.dom().contains(p + ".block_count"@) && g.metadata.dom().contains(
            p + ".attention.head_count"@,
        ) && g.metadata.dom().contains(p + ".feed_forward_length"@) && g.metadata.dom().contains(
            p + ".context_length"@,
        ) && !says(g, p + ".attention.head_count"@, 0),
{
}

/// Norm weights are those of the tensor, and for Gemma one more than that.
pub proof fn law_norm_weights(ar: Arith, g: GgufView, a: Arch, name: Seq<char>, out: Seq<u32>) -> (w:
    Seq<u32>)
    requires
        is_norm(ar, g, a, name, out),
    ensures
        is_tensor(ar, g, name, w),
        out.len() == w.len(),
        forall|i: int|
            0 <= i < w.len() ==> #[trigger] out[i] == (if a is Gemma {
                ar(Op::Add, 0x3f80_0000, w[i])
            } else {
                w[i]
            }),
{
    let w = choose|w: Seq<u32>| #[trigger]
        is_tensor(ar, g, name, w) && out.len() == w.len() && (if a == Arch::Gemma {
            forall|i: int| 0 <= i < w.len() ==> #[trigger] out[i] == ar(Op::Add, 0x3f80_0000, w[i])
        } else {
            out == w
        });
    w
}

/// A projection has a bias exactly in a Qwen2 file that lists one, and then it is that
/// tensor.
pub proof fn law_biases_are_those_of_the_file(
    ar: Arith,
    g: GgufView,
    a: Arch,
    name: Seq<char>,
    out: Option<Vec<u32>>,
)
    requires
        is_bias(ar, g, a, name, out),
    ensures
        out is Some <==> a is Qwen2 && g.tensors.dom().contains(name),
        out matches Some(b) ==> is_tensor(ar, g, name, b@),
{
}

/// The embedding stays packed where its rows are whole blocks and its shape is that of the
/// vocabulary, and is multiplied out where it is not.
pub proof fn law_loaded_embedding(
    ar: Arith,
    g: GgufView,
    vocab: int,
    dim: int,
    emb: Embedding,
    kind: KQuantKind,
)
    requires
        is_embedding(ar, g, vocab, dim, emb),
        g.tensors["token_embd.weight"@].dims.len() == 2,
        vocab <= usize::MAX,
        dim <= usize::MAX,
    ensures
        ({
            let info = g.tensors["token_embd.weight"@];
            &&& format_of(info.ggml_type, kind) && info.dims[0] == dim && info.dims[1] == vocab
                && dim % block_values(kind) == 0 ==> emb is KQuant
            &&& info.dims[0] != dim || info.dims[1] != vocab || info.ggml_type == 0 || info.ggml_type
                == 1 || info.ggml_type == 8 ==> emb is F32
            &&& emb.wf(vocab, dim)
        }),
{
    assert(kind.values() == block_values(kind));
}

/// A loaded model has the embedding, the layers in order, the final norm and the classifier
/// of the file; without a classifier of its own it scores tokens by the embedding.
pub proof fn law_loaded_model(ar: Arith, g: GgufView, precision: Precision, m: Model, a: Arch, l: int)
    requires
        is_gguf_model(ar, g, precision, m),
        named_arch(g) is Some,
        arch_of(named_arch(g)->0) == Some(a),
        0 <= l < m.layers@.len(),
    ensures
        m.config == gguf_config(
            ar,
            g,
            a,
            meta_array(g, "tokenizer.ggml.tokens"@)->0.len() as int,
        ),
        m.layers@.len() == m.config.n_layers,
        is_layer(ar, g, a, precision, l, m.layers@[l]),
        is_norm(ar, g, a, "output_norm.weight"@, m.rms_final@),
        m.tok_emb matches Embedding::F32(w) ==> is_tensor(ar, g, "token_embd.weight"@, w@),
        m.tok_emb matches Embedding::KQuant(e) ==> is_packed(g, "token_embd.weight"@, e),
        g.tensors.dom().contains("output.weight"@) ==> m.wcls is Some && is_matrix(
            ar,
            g,
            "output.weight"@,
            precision,
            m.wcls->0,
        ),
        !g.tensors.dom().contains("output.weight"@) && precision == Precision::F32
            ==> m.wcls is None,
{
}

} // verus!
