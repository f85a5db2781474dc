//! Loading a model and its tokenizer from a GGUF file.
//!
//! The llama architecture is the plain one. Qwen2 adds biases to the query,
//! key and value projections and rotates across half heads. Gemma rotates
//! likewise, stores its norm weights less one, scales embeddings by the square
//! root of the width, gates with GELU and may set the head width apart.
use crate::arith::{arith, from_usize, is_arith, natural, Arith, Op, ONE};
use crate::model::any_tokenizer::AnyTokenizer;
use crate::model::config::{
    Activation, Config, Precision, NORM_EPS_LLAMA, NORM_EPS_SMALL, ROPE_THETA_DEFAULT,
};
use crate::model::gguf::{
    as_single, is_matrix, is_packed, is_tensor, lemma_two_dims, linear_error, meta_index, packs, tensor_error, Gguf,
};
use crate::model::gguf_format::{ErrorView, GgufError, GgufView, Value, ValueView};
use crate::model::gguf_tokenizer::{is_tokenizer, meta_array, tokenizer_error};
use crate::model::weights::{becomes_q8, is_linear, Embedding, Layer, Linear, Model};
use crate::text::{decimal, from_utf8_lossy, push_decimal, same_text, utf8_lossy};
use vstd::prelude::*;

verus! {

/// The architectures that can be run.
#[derive(Debug, Clone, Copy, PartialEq, Eq, Structural)]
pub enum Arch {
    Llama,
    Qwen2,
    Gemma,
}

/// The name of an architecture, which is also the prefix of its metadata keys.
pub open spec fn arch_name(a: Arch) -> Seq<char> {
    match a {
        Arch::Llama => "llama"@,
        Arch::Qwen2 => "qwen2"@,
        Arch::Gemma => "gemma"@,
    }
}

/// The architecture of that name.
pub open spec fn arch_of(name: Seq<char>) -> Option<Arch> {
    if name == "llama"@ {
        Some(Arch::Llama)
    } else if name == "qwen2"@ {
        Some(Arch::Qwen2)
    } else if name == "gemma"@ {
        Some(Arch::Gemma)
    } else {
        None
    }
}

/// The architecture that the file names.
pub open spec fn named_arch(g: GgufView) -> Option<Seq<char>> {
    if g.metadata.dom().contains("general.architecture"@) {
        match g.metadata["general.architecture"@] {
            ValueView::Str(s) => Some(utf8_lossy(s)),
            _ => None,
        }
    } else {
        None
    }
}

/// The first error of two steps.
pub open spec fn first_error(a: Option<ErrorView>, b: Option<ErrorView>) -> Option<ErrorView> {
    match a {
        Some(e) => Some(e),
        None => b,
    }
}

/// What keeps a whole number from being read.
pub open spec fn index_error(g: GgufView, key: Seq<char>) -> Option<ErrorView> {
    match meta_index(g, key) {
        Some(_) => None,
        None => Some(ErrorView::MissingMetadata(key)),
    }
}

/// The real number under `key`, or the default.
pub open spec fn single_or(g: GgufView, key: Seq<char>, default: u32) -> u32 {
    if g.metadata.dom().contains(key) {
        match as_single(g.metadata[key]) {
            Some(x) => x,
            None => default,
        }
    } else {
        default
    }
}

/// The whole number under `key`, or the default.
pub open spec fn index_or(g: GgufView, key: Seq<char>, default: int) -> int {
    match meta_index(g, key) {
        Some(n) => n,
        None => default,
    }
}

/// What keeps the hyperparameters from being read.
pub open spec fn config_error(g: GgufView, a: Arch) -> Option<ErrorView> {
    let p = arch_name(a);
    first_error(
        index_error(g, p + ".embedding_length"@),
        first_error(
            index_error(g, p + ".block_count"@),
            first_error(
                index_error(g, p + ".attention.head_count"@),
                first_error(
                    index_error(g, p + ".feed_forward_length"@),
                    first_error(
                        index_error(g, p + ".context_length"@),
                        if index_or(g, p + ".attention.head_count"@, 0) == 0 {
                            Some(ErrorView::BadHeads)
                        } else {
                            None
                        },
                    ),
                ),
            ),
        ),
    )
}

/// The model's width.
pub open spec fn gguf_dim(g: GgufView, a: Arch) -> int {
    index_or(g, arch_name(a) + ".embedding_length"@, 0)
}

/// The number of layers.
pub open spec fn gguf_layers(g: GgufView, a: Arch) -> int {
    index_or(g, arch_name(a) + ".block_count"@, 0)
}

/// The hyperparameters in the metadata, for a vocabulary of that size.
pub open spec fn gguf_config(k: Arith, g: GgufView, a: Arch, vocab: int) -> Config {
    let p = arch_name(a);
    let dim = gguf_dim(g, a);
    let heads = index_or(g, p + ".attention.head_count"@, 0);
    Config {
        dim: dim as usize,
        hidden_dim: index_or(g, p + ".feed_forward_length"@, 0) as usize,
        n_layers: gguf_layers(g, a) as usize,
        n_heads: heads as usize,
        n_kv_heads: index_or(g, p + ".attention.head_count_kv"@, heads) as usize,
        vocab_size: vocab as usize,
        seq_len: index_or(g, p + ".context_length"@, 0) as usize,
        shared_classifier: !g.tensors.dom().contains("output.weight"@),
        rope_theta: single_or(g, p + ".rope.freq_base"@, ROPE_THETA_DEFAULT),
        head_dim: index_or(g, p + ".attention.key_length"@, dim / heads) as usize,
        norm_eps: if a == Arch::Llama {
            NORM_EPS_LLAMA
        } else {
            NORM_EPS_SMALL
        },
        rope_neox: a != Arch::Llama,
        act: if a == Arch::Gemma {
            Activation::GeluTanh
        } else {
            Activation::Silu
        },
        emb_scale: if a == Arch::Gemma {
            k(Op::Sqrt, natural(k, dim), 0)
        } else {
            ONE
        },
    }
}

/// The name of a layer's tensor.
pub open spec fn layer_tensor(l: int, suffix: Seq<char>) -> Seq<char> {
    "blk."@ + decimal(l as nat) + "."@ + suffix
}

/// A bias belongs to Qwen2 files that have it.
pub open spec fn has_bias(g: GgufView, a: Arch, name: Seq<char>) -> bool {
    a == Arch::Qwen2 && g.tensors.dom().contains(name)
}

/// What keeps a bias from being read.
pub open spec fn bias_error(g: GgufView, a: Arch, name: Seq<char>) -> Option<ErrorView> {
    if has_bias(g, a, name) {
        tensor_error(g, name)
    } else {
        None
    }
}

/// What keeps layer `l` from being read.
pub open spec fn layer_error(g: GgufView, a: Arch, l: int) -> Option<ErrorView> {
    first_error(
        tensor_error(g, layer_tensor(l, "attn_norm.weight"@)),
        first_error(
            linear_error(g, layer_tensor(l, "attn_q.weight"@)),
            first_error(
                linear_error(g, layer_tensor(l, "attn_k.weight"@)),
                first_error(
                    linear_error(g, layer_tensor(l, "attn_v.weight"@)),
                    first_error(
                        linear_error(g, layer_tensor(l, "attn_output.weight"@)),
                        first_error(
                            bias_error(g, a, layer_tensor(l, "attn_q.bias"@)),
                            first_error(
                                bias_error(g, a, layer_tensor(l, "attn_k.bias"@)),
                                first_error(
                                    bias_error(g, a, layer_tensor(l, "attn_v.bias"@)),
                                    mlp_error(g, l),
                                ),
                            ),
                        ),
                    ),
                ),
            ),
        ),
    )
}

/// What keeps the MLP of layer `l` from being read.
pub open spec fn mlp_error(g: GgufView, l: int) -> Option<ErrorView> {
    first_error(
        tensor_error(g, layer_tensor(l, "ffn_norm.weight"@)),
        first_error(
            linear_error(g, layer_tensor(l, "ffn_gate.weight"@)),
            first_error(
                linear_error(g, layer_tensor(l, "ffn_down.weight"@)),
                linear_error(g, layer_tensor(l, "ffn_up.weight"@)),
            ),
        ),
    )
}

/// What keeps the first `n` layers from being read.
pub open spec fn layers_error(g: GgufView, a: Arch, n: nat) -> Option<ErrorView>
    decreases n,
{
    if n == 0 {
        None
    } else {
        first_error(layers_error(g, a, (n - 1) as nat), layer_error(g, a, n - 1))
    }
}

/// What keeps the embedding table from being read: its tensor, or that it
/// does not hold one row of the model's width per token.
pub open spec fn embedding_error(g: GgufView, vocab: int, dim: int) -> Option<ErrorView> {
    let name = "token_embd.weight"@;
    match tensor_error(g, name) {
        Some(e) => Some(e),
        None => {
            let info = g.tensors[name];
            if crate::model::gguf::element_count(info.dims) == vocab * dim {
                None
            } else {
                Some(ErrorView::EmbeddingMismatch)
            }
        },
    }
}

/// What keeps the classifier from being read.
pub open spec fn head_error(g: GgufView) -> Option<ErrorView> {
    if g.tensors.dom().contains("output.weight"@) {
        linear_error(g, "output.weight"@)
    } else {
        None
    }
}

/// What keeps a file from being loaded: the first thing that is wrong with it.
pub open spec fn load_error(g: GgufView) -> Option<ErrorView> {
    match named_arch(g) {
        None => Some(ErrorView::MissingMetadata("general.architecture"@)),
        Some(name) => match arch_of(name) {
            None => Some(ErrorView::UnsupportedArchitecture(name)),
            Some(a) => first_error(config_error(g, a), first_error(tokenizer_error(g), {
                let vocab = meta_array(g, "tokenizer.ggml.tokens"@)->0.len() as int;
                first_error(
                    embedding_error(g, vocab, gguf_dim(g, a)),
                    first_error(
                        layers_error(g, a, gguf_layers(g, a) as nat),
                        first_error(tensor_error(g, "output_norm.weight"@), head_error(g)),
                    ),
                )
            })),
        },
    }
}

/// `out` holds the norm weights `name`: as stored, or for Gemma each with one
/// added.
pub open spec fn is_norm(
    ar: Arith,
    g: GgufView,
    a: Arch,
    name: Seq<char>,
    out: Seq<u32>,
) -> bool {
    exists|w: Seq<u32>| #[trigger]
        is_tensor(ar, g, name, w) && out.len() == w.len() && (if a == Arch::Gemma {
            forall|i: int| 0 <= i < w.len() ==> #[trigger] out[i] == ar(Op::Add, ONE, w[i])
        } else {
            out == w
        })
}

/// `out` is the bias `name`, or `None` where the model has none.
pub open spec fn is_bias(
    ar: Arith,
    g: GgufView,
    a: Arch,
    name: Seq<char>,
    out: Option<Vec<u32>>,
) -> bool {
    match out {
        Some(b) => has_bias(g, a, name) && is_tensor(ar, g, name, b@),
        None => !has_bias(g, a, name),
    }
}

/// `layer` is layer `l` of the file.
pub open spec fn is_layer(
    ar: Arith,
    g: GgufView,
    a: Arch,
    precision: Precision,
    l: int,
    layer: Layer,
) -> bool {
    let t = |suffix: Seq<char>| layer_tensor(l, suffix);
    let matrix = |suffix: Seq<char>, lin: Linear|
        is_matrix(ar, g, layer_tensor(l, suffix), precision, lin);
    &&& is_norm(ar, g, a, t("attn_norm.weight"@), layer.rms_att@)
    &&& matrix("attn_q.weight"@, layer.wq)
    &&& matrix("attn_k.weight"@, layer.wk)
    &&& matrix("attn_v.weight"@, layer.wv)
    &&& matrix("attn_output.weight"@, layer.wo)
    &&& is_bias(ar, g, a, t("attn_q.bias"@), layer.bq)
    &&& is_bias(ar, g, a, t("attn_k.bias"@), layer.bk)
    &&& is_bias(ar, g, a, t("attn_v.bias"@), layer.bv)
    &&& is_norm(ar, g, a, t("ffn_norm.weight"@), layer.rms_ffn@)
    &&& matrix("ffn_gate.weight"@, layer.w1)
    &&& matrix("ffn_down.weight"@, layer.w2)
    &&& matrix("ffn_up.weight"@, layer.w3)
}

/// The embedding table is stored as packed rows, one per token.
pub open spec fn packs_table(g: GgufView, vocab: int, dim: int) -> bool {
    let info = g.tensors["token_embd.weight"@];
    packs(g, "token_embd.weight"@) && info.dims[0] == dim && info.dims[1] == vocab
}

/// `emb` is the embedding table of the file: packed where its rows are, else dense.
pub open spec fn is_embedding(
    ar: Arith,
    g: GgufView,
    vocab: int,
    dim: int,
    emb: Embedding,
) -> bool {
    &&& emb.wf(vocab, dim)
    &&& if packs_table(g, vocab, dim) {
        emb matches Embedding::KQuant(m) && is_packed(g, "token_embd.weight"@, m)
    } else {
        emb matches Embedding::F32(w) && is_tensor(ar, g, "token_embd.weight"@, w@)
    }
}

/// `m` is the model in the file. A tied classifier over dense embeddings is a
/// quantized copy of them where Q8 weights are asked for.
pub open spec fn is_gguf_model(
    ar: Arith,
    g: GgufView,
    precision: Precision,
    m: Model,
) -> bool {
    let a = arch_of(named_arch(g)->0)->0;
    let vocab = meta_array(g, "tokenizer.ggml.tokens"@)->0.len() as int;
    let c = gguf_config(ar, g, a, vocab);
    let d = c.dim as int;
    &&& m.config == c
    &&& is_embedding(ar, g, vocab, d, m.tok_emb)
    &&& m.layers@.len() == c.n_layers
    &&& forall|l: int|
        0 <= l < m.layers@.len() ==> is_layer(
            ar,
            g,
            a,
            precision,
            l,
            #[trigger] m.layers@[l],
        )
    &&& is_norm(ar, g, a, "output_norm.weight"@, m.rms_final@)
    &&& if g.tensors.dom().contains("output.weight"@) {
        m.wcls matches Some(head) && is_matrix(
            ar,
            g,
            "output.weight"@,
            precision,
            head,
        )
    } else {
        match m.tok_emb {
            Embedding::F32(w) if becomes_q8(precision, d) => m.wcls matches Some(head)
                && is_linear(ar, w@, vocab, d, precision, head),
            _ => m.wcls is None,
        }
    }
}

/// Once a layer cannot be read, more of them cannot either.
proof fn lemma_layers_stay_failed(g: GgufView, a: Arch, k: nat, n: nat)
    requires
        k <= n,
        layers_error(g, a, k) is Some,
    ensures
        layers_error(g, a, n) == layers_error(g, a, k),
    decreases n,
{
    if k < n {
        lemma_layers_stay_failed(g, a, k, (n - 1) as nat);
    }
}

/// The name of a layer's tensor.
fn layer_name(l: usize, suffix: &str) -> (s: String)
    ensures
        s@ == layer_tensor(l as int, suffix@),
{
    let mut s = "blk.".to_owned();
    push_decimal(&mut s, l as u64);
    s.push_str(".");
    s.push_str(suffix);
    s
}

/// A metadata key of an architecture.
fn arch_key(a: Arch, suffix: &str) -> (s: String)
    ensures
        s@ == arch_name(a) + suffix@,
{
    let mut s = match a {
        Arch::Llama => "llama".to_owned(),
        Arch::Qwen2 => "qwen2".to_owned(),
        Arch::Gemma => "gemma".to_owned(),
    };
    s.push_str(suffix);
    s
}

impl Gguf {
    /// The architecture of the model.
    pub fn arch(&self) -> (r: Result<Arch, GgufError>)
        ensures
            match named_arch(self@) {
                None => r matches Err(e) && e@ == ErrorView::MissingMetadata(
                    "general.architecture"@,
                ),
                Some(name) => match arch_of(name) {
                    None => r matches Err(e) && e@ == ErrorView::UnsupportedArchitecture(name),
                    Some(a) => r == Ok::<Arch, GgufError>(a),
                },
            },
    {
        let name = match self.meta("general.architecture") {
            Some(Value::Str(s)) => from_utf8_lossy(s.as_slice()),
            _ => {
                return Err(GgufError::MissingMetadata("general.architecture".to_owned()));
            },
        };
        if same_text(name.as_str(), "llama") {
            Ok(Arch::Llama)
        } else if same_text(name.as_str(), "qwen2") {
            Ok(Arch::Qwen2)
        } else if same_text(name.as_str(), "gemma") {
            Ok(Arch::Gemma)
        } else {
            Err(GgufError::UnsupportedArchitecture(name))
        }
    }

    /// The whole number under an architecture's key, or the default.
    fn index_or_default(&self, a: Arch, suffix: &str, default: usize) -> (n: usize)
        ensures
            n == index_or(self@, arch_name(a) + suffix@, default as int),
    {
        let key = arch_key(a, suffix);
        match self.meta(key.as_str()) {
            Some(v) => match v.as_usize() {
                Some(n) => n,
                None => default,
            },
            None => default,
        }
    }

    /// The hyperparameters of the model.
    pub fn config<F: Fn(Op, u32, u32) -> u32>(&self, a: Arch, vocab: usize, calc: &F) -> (r: Result<
        Config,
        GgufError,
    >)
        requires
            is_arith(*calc),
        ensures
            match config_error(self@, a) {
                Some(e) => r matches Err(x) && x@ == e,
                None => r == Ok::<Config, GgufError>(
                    gguf_config(arith(*calc), self@, a, vocab as int),
                ),
            },
    {
        let dim: usize = self.meta_usize(arch_key(a, ".embedding_length").as_str())?;
        let n_layers: usize = self.meta_usize(arch_key(a, ".block_count").as_str())?;
        let n_heads: usize = self.meta_usize(arch_key(a, ".attention.head_count").as_str())?;
        let hidden_dim: usize = self.meta_usize(arch_key(a, ".feed_forward_length").as_str())?;
        let seq_len: usize = self.meta_usize(arch_key(a, ".context_length").as_str())?;
        if n_heads == 0 {
            return Err(GgufError::BadHeads);
        }
        let n_kv_heads: usize = self.index_or_default(a, ".attention.head_count_kv", n_heads);
        let head_dim: usize = self.index_or_default(a, ".attention.key_length", dim / n_heads);
        let rope_theta: u32 = match self.meta(arch_key(a, ".rope.freq_base").as_str()) {
            Some(v) => match v.as_f32() {
                Some(x) => x,
                None => ROPE_THETA_DEFAULT,
            },
            None => ROPE_THETA_DEFAULT,
        };
        let shared_classifier: bool = !self.has_tensor("output.weight");
        Ok(
            Config {
                dim,
                hidden_dim,
                n_layers,
                n_heads,
                n_kv_heads,
                vocab_size: vocab,
                seq_len,
                shared_classifier,
                rope_theta,
                head_dim,
                norm_eps: if a == Arch::Llama {
                    NORM_EPS_LLAMA
                } else {
                    NORM_EPS_SMALL
                },
                rope_neox: a != Arch::Llama,
                act: if a == Arch::Gemma {
                    Activation::GeluTanh
                } else {
                    Activation::Silu
                },
                emb_scale: if a == Arch::Gemma {
                    calc(Op::Sqrt, from_usize(dim, calc), 0)
                } else {
                    ONE
                },
            },
        )
    }

    /// Norm weights, with one added where the architecture stores them less one.
    fn norm<F: Fn(Op, u32, u32) -> u32>(
        &self,
        a: Arch,
        name: &str,
        calc: &F,
    ) -> (r: Result<Vec<u32>, GgufError>)
        requires
            self.wf(),
            is_arith(*calc),
        ensures
            match tensor_error(self@, name@) {
                Some(e) => r matches Err(x) && x@ == e,
                None => r matches Ok(out) && is_norm(arith(*calc), self@, a, name@, out@),
            },
    {
        let w = self.tensor_f32(name, calc)?;
        if a != Arch::Gemma {
            proof {
                assert(is_tensor(arith(*calc), self@, name@, w@));
            }
            return Ok(w);
        }
        let mut out: Vec<u32> = Vec::new();
        let mut i: usize = 0;
        while i < w.len()
            invariant
                is_arith(*calc),
                i <= w.len(),
                out@.len() == i,
                forall|k: int|
                    0 <= k < i ==> #[trigger] out@[k] == arith(*calc)(Op::Add, ONE, w@[k]),
            decreases w.len() - i,
        {
            let v: u32 = calc(Op::Add, ONE, w[i]);
            out.push(v);
            i += 1;
        }
        proof {
            assert(is_tensor(arith(*calc), self@, name@, w@));
        }
        Ok(out)
    }

    /// A bias, where the model has it.
    fn bias<F: Fn(Op, u32, u32) -> u32>(&self, a: Arch, name: &str, calc: &F) -> (r:
        Result<Option<Vec<u32>>, GgufError>)
        requires
            self.wf(),
            is_arith(*calc),
        ensures
            match bias_error(self@, a, name@) {
                Some(e) => r matches Err(x) && x@ == e,
                None => r matches Ok(out) && is_bias(arith(*calc), self@, a, name@, out),
            },
    {
        if a == Arch::Qwen2 && self.has_tensor(name) {
            let b = self.tensor_f32(name, calc)?;
            Ok(Some(b))
        } else {
            Ok(None)
        }
    }

    /// One layer.
    fn layer<F: Fn(Op, u32, u32) -> u32>(
        &self,
        a: Arch,
        l: usize,
        precision: Precision,
        calc: &F,
    ) -> (r: Result<Layer, GgufError>)
        requires
            self.wf(),
            is_arith(*calc),
        ensures
            match layer_error(self@, a, l as int) {
                Some(e) => r matches Err(x) && x@ == e,
                None => r matches Ok(out) && out.wf() && is_layer(
                    arith(*calc),
                    self@,
                    a,
                    precision,
                    l as int,
                    out,
                ),
            },
    {
        let n = layer_name(l, "attn_norm.weight");
        let rms_att = self.norm(a, n.as_str(), calc)?;
        let n = layer_name(l, "attn_q.weight");
        let wq = self.linear(n.as_str(), precision, calc)?;
        let n = layer_name(l, "attn_k.weight");
        let wk = self.linear(n.as_str(), precision, calc)?;
        let n = layer_name(l, "attn_v.weight");
        let wv = self.linear(n.as_str(), precision, calc)?;
        let n = layer_name(l, "attn_output.weight");
        let wo = self.linear(n.as_str(), precision, calc)?;
        let n = layer_name(l, "attn_q.bias");
        let bq = self.bias(a, n.as_str(), calc)?;
        let n = layer_name(l, "attn_k.bias");
        let bk = self.bias(a, n.as_str(), calc)?;
        let n = layer_name(l, "attn_v.bias");
        let bv = self.bias(a, n.as_str(), calc)?;
        let n = layer_name(l, "ffn_norm.weight");
        let rms_ffn = self.norm(a, n.as_str(), calc)?;
        let n = layer_name(l, "ffn_gate.weight");
        let w1 = self.linear(n.as_str(), precision, calc)?;
        let n = layer_name(l, "ffn_down.weight");
        let w2 = self.linear(n.as_str(), precision, calc)?;
        let n = layer_name(l, "ffn_up.weight");
        let w3 = self.linear(n.as_str(), precision, calc)?;
        Ok(Layer { rms_att, wq, wk, wv, wo, bq, bk, bv, rms_ffn, w1, w2, w3 })
    }
}

impl Gguf {
    /// The embedding table: packed where it is stored so, else dense.
    fn embedding<F: Fn(Op, u32, u32) -> u32>(
        &self,
        vocab: usize,
        dim: usize,
        calc: &F,
    ) -> (r: Result<Embedding, GgufError>)
        requires
            self.wf(),
            is_arith(*calc),
        ensures
            match embedding_error(self@, vocab as int, dim as int) {
                Some(e) => r matches Err(x) && x@ == e,
                None => r matches Ok(emb) && emb.wf(vocab as int, dim as int) && is_embedding(
                    arith(*calc),
                    self@,
                    vocab as int,
                    dim as int,
                    emb,
                ),
            },
    {
        if let Some(m) = self.packed("token_embd.weight")? {
            if m.cols == dim && m.rows == vocab {
                proof {
                    lemma_two_dims(self@.tensors["token_embd.weight"@].dims);
                    assert(dim * vocab == vocab * dim) by (nonlinear_arith);
                }
                return Ok(Embedding::KQuant(m));
            }
        }
        let w = self.tensor_f32("token_embd.weight", calc)?;
        proof {
            assert(vocab * dim <= 0xffff_ffff_ffff_ffff * 0xffff_ffff_ffff_ffff) by (nonlinear_arith)
                requires
                    vocab <= 0xffff_ffff_ffff_ffff,
                    dim <= 0xffff_ffff_ffff_ffff,
            ;
        }
        if w.len() as u128 != vocab as u128 * dim as u128 {
            return Err(GgufError::EmbeddingMismatch);
        }
        Ok(Embedding::F32(w))
    }

    /// The classifier: a head of its own, a quantized copy of dense
    /// embeddings, or `None` to share the embeddings as they are.
    fn head<F: Fn(Op, u32, u32) -> u32>(
        &self,
        emb: &Embedding,
        vocab: usize,
        dim: usize,
        precision: Precision,
        calc: &F,
    ) -> (r: Result<Option<Linear>, GgufError>)
        requires
            self.wf(),
            emb.wf(vocab as int, dim as int),
            is_arith(*calc),
        ensures
            match head_error(self@) {
                Some(e) => r matches Err(x) && x@ == e,
                None => r matches Ok(out) && (out matches Some(l) ==> l.wf()) && if self@.tensors.dom().contains("output.weight"@) {
                    out matches Some(lin) && is_matrix(
                        arith(*calc),
                        self@,
                        "output.weight"@,
                        precision,
                        lin,
                    )
                } else {
                    match emb {
                        Embedding::F32(w) if becomes_q8(precision, dim as int) => out matches Some(
                            lin,
                        ) && is_linear(
                            arith(*calc),
                            w@,
                            vocab as int,
                            dim as int,
                            precision,
                            lin,
                        ),
                        _ => out is None,
                    }
                },
            },
    {
        if self.has_tensor("output.weight") {
            let lin = self.linear("output.weight", precision, calc)?;
            return Ok(Some(lin));
        }
        match emb {
            Embedding::F32(w) => if precision == Precision::Q8 && dim % 32 == 0 {
                let copy = w.clone();
                proof {
                    assert(copy@ =~= w@);
                }
                Ok(Some(Linear::new(copy, vocab, dim, precision, calc)))
            } else {
                Ok(None)
            },
            Embedding::KQuant(_) => Ok(None),
        }
    }

    /// Load the model and its tokenizer.
    pub fn load<F: Fn(Op, u32, u32) -> u32>(
        &self,
        precision: Precision,
        calc: &F,
    ) -> (r: Result<(Model, AnyTokenizer), GgufError>)
        requires
            self.wf(),
            is_arith(*calc),
        ensures
            match load_error(self@) {
                Some(e) => r matches Err(x) && x@ == e,
                None => r matches Ok(loaded) && is_tokenizer(self@, loaded.1) && loaded.0.wf()
                    && loaded.0.tok_emb.wf(
                    loaded.0.config.vocab_size as int,
                    loaded.0.config.dim as int,
                ) && is_gguf_model(
                    arith(*calc),
                    self@,
                    precision,
                    loaded.0,
                ),
            },
    {
        let ghost g = self@;
        let a = self.arch()?;
        // The hyperparameters come before the tokenizer; the vocabulary size
        // is filled in once the tokenizer is there.
        let draft = self.config(a, 0, calc)?;
        let tokenizer = self.tokenizer()?;
        let vocab: usize = tokenizer.vocab_size();
        let config = Config { vocab_size: vocab, ..draft };
        proof {
            assert(config == gguf_config(arith(*calc), g, a, vocab as int));
        }
        let tok_emb = self.embedding(vocab, config.dim, calc)?;
        let mut layers: Vec<Layer> = Vec::new();
        let mut l: usize = 0;
        while l < config.n_layers
            invariant
                self.wf(),
                g == self@,
                is_arith(*calc),
                l <= config.n_layers,
                layers@.len() == l,
                forall|i: int| 0 <= i < l ==> (#[trigger] layers@[i]).wf(),
                layers_error(g, a, l as nat) is None,
                forall|i: int|
                    0 <= i < l ==> is_layer(
                        arith(*calc),
                        g,
                        a,
                        precision,
                        i,
                        #[trigger] layers@[i],
                    ),
                // What is known of the steps before the layers.
                named_arch(g) is Some,
                arch_of(named_arch(g)->0) == Some(a),
                config_error(g, a) is None,
                tokenizer_error(g) is None,
                vocab == meta_array(g, "tokenizer.ggml.tokens"@)->0.len(),
                config == gguf_config(arith(*calc), g, a, vocab as int),
                embedding_error(g, vocab as int, config.dim as int) is None,
                tok_emb.wf(vocab as int, config.dim as int),
            decreases config.n_layers - l,
        {
            match self.layer(a, l, precision, calc) {
                Ok(layer) => {
                    layers.push(layer);
                },
                Err(e) => {
                    proof {
                        assert(layers_error(g, a, (l + 1) as nat) == layer_error(g, a, l as int));
                        lemma_layers_stay_failed(
                            g,
                            a,
                            (l + 1) as nat,
                            config.n_layers as nat,
                        );
                    }
                    return Err(e);
                },
            }
            l += 1;
        }
        let rms_final = self.norm(a, "output_norm.weight", calc)?;
        let wcls = self.head(&tok_emb, vocab, config.dim, precision, calc)?;
        Ok((Model { config, tok_emb, layers, rms_final, wcls }, tokenizer))
    }
}

} // verus!
