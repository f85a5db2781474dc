//! The KV-cached transformer forward pass.
//!
//! One token goes in at a position, the caches gain its keys and values, and the
//! logits of the next token come out. Covers the Llama family and what Qwen2 and
//! Gemma turn: biases, the two RoPE conventions, two gate activations, heads of
//! their own width and a scaled embedding.
use crate::arith::{arith, is_arith, scale_all, scaled, Arith, Op, ONE};
use crate::kernels::attention::{attended, heads_of, law_attention_is_causal, Heads};
use crate::kernels::norms::{gelu_tanh, gelu_value, normed, silu, silu_value};
use crate::kernels::rope::{interleaved_turned, neox_turned, rope_interleaved, rope_neox};
use crate::model::config::{Activation, Config};
use crate::model::weights::{Embedding, Layer, Model};
use crate::model::work::{is_runner, Work};
use vstd::prelude::*;

verus! {

/// What the caches hold: per layer, rows of keys and rows of values.
#[verifier::ext_equal]
pub struct CacheView {
    pub k: Seq<Seq<u32>>,
    pub v: Seq<Seq<u32>>,
}

/// The key and value caches of every layer.
#[derive(Debug)]
pub struct KvCache {
    pub k: Vec<Vec<u32>>,
    pub v: Vec<Vec<u32>>,
}

impl View for KvCache {
    type V = CacheView;

    open spec fn view(&self) -> CacheView {
        CacheView {
            k: Seq::new(self.k@.len(), |l: int| self.k@[l]@),
            v: Seq::new(self.v@.len(), |l: int| self.v@[l]@),
        }
    }
}

/// Rows a cache for `positions` tokens has room for.
pub open spec fn cache_rows(c: Config, positions: int) -> int {
    if positions < c.seq_len {
        positions
    } else {
        c.seq_len as int
    }
}

/// Caches of `n` layers of `len` zeros.
pub open spec fn empty_cache(n: nat, len: nat) -> CacheView {
    CacheView {
        k: Seq::new(n, |l: int| Seq::new(len, |i: int| 0u32)),
        v: Seq::new(n, |l: int| Seq::new(len, |i: int| 0u32)),
    }
}

/// `n` vectors of `len` zeros.
fn zero_rows(n: usize, len: usize) -> (rows: Vec<Vec<u32>>)
    ensures
        rows@.len() == n,
        forall|l: int| 0 <= l < n ==> (#[trigger] rows@[l])@ == Seq::new(len as nat, |i: int| 0u32),
{
    let mut rows: Vec<Vec<u32>> = Vec::new();
    let mut l: usize = 0;
    while l < n
        invariant
            l <= n,
            rows@.len() == l,
            forall|j: int|
                0 <= j < l ==> (#[trigger] rows@[j])@ == Seq::new(len as nat, |i: int| 0u32),
        decreases n - l,
    {
        let row: Vec<u32> = vec![0u32; len];
        proof {
            assert(row@ =~= Seq::new(len as nat, |i: int| 0u32));
        }
        rows.push(row);
        l += 1;
    }
    rows
}

impl KvCache {
    /// Caches for the whole context.
    pub fn new(model: &Model) -> (cache: Self)
        requires
            model.config.kv_width() <= usize::MAX,
            model.config.seq_len * model.config.kv_width() <= usize::MAX,
        ensures
            cache@ == empty_cache(
                model.config.n_layers as nat,
                (model.config.seq_len * model.config.kv_width()) as nat,
            ),
    {
        KvCache::with_len(model, model.config.seq_len)
    }

    /// Caches for `positions` tokens, or for the whole context if that is less.
    pub fn with_len(model: &Model, positions: usize) -> (cache: Self)
        requires
            model.config.kv_width() <= usize::MAX,
            cache_rows(model.config, positions as int) * model.config.kv_width() <= usize::MAX,
        ensures
            cache@ == empty_cache(
                model.config.n_layers as nat,
                (cache_rows(model.config, positions as int) * model.config.kv_width()) as nat,
            ),
    {
        let c = model.config;
        let rows: usize = if positions < c.seq_len {
            positions
        } else {
            c.seq_len
        };
        let len: usize = rows * c.kv_dim();
        let cache = KvCache { k: zero_rows(c.n_layers, len), v: zero_rows(c.n_layers, len) };
        proof {
            assert(cache@ =~~= empty_cache(c.n_layers as nat, len as nat));
        }
        cache
    }
}

/// `op` of `x` and `y`, value by value; where `y` is shorter, the rest of `x` is
/// left as it is.
pub open spec fn zipped(k: Arith, op: Op, x: Seq<u32>, y: Seq<u32>) -> Seq<u32> {
    Seq::new(
        x.len(),
        |i: int|
            if i < y.len() {
                k(op, x[i], y[i])
            } else {
                x[i]
            },
    )
}

/// Combines `y` into `x`, value by value.
pub(crate) fn zip_in<F: Fn(Op, u32, u32) -> u32>(op: Op, x: &mut Vec<u32>, y: &[u32], calc: &F)
    requires
        is_arith(*calc),
    ensures
        final(x)@ == zipped(arith(*calc), op, old(x)@, y@),
{
    let ghost before = x@;
    let n: usize = if x.len() < y.len() {
        x.len()
    } else {
        y.len()
    };
    let mut i: usize = 0;
    while i < n
        invariant
            is_arith(*calc),
            x@.len() == before.len(),
            n <= before.len(),
            n <= y@.len(),
            i <= n,
            forall|j: int| 0 <= j < i ==> #[trigger] x@[j] == arith(*calc)(op, before[j], y@[j]),
            forall|j: int| i <= j < x@.len() ==> #[trigger] x@[j] == before[j],
        decreases n - i,
    {
        let v: u32 = calc(op, x[i], y[i]);
        x.set(i, v);
        i += 1;
    }
    proof {
        assert(x@ =~= zipped(arith(*calc), op, before, y@));
    }
}

/// `x` with a bias added, where there is one.
pub open spec fn biased(k: Arith, x: Seq<u32>, bias: Option<Vec<u32>>) -> Seq<u32> {
    match bias {
        Some(b) => zipped(k, Op::Add, x, b@),
        None => x,
    }
}

/// Adds a bias, where there is one.
pub fn add_bias<F: Fn(Op, u32, u32) -> u32>(x: &mut Vec<u32>, bias: &Option<Vec<u32>>, calc: &F)
    requires
        is_arith(*calc),
    ensures
        final(x)@ == biased(arith(*calc), old(x)@, *bias),
{
    match bias {
        Some(b) => zip_in(Op::Add, x, b.as_slice(), calc),
        None => {},
    }
}

/// A row of queries or keys, rotated in the model's convention.
pub open spec fn turned(k: Arith, c: Config, x: Seq<u32>, pos: int) -> Seq<u32> {
    if c.rope_neox {
        neox_turned(k, x, pos, c.head_dim as int, c.rope_theta)
    } else {
        interleaved_turned(k, x, pos, c.head_dim as int, c.rope_theta)
    }
}

/// Rotates a row of queries or keys in the model's convention.
fn turn<F: Fn(Op, u32, u32) -> u32>(c: &Config, x: &mut Vec<u32>, pos: usize, calc: &F)
    requires
        is_arith(*calc),
        c.head_dim > 0,
        c.head_dim % 2 == 0,
        old(x).len() % c.head_dim == 0,
    ensures
        final(x)@ == turned(arith(*calc), *c, old(x)@, pos as int),
{
    if c.rope_neox {
        rope_neox(x, pos, c.head_dim, c.rope_theta, calc);
    } else {
        rope_interleaved(x, pos, c.head_dim, c.rope_theta, calc);
    }
}

/// A cache with `row` at position `pos`.
pub open spec fn stored(cache: Seq<u32>, pos: int, row: Seq<u32>) -> Seq<u32> {
    let lo = pos * row.len();
    Seq::new(
        cache.len(),
        |i: int|
            if lo <= i < lo + row.len() {
                row[i - lo]
            } else {
                cache[i]
            },
    )
}

/// Puts `row` at position `pos` of a cache.
fn store(cache: &mut Vec<u32>, pos: usize, row: &[u32])
    requires
        (pos + 1) * row@.len() <= old(cache)@.len(),
    ensures
        final(cache)@ == stored(old(cache)@, pos as int, row@),
{
    let ghost before = cache@;
    let w: usize = row.len();
    proof {
        assert((pos + 1) * w == pos * w + w) by (nonlinear_arith);
        assert(0 <= pos * w) by (nonlinear_arith);
        assert(cache.len() == cache@.len());
    }
    let lo: usize = pos * w;
    let mut i: usize = 0;
    while i < w
        invariant
            w == row@.len(),
            lo == pos * w,
            lo + w <= before.len(),
            cache@.len() == before.len(),
            before.len() <= usize::MAX,
            i <= w,
            forall|j: int| lo <= j < lo + i ==> #[trigger] cache@[j] == row@[j - lo],
            forall|j: int|
                0 <= j < before.len() && !(lo <= j < lo + i) ==> #[trigger] cache@[j] == before[j],
        decreases w - i,
    {
        cache.set(lo + i, row[i]);
        i += 1;
    }
    proof {
        assert(cache@ =~= stored(before, pos as int, row@));
    }
}

/// A position's row stays in the cache until that position is stored again.
pub proof fn law_stored_rows(cache: Seq<u32>, pos: int, row: Seq<u32>, other: int)
    requires
        0 <= pos,
        0 <= other,
        (pos + 1) * row.len() <= cache.len(),
        (other + 1) * row.len() <= cache.len(),
    ensures
        stored(cache, pos, row).subrange(pos * row.len(), pos * row.len() + row.len()) == row,
        other != pos ==> stored(cache, pos, row).subrange(
            other * row.len(),
            other * row.len() + row.len(),
        ) == cache.subrange(other * row.len(), other * row.len() + row.len()),
{
    let w = row.len() as int;
    let s = stored(cache, pos, row);
    assert((pos + 1) * w == pos * w + w) by (nonlinear_arith);
    assert((other + 1) * w == other * w + w) by (nonlinear_arith);
    assert(0 <= pos * w && 0 <= other * w) by (nonlinear_arith)
        requires
            0 <= pos,
            0 <= other,
            0 <= w,
    ;
    assert(s.subrange(pos * w, pos * w + w) =~= row);
    if other != pos {
        if other < pos {
            assert(other * w + w <= pos * w) by (nonlinear_arith)
                requires
                    other < pos,
                    0 <= w,
            ;
        } else {
            assert(pos * w + w <= other * w) by (nonlinear_arith)
                requires
                    pos < other,
                    0 <= w,
            ;
        }
        assert(s.subrange(other * w, other * w + w) =~= cache.subrange(other * w, other * w + w));
    }
}

/// The activation of every value.
pub open spec fn activated(k: Arith, act: Activation, x: Seq<u32>) -> Seq<u32> {
    match act {
        Activation::Silu => x.map_values(|v: u32| silu_value(k, v)),
        Activation::GeluTanh => x.map_values(|v: u32| gelu_value(k, v)),
    }
}

/// Applies the activation.
pub(crate) fn activate<F: Fn(Op, u32, u32) -> u32>(act: Activation, x: &mut Vec<u32>, calc: &F)
    requires
        is_arith(*calc),
    ensures
        final(x)@ == activated(arith(*calc), act, old(x)@),
{
    match act {
        Activation::Silu => silu(x, calc),
        Activation::GeluTanh => gelu_tanh(x, calc),
    }
}

impl Config {
    /// How the heads are laid out.
    pub open spec fn heads(self) -> Heads {
        heads_of(self.n_heads, self.n_kv_heads, self.head_dim)
    }

    /// The hyperparameters describe a model that can run.
    pub open spec fn runs(self) -> bool {
        &&& self.heads().wf()
        &&& self.head_dim > 0
        &&& self.head_dim % 2 == 0
    }
}

impl Config {
    /// Whether the hyperparameters describe a model that can run.
    pub fn can_run(&self) -> (r: bool)
        ensures
            r == self.runs(),
    {
        if self.n_kv_heads == 0 || self.head_dim == 0 {
            return false;
        }
        self.n_heads % self.n_kv_heads == 0 && self.head_dim % 2 == 0 && self.n_heads.checked_mul(
            self.head_dim,
        ).is_some() && self.n_kv_heads.checked_mul(self.head_dim).is_some()
    }
}

impl Layer {
    /// Every projection takes what the one before it gives.
    pub open spec fn fits(&self, c: Config) -> bool {
        &&& self.rms_att@.len() == c.dim
        &&& self.wq.wf() && self.wq.cols() == c.dim && self.wq.rows() == c.q_width()
        &&& self.wk.wf() && self.wk.cols() == c.dim && self.wk.rows() == c.kv_width()
        &&& self.wv.wf() && self.wv.cols() == c.dim && self.wv.rows() == c.kv_width()
        &&& self.wo.wf() && self.wo.cols() == c.q_width()
        &&& self.rms_ffn@.len() == c.dim
        &&& self.w1.wf() && self.w1.cols() == c.dim
        &&& self.w3.wf() && self.w3.cols() == c.dim
        &&& self.w2.wf() && self.w2.cols() == self.w1.rows()
    }
}

impl Model {
    /// The weights make up a model that can run. Without layers there are no heads
    /// to lay out.
    pub open spec fn fits(&self) -> bool {
        &&& self.layers@.len() > 0 ==> self.config.runs()
        &&& forall|l: int| 0 <= l < self.layers@.len() ==> (#[trigger] self.layers@[l]).fits(self.config)
        &&& self.rms_final@.len() == self.config.dim
        &&& self.classifies()
    }
}

impl Layer {
    /// Whether every projection takes what the one before it gives.
    pub fn can_run(&self, c: &Config) -> (r: bool)
        requires
            c.runs(),
            self.wf(),
        ensures
            r == self.fits(*c),
    {
        let q: usize = c.q_dim();
        let kv: usize = c.kv_dim();
        self.rms_att.len() == c.dim && self.wq.n_cols() == c.dim && self.wq.n_rows() == q
            && self.wk.n_cols() == c.dim && self.wk.n_rows() == kv && self.wv.n_cols() == c.dim
            && self.wv.n_rows() == kv && self.wo.n_cols() == q && self.rms_ffn.len() == c.dim
            && self.w1.n_cols() == c.dim && self.w3.n_cols() == c.dim && self.w2.n_cols()
            == self.w1.n_rows()
    }
}

impl Model {
    /// Whether the weights make up a model that can run.
    pub fn can_run(&self) -> (r: bool)
        requires
            self.wf(),
        ensures
            r == self.fits(),
    {
        if (self.layers.len() > 0 && !self.config.can_run()) || self.rms_final.len()
            != self.config.dim {
            return false;
        }
        let mut l: usize = 0;
        while l < self.layers.len()
            invariant
                self.wf(),
                self.layers@.len() > 0 ==> self.config.runs(),
                l <= self.layers@.len(),
                forall|i: int| 0 <= i < l ==> (#[trigger] self.layers@[i]).fits(self.config),
            decreases self.layers.len() - l,
        {
            if !self.layers[l].can_run(&self.config) {
                return false;
            }
            l += 1;
        }
        let dim: usize = self.config.dim;
        match &self.wcls {
            Some(head) => head.n_cols() == dim,
            None => match &self.tok_emb {
                Embedding::F32(w) => {
                    proof {
                        assert(self.config.vocab_size as u128 * dim as u128 <= u128::MAX)
                            by (nonlinear_arith)
                            requires
                                self.config.vocab_size <= 0xffff_ffff_ffff_ffff,
                                dim <= 0xffff_ffff_ffff_ffff,
                        ;
                    }
                    w.len() as u128 == self.config.vocab_size as u128 * dim as u128
                },
                Embedding::KQuant(m) => m.cols == dim,
            },
        }
    }
}

/// Every layer has room for the row of position `pos`.
pub open spec fn has_room(cache: CacheView, n_layers: int, c: Config, pos: int) -> bool {
    &&& cache.k.len() >= n_layers
    &&& cache.v.len() >= n_layers
    &&& forall|l: int|
        0 <= l < n_layers ==> (#[trigger] cache.k[l]).len() >= (pos + 1) * c.kv_width()
    &&& forall|l: int|
        0 <= l < n_layers ==> (#[trigger] cache.v[l]).len() >= (pos + 1) * c.kv_width()
}

/// What passes from layer to layer: the hidden state and the caches.
#[verifier::ext_equal]
pub struct Flow {
    pub x: Seq<u32>,
    pub cache: CacheView,
}

/// The queries, keys and values of one position.
pub struct Qkv {
    pub q: Seq<u32>,
    pub k: Seq<u32>,
    pub v: Seq<u32>,
}

/// Biases and rotation, which make queries, keys and values of the projections.
pub open spec fn finished(k: Arith, c: Config, layer: Layer, raw: Qkv, pos: int) -> Qkv {
    Qkv {
        q: turned(k, c, biased(k, raw.q, layer.bq), pos),
        k: turned(k, c, biased(k, raw.k, layer.bk), pos),
        v: biased(k, raw.v, layer.bv),
    }
}

/// The projections of a normalized hidden state.
pub open spec fn projected(k: Arith, layer: Layer, xb: Seq<u32>) -> Qkv {
    Qkv { q: layer.wq.outputs(k, xb), k: layer.wk.outputs(k, xb), v: layer.wv.outputs(k, xb) }
}

/// The attention block of layer `l`, from the finished queries, keys and values
/// on: they are stored, attended to, projected back and added.
pub open spec fn attention_block(
    k: Arith,
    c: Config,
    layer: Layer,
    l: int,
    flow: Flow,
    qkv: Qkv,
    pos: int,
) -> Flow {
    let keys = stored(flow.cache.k[l], pos, qkv.k);
    let values = stored(flow.cache.v[l], pos, qkv.v);
    let attn = attended(k, qkv.q, keys, values, pos, c.heads());
    Flow {
        x: zipped(k, Op::Add, flow.x, layer.wo.outputs(k, attn)),
        cache: CacheView {
            k: flow.cache.k.update(l, keys),
            v: flow.cache.v.update(l, values),
        },
    }
}

/// The gated MLP of a layer: what it adds to the hidden state.
pub open spec fn mlp_value(k: Arith, c: Config, layer: Layer, x: Seq<u32>) -> Seq<u32> {
    let xb = normed(k, x, layer.rms_ffn@, c.norm_eps);
    let gate = activated(k, c.act, layer.w1.outputs(k, xb));
    layer.w2.outputs(k, zipped(k, Op::Mul, gate, layer.w3.outputs(k, xb)))
}

/// Layer `l`, at position `pos`.
pub open spec fn layer_flow(k: Arith, c: Config, layer: Layer, l: int, flow: Flow, pos: int) -> Flow {
    let xb = normed(k, flow.x, layer.rms_att@, c.norm_eps);
    let qkv = finished(k, c, layer, projected(k, layer, xb), pos);
    let mid = attention_block(k, c, layer, l, flow, qkv, pos);
    Flow { x: zipped(k, Op::Add, mid.x, mlp_value(k, c, layer, mid.x)), cache: mid.cache }
}

/// The first `n` layers, one after the other.
pub open spec fn layers_flow(k: Arith, c: Config, layers: Seq<Layer>, flow: Flow, pos: int, n: nat) -> Flow
    decreases n,
{
    if n == 0 {
        flow
    } else {
        layer_flow(
            k,
            c,
            layers[n - 1],
            n - 1,
            layers_flow(k, c, layers, flow, pos, (n - 1) as nat),
            pos,
        )
    }
}

/// The embedding of a token, scaled as the model asks.
pub open spec fn embedded(k: Arith, model: Model, token: int) -> Seq<u32> {
    let row = model.tok_emb.row_of_token(k, token, model.config.dim as int);
    if model.config.emb_scale == ONE {
        row
    } else {
        scaled(k, row, model.config.emb_scale)
    }
}

/// What the layers make of a token at position `pos`.
pub open spec fn token_flow(k: Arith, model: Model, cache: CacheView, token: int, pos: int) -> Flow {
    layers_flow(
        k,
        model.config,
        model.layers@,
        Flow { x: embedded(k, model, token), cache },
        pos,
        model.layers@.len(),
    )
}

/// The logits that follow from a hidden state.
pub open spec fn head_value(k: Arith, model: Model, x: Seq<u32>) -> Seq<u32> {
    model.logits_of(k, normed(k, x, model.rms_final@, model.config.norm_eps))
}

/// A rotated, biased or combined row is as long as it was.
pub proof fn lemma_row_lengths(k: Arith, c: Config, x: Seq<u32>, bias: Option<Vec<u32>>, pos: int)
    ensures
        biased(k, x, bias).len() == x.len(),
        turned(k, c, x, pos).len() == x.len(),
{
}

/// Layers keep the width of the hidden state and the sizes of the caches.
pub proof fn lemma_layers_flow_shapes(
    k: Arith,
    c: Config,
    layers: Seq<Layer>,
    flow: Flow,
    pos: int,
    n: nat,
)
    requires
        n <= flow.cache.k.len(),
        n <= flow.cache.v.len(),
    ensures
        layers_flow(k, c, layers, flow, pos, n).x.len() == flow.x.len(),
        layers_flow(k, c, layers, flow, pos, n).cache.k.len() == flow.cache.k.len(),
        layers_flow(k, c, layers, flow, pos, n).cache.v.len() == flow.cache.v.len(),
        forall|l: int|
            0 <= l < flow.cache.k.len() ==> (#[trigger] layers_flow(
                k,
                c,
                layers,
                flow,
                pos,
                n,
            ).cache.k[l]).len() == flow.cache.k[l].len(),
        forall|l: int|
            0 <= l < flow.cache.v.len() ==> (#[trigger] layers_flow(
                k,
                c,
                layers,
                flow,
                pos,
                n,
            ).cache.v[l]).len() == flow.cache.v[l].len(),
    decreases n,
{
    if n > 0 {
        lemma_layers_flow_shapes(k, c, layers, flow, pos, (n - 1) as nat);
    }
}

/// Two caches hold the same rows for the positions before `pos`.
pub open spec fn same_rows(a: Seq<u32>, b: Seq<u32>, w: int, pos: int) -> bool {
    &&& a.len() >= pos * w
    &&& b.len() >= pos * w
    &&& a.take(pos * w) == b.take(pos * w)
}

/// The caches of the first `n_layers` layers hold the same rows for the positions
/// before `pos`.
pub open spec fn same_history(a: CacheView, b: CacheView, n_layers: int, c: Config, pos: int) -> bool {
    &&& forall|l: int| 0 <= l < n_layers ==> same_rows(#[trigger] a.k[l], b.k[l], c.kv_width(), pos)
    &&& forall|l: int| 0 <= l < n_layers ==> same_rows(#[trigger] a.v[l], b.v[l], c.kv_width(), pos)
}

/// Storing the same row behind the same rows.
proof fn lemma_stored_same(a: Seq<u32>, b: Seq<u32>, w: int, pos: int, row: Seq<u32>)
    requires
        0 <= pos,
        row.len() == w,
        same_rows(a, b, w, pos),
        a.len() >= (pos + 1) * w,
        b.len() >= (pos + 1) * w,
    ensures
        same_rows(stored(a, pos, row), stored(b, pos, row), w, pos + 1),
{
    let n = (pos + 1) * w;
    assert(n == pos * w + w) by (nonlinear_arith)
        requires
            n == (pos + 1) * w,
    ;
    assert(0 <= pos * w) by (nonlinear_arith)
        requires
            0 <= pos,
            0 <= w,
    ;
    let x = stored(a, pos, row).take(n);
    let y = stored(b, pos, row).take(n);
    assert forall|i: int| 0 <= i < n implies x[i] == y[i] by {
        if i < pos * w {
            assert(a.take(pos * w)[i] == b.take(pos * w)[i]);
        }
    }
    assert(x =~= y);
}

/// One layer sees no more of the caches than the rows up to its position.
proof fn lemma_layer_is_causal(
    k: Arith,
    c: Config,
    layer: Layer,
    l: int,
    a: Flow,
    b: Flow,
    pos: int,
)
    requires
        c.runs(),
        layer.fits(c),
        0 <= pos,
        0 <= l,
        l < a.cache.k.len(),
        l < a.cache.v.len(),
        l < b.cache.k.len(),
        l < b.cache.v.len(),
        a.x == b.x,
        same_rows(a.cache.k[l], b.cache.k[l], c.kv_width(), pos),
        same_rows(a.cache.v[l], b.cache.v[l], c.kv_width(), pos),
        a.cache.k[l].len() >= (pos + 1) * c.kv_width(),
        a.cache.v[l].len() >= (pos + 1) * c.kv_width(),
        b.cache.k[l].len() >= (pos + 1) * c.kv_width(),
        b.cache.v[l].len() >= (pos + 1) * c.kv_width(),
    ensures
        layer_flow(k, c, layer, l, a, pos).x == layer_flow(k, c, layer, l, b, pos).x,
        same_rows(
            layer_flow(k, c, layer, l, a, pos).cache.k[l],
            layer_flow(k, c, layer, l, b, pos).cache.k[l],
            c.kv_width(),
            pos + 1,
        ),
        same_rows(
            layer_flow(k, c, layer, l, a, pos).cache.v[l],
            layer_flow(k, c, layer, l, b, pos).cache.v[l],
            c.kv_width(),
            pos + 1,
        ),
{
    let xb = normed(k, a.x, layer.rms_att@, c.norm_eps);
    let qkv = finished(k, c, layer, projected(k, layer, xb), pos);
    lemma_whole_heads(c.n_kv_heads as int, c.head_dim as int);
    lemma_row_lengths(k, c, layer.wk.outputs(k, xb), layer.bk, pos);
    lemma_row_lengths(k, c, biased(k, layer.wk.outputs(k, xb), layer.bk), layer.bk, pos);
    lemma_row_lengths(k, c, layer.wv.outputs(k, xb), layer.bv, pos);
    lemma_stored_same(a.cache.k[l], b.cache.k[l], c.kv_width(), pos, qkv.k);
    lemma_stored_same(a.cache.v[l], b.cache.v[l], c.kv_width(), pos, qkv.v);
    law_attention_is_causal(
        k,
        qkv.q,
        stored(a.cache.k[l], pos, qkv.k),
        stored(a.cache.v[l], pos, qkv.v),
        stored(b.cache.k[l], pos, qkv.k),
        stored(b.cache.v[l], pos, qkv.v),
        pos,
        c.heads(),
    );
}

/// The first `n` layers see no more of the caches than the rows up to their
/// position.
proof fn lemma_layers_are_causal(
    k: Arith,
    model: Model,
    a: Flow,
    b: Flow,
    pos: int,
    n: nat,
)
    requires
        model.fits(),
        0 <= pos,
        n <= model.layers@.len(),
        a.x == b.x,
        has_room(a.cache, model.layers@.len() as int, model.config, pos),
        has_room(b.cache, model.layers@.len() as int, model.config, pos),
        same_history(a.cache, b.cache, model.layers@.len() as int, model.config, pos),
    ensures
        layers_flow(k, model.config, model.layers@, a, pos, n).x == layers_flow(
            k,
            model.config,
            model.layers@,
            b,
            pos,
            n,
        ).x,
        same_history(
            layers_flow(k, model.config, model.layers@, a, pos, n).cache,
            layers_flow(k, model.config, model.layers@, b, pos, n).cache,
            n as int,
            model.config,
            pos + 1,
        ),
        forall|l: int|
            n <= l < model.layers@.len() ==> #[trigger] layers_flow(
                k,
                model.config,
                model.layers@,
                a,
                pos,
                n,
            ).cache.k[l] == a.cache.k[l],
        forall|l: int|
            n <= l < model.layers@.len() ==> #[trigger] layers_flow(
                k,
                model.config,
                model.layers@,
                a,
                pos,
                n,
            ).cache.v[l] == a.cache.v[l],
        forall|l: int|
            n <= l < model.layers@.len() ==> #[trigger] layers_flow(
                k,
                model.config,
                model.layers@,
                b,
                pos,
                n,
            ).cache.k[l] == b.cache.k[l],
        forall|l: int|
            n <= l < model.layers@.len() ==> #[trigger] layers_flow(
                k,
                model.config,
                model.layers@,
                b,
                pos,
                n,
            ).cache.v[l] == b.cache.v[l],
    decreases n,
{
    if n > 0 {
        let c = model.config;
        let m = (n - 1) as nat;
        let l = n - 1;
        lemma_layers_are_causal(k, model, a, b, pos, m);
        lemma_layers_flow_shapes(k, c, model.layers@, a, pos, m);
        lemma_layers_flow_shapes(k, c, model.layers@, b, pos, m);
        let fa = layers_flow(k, c, model.layers@, a, pos, m);
        let fb = layers_flow(k, c, model.layers@, b, pos, m);
        assert(same_rows(a.cache.k[l], b.cache.k[l], c.kv_width(), pos));
        assert(same_rows(a.cache.v[l], b.cache.v[l], c.kv_width(), pos));
        assert(fa.cache.k[l] == a.cache.k[l] && fb.cache.k[l] == b.cache.k[l]);
        assert(fa.cache.v[l] == a.cache.v[l] && fb.cache.v[l] == b.cache.v[l]);
        lemma_layer_is_causal(k, c, model.layers@[l], l, fa, fb, pos);
        let ga = layers_flow(k, c, model.layers@, a, pos, n);
        let gb = layers_flow(k, c, model.layers@, b, pos, n);
        assert forall|i: int| 0 <= i < n implies same_rows(
            #[trigger] ga.cache.k[i],
            gb.cache.k[i],
            c.kv_width(),
            pos + 1,
        ) by {
            if i < m {
                assert(same_rows(fa.cache.k[i], fb.cache.k[i], c.kv_width(), pos + 1));
            }
        }
        assert forall|i: int| 0 <= i < n implies same_rows(
            #[trigger] ga.cache.v[i],
            gb.cache.v[i],
            c.kv_width(),
            pos + 1,
        ) by {
            if i < m {
                assert(same_rows(fa.cache.v[i], fb.cache.v[i], c.kv_width(), pos + 1));
            }
        }
    }
}

/// The size of the caches does not matter, nor what they hold for later
/// positions: with the same rows before `pos`, a token gives the same logits, and
/// leaves the same rows up to and including `pos`.
pub proof fn law_forward_is_causal(
    k: Arith,
    model: Model,
    a: CacheView,
    b: CacheView,
    token: int,
    pos: int,
)
    requires
        model.fits(),
        0 <= pos,
        has_room(a, model.layers@.len() as int, model.config, pos),
        has_room(b, model.layers@.len() as int, model.config, pos),
        same_history(a, b, model.layers@.len() as int, model.config, pos),
    ensures
        head_value(k, model, token_flow(k, model, a, token, pos).x) == head_value(
            k,
            model,
            token_flow(k, model, b, token, pos).x,
        ),
        same_history(
            token_flow(k, model, a, token, pos).cache,
            token_flow(k, model, b, token, pos).cache,
            model.layers@.len() as int,
            model.config,
            pos + 1,
        ),
{
    let x = embedded(k, model, token);
    lemma_layers_are_causal(
        k,
        model,
        Flow { x, cache: a },
        Flow { x, cache: b },
        pos,
        model.layers@.len(),
    );
}

/// Rows of whole heads can be rotated.
pub proof fn lemma_whole_heads(n: int, head_dim: int)
    requires
        head_dim > 0,
        0 <= n,
    ensures
        (n * head_dim) % head_dim == 0,
        0 <= n * head_dim,
{
    assert((n * head_dim) % head_dim == 0) by (nonlinear_arith)
        requires
            head_dim > 0,
    ;
    assert(0 <= n * head_dim) by (nonlinear_arith)
        requires
            head_dim > 0,
            0 <= n,
    ;
}

/// The embedding of a token, scaled as the model asks.
pub(crate) fn embed<F: Fn(Op, u32, u32) -> u32>(model: &Model, token: u32, calc: &F) -> (x: Vec<u32>)
    requires
        is_arith(*calc),
        model.tok_emb.has_row(token as int, model.config.dim as int),
    ensures
        x@.len() == model.config.dim,
        x@ == embedded(arith(*calc), *model, token as int),
{
    let row: Vec<u32> = model.tok_emb.row(token as usize, model.config.dim, calc);
    if model.config.emb_scale == ONE {
        row
    } else {
        scale_all(row.as_slice(), model.config.emb_scale, calc)
    }
}

/// An embedding is as wide as the model.
#[verifier::spinoff_prover]
proof fn lemma_embedded_len(k: Arith, model: Model, token: int)
    requires
        0 <= token,
        model.tok_emb.has_row(token, model.config.dim as int),
    ensures
        embedded(k, model, token).len() == model.config.dim,
{
    let dim = model.config.dim as int;
    assert(token * dim + dim == (token + 1) * dim && 0 <= token * dim) by (nonlinear_arith)
        requires
            0 <= token,
            0 <= dim,
    ;
    let row = model.tok_emb.row_of_token(k, token, dim);
    match model.tok_emb {
        Embedding::F32(w) => {
            assert(row.len() == dim);
        },
        Embedding::KQuant(m) => {
            let n = m.row_blocks();
            let v = m.kind.values();
            vstd::arithmetic::div_mod::lemma_fundamental_div_mod(m.cols as int, v);
            assert(n * v == v * n) by (nonlinear_arith);
            assert(row.len() == n * v);
        },
    }
}

/// Has a piece of work done.
fn do_work<'a, R: Fn(Work) -> Vec<u32>, F: Fn(Op, u32, u32) -> u32>(
    work: Work<'a>,
    run: &R,
    calc: &F,
) -> (out: Vec<u32>)
    requires
        is_runner(arith(*calc), *run),
        work.wf(),
    ensures
        out@ == work.value(arith(*calc)),
{
    run(work)
}

/// The gated MLP of a layer: what it adds to the hidden state.
fn mlp<R: Fn(Work) -> Vec<u32>, F: Fn(Op, u32, u32) -> u32>(
    c: &Config,
    layer: &Layer,
    x: &[u32],
    run: &R,
    calc: &F,
) -> (y: Vec<u32>)
    requires
        is_arith(*calc),
        is_runner(arith(*calc), *run),
        layer.fits(*c),
        x@.len() == c.dim,
    ensures
        y@ == mlp_value(arith(*calc), *c, *layer, x@),
{
    let xb: Vec<u32> = do_work(
        Work::Norm { x, weight: layer.rms_ffn.as_slice(), eps: c.norm_eps },
        run,
        calc,
    );
    let mut gate: Vec<u32> = do_work(Work::Feed { w: &layer.w1, x: xb.as_slice() }, run, calc);
    let up: Vec<u32> = do_work(Work::Feed { w: &layer.w3, x: xb.as_slice() }, run, calc);
    activate(c.act, &mut gate, calc);
    zip_in(Op::Mul, &mut gate, up.as_slice(), calc);
    do_work(Work::Feed { w: &layer.w2, x: gate.as_slice() }, run, calc)
}

/// Adds the biases and rotates queries and keys.
pub(crate) fn finish<F: Fn(Op, u32, u32) -> u32>(
    c: &Config,
    layer: &Layer,
    q: &mut Vec<u32>,
    k: &mut Vec<u32>,
    v: &mut Vec<u32>,
    pos: usize,
    calc: &F,
)
    requires
        is_arith(*calc),
        c.runs(),
        old(q)@.len() == c.q_width(),
        old(k)@.len() == c.kv_width(),
    ensures
        ({
            let raw = Qkv { q: old(q)@, k: old(k)@, v: old(v)@ };
            let done = finished(arith(*calc), *c, *layer, raw, pos as int);
            final(q)@ == done.q && final(k)@ == done.k && final(v)@ == done.v
        }),
        final(q)@.len() == old(q)@.len(),
        final(k)@.len() == old(k)@.len(),
        final(v)@.len() == old(v)@.len(),
{
    proof {
        lemma_whole_heads(c.n_heads as int, c.head_dim as int);
        lemma_whole_heads(c.n_kv_heads as int, c.head_dim as int);
    }
    add_bias(q, &layer.bq, calc);
    add_bias(k, &layer.bk, calc);
    add_bias(v, &layer.bv, calc);
    turn(c, q, pos, calc);
    turn(c, k, pos, calc);
}

impl KvCache {
    /// Stores the keys and values of position `pos` in layer `l`.
    pub fn store(&mut self, l: usize, pos: usize, k: &[u32], v: &[u32])
        requires
            l < old(self)@.k.len(),
            l < old(self)@.v.len(),
            (pos + 1) * k@.len() <= old(self)@.k[l as int].len(),
            (pos + 1) * v@.len() <= old(self)@.v[l as int].len(),
        ensures
            final(self)@ == (CacheView {
                k: old(self)@.k.update(l as int, stored(old(self)@.k[l as int], pos as int, k@)),
                v: old(self)@.v.update(l as int, stored(old(self)@.v[l as int], pos as int, v@)),
            }),
    {
        let ghost before = self@;
        store(&mut self.k[l], pos, k);
        store(&mut self.v[l], pos, v);
        proof {
            assert(self@.k =~= before.k.update(l as int, stored(before.k[l as int], pos as int, k@)));
            assert(self@.v =~= before.v.update(l as int, stored(before.v[l as int], pos as int, v@)));
        }
    }
}

impl KvCache {
    /// The key rows of layer `l`.
    pub fn keys(&self, l: usize) -> (s: &[u32])
        requires
            l < self@.k.len(),
        ensures
            s@ == self@.k[l as int],
    {
        proof {
            assert(self@.k[l as int] == self.k@[l as int]@);
        }
        self.k[l].as_slice()
    }

    /// The value rows of layer `l`.
    pub fn values(&self, l: usize) -> (s: &[u32])
        requires
            l < self@.v.len(),
        ensures
            s@ == self@.v[l as int],
    {
        proof {
            assert(self@.v[l as int] == self.v@[l as int]@);
        }
        self.v[l].as_slice()
    }
}

/// Layer `l` has room for the row of position `pos`.
pub open spec fn layer_has_room(cache: CacheView, l: int, c: Config, pos: int) -> bool {
    &&& 0 <= l < cache.k.len()
    &&& l < cache.v.len()
    &&& cache.k[l].len() >= (pos + 1) * c.kv_width()
    &&& cache.v[l].len() >= (pos + 1) * c.kv_width()
}

/// Runs the hidden state through layer `l`.
fn run_layer<R: Fn(Work) -> Vec<u32>, F: Fn(Op, u32, u32) -> u32>(
    c: &Config,
    layer: &Layer,
    l: usize,
    x: &mut Vec<u32>,
    cache: &mut KvCache,
    pos: usize,
    run: &R,
    calc: &F,
)
    requires
        is_arith(*calc),
        is_runner(arith(*calc), *run),
        c.runs(),
        layer.fits(*c),
        pos < usize::MAX,
        old(x)@.len() == c.dim,
        layer_has_room(old(cache)@, l as int, *c, pos as int),
    ensures
        ({
            let flow = Flow { x: old(x)@, cache: old(cache)@ };
            let next = layer_flow(arith(*calc), *c, *layer, l as int, flow, pos as int);
            final(x)@ == next.x && final(cache)@ == next.cache
        }),
{
    let ghost k = arith(*calc);
    let ghost flow = Flow { x: x@, cache: cache@ };
    let xb: Vec<u32> = do_work(
        Work::Norm { x: x.as_slice(), weight: layer.rms_att.as_slice(), eps: c.norm_eps },
        run,
        calc,
    );
    let mut q: Vec<u32> = do_work(Work::Project { w: &layer.wq, x: xb.as_slice() }, run, calc);
    let mut kk: Vec<u32> = do_work(Work::Project { w: &layer.wk, x: xb.as_slice() }, run, calc);
    let mut v: Vec<u32> = do_work(Work::Project { w: &layer.wv, x: xb.as_slice() }, run, calc);
    finish(c, layer, &mut q, &mut kk, &mut v, pos, calc);
    cache.store(l, pos, kk.as_slice(), v.as_slice());
    let attn: Vec<u32> = do_work(
        Work::Attend {
            q: q.as_slice(),
            keys: cache.keys(l),
            values: cache.values(l),
            pos,
            n_heads: c.n_heads,
            n_kv_heads: c.n_kv_heads,
            head_dim: c.head_dim,
        },
        run,
        calc,
    );
    let o: Vec<u32> = do_work(Work::Project { w: &layer.wo, x: attn.as_slice() }, run, calc);
    zip_in(Op::Add, x, o.as_slice(), calc);
    let down: Vec<u32> = mlp(c, layer, x.as_slice(), run, calc);
    zip_in(Op::Add, x, down.as_slice(), calc);
    proof {
        let qkv = finished(k, *c, *layer, projected(k, *layer, xb@), pos as int);
        assert(qkv.q == q@ && qkv.k == kk@ && qkv.v == v@);
        let next = layer_flow(k, *c, *layer, l as int, flow, pos as int);
        assert(cache@ =~= next.cache);
    }
}

/// Runs one token through the model at position `pos`, storing its keys and
/// values in the cache, and returns the vocabulary logits.
pub fn forward<F: Fn(Op, u32, u32) -> u32>(
    model: &Model,
    cache: &mut KvCache,
    token: u32,
    pos: usize,
    calc: &F,
) -> (logits: Vec<u32>)
    requires
        is_arith(*calc),
        model.fits(),
        model.tok_emb.has_row(token as int, model.config.dim as int),
        pos < usize::MAX,
        has_room(old(cache)@, model.layers@.len() as int, model.config, pos as int),
    ensures
        logits@ == head_value(
            arith(*calc),
            *model,
            token_flow(arith(*calc), *model, old(cache)@, token as int, pos as int).x,
        ),
        final(cache)@ == token_flow(
            arith(*calc),
            *model,
            old(cache)@,
            token as int,
            pos as int,
        ).cache,
{
    let run = |w: Work| -> (out: Vec<u32>)
        requires
            w.wf(),
        ensures
            out@ == w.value(arith(*calc)),
        { w.run(calc) };
    forward_with(model, cache, token, pos, &run, calc)
}

/// Runs one token through the model as `forward` does, with every piece of the work
/// handed to `run`.
pub fn forward_with<R: Fn(Work) -> Vec<u32>, F: Fn(Op, u32, u32) -> u32>(
    model: &Model,
    cache: &mut KvCache,
    token: u32,
    pos: usize,
    run: &R,
    calc: &F,
) -> (logits: Vec<u32>)
    requires
        is_arith(*calc),
        is_runner(arith(*calc), *run),
        model.fits(),
        model.tok_emb.has_row(token as int, model.config.dim as int),
        pos < usize::MAX,
        has_room(old(cache)@, model.layers@.len() as int, model.config, pos as int),
    ensures
        logits@ == head_value(
            arith(*calc),
            *model,
            token_flow(arith(*calc), *model, old(cache)@, token as int, pos as int).x,
        ),
        final(cache)@ == token_flow(
            arith(*calc),
            *model,
            old(cache)@,
            token as int,
            pos as int,
        ).cache,
{
    let ghost k = arith(*calc);
    let c = model.config;
    let mut x: Vec<u32> = do_work(Work::Embed { model, token }, run, calc);
    let ghost start = Flow { x: x@, cache: cache@ };
    proof {
        lemma_embedded_len(k, *model, token as int);
    }
    let mut l: usize = 0;
    while l < model.layers.len()
        invariant
            is_arith(*calc),
            is_runner(arith(*calc), *run),
            k == arith(*calc),
            model.fits(),
            c == model.config,
            pos < usize::MAX,
            l <= model.layers@.len(),
            start.x.len() == c.dim,
            has_room(start.cache, model.layers@.len() as int, c, pos as int),
            x@ == layers_flow(k, c, model.layers@, start, pos as int, l as nat).x,
            cache@ == layers_flow(k, c, model.layers@, start, pos as int, l as nat).cache,
        decreases model.layers.len() - l,
    {
        let ghost flow = layers_flow(k, c, model.layers@, start, pos as int, l as nat);
        proof {
            lemma_layers_flow_shapes(k, c, model.layers@, start, pos as int, l as nat);
            assert(flow.cache.k[l as int].len() == start.cache.k[l as int].len());
            assert(flow.cache.v[l as int].len() == start.cache.v[l as int].len());
            assert(Flow { x: x@, cache: cache@ } == flow);
        }
        run_layer(&c, &model.layers[l], l, &mut x, cache, pos, run, calc);
        proof {
            assert(layer_flow(k, c, model.layers@[l as int], l as int, flow, pos as int)
                == layers_flow(k, c, model.layers@, start, pos as int, (l + 1) as nat));
        }
        l += 1;
    }
    proof {
        lemma_layers_flow_shapes(k, c, model.layers@, start, pos as int, l as nat);
    }
    let xb: Vec<u32> = do_work(
        Work::Norm { x: x.as_slice(), weight: model.rms_final.as_slice(), eps: c.norm_eps },
        run,
        calc,
    );
    do_work(Work::Classify { model, x: xb.as_slice() }, run, calc)
}

} // verus!
