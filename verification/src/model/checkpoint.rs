//! The `llama2.c` checkpoint format: a header of seven 32-bit integers, then
//! single-precision tensors in a fixed order, grouped by kind across layers.
use crate::arith::{arith, is_arith, Arith, Op, ONE};
use crate::bytes::{read_u32, read_words, signed, to_i32, u32_at, words_at};
use crate::model::config::{
    Activation, Config, Precision, NORM_EPS_LLAMA, ROPE_THETA_DEFAULT,
};
use crate::model::weights::{becomes_q8, is_linear, Embedding, Layer, Linear, Model};
use vstd::prelude::*;

verus! {

/// Why a checkpoint cannot be loaded.
#[derive(Debug, Clone, Copy, PartialEq, Eq, Structural)]
pub enum CheckpointError {
    Truncated,
    BadHeader,
}

/// A signed header field as a size: a negative one wraps around.
pub open spec fn wrapped(v: int) -> int {
    if v >= 0 {
        v
    } else {
        usize::MAX + 1 + v
    }
}

/// Header field `i`.
pub open spec fn field(data: Seq<u8>, i: int) -> int {
    signed(u32_at(data, 4 * i) as int, 0x8000_0000)
}

pub open spec fn size_field(data: Seq<u8>, i: int) -> int {
    wrapped(field(data, i))
}

/// The width splits evenly into heads.
pub open spec fn header_ok(data: Seq<u8>) -> bool {
    size_field(data, 0) != 0 && size_field(data, 3) != 0 && size_field(data, 0) % size_field(
        data,
        3,
    ) == 0
}

/// The hyperparameters in the header. A negative vocabulary size says that
/// the classifier is stored apart.
pub open spec fn header_config(data: Seq<u8>) -> Config {
    let vocab = field(data, 5);
    Config {
        dim: size_field(data, 0) as usize,
        hidden_dim: size_field(data, 1) as usize,
        n_layers: size_field(data, 2) as usize,
        n_heads: size_field(data, 3) as usize,
        n_kv_heads: size_field(data, 4) as usize,
        vocab_size: (if vocab >= 0 {
            vocab
        } else {
            -vocab
        }) as usize,
        seq_len: size_field(data, 6) as usize,
        shared_classifier: vocab > 0,
        rope_theta: ROPE_THETA_DEFAULT,
        head_dim: (size_field(data, 0) / size_field(data, 3)) as usize,
        norm_eps: NORM_EPS_LLAMA,
        rope_neox: false,
        act: Activation::Silu,
        emb_scale: ONE,
    }
}

/// How many values one layer has of each kind of tensor, in file order:
/// attention norm, query, key, value, output, MLP norm, gate, down, up.
pub open spec fn kind_size(c: Config, kind: int) -> int {
    if kind == 0 || kind == 5 {
        c.dim as int
    } else if kind == 1 || kind == 4 {
        c.dim * c.q_width()
    } else if kind == 2 || kind == 3 {
        c.dim * c.kv_width()
    } else {
        c.hidden_dim * c.dim
    }
}

/// Where the tensors of a kind start, counted in values from the embeddings on.
pub open spec fn kind_start(c: Config, kind: int) -> int
    decreases kind,
{
    if kind <= 0 {
        c.vocab_size * c.dim
    } else {
        kind_start(c, kind - 1) + c.n_layers * kind_size(c, kind - 1)
    }
}

/// Values in the precomputed rotation tables, which are not used.
pub open spec fn rope_size(c: Config) -> int {
    c.seq_len * c.head_dim / 2 * 2
}

/// Where the classifier starts, if it is stored apart.
pub open spec fn classifier_start(c: Config) -> int {
    kind_start(c, 9) + c.dim + rope_size(c)
}

/// Values in the whole file.
pub open spec fn value_count(c: Config) -> int {
    classifier_start(c) + (if c.shared_classifier {
        0
    } else {
        c.vocab_size * c.dim
    })
}

/// `n` values from value `at` on.
pub open spec fn values(data: Seq<u8>, at: int, n: int) -> Seq<u32> {
    words_at(data, 28 + 4 * at, n)
}

/// The tensor of a kind in layer `l`.
pub open spec fn layer_values(data: Seq<u8>, c: Config, kind: int, l: int) -> Seq<u32> {
    values(data, kind_start(c, kind) + l * kind_size(c, kind), kind_size(c, kind))
}

/// What is wrong with a file.
pub open spec fn load_error(data: Seq<u8>) -> Option<CheckpointError> {
    if data.len() < 28 {
        Some(CheckpointError::Truncated)
    } else if !header_ok(data) {
        Some(CheckpointError::BadHeader)
    } else if 28 + 4 * value_count(header_config(data)) > data.len() {
        Some(CheckpointError::Truncated)
    } else {
        None
    }
}

/// `layer` is layer `l` of the file.
pub open spec fn is_layer(
    ar: Arith,
    data: Seq<u8>,
    c: Config,
    precision: Precision,
    l: int,
    layer: Layer,
) -> bool {
    let q = c.q_width();
    let k = c.kv_width();
    let d = c.dim as int;
    let h = c.hidden_dim as int;
    &&& layer.rms_att@ == layer_values(data, c, 0, l)
    &&& is_linear(ar, layer_values(data, c, 1, l), q, d, precision, layer.wq)
    &&& is_linear(ar, layer_values(data, c, 2, l), k, d, precision, layer.wk)
    &&& is_linear(ar, layer_values(data, c, 3, l), k, d, precision, layer.wv)
    &&& is_linear(ar, layer_values(data, c, 4, l), d, q, precision, layer.wo)
    &&& layer.bq is None
    &&& layer.bk is None
    &&& layer.bv is None
    &&& layer.rms_ffn@ == layer_values(data, c, 5, l)
    &&& is_linear(ar, layer_values(data, c, 6, l), h, d, precision, layer.w1)
    &&& is_linear(ar, layer_values(data, c, 7, l), d, h, precision, layer.w2)
    &&& is_linear(ar, layer_values(data, c, 8, l), h, d, precision, layer.w3)
}

/// `m` is the model in the file. With a shared classifier and Q8 weights, the
/// head is a quantized copy of the embeddings.
pub open spec fn is_model(
    ar: Arith,
    data: Seq<u8>,
    precision: Precision,
    m: Model,
) -> bool {
    let c = header_config(data);
    let v = c.vocab_size as int;
    let d = c.dim as int;
    &&& m.config == c
    &&& m.tok_emb matches Embedding::F32(w) && w@ == values(data, 0, v * d)
    &&& m.layers@.len() == c.n_layers
    &&& forall|l: int|
        0 <= l < m.layers@.len() ==> is_layer(
            ar,
            data,
            c,
            precision,
            l,
            #[trigger] m.layers@[l],
        )
    &&& m.rms_final@ == values(data, kind_start(c, 9), d)
    &&& if !c.shared_classifier {
        m.wcls matches Some(head) && is_linear(
            ar,
            values(data, classifier_start(c), v * d),
            v,
            d,
            precision,
            head,
        )
    } else if becomes_q8(precision, d) {
        m.wcls matches Some(head) && is_linear(
            ar,
            values(data, 0, v * d),
            v,
            d,
            precision,
            head,
        )
    } else {
        m.wcls is None
    }
}

/// A number, or all that a `u64` can hold of it.
pub open spec fn capped(n: int) -> int {
    if n <= u64::MAX {
        n
    } else {
        u64::MAX as int
    }
}

/// Product of two capped numbers.
fn capped_mul(a: u64, b: u64) -> (r: u64)
    ensures
        forall|x: int, y: int|
            0 <= x && 0 <= y && capped(x) == a && capped(y) == b ==> r == #[trigger] capped(x * y),
        r == capped(a * b),
{
    let p: u128;
    proof {
        assert(a * b <= 0xffff_ffff_ffff_ffff * 0xffff_ffff_ffff_ffff) by (nonlinear_arith)
            requires
                a <= 0xffff_ffff_ffff_ffff,
                b <= 0xffff_ffff_ffff_ffff,
        ;
    }
    p = a as u128 * b as u128;
    let r: u64 = if p <= u64::MAX as u128 {
        p as u64
    } else {
        u64::MAX
    };
    proof {
        assert forall|x: int, y: int|
            0 <= x && 0 <= y && capped(x) == a && capped(y) == b implies r == #[trigger] capped(
            x * y,
        ) by {
            lemma_capped_product(x, y, a as int, b as int);
        }
    }
    r
}

proof fn lemma_capped_product(x: int, y: int, a: int, b: int)
    requires
        0 <= x,
        0 <= y,
        capped(x) == a,
        capped(y) == b,
    ensures
        capped(x * y) == capped(a * b),
{
    let m = u64::MAX as int;
    if x <= m && y <= m {
    } else if x == 0 || y == 0 {
        assert(x * y == 0 && a * b == 0) by (nonlinear_arith)
            requires
                (x == 0 && a == 0) || (y == 0 && b == 0),
        ;
    } else {
        assert(x * y >= m && a * b >= m) by (nonlinear_arith)
            requires
                x >= 1,
                y >= 1,
                a >= 1,
                b >= 1,
                x >= m || y >= m,
                a >= m || b >= m,
        ;
    }
}

/// Sum of two capped numbers.
fn capped_add(a: u64, b: u64) -> (r: u64)
    ensures
        r == capped(a + b),
        forall|x: int, y: int|
            0 <= x && 0 <= y && capped(x) == a && capped(y) == b ==> r == #[trigger] capped(x + y),
{
    a.saturating_add(b)
}

/// Sizes and starts are never negative, and starts never decrease.
proof fn lemma_kind_starts(c: Config, j: int, k: int)
    requires
        0 <= j <= k,
    ensures
        0 <= kind_size(c, j),
        0 <= kind_start(c, j) <= kind_start(c, k),
    decreases k,
{
    let d = c.dim as int;
    let q = c.q_width();
    let kv = c.kv_width();
    let h = c.hidden_dim as int;
    assert(0 <= q && 0 <= kv) by (nonlinear_arith)
        requires
            q == c.n_heads * c.head_dim,
            kv == c.n_kv_heads * c.head_dim,
    ;
    assert(0 <= d * q && 0 <= d * kv && 0 <= h * d) by (nonlinear_arith)
        requires
            0 <= d,
            0 <= q,
            0 <= kv,
            0 <= h,
    ;
    if j < k {
        lemma_kind_starts(c, j, k - 1);
        lemma_size_nonneg(c, k - 1);
        let n = c.n_layers as int;
        let z = kind_size(c, k - 1);
        assert(0 <= n * z) by (nonlinear_arith)
            requires
                0 <= n,
                0 <= z,
        ;
    } else if k > 0 {
        lemma_kind_starts(c, k - 1, k - 1);
        lemma_size_nonneg(c, k - 1);
        let n = c.n_layers as int;
        let z = kind_size(c, k - 1);
        assert(0 <= n * z) by (nonlinear_arith)
            requires
                0 <= n,
                0 <= z,
        ;
    } else {
        assert(0 <= c.vocab_size * c.dim) by (nonlinear_arith);
    }
}

proof fn lemma_size_nonneg(c: Config, k: int)
    ensures
        0 <= kind_size(c, k),
        0 <= c.q_width(),
        0 <= c.kv_width(),
{
    let d = c.dim as int;
    let q = c.q_width();
    let kv = c.kv_width();
    let h = c.hidden_dim as int;
    assert(0 <= q && 0 <= kv) by (nonlinear_arith)
        requires
            q == c.n_heads * c.head_dim,
            kv == c.n_kv_heads * c.head_dim,
    ;
    assert(0 <= d * q && 0 <= d * kv && 0 <= h * d) by (nonlinear_arith)
        requires
            0 <= d,
            0 <= q,
            0 <= kv,
            0 <= h,
    ;
}

/// A layer's tensor lies before the next kind of tensor, and that before the
/// final norm.
proof fn lemma_layer_fits(c: Config, kind: int, l: int)
    requires
        0 <= kind < 9,
        0 <= l < c.n_layers,
    ensures
        0 <= kind_size(c, kind),
        0 <= l * kind_size(c, kind),
        0 <= kind_start(c, kind),
        kind_start(c, kind) + l * kind_size(c, kind) + kind_size(c, kind) <= kind_start(c, 9),
{
    lemma_kind_starts(c, kind, kind + 1);
    lemma_kind_starts(c, kind + 1, 9);
    let n = c.n_layers as int;
    let z = kind_size(c, kind);
    assert(0 <= l * z && l * z + z <= n * z) by (nonlinear_arith)
        requires
            0 <= l < n,
            0 <= z,
    ;
}

/// The rotation tables, the classifier and all before them are counted.
proof fn lemma_tail_fits(c: Config)
    ensures
        0 <= c.vocab_size * c.dim <= kind_start(c, 9),
        0 <= rope_size(c),
        kind_start(c, 9) + c.dim <= classifier_start(c),
        classifier_start(c) <= value_count(c),
{
    lemma_kind_starts(c, 0, 9);
    let s = c.seq_len * c.head_dim;
    assert(0 <= s) by (nonlinear_arith)
        requires
            s == c.seq_len * c.head_dim,
    ;
    assert(0 <= c.vocab_size * c.dim) by (nonlinear_arith);
}

/// A header field as a size.
fn wrap_size(v: i32) -> (n: usize)
    ensures
        n == wrapped(v as int),
{
    if v >= 0 {
        v as usize
    } else {
        let m: u32 = (-(v as i64)) as u32;
        usize::MAX - (m as usize - 1)
    }
}

fn read_field(data: &[u8], i: usize) -> (v: i32)
    requires
        i < 7,
        data.len() >= 28,
    ensures
        v == field(data@, i as int),
{
    to_i32(read_u32(data, 4 * i))
}

/// The hyperparameters in a header that is in order.
fn read_config(data: &[u8]) -> (c: Config)
    requires
        data.len() >= 28,
        header_ok(data@),
    ensures
        c == header_config(data@),
        c.dim > 0,
        c.n_heads > 0,
        c.dim % c.n_heads == 0,
        c.head_dim == c.dim / c.n_heads,
{
    let dim: usize = wrap_size(read_field(data, 0));
    let n_heads: usize = wrap_size(read_field(data, 3));
    let vocab: i32 = read_field(data, 5);
    let vocab_size: usize = if vocab >= 0 {
        vocab as usize
    } else {
        ((-(vocab as i64)) as u32) as usize
    };
    Config {
        dim,
        hidden_dim: wrap_size(read_field(data, 1)),
        n_layers: wrap_size(read_field(data, 2)),
        n_heads,
        n_kv_heads: wrap_size(read_field(data, 4)),
        vocab_size,
        seq_len: wrap_size(read_field(data, 6)),
        shared_classifier: vocab > 0,
        rope_theta: ROPE_THETA_DEFAULT,
        head_dim: dim / n_heads,
        norm_eps: NORM_EPS_LLAMA,
        rope_neox: false,
        act: Activation::Silu,
        emb_scale: ONE,
    }
}

/// Values one layer has of a kind of tensor, capped.
fn capped_size(c: &Config, kind: usize) -> (n: u64)
    ensures
        n == capped(kind_size(*c, kind as int)),
{
    proof {
        lemma_size_nonneg(*c, kind as int);
    }
    let d: u64 = c.dim as u64;
    let hd: u64 = c.head_dim as u64;
    if kind == 0 || kind == 5 {
        d
    } else if kind == 1 || kind == 4 {
        let q: u64 = capped_mul(c.n_heads as u64, hd);
        assert(q == capped(c.q_width()));
        let r: u64 = capped_mul(d, q);
        assert(r == capped(c.dim * c.q_width()));
        r
    } else if kind == 2 || kind == 3 {
        let k: u64 = capped_mul(c.n_kv_heads as u64, hd);
        assert(k == capped(c.kv_width()));
        let r: u64 = capped_mul(d, k);
        assert(r == capped(c.dim * c.kv_width()));
        r
    } else {
        capped_mul(c.hidden_dim as u64, d)
    }
}

/// Where each kind of tensor starts, capped.
fn capped_starts(c: &Config) -> (starts: Vec<u64>)
    ensures
        starts@.len() == 10,
        forall|k: int| 0 <= k < 10 ==> #[trigger] starts@[k] == capped(kind_start(*c, k)),
{
    let mut starts: Vec<u64> = Vec::new();
    let mut at: u64 = capped_mul(c.vocab_size as u64, c.dim as u64);
    starts.push(at);
    let mut k: usize = 0;
    while k < 9
        invariant
            k <= 9,
            starts@.len() == k + 1,
            at == capped(kind_start(*c, k as int)),
            forall|j: int| 0 <= j <= k ==> #[trigger] starts@[j] == capped(kind_start(*c, j)),
        decreases 9 - k,
    {
        let size: u64 = capped_size(c, k);
        let ghost z = kind_size(*c, k as int);
        proof {
            lemma_kind_starts(*c, k as int, k as int);
        }
        let block: u64 = capped_mul(c.n_layers as u64, size);
        proof {
            assert(block == capped(c.n_layers * z));
            assert(0 <= c.n_layers * z) by (nonlinear_arith)
                requires
                    0 <= z,
            ;
        }
        at = capped_add(at, block);
        proof {
            assert(at == capped(kind_start(*c, k as int) + c.n_layers * z));
        }
        starts.push(at);
        k += 1;
    }
    starts
}

/// Values in the whole file, capped.
fn capped_total(c: &Config, starts: &Vec<u64>) -> (n: u64)
    requires
        starts@.len() == 10,
        starts@[9] == capped(kind_start(*c, 9)),
    ensures
        n == capped(value_count(*c)),
{
    proof {
        lemma_kind_starts(*c, 9, 9);
        lemma_tail_fits(*c);
    }
    let table: u64 = capped_rope(c);
    let with_norm: u64 = capped_add(starts[9], c.dim as u64);
    assert(with_norm == capped(kind_start(*c, 9) + c.dim));
    let cls: u64 = capped_add(with_norm, table);
    assert(cls == capped(kind_start(*c, 9) + c.dim + rope_size(*c)));
    if c.shared_classifier {
        cls
    } else {
        let emb: u64 = capped_mul(c.vocab_size as u64, c.dim as u64);
        assert(emb == capped(c.vocab_size * c.dim));
        let total: u64 = capped_add(cls, emb);
        assert(total == capped(classifier_start(*c) + c.vocab_size * c.dim));
        total
    }
}

/// Values in the rotation tables, capped.
fn capped_rope(c: &Config) -> (n: u64)
    ensures
        n == capped(rope_size(*c)),
{
    let p: u128;
    let ghost s = c.seq_len * c.head_dim;
    proof {
        assert(0 <= s <= 0xffff_ffff_ffff_ffff * 0xffff_ffff_ffff_ffff) by (nonlinear_arith)
            requires
                s == c.seq_len * c.head_dim,
                0 <= c.seq_len <= 0xffff_ffff_ffff_ffff,
                0 <= c.head_dim <= 0xffff_ffff_ffff_ffff,
        ;
    }
    p = c.seq_len as u128 * c.head_dim as u128;
    let even: u128 = p / 2 * 2;
    if even <= u64::MAX as u128 {
        even as u64
    } else {
        u64::MAX
    }
}

/// Reads the tensor of a kind in layer `l`.
fn read_layer_values(data: &[u8], c: &Config, starts: &Vec<u64>, kind: usize, l: usize) -> (w: Vec<
    u32,
>)
    requires
        kind < 9,
        l < c.n_layers,
        starts@.len() == 10,
        forall|k: int| 0 <= k < 10 ==> #[trigger] starts@[k] == capped(kind_start(*c, k)),
        28 + 4 * value_count(*c) <= data.len(),
    ensures
        w@ == layer_values(data@, *c, kind as int, l as int),
        w@.len() == kind_size(*c, kind as int),
{
    let size: u64 = capped_size(c, kind);
    proof {
        lemma_layer_fits(*c, kind as int, l as int);
        lemma_tail_fits(*c);
        assert(data.len() <= u64::MAX);
    }
    let at: u64 = starts[kind] + l as u64 * size;
    read_words(data, 28 + 4 * at as usize, size as usize)
}

/// Load a checkpoint from its bytes.
pub fn load_bytes<F: Fn(Op, u32, u32) -> u32>(
    data: &[u8],
    precision: Precision,
    calc: &F,
) -> (r: Result<Model, CheckpointError>)
    requires
        is_arith(*calc),
    ensures
        match load_error(data@) {
            Some(e) => r == Err::<Model, CheckpointError>(e),
            None => r matches Ok(m) && m.wf() && m.tok_emb.wf(
                m.config.vocab_size as int,
                m.config.dim as int,
            ) && ((m.config.runs() || m.layers@.len() == 0) ==> m.exact()) && is_model(arith(*calc), data@, precision, m),
        },
{
    if data.len() < 28 {
        return Err(CheckpointError::Truncated);
    }
    let dim: usize = wrap_size(read_field(data, 0));
    let n_heads: usize = wrap_size(read_field(data, 3));
    if dim == 0 || n_heads == 0 || dim % n_heads != 0 {
        return Err(CheckpointError::BadHeader);
    }
    let c = read_config(data);
    let starts = capped_starts(&c);
    let total: u64 = capped_total(&c, &starts);
    if 28 + 4 * (total as u128) > data.len() as u128 {
        return Err(CheckpointError::Truncated);
    }
    let ghost dd = c.dim as int;
    let ghost qw = c.q_width();
    let ghost kw = c.kv_width();
    proof {
        lemma_tail_fits(c);
        lemma_kind_starts(c, 0, 9);
        vstd::arithmetic::div_mod::lemma_fundamental_div_mod(c.dim as int, c.n_heads as int);
        assert(qw == dd) by (nonlinear_arith)
            requires
                dd == c.n_heads * (c.dim as int / c.n_heads as int) + c.dim as int
                    % c.n_heads as int,
                c.dim as int % c.n_heads as int == 0,
                qw == c.n_heads * c.head_dim,
                c.head_dim == c.dim as int / c.n_heads as int,
        ;
        assert(data.len() <= u64::MAX);
    }
    let emb_len: usize = starts[0] as usize;
    let tok_emb = read_words(data, 28, emb_len);
    let mut layers: Vec<Layer> = Vec::new();
    let mut l: usize = 0;
    while l < c.n_layers
        invariant
            is_arith(*calc),
            c == header_config(data@),
            c.dim > 0,
            dd == c.dim,
            qw == c.q_width(),
            kw == c.kv_width(),
            qw == dd,
            starts@.len() == 10,
            forall|k: int| 0 <= k < 10 ==> #[trigger] starts@[k] == capped(kind_start(c, k)),
            28 + 4 * value_count(c) <= data.len(),
            l <= c.n_layers,
            layers@.len() == l,
            forall|i: int| 0 <= i < l ==> (#[trigger] layers@[i]).exact(c),
            forall|i: int|
                0 <= i < l ==> is_layer(
                    arith(*calc),
                    data@,
                    c,
                    precision,
                    i,
                    #[trigger] layers@[i],
                ),
        decreases c.n_layers - l,
    {
        let rms_att = read_layer_values(data, &c, &starts, 0, l);
        let wq = read_layer_values(data, &c, &starts, 1, l);
        let wk = read_layer_values(data, &c, &starts, 2, l);
        let wv = read_layer_values(data, &c, &starts, 3, l);
        let wo = read_layer_values(data, &c, &starts, 4, l);
        let rms_ffn = read_layer_values(data, &c, &starts, 5, l);
        let w1 = read_layer_values(data, &c, &starts, 6, l);
        let w2 = read_layer_values(data, &c, &starts, 7, l);
        let w3 = read_layer_values(data, &c, &starts, 8, l);
        proof {
            lemma_size_nonneg(c, 2);
            assert(kw <= dd * kw) by (nonlinear_arith)
                requires
                    dd >= 1,
                    kw >= 0,
            ;
            assert(wk.len() == wk@.len());
            assert(dd * kw == kw * dd) by (nonlinear_arith);
            assert(dd * qw == qw * dd) by (nonlinear_arith);
            let h = c.hidden_dim as int;
            assert(h * dd == dd * h) by (nonlinear_arith);
        }
        let q_dim: usize = c.dim;
        let kv_dim: usize = c.kv_dim();
        layers.push(
            Layer {
                rms_att,
                wq: Linear::new(wq, q_dim, c.dim, precision, calc),
                wk: Linear::new(wk, kv_dim, c.dim, precision, calc),
                wv: Linear::new(wv, kv_dim, c.dim, precision, calc),
                wo: Linear::new(wo, c.dim, q_dim, precision, calc),
                bq: None,
                bk: None,
                bv: None,
                rms_ffn,
                w1: Linear::new(w1, c.hidden_dim, c.dim, precision, calc),
                w2: Linear::new(w2, c.dim, c.hidden_dim, precision, calc),
                w3: Linear::new(w3, c.hidden_dim, c.dim, precision, calc),
            },
        );
        l += 1;
    }
    let final_at: usize = 28 + 4 * starts[9] as usize;
    let rms_final = read_words(data, final_at, c.dim);
    let wcls = if !c.shared_classifier {
        let at: usize = total as usize - emb_len;
        let w = read_words(data, 28 + 4 * at, emb_len);
        Some(Linear::new(w, c.vocab_size, c.dim, precision, calc))
    } else if precision == Precision::Q8 && c.dim % 32 == 0 {
        let w = read_words(data, 28, emb_len);
        Some(Linear::new(w, c.vocab_size, c.dim, precision, calc))
    } else {
        None
    };
    Ok(Model { config: c, tok_emb: Embedding::F32(tok_emb), layers, rms_final, wcls })
}

} // verus!
