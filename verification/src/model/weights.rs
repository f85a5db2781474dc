//! The weights of a model.
use crate::arith::{arith, is_arith, Arith, Op};
use crate::kernels::kquant::KQuantMatrix;
use crate::kernels::matmul::{
    are_acts, dense_rows, dot_f32, kquant_rows, lemma_quantizes_acts, lemma_single_token, matmul_f32, matmul_kquant_f32,
    matmul_q8_f32, q8_row_dot, q8_rows, row_outputs,
};
use crate::kernels::quant::{quantize_acts, quantize_q8, quantizes, QuantActs, QuantMatrix};
use crate::kernels::rows::{copy_of, copy_row, row_of, row_slice};
use crate::model::config::{Config, Precision};
use vstd::prelude::*;

verus! {

/// One projection matrix, dense or quantized.
#[derive(Debug)]
pub enum Linear {
    /// Row-major singles, by their bits.
    F32 { w: Vec<u32>, rows: usize, cols: usize },
    Q8(QuantMatrix),
    /// Kept in its packed block format and multiplied natively.
    KQuant(KQuantMatrix),
}

/// Q8 groups need whole groups in every row; other shapes stay dense.
pub open spec fn becomes_q8(precision: Precision, cols: int) -> bool {
    precision == Precision::Q8 && cols % 32 == 0
}

/// `lin` is the dense matrix `w` at the given precision.
pub open spec fn is_linear(
    ar: Arith,
    w: Seq<u32>,
    rows: int,
    cols: int,
    precision: Precision,
    lin: Linear,
) -> bool {
    if becomes_q8(precision, cols) {
        lin matches Linear::Q8(m) && m.wf() && m.rows == rows && m.cols == cols && quantizes(
            ar,
            w,
            m.q@,
            m.scales@,
        )
    } else {
        lin matches Linear::F32 { w: v, rows: r, cols: c } && v@ == w && r == rows && c == cols
    }
}

impl Linear {
    /// Storage and shape agree.
    pub open spec fn wf(&self) -> bool {
        match self {
            Linear::F32 { w, rows, cols } => w@.len() == *rows * *cols,
            Linear::Q8(m) => m.wf(),
            Linear::KQuant(m) => m.wf(),
        }
    }

    pub open spec fn rows(&self) -> int {
        match self {
            Linear::F32 { rows, .. } => *rows as int,
            Linear::Q8(m) => m.rows as int,
            Linear::KQuant(m) => m.rows as int,
        }
    }

    pub open spec fn cols(&self) -> int {
        match self {
            Linear::F32 { cols, .. } => *cols as int,
            Linear::Q8(m) => m.cols as int,
            Linear::KQuant(m) => m.cols as int,
        }
    }

    pub open spec fn bytes(&self) -> int {
        match self {
            Linear::F32 { w, .. } => 4 * w@.len() as int,
            Linear::Q8(m) => (m.q@.len() + 4 * m.scales@.len()) as int,
            Linear::KQuant(m) => m.blocks@.len() as int,
        }
    }

    /// A dense matrix at the requested precision.
    pub fn new<F: Fn(Op, u32, u32) -> u32>(
        w: Vec<u32>,
        rows: usize,
        cols: usize,
        precision: Precision,
        calc: &F,
    ) -> (lin: Self)
        requires
            w@.len() == rows * cols,
            is_arith(*calc),
        ensures
            lin.wf(),
            is_linear(arith(*calc), w@, rows as int, cols as int, precision, lin),
    {
        if precision == Precision::Q8 && cols % 32 == 0 {
            Linear::Q8(quantize_q8(rows, cols, w.as_slice(), calc))
        } else {
            Linear::F32 { w, rows, cols }
        }
    }

    /// Output `r` as a function of the activations.
    pub open spec fn row_fn(&self, k: Arith) -> spec_fn(Seq<u32>, int) -> u32 {
        match self {
            Linear::F32 { w, rows, cols } => dense_rows(k, w@, *cols as int),
            Linear::Q8(m) => q8_rows(k, *m),
            Linear::KQuant(m) => kquant_rows(k, *m),
        }
    }

    /// `W x`.
    pub open spec fn outputs(&self, k: Arith, x: Seq<u32>) -> Seq<u32> {
        row_outputs(x, self.rows(), self.row_fn(k))
    }

    /// `y = W x` for a single activation row.
    pub fn apply<F: Fn(Op, u32, u32) -> u32>(&self, x: &[u32], calc: &F) -> (y: Vec<u32>)
        requires
            is_arith(*calc),
            self.wf(),
            x@.len() == self.cols(),
        ensures
            y@ == self.outputs(arith(*calc), x@),
    {
        proof {
            lemma_single_token(x@, self.rows(), self.row_fn(arith(*calc)));
        }
        match self {
            Linear::F32 { w, rows, cols } => matmul_f32(x, w.as_slice(), 1, *cols, *rows, calc),
            Linear::Q8(m) => matmul_q8_f32(x, m, 1, calc),
            Linear::KQuant(m) => matmul_kquant_f32(x, m, 1, calc),
        }
    }

    /// Output `r` alone, of activations that are prepared for any kind of matrix.
    pub fn row_dot<F: Fn(Op, u32, u32) -> u32>(&self, x: &Acts, r: usize, calc: &F) -> (v: u32)
        requires
            is_arith(*calc),
            self.wf(),
            x.wf(arith(*calc)),
            x.x@.len() == self.cols(),
            r < self.rows(),
        ensures
            v == self.outputs(arith(*calc), x.x@)[r as int],
    {
        match self {
            Linear::F32 { w, rows, cols } => {
                let row: &[u32] = row_slice(w.as_slice(), r, *cols, Ghost(*rows as int));
                dot_f32(x.x.as_slice(), row, calc)
            },
            Linear::Q8(m) => q8_row_dot(m, x.x.as_slice(), r, calc),
            Linear::KQuant(m) => match &x.packed {
                Some(acts) => m.row_dot(acts, r, calc),
                None => {
                    proof {
                        lemma_packed_cols(*m);
                    }
                    0
                },
            },
        }
    }

    /// Number of outputs.
    pub fn n_rows(&self) -> (n: usize)
        ensures
            n == self.rows(),
    {
        match self {
            Linear::F32 { rows, .. } => *rows,
            Linear::Q8(m) => m.rows,
            Linear::KQuant(m) => m.rows,
        }
    }

    /// Number of inputs.
    pub fn n_cols(&self) -> (n: usize)
        ensures
            n == self.cols(),
    {
        match self {
            Linear::F32 { cols, .. } => *cols,
            Linear::Q8(m) => m.cols,
            Linear::KQuant(m) => m.cols,
        }
    }

    /// Bytes of weight storage.
    pub fn stored_bytes(&self) -> (n: usize)
        requires
            self.bytes() <= usize::MAX,
        ensures
            n == self.bytes(),
    {
        match self {
            Linear::F32 { w, .. } => w.len() * 4,
            Linear::Q8(m) => m.stored_bytes(),
            Linear::KQuant(m) => m.stored_bytes(),
        }
    }
}

/// Activations, and where they make up whole groups their quantized form.
#[derive(Debug)]
pub struct Acts {
    pub x: Vec<u32>,
    pub packed: Option<QuantActs>,
}

impl Acts {
    pub open spec fn wf(&self, k: Arith) -> bool {
        &&& self.packed is Some <==> self.x@.len() % 32 == 0
        &&& self.packed matches Some(acts) ==> are_acts(k, self.x@, acts)
    }

    /// Prepares activations.
    pub fn new<F: Fn(Op, u32, u32) -> u32>(x: Vec<u32>, calc: &F) -> (a: Self)
        requires
            is_arith(*calc),
        ensures
            a.wf(arith(*calc)),
            a.x@ == x@,
    {
        if x.len() % 32 == 0 {
            let acts = quantize_acts(x.as_slice(), calc);
            proof {
                lemma_quantizes_acts(arith(*calc), x@, acts);
            }
            Acts { x, packed: Some(acts) }
        } else {
            Acts { x, packed: None }
        }
    }
}

impl Acts {
    /// Prepares a copy of activations.
    pub fn of<F: Fn(Op, u32, u32) -> u32>(x: &[u32], calc: &F) -> (a: Self)
        requires
            is_arith(*calc),
        ensures
            a.wf(arith(*calc)),
            a.x@ == x@,
    {
        Acts::new(copy_of(x), calc)
    }
}

/// Rows of packed matrices are whole groups.
pub proof fn lemma_packed_cols(m: KQuantMatrix)
    requires
        m.wf(),
    ensures
        m.cols % 32 == 0,
{
}

/// The token-embedding table, one row per token. A packed table is
/// dequantized one row at a time.
#[derive(Debug)]
pub enum Embedding {
    F32(Vec<u32>),
    KQuant(KQuantMatrix),
}

impl Embedding {
    pub open spec fn values(&self) -> int {
        match self {
            Embedding::F32(w) => w@.len() as int,
            Embedding::KQuant(m) => m.rows * m.cols,
        }
    }

    pub open spec fn bytes(&self) -> int {
        match self {
            Embedding::F32(w) => 4 * w@.len() as int,
            Embedding::KQuant(m) => m.blocks@.len() as int,
        }
    }

    /// The table has a row of `dim` values for every token below `vocab`.
    pub open spec fn wf(&self, vocab: int, dim: int) -> bool {
        match self {
            Embedding::F32(w) => w@.len() == vocab * dim,
            Embedding::KQuant(m) => m.wf() && m.rows == vocab && m.cols == dim,
        }
    }

    /// The table has a row of `dim` values for `token`.
    pub open spec fn has_row(&self, token: int, dim: int) -> bool {
        match self {
            Embedding::F32(w) => (token + 1) * dim <= w@.len(),
            Embedding::KQuant(m) => m.wf() && token < m.rows && m.cols == dim,
        }
    }

    /// The embedding of one token.
    pub open spec fn row_of_token(&self, k: Arith, token: int, dim: int) -> Seq<u32> {
        match self {
            Embedding::F32(w) => row_of(w@, token, dim),
            Embedding::KQuant(m) => m.row_values(k, token),
        }
    }

    /// The embedding of one token.
    pub fn row<F: Fn(Op, u32, u32) -> u32>(&self, token: usize, dim: usize, calc: &F) -> (out: Vec<
        u32,
    >)
        requires
            is_arith(*calc),
            self.has_row(token as int, dim as int),
        ensures
            out@.len() == dim,
            out@ == self.row_of_token(arith(*calc), token as int, dim as int),
    {
        match self {
            Embedding::F32(w) => copy_row(w.as_slice(), token, dim, Ghost(token + 1)),
            Embedding::KQuant(m) => m.dequantize_row(token, calc),
        }
    }

    /// Number of values in the table.
    pub fn n_values(&self) -> (n: usize)
        requires
            self.values() <= usize::MAX,
        ensures
            n == self.values(),
    {
        match self {
            Embedding::F32(w) => w.len(),
            Embedding::KQuant(m) => m.rows * m.cols,
        }
    }

    /// Bytes of storage.
    pub fn stored_bytes(&self) -> (n: usize)
        requires
            self.bytes() <= usize::MAX,
        ensures
            n == self.bytes(),
    {
        match self {
            Embedding::F32(w) => w.len() * 4,
            Embedding::KQuant(m) => m.stored_bytes(),
        }
    }
}

/// Per-layer weights.
#[derive(Debug)]
pub struct Layer {
    pub rms_att: Vec<u32>,
    pub wq: Linear,
    pub wk: Linear,
    pub wv: Linear,
    pub wo: Linear,
    /// QKV biases (Qwen2).
    pub bq: Option<Vec<u32>>,
    pub bk: Option<Vec<u32>>,
    pub bv: Option<Vec<u32>>,
    pub rms_ffn: Vec<u32>,
    /// Gate.
    pub w1: Linear,
    /// Down.
    pub w2: Linear,
    /// Up.
    pub w3: Linear,
}

impl Layer {
    /// The projections' storage and shapes agree.
    pub open spec fn wf(&self) -> bool {
        &&& self.wq.wf()
        &&& self.wk.wf()
        &&& self.wv.wf()
        &&& self.wo.wf()
        &&& self.w1.wf()
        &&& self.w2.wf()
        &&& self.w3.wf()
    }

    /// Bytes of the layer's projections.
    pub open spec fn bytes(&self) -> int {
        self.wq.bytes() + self.wk.bytes() + self.wv.bytes() + self.wo.bytes() + self.w1.bytes()
            + self.w2.bytes() + self.w3.bytes()
    }
}

/// Bytes of the projections of some layers.
pub open spec fn layers_bytes(layers: Seq<Layer>) -> int
    decreases layers.len(),
{
    if layers.len() == 0 {
        0
    } else {
        layers_bytes(layers.drop_last()) + layers.last().bytes()
    }
}

/// A loaded model.
#[derive(Debug)]
pub struct Model {
    pub config: Config,
    pub tok_emb: Embedding,
    pub layers: Vec<Layer>,
    pub rms_final: Vec<u32>,
    /// LM head; `None` means that the classifier shares `tok_emb`.
    pub wcls: Option<Linear>,
}

/// Layers take no negative room.
proof fn lemma_layer_bytes(layer: Layer)
    ensures
        layer.bytes() >= 0,
{
}

proof fn lemma_layers_bytes_prefix(layers: Seq<Layer>, n: int)
    requires
        0 <= n <= layers.len(),
    ensures
        0 <= layers_bytes(layers.take(n)) <= layers_bytes(layers),
    decreases layers.len(),
{
    if layers.len() == 0 {
        assert(layers.take(n) =~= layers);
    } else {
        let rest = layers.drop_last();
        lemma_layer_bytes(layers.last());
        assert(layers_bytes(layers) == layers_bytes(rest) + layers.last().bytes());
        if n < layers.len() {
            lemma_layers_bytes_prefix(rest, n);
            assert(rest.take(n) =~= layers.take(n));
        } else {
            lemma_layers_bytes_prefix(rest, n - 1);
            assert(rest.take(n - 1) =~= rest);
            assert(layers.take(n) =~= layers);
        }
    }
}

impl Model {
    /// The matrices' storage and shapes agree.
    pub open spec fn wf(&self) -> bool {
        &&& forall|l: int| 0 <= l < self.layers@.len() ==> (#[trigger] self.layers@[l]).wf()
        &&& self.wcls matches Some(head) ==> head.wf()
        &&& self.tok_emb matches Embedding::KQuant(m) ==> m.wf()
    }

    pub open spec fn bytes(&self) -> int {
        layers_bytes(self.layers@) + (match self.wcls {
            Some(c) => c.bytes(),
            None => 0,
        })
    }

    /// Total bytes of projection weights, the part that precision changes.
    pub fn projection_bytes(&self) -> (n: usize)
        requires
            self.bytes() <= usize::MAX,
        ensures
            n == self.bytes(),
    {
        let head: usize = match &self.wcls {
            Some(c) => {
                proof {
                    lemma_layers_bytes_prefix(self.layers@, 0);
                }
                c.stored_bytes()
            },
            None => 0,
        };
        let mut total: usize = 0;
        let mut i: usize = 0;
        while i < self.layers.len()
            invariant
                self.bytes() <= usize::MAX,
                head == self.bytes() - layers_bytes(self.layers@),
                i <= self.layers.len(),
                total == layers_bytes(self.layers@.take(i as int)),
            decreases self.layers.len() - i,
        {
            let l = &self.layers[i];
            proof {
                lemma_layers_bytes_prefix(self.layers@, i + 1);
                assert(self.layers@.take(i + 1).drop_last() =~= self.layers@.take(i as int));
            }
            total = total + l.wq.stored_bytes() + l.wk.stored_bytes() + l.wv.stored_bytes()
                + l.wo.stored_bytes() + l.w1.stored_bytes() + l.w2.stored_bytes()
                + l.w3.stored_bytes();
            i += 1;
        }
        proof {
            assert(self.layers@.take(i as int) =~= self.layers@);
        }
        total + head
    }

    /// The logits of a final hidden state: from the head, or where there is none
    /// from the embedding table in the form in which it is stored.
    pub open spec fn logits_of(&self, k: Arith, x: Seq<u32>) -> Seq<u32> {
        match self.wcls {
            Some(head) => head.outputs(k, x),
            None => match self.tok_emb {
                Embedding::F32(w) => row_outputs(
                    x,
                    self.config.vocab_size as int,
                    dense_rows(k, w@, self.config.dim as int),
                ),
                Embedding::KQuant(m) => row_outputs(x, m.rows as int, kquant_rows(k, m)),
            },
        }
    }

    /// The classifier takes hidden states of the model's width.
    pub open spec fn classifies(&self) -> bool {
        match self.wcls {
            Some(head) => head.wf() && head.cols() == self.config.dim,
            None => match self.tok_emb {
                Embedding::F32(w) => w@.len() == self.config.vocab_size * self.config.dim,
                Embedding::KQuant(m) => m.wf() && m.cols == self.config.dim,
            },
        }
    }

    /// Number of logits.
    pub fn n_logits(&self) -> (n: usize)
        ensures
            forall|k: Arith, x: Seq<u32>| n == (#[trigger] self.logits_of(k, x)).len(),
    {
        match &self.wcls {
            Some(head) => head.n_rows(),
            None => match &self.tok_emb {
                Embedding::F32(_) => self.config.vocab_size,
                Embedding::KQuant(m) => m.rows,
            },
        }
    }

    /// Logit `r` alone, of prepared activations.
    pub fn logit<F: Fn(Op, u32, u32) -> u32>(&self, x: &Acts, r: usize, calc: &F) -> (v: u32)
        requires
            is_arith(*calc),
            self.classifies(),
            x.wf(arith(*calc)),
            x.x@.len() == self.config.dim,
            r < self.logits_of(arith(*calc), x.x@).len(),
        ensures
            v == self.logits_of(arith(*calc), x.x@)[r as int],
    {
        match &self.wcls {
            Some(head) => head.row_dot(x, r, calc),
            None => match &self.tok_emb {
                Embedding::F32(w) => {
                    let row: &[u32] = row_slice(
                        w.as_slice(),
                        r,
                        self.config.dim,
                        Ghost(self.config.vocab_size as int),
                    );
                    dot_f32(x.x.as_slice(), row, calc)
                },
                Embedding::KQuant(m) => match &x.packed {
                    Some(acts) => m.row_dot(acts, r, calc),
                    None => {
                        proof {
                            lemma_packed_cols(*m);
                        }
                        0
                    },
                },
            },
        }
    }

    /// Vocabulary logits of the final hidden state.
    pub fn logits<F: Fn(Op, u32, u32) -> u32>(&self, x: &[u32], calc: &F) -> (out: Vec<u32>)
        requires
            is_arith(*calc),
            self.classifies(),
            x@.len() == self.config.dim,
        ensures
            out@ == self.logits_of(arith(*calc), x@),
    {
        match &self.wcls {
            Some(head) => head.apply(x, calc),
            None => match &self.tok_emb {
                Embedding::F32(w) => {
                    proof {
                        lemma_single_token(
                            x@,
                            self.config.vocab_size as int,
                            dense_rows(arith(*calc), w@, self.config.dim as int),
                        );
                    }
                    matmul_f32(x, w.as_slice(), 1, self.config.dim, self.config.vocab_size, calc)
                },
                Embedding::KQuant(m) => {
                    proof {
                        lemma_single_token(x@, m.rows as int, kquant_rows(arith(*calc), *m));
                    }
                    matmul_kquant_f32(x, m, 1, calc)
                },
            },
        }
    }
}

} // verus!
