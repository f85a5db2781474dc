//! The work of a forward pass, piece by piece.
//!
//! A pass hands each piece to a runner and goes on with what comes back. The outputs
//! of a product do not depend on one another, so a runner may compute them in any
//! order and on as many threads as it likes.
use crate::arith::{arith, is_arith, Arith, Op};
use crate::kernels::attention::{attended, attention_decode, heads_of};
use crate::kernels::norms::{norm_row, normed};
use crate::model::infer::{embed, embedded};
use crate::model::weights::{Acts, Linear, Model};
use vstd::prelude::*;

verus! {

/// The parts of a forward pass that its time is spent on.
#[derive(Debug, Clone, Copy, PartialEq, Eq, Structural)]
pub enum Section {
    /// Projections of the attention blocks.
    Attention,
    /// Projections of the gated MLPs.
    FeedForward,
    /// The classifier.
    Head,
    /// Scores and weighted sums.
    Scores,
    /// Embeddings and norms.
    Norms,
}

/// A piece of work.
pub enum Work<'a> {
    /// The embedding of a token.
    Embed { model: &'a Model, token: u32 },
    /// A hidden state, normalized.
    Norm { x: &'a [u32], weight: &'a [u32], eps: u32 },
    /// A projection of an attention block.
    Project { w: &'a Linear, x: &'a [u32] },
    /// The attention of one position to those up to it.
    Attend {
        q: &'a [u32],
        keys: &'a [u32],
        values: &'a [u32],
        pos: usize,
        n_heads: usize,
        n_kv_heads: usize,
        head_dim: usize,
    },
    /// A projection of a gated MLP.
    Feed { w: &'a Linear, x: &'a [u32] },
    /// The logits of a final hidden state.
    Classify { model: &'a Model, x: &'a [u32] },
}

impl<'a> Work<'a> {
    /// The inputs have the shapes that the work asks for.
    pub open spec fn wf(self) -> bool {
        match self {
            Work::Embed { model, token } => model.tok_emb.has_row(
                token as int,
                model.config.dim as int,
            ),
            Work::Norm { x, weight, eps } => weight@.len() == x@.len(),
            Work::Project { w, x } => w.wf() && x@.len() == w.cols(),
            Work::Attend { q, keys, values, pos, n_heads, n_kv_heads, head_dim } => {
                &&& heads_of(n_heads, n_kv_heads, head_dim).wf()
                &&& pos < usize::MAX
                &&& q@.len() == n_heads * head_dim
                &&& keys@.len() >= (pos + 1) * (n_kv_heads * head_dim)
                &&& values@.len() >= (pos + 1) * (n_kv_heads * head_dim)
            },
            Work::Feed { w, x } => w.wf() && x@.len() == w.cols(),
            Work::Classify { model, x } => model.classifies() && x@.len() == model.config.dim,
        }
    }

    /// What the work comes to.
    pub open spec fn value(self, k: Arith) -> Seq<u32> {
        match self {
            Work::Embed { model, token } => embedded(k, *model, token as int),
            Work::Norm { x, weight, eps } => normed(k, x@, weight@, eps),
            Work::Project { w, x } => w.outputs(k, x@),
            Work::Attend { q, keys, values, pos, n_heads, n_kv_heads, head_dim } => attended(
                k,
                q@,
                keys@,
                values@,
                pos as int,
                heads_of(n_heads, n_kv_heads, head_dim),
            ),
            Work::Feed { w, x } => w.outputs(k, x@),
            Work::Classify { model, x } => model.logits_of(k, x@),
        }
    }

    /// The work is a product, whose outputs can be computed one by one.
    pub open spec fn is_product(self) -> bool {
        self is Project || self is Feed || self is Classify
    }

    /// The activations of a product.
    pub open spec fn activations(self) -> Seq<u32> {
        match self {
            Work::Project { w, x } => x@,
            Work::Feed { w, x } => x@,
            Work::Classify { model, x } => x@,
            _ => Seq::empty(),
        }
    }

    /// Which part of the pass this is.
    pub fn section(&self) -> (s: Section)
        ensures
            s == (match *self {
                Work::Embed { .. } => Section::Norms,
                Work::Norm { .. } => Section::Norms,
                Work::Project { .. } => Section::Attention,
                Work::Attend { .. } => Section::Scores,
                Work::Feed { .. } => Section::FeedForward,
                Work::Classify { .. } => Section::Head,
            }),
    {
        match self {
            Work::Embed { .. } => Section::Norms,
            Work::Norm { .. } => Section::Norms,
            Work::Project { .. } => Section::Attention,
            Work::Attend { .. } => Section::Scores,
            Work::Feed { .. } => Section::FeedForward,
            Work::Classify { .. } => Section::Head,
        }
    }

    /// Does the work at once.
    pub fn run<F: Fn(Op, u32, u32) -> u32>(&self, calc: &F) -> (out: Vec<u32>)
        requires
            is_arith(*calc),
            self.wf(),
        ensures
            out@ == self.value(arith(*calc)),
    {
        match self {
            Work::Embed { model, token } => embed(*model, *token, calc),
            Work::Norm { x, weight, eps } => norm_row(*x, *weight, *eps, calc),
            Work::Project { w, x } => w.apply(*x, calc),
            Work::Attend { q, keys, values, pos, n_heads, n_kv_heads, head_dim } => attention_decode(
                *q,
                *keys,
                *values,
                *pos,
                *n_heads,
                *n_kv_heads,
                *head_dim,
                calc,
            ),
            Work::Feed { w, x } => w.apply(*x, calc),
            Work::Classify { model, x } => model.logits(*x, calc),
        }
    }

    /// For a product, how many outputs it has and how many values make up each.
    pub fn shape(&self) -> (r: Option<(usize, usize)>)
        requires
            self.wf(),
        ensures
            r is Some <==> self.is_product(),
            r matches Some(s) ==> s.1 == self.activations().len() && forall|k: Arith|
                s.0 == (#[trigger] self.value(k)).len(),
    {
        match self {
            Work::Project { w, x } => Some((w.n_rows(), x.len())),
            Work::Feed { w, x } => Some((w.n_rows(), x.len())),
            Work::Classify { model, x } => Some((model.n_logits(), x.len())),
            _ => None,
        }
    }

    /// The activations of a product, prepared for its outputs.
    pub fn acts<F: Fn(Op, u32, u32) -> u32>(&self, calc: &F) -> (a: Acts)
        requires
            is_arith(*calc),
        ensures
            a.wf(arith(*calc)),
            a.x@ == self.activations(),
    {
        match self {
            Work::Project { w, x } => Acts::of(*x, calc),
            Work::Feed { w, x } => Acts::of(*x, calc),
            Work::Classify { model, x } => Acts::of(*x, calc),
            _ => Acts::of(&[], calc),
        }
    }

    /// Output `r` of a product, of its prepared activations.
    pub fn output<F: Fn(Op, u32, u32) -> u32>(&self, acts: &Acts, r: usize, calc: &F) -> (v: u32)
        requires
            is_arith(*calc),
            self.wf(),
            self.is_product(),
            acts.wf(arith(*calc)),
            acts.x@ == self.activations(),
            r < self.value(arith(*calc)).len(),
        ensures
            v == self.value(arith(*calc))[r as int],
    {
        match self {
            Work::Project { w, x } => w.row_dot(acts, r, calc),
            Work::Feed { w, x } => w.row_dot(acts, r, calc),
            Work::Classify { model, x } => model.logit(acts, r, calc),
            _ => 0,
        }
    }
}

/// `run` does any work that is handed to it.
pub open spec fn is_runner<R: Fn(Work) -> Vec<u32>>(k: Arith, run: R) -> bool {
    &&& forall|w: Work| #[trigger] w.wf() ==> call_requires(run, (w,))
    &&& forall|w: Work, out: Vec<u32>|
        w.wf() && #[trigger] call_ensures(run, (w,), out) ==> out@ == w.value(k)
}

} // verus!
