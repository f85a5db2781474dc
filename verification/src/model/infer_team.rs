//! The forward pass as a team runs it.
//!
//! The operations that members share are fused: one over the rows of the query,
//! key and value projections, one over the rows of gate and up. The small work
//! between them every member does for itself. Nothing of this shows in the
//! result: the logits and the caches are those of `forward`, bit by bit.
use crate::arith::{arith, is_arith, Arith, Op};
use crate::kernels::attention::attention_decode_team;
use crate::kernels::matmul::{dot_f32, matmul_kquant_team};
use crate::kernels::norms::norm_row;
use crate::kernels::rows::{copy_of, row_slice};
use crate::kernels::team::team_fill_rows_weighted;
use crate::model::config::Config;
use crate::model::infer::{
    activate, embed, finish, finished, has_room, head_value, layer_flow, layer_has_room, layers_flow,
    lemma_layers_flow_shapes, lemma_whole_heads, mlp_value, projected, token_flow, zip_in, Flow, KvCache,
};
use crate::model::weights::{lemma_packed_cols, Acts, Embedding, Layer, Linear, Model};
use vstd::prelude::*;

verus! {

/// The buffers that the shared operations fill.
#[derive(Debug)]
pub struct Scratch {
    /// Queries, keys and values, one behind the other.
    pub qkv: Vec<u32>,
    /// Attention output.
    pub attn: Vec<u32>,
    /// What is projected back into the hidden state.
    pub o: Vec<u32>,
    /// Gate and up, one behind the other.
    pub gu: Vec<u32>,
    pub logits: Vec<u32>,
}

impl Scratch {
    /// The buffers have the sizes that the model asks for.
    pub open spec fn wf(&self, c: Config) -> bool {
        &&& self.qkv@.len() == c.q_width() + 2 * c.kv_width()
        &&& self.attn@.len() == c.q_width()
        &&& self.o@.len() == c.dim
        &&& self.gu@.len() == 2 * c.hidden_dim
        &&& self.logits@.len() == c.vocab_size
    }

    /// Zeroed buffers for a model.
    pub fn new(model: &Model) -> (s: Self)
        requires
            model.config.q_width() + 2 * model.config.kv_width() <= usize::MAX,
            0 <= model.config.q_width(),
            0 <= model.config.kv_width(),
            2 * model.config.hidden_dim <= usize::MAX,
        ensures
            s.wf(model.config),
            forall|i: int| 0 <= i < s.qkv@.len() ==> #[trigger] s.qkv@[i] == 0,
            forall|i: int| 0 <= i < s.attn@.len() ==> #[trigger] s.attn@[i] == 0,
            forall|i: int| 0 <= i < s.o@.len() ==> #[trigger] s.o@[i] == 0,
            forall|i: int| 0 <= i < s.gu@.len() ==> #[trigger] s.gu@[i] == 0,
            forall|i: int| 0 <= i < s.logits@.len() ==> #[trigger] s.logits@[i] == 0,
    {
        let c = model.config;
        let q: usize = c.q_dim();
        let kv: usize = c.kv_dim();
        Scratch {
            qkv: vec![0u32; q + 2 * kv],
            attn: vec![0u32; q],
            o: vec![0u32; c.dim],
            gu: vec![0u32; 2 * c.hidden_dim],
            logits: vec![0u32; c.vocab_size],
        }
    }
}

impl Layer {
    /// Every projection gives rows of the width that the model asks for.
    pub open spec fn exact(&self, c: Config) -> bool {
        &&& self.fits(c)
        &&& self.wo.rows() == c.dim
        &&& self.w1.rows() == c.hidden_dim
        &&& self.w3.rows() == c.hidden_dim
        &&& self.w2.rows() == c.dim
    }
}

impl Model {
    /// Every projection, and the classifier, gives rows of the width that the
    /// model asks for.
    pub open spec fn exact(&self) -> bool {
        &&& self.fits()
        &&& forall|l: int| 0 <= l < self.layers@.len() ==> (#[trigger] self.layers@[l]).exact(self.config)
        &&& self.wcls matches Some(head) ==> head.rows() == self.config.vocab_size
        &&& self.wcls is None ==> (self.tok_emb matches Embedding::KQuant(m) ==> m.rows
            == self.config.vocab_size)
    }
}

impl Layer {
    /// Whether every projection gives rows of the width that the model asks for.
    pub fn is_exact(&self, c: &Config) -> (r: bool)
        requires
            c.runs(),
            self.wf(),
        ensures
            r == self.exact(*c),
    {
        self.can_run(c) && self.wo.n_rows() == c.dim && self.w1.n_rows() == c.hidden_dim
            && self.w3.n_rows() == c.hidden_dim && self.w2.n_rows() == c.dim
    }
}

impl Model {
    /// Whether every projection, and the classifier, gives rows of the width that
    /// the model asks for.
    pub fn is_exact(&self) -> (r: bool)
        requires
            self.wf(),
        ensures
            r == self.exact(),
    {
        if !self.can_run() {
            return false;
        }
        let mut l: usize = 0;
        while l < self.layers.len()
            invariant
                self.wf(),
                self.fits(),
                l <= self.layers@.len(),
                forall|i: int| 0 <= i < l ==> (#[trigger] self.layers@[i]).exact(self.config),
            decreases self.layers.len() - l,
        {
            if !self.layers[l].is_exact(&self.config) {
                return false;
            }
            l += 1;
        }
        match &self.wcls {
            Some(head) => head.n_rows() == self.config.vocab_size,
            None => match &self.tok_emb {
                Embedding::F32(_) => true,
                Embedding::KQuant(m) => m.rows == self.config.vocab_size,
            },
        }
    }
}

impl Linear {
    /// `y = W x`, filled in by a team of `nth`.
    pub fn apply_team<F: Fn(Op, u32, u32) -> u32>(
        &self,
        nth: usize,
        x: &Acts,
        out: &mut Vec<u32>,
        calc: &F,
    )
        requires
            is_arith(*calc),
            self.wf(),
            x.wf(arith(*calc)),
            x.x@.len() == self.cols(),
            0 < nth,
            4 * nth <= usize::MAX,
            old(out)@.len() == self.rows(),
        ensures
            final(out)@ == self.outputs(arith(*calc), x.x@),
    {
        let ghost want = self.outputs(arith(*calc), x.x@);
        let dot = |r: usize| -> (v: u32)
            requires
                r < self.rows(),
            ensures
                v == self.outputs(arith(*calc), x.x@)[r as int],
            { self.row_dot(x, r, calc) };
        let rows: usize = out.len();
        team_fill_rows_weighted(nth, out, rows, x.x.len(), &dot);
        proof {
            assert forall|r: int| 0 <= r < want.len() implies out@[r] == want[r] by {
                assert(call_ensures(dot, (r as usize,), out@[(r as usize) as int]));
            }
            assert(out@ =~= want);
        }
    }
}

/// Queries, keys and values, one behind the other.
pub open spec fn qkv_rows(k: Arith, layer: Layer, x: Seq<u32>) -> Seq<u32> {
    let p = projected(k, layer, x);
    p.q + p.k + p.v
}

/// Gate and up, one behind the other.
pub open spec fn gate_up_rows(k: Arith, layer: Layer, x: Seq<u32>) -> Seq<u32> {
    layer.w1.outputs(k, x) + layer.w3.outputs(k, x)
}

/// Queries, keys and values in one operation over their rows.
fn fused_qkv<F: Fn(Op, u32, u32) -> u32>(
    nth: usize,
    c: &Config,
    layer: &Layer,
    x: &Acts,
    out: &mut Vec<u32>,
    calc: &F,
)
    requires
        is_arith(*calc),
        c.runs(),
        layer.fits(*c),
        x.wf(arith(*calc)),
        x.x@.len() == c.dim,
        0 < nth,
        4 * nth <= usize::MAX,
        old(out)@.len() == c.q_width() + 2 * c.kv_width(),
    ensures
        final(out)@ == qkv_rows(arith(*calc), *layer, x.x@),
{
    let ghost want = qkv_rows(arith(*calc), *layer, x.x@);
    let n: usize = out.len();
    proof {
        lemma_whole_heads(c.n_heads as int, c.head_dim as int);
        lemma_whole_heads(c.n_kv_heads as int, c.head_dim as int);
    }
    let q_dim: usize = c.q_dim();
    let kv_dim: usize = c.kv_dim();
    let dot = |r: usize| -> (v: u32)
        requires
            r < n,
        ensures
            v == qkv_rows(arith(*calc), *layer, x.x@)[r as int],
        {
            if r < q_dim {
                layer.wq.row_dot(x, r, calc)
            } else if r < q_dim + kv_dim {
                layer.wk.row_dot(x, r - q_dim, calc)
            } else {
                layer.wv.row_dot(x, r - q_dim - kv_dim, calc)
            }
        };
    team_fill_rows_weighted(nth, out, n, c.dim, &dot);
    proof {
        assert forall|r: int| 0 <= r < want.len() implies out@[r] == want[r] by {
            assert(call_ensures(dot, (r as usize,), out@[(r as usize) as int]));
        }
        assert(out@ =~= want);
    }
}

/// Gate and up in one operation over their rows.
fn fused_gate_up<F: Fn(Op, u32, u32) -> u32>(
    nth: usize,
    c: &Config,
    layer: &Layer,
    x: &Acts,
    out: &mut Vec<u32>,
    calc: &F,
)
    requires
        is_arith(*calc),
        layer.exact(*c),
        x.wf(arith(*calc)),
        x.x@.len() == c.dim,
        0 < nth,
        4 * nth <= usize::MAX,
        old(out)@.len() == 2 * c.hidden_dim,
    ensures
        final(out)@ == gate_up_rows(arith(*calc), *layer, x.x@),
{
    let ghost want = gate_up_rows(arith(*calc), *layer, x.x@);
    let n: usize = out.len();
    let hidden: usize = c.hidden_dim;
    let dot = |r: usize| -> (v: u32)
        requires
            r < n,
        ensures
            v == gate_up_rows(arith(*calc), *layer, x.x@)[r as int],
        {
            if r < hidden {
                layer.w1.row_dot(x, r, calc)
            } else {
                layer.w3.row_dot(x, r - hidden, calc)
            }
        };
    team_fill_rows_weighted(nth, out, n, c.dim, &dot);
    proof {
        assert forall|r: int| 0 <= r < want.len() implies out@[r] == want[r] by {
            assert(call_ensures(dot, (r as usize,), out@[(r as usize) as int]));
        }
        assert(out@ =~= want);
    }
}

/// A copy of part of a buffer.
fn part(s: &Vec<u32>, lo: usize, hi: usize) -> (v: Vec<u32>)
    requires
        lo <= hi <= s@.len(),
    ensures
        v@ == s@.subrange(lo as int, hi as int),
{
    copy_of(vstd::slice::slice_subrange(s.as_slice(), lo, hi))
}

/// Queries, keys and values, projected by a team and copied apart.
fn project_team<F: Fn(Op, u32, u32) -> u32>(
    nth: usize,
    c: &Config,
    layer: &Layer,
    x: &Acts,
    out: &mut Vec<u32>,
    calc: &F,
) -> (r: (Vec<u32>, Vec<u32>, Vec<u32>))
    requires
        is_arith(*calc),
        c.runs(),
        layer.fits(*c),
        x.wf(arith(*calc)),
        x.x@.len() == c.dim,
        0 < nth,
        4 * nth <= usize::MAX,
        old(out)@.len() == c.q_width() + 2 * c.kv_width(),
    ensures
        final(out)@.len() == old(out)@.len(),
        ({
            let p = projected(arith(*calc), *layer, x.x@);
            r.0@ == p.q && r.1@ == p.k && r.2@ == p.v
        }),
        r.0@.len() == c.q_width(),
        r.1@.len() == c.kv_width(),
        r.2@.len() == c.kv_width(),
{
    fused_qkv(nth, c, layer, x, out, calc);
    proof {
        lemma_whole_heads(c.n_heads as int, c.head_dim as int);
        lemma_whole_heads(c.n_kv_heads as int, c.head_dim as int);
    }
    let q_dim: usize = c.q_dim();
    let kv_dim: usize = c.kv_dim();
    let all: usize = out.len();
    let q: Vec<u32> = part(out, 0, q_dim);
    let k: Vec<u32> = part(out, q_dim, q_dim + kv_dim);
    let v: Vec<u32> = part(out, q_dim + kv_dim, all);
    proof {
        let p = projected(arith(*calc), *layer, x.x@);
        assert(q@ =~= p.q);
        assert(k@ =~= p.k);
        assert(v@ =~= p.v);
    }
    (q, k, v)
}

/// The gated MLP, as a team runs it.
fn mlp_team<F: Fn(Op, u32, u32) -> u32>(
    nth: usize,
    c: &Config,
    layer: &Layer,
    x: &[u32],
    scratch: &mut Scratch,
    calc: &F,
)
    requires
        is_arith(*calc),
        layer.exact(*c),
        x@.len() == c.dim,
        0 < nth,
        4 * nth <= usize::MAX,
        old(scratch).wf(*c),
    ensures
        final(scratch).wf(*c),
        final(scratch).o@ == mlp_value(arith(*calc), *c, *layer, x@),
{
    let ghost k = arith(*calc);
    let xb: Vec<u32> = norm_row(x, layer.rms_ffn.as_slice(), c.norm_eps, calc);
    let acts = Acts::new(xb, calc);
    fused_gate_up(nth, c, layer, &acts, &mut scratch.gu, calc);
    let hidden: usize = c.hidden_dim;
    let mut gate: Vec<u32> = part(&scratch.gu, 0, hidden);
    let up: Vec<u32> = part(&scratch.gu, hidden, scratch.gu.len());
    proof {
        assert(gate@ =~= layer.w1.outputs(k, acts.x@));
        assert(up@ =~= layer.w3.outputs(k, acts.x@));
    }
    activate(c.act, &mut gate, calc);
    zip_in(Op::Mul, &mut gate, up.as_slice(), calc);
    let hb = Acts::new(gate, calc);
    layer.w2.apply_team(nth, &hb, &mut scratch.o, calc);
}

/// Runs the hidden state through layer `l`, as a team runs it.
fn run_layer_team<F: Fn(Op, u32, u32) -> u32>(
    nth: usize,
    c: &Config,
    layer: &Layer,
    l: usize,
    x: &mut Vec<u32>,
    cache: &mut KvCache,
    scratch: &mut Scratch,
    pos: usize,
    calc: &F,
)
    requires
        is_arith(*calc),
        c.runs(),
        layer.exact(*c),
        pos < usize::MAX,
        0 < nth,
        4 * nth <= usize::MAX,
        old(x)@.len() == c.dim,
        layer_has_room(old(cache)@, l as int, *c, pos as int),
        old(scratch).wf(*c),
    ensures
        final(scratch).wf(*c),
        ({
            let flow = Flow { x: old(x)@, cache: old(cache)@ };
            let next = layer_flow(arith(*calc), *c, *layer, l as int, flow, pos as int);
            final(x)@ == next.x && final(cache)@ == next.cache
        }),
{
    let ghost k = arith(*calc);
    let ghost flow = Flow { x: x@, cache: cache@ };
    let xb: Vec<u32> = norm_row(x.as_slice(), layer.rms_att.as_slice(), c.norm_eps, calc);
    let ghost normed_x = xb@;
    let acts = Acts::new(xb, calc);
    let (mut q, mut kk, mut v) = project_team(nth, c, layer, &acts, &mut scratch.qkv, calc);
    finish(c, layer, &mut q, &mut kk, &mut v, pos, calc);
    cache.store(l, pos, kk.as_slice(), v.as_slice());
    attention_decode_team(
        q.as_slice(),
        cache.keys(l),
        cache.values(l),
        pos,
        c.n_heads,
        c.n_kv_heads,
        c.head_dim,
        &mut scratch.attn,
        calc,
    );
    let attn: Vec<u32> = copy_of(scratch.attn.as_slice());
    proof {
        assert(attn@ =~= scratch.attn@.take(c.q_width()));
    }
    let attn_acts = Acts::new(attn, calc);
    layer.wo.apply_team(nth, &attn_acts, &mut scratch.o, calc);
    zip_in(Op::Add, x, scratch.o.as_slice(), calc);
    mlp_team(nth, c, layer, x.as_slice(), scratch, calc);
    zip_in(Op::Add, x, scratch.o.as_slice(), calc);
    proof {
        let qkv = finished(k, *c, *layer, projected(k, *layer, normed_x), pos as int);
        assert(qkv.q == q@ && qkv.k == kk@ && qkv.v == v@);
        let next = layer_flow(k, *c, *layer, l as int, flow, pos as int);
        assert(cache@ =~= next.cache);
    }
}

/// The logits of a final hidden state, filled in by a team of `nth`.
fn logits_team<F: Fn(Op, u32, u32) -> u32>(
    nth: usize,
    model: &Model,
    x: &Acts,
    out: &mut Vec<u32>,
    calc: &F,
)
    requires
        is_arith(*calc),
        model.exact(),
        x.wf(arith(*calc)),
        x.x@.len() == model.config.dim,
        0 < nth,
        4 * nth <= usize::MAX,
        old(out)@.len() == model.config.vocab_size,
    ensures
        final(out)@ == model.logits_of(arith(*calc), x.x@),
{
    match &model.wcls {
        Some(head) => head.apply_team(nth, x, out, calc),
        None => match &model.tok_emb {
            Embedding::F32(w) => dense_logits_team(nth, model, w, x, out, calc),
            Embedding::KQuant(m) => match &x.packed {
                Some(acts) => {
                    matmul_kquant_team(nth, acts, m, out, calc);
                    proof {
                        assert(out@ =~= model.logits_of(arith(*calc), x.x@));
                    }
                },
                None => {
                    proof {
                        lemma_packed_cols(*m);
                    }
                },
            },
        },
    }
}

/// The logits of a model whose classifier is its dense embedding table.
fn dense_logits_team<F: Fn(Op, u32, u32) -> u32>(
    nth: usize,
    model: &Model,
    w: &Vec<u32>,
    x: &Acts,
    out: &mut Vec<u32>,
    calc: &F,
)
    requires
        is_arith(*calc),
        model.exact(),
        model.wcls is None,
        model.tok_emb matches Embedding::F32(table) && table == *w,
        x.x@.len() == model.config.dim,
        0 < nth,
        4 * nth <= usize::MAX,
        old(out)@.len() == model.config.vocab_size,
    ensures
        final(out)@ == model.logits_of(arith(*calc), x.x@),
{
    let ghost want = model.logits_of(arith(*calc), x.x@);
    let n: usize = out.len();
    let dim: usize = model.config.dim;
    let dot = |r: usize| -> (v: u32)
        requires
            r < n,
        ensures
            v == model.logits_of(arith(*calc), x.x@)[r as int],
        {
            let row: &[u32] = row_slice(w.as_slice(), r, dim, Ghost(n as int));
            dot_f32(x.x.as_slice(), row, calc)
        };
    team_fill_rows_weighted(nth, out, n, dim, &dot);
    proof {
        assert forall|r: int| 0 <= r < want.len() implies out@[r] == want[r] by {
            assert(call_ensures(dot, (r as usize,), out@[(r as usize) as int]));
        }
        assert(out@ =~= want);
    }
}

/// One token through the model, as a team of `nth` runs it: the same logits and
/// the same caches as `forward`. (That the order of the members' steps makes no
/// difference is `team_pass::law_a_team_gives_the_logits_of_forward`.)
pub fn forward_team<F: Fn(Op, u32, u32) -> u32>(
    model: &Model,
    cache: &mut KvCache,
    scratch: &mut Scratch,
    token: u32,
    pos: usize,
    nth: usize,
    calc: &F,
) -> (logits: Vec<u32>)
    requires
        is_arith(*calc),
        model.exact(),
        model.tok_emb.has_row(token as int, model.config.dim as int),
        pos < usize::MAX,
        has_room(old(cache)@, model.layers@.len() as int, model.config, pos as int),
        old(scratch).wf(model.config),
        0 < nth,
        4 * nth <= usize::MAX,
    ensures
        logits@ == head_value(
            arith(*calc),
            *model,
            token_flow(arith(*calc), *model, old(cache)@, token as int, pos as int).x,
        ),
        final(cache)@ == token_flow(
            arith(*calc),
            *model,
            old(cache)@,
            token as int,
            pos as int,
        ).cache,
        final(scratch).wf(model.config),
{
    let ghost k = arith(*calc);
    let c = model.config;
    let mut x: Vec<u32> = embed(model, token, calc);
    let ghost start = Flow { x: x@, cache: cache@ };
    let mut l: usize = 0;
    while l < model.layers.len()
        invariant
            is_arith(*calc),
            k == arith(*calc),
            model.exact(),
            c == model.config,
            pos < usize::MAX,
            0 < nth,
            4 * nth <= usize::MAX,
            l <= model.layers@.len(),
            start.x.len() == c.dim,
            has_room(start.cache, model.layers@.len() as int, c, pos as int),
            x@ == layers_flow(k, c, model.layers@, start, pos as int, l as nat).x,
            cache@ == layers_flow(k, c, model.layers@, start, pos as int, l as nat).cache,
            scratch.wf(c),
        decreases model.layers.len() - l,
    {
        let ghost flow = layers_flow(k, c, model.layers@, start, pos as int, l as nat);
        proof {
            lemma_layers_flow_shapes(k, c, model.layers@, start, pos as int, l as nat);
            assert(model.layers@[l as int].exact(c));
            assert(flow.cache.k[l as int].len() == start.cache.k[l as int].len());
            assert(flow.cache.v[l as int].len() == start.cache.v[l as int].len());
            assert(Flow { x: x@, cache: cache@ } == flow);
        }
        run_layer_team(nth, &c, &model.layers[l], l, &mut x, cache, scratch, pos, calc);
        proof {
            assert(layer_flow(k, c, model.layers@[l as int], l as int, flow, pos as int)
                == layers_flow(k, c, model.layers@, start, pos as int, (l + 1) as nat));
        }
        l += 1;
    }
    proof {
        lemma_layers_flow_shapes(k, c, model.layers@, start, pos as int, l as nat);
    }
    let xb: Vec<u32> = norm_row(x.as_slice(), model.rms_final.as_slice(), c.norm_eps, calc);
    let acts = Acts::new(xb, calc);
    logits_team(nth, model, &acts, &mut scratch.logits, calc);
    copy_of(scratch.logits.as_slice())
}

} // verus!
