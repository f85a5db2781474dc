//! The forward pass as a list of operations that a team walks through.
//!
//! Six operations make up a layer: queries, keys and values; the store into the
//! caches, which is a serial section; attention, one head at a time; the projection
//! back; gate and up; and down. The classifier is the last. What lies between them
//! (norms, biases, rotation, activation, sums) every member does for itself, from the
//! results of the operations before. The law is that a team gets the logits and the
//! caches of `forward` and `forward_team`, in whatever order its members take their
//! steps.
use crate::arith::{Arith, Op};
use crate::kernels::attention::attended;
use crate::kernels::norms::normed;
use crate::kernels::team::{rows_per_chunk, worth_splitting};
use crate::kernels::team_walk::{are_ops, in_order, is_walk, law_a_team_computes_in_order, TeamOp, Walk, WalkStep};
use crate::model::infer::{
    activated, embedded, finished, has_room, head_value, layer_flow, layers_flow, lemma_whole_heads, stored, token_flow,
    zipped, CacheView, Flow, Qkv,
};
use crate::model::infer_team::{gate_up_rows, qkv_rows};
use crate::model::weights::{Layer, Model};
use vstd::prelude::*;

verus! {

/// One token on its way through a model at position `pos`, with a team of `nth`.
pub struct Pass {
    pub k: Arith,
    pub model: Model,
    pub cache: CacheView,
    pub token: int,
    pub pos: int,
    pub nth: int,
}

/// All rows in one chunk, which is left to the first member.
pub open spec fn whole(n_rows: nat) -> int {
    if n_rows == 0 {
        1
    } else {
        n_rows as int
    }
}

/// Rows of each chunk of an operation on rows of `macs` multiplications each.
pub open spec fn shared_chunk(n_rows: nat, macs: int, nth: int) -> int {
    if worth_splitting(n_rows as int, macs) {
        rows_per_chunk(n_rows as int, nth)
    } else {
        whole(n_rows)
    }
}

impl Pass {
    /// Number of layers.
    pub open spec fn n_layers(self) -> nat {
        self.model.layers@.len()
    }

    /// Number of operations.
    pub open spec fn n_ops(self) -> nat {
        6 * self.n_layers() + 1
    }

    pub open spec fn layer(self, l: int) -> Layer {
        self.model.layers@[l]
    }

    /// The hidden state in front of layer `l`, as every member sums it up from the
    /// results of the operations before.
    pub open spec fn hidden(self, res: Seq<Seq<u32>>, l: nat) -> Seq<u32>
        decreases l, 0nat,
    {
        if l == 0 {
            embedded(self.k, self.model, self.token)
        } else {
            let p = l - 1;
            zipped(self.k, Op::Add, self.middle(res, p as nat), res[6 * p + 5])
        }
    }

    /// The hidden state between the attention and the MLP of layer `l`.
    pub open spec fn middle(self, res: Seq<Seq<u32>>, l: nat) -> Seq<u32>
        decreases l, 1nat,
    {
        zipped(self.k, Op::Add, self.hidden(res, l), res[6 * l as int + 3])
    }

    /// The queries, keys and values of layer `l`, finished.
    pub open spec fn qkv(self, res: Seq<Seq<u32>>, l: int) -> Qkv {
        let c = self.model.config;
        let all = res[6 * l];
        let raw = Qkv {
            q: all.take(c.q_width()),
            k: all.subrange(c.q_width(), c.q_width() + c.kv_width()),
            v: all.skip(c.q_width() + c.kv_width()),
        };
        finished(self.k, c, self.layer(l), raw, self.pos)
    }

    /// The key cache of layer `l`, as the store leaves it.
    pub open spec fn keys(self, res: Seq<Seq<u32>>, l: int) -> Seq<u32> {
        res[6 * l + 1].take(self.cache.k[l].len() as int)
    }

    /// The value cache of layer `l`, as the store leaves it.
    pub open spec fn values(self, res: Seq<Seq<u32>>, l: int) -> Seq<u32> {
        res[6 * l + 1].skip(self.cache.k[l].len() as int)
    }

    /// What operation `j` of layer `l` comes to, given the results before.
    pub open spec fn layer_value(self, l: int, j: int, res: Seq<Seq<u32>>) -> Seq<u32> {
        let k = self.k;
        let c = self.model.config;
        let layer = self.layer(l);
        if j == 0 {
            qkv_rows(k, layer, normed(k, self.hidden(res, l as nat), layer.rms_att@, c.norm_eps))
        } else if j == 1 {
            stored(self.cache.k[l], self.pos, self.qkv(res, l).k) + stored(
                self.cache.v[l],
                self.pos,
                self.qkv(res, l).v,
            )
        } else if j == 2 {
            attended(
                k,
                self.qkv(res, l).q,
                self.keys(res, l),
                self.values(res, l),
                self.pos,
                c.heads(),
            )
        } else if j == 3 {
            layer.wo.outputs(k, res[6 * l + 2])
        } else if j == 4 {
            gate_up_rows(k, layer, normed(k, self.middle(res, l as nat), layer.rms_ffn@, c.norm_eps))
        } else {
            let all = res[6 * l + 4];
            let gate = activated(k, c.act, all.take(c.hidden_dim as int));
            layer.w2.outputs(k, zipped(k, Op::Mul, gate, all.skip(c.hidden_dim as int)))
        }
    }

    /// What operation `n` comes to, given the results before.
    pub open spec fn value(self, n: int, res: Seq<Seq<u32>>) -> Seq<u32> {
        if n == 6 * self.n_layers() {
            head_value(self.k, self.model, self.hidden(res, self.n_layers()))
        } else {
            self.layer_value(n / 6, n % 6, res)
        }
    }

    /// Number of rows that operation `n` fills.
    pub open spec fn n_rows(self, n: int) -> nat {
        let c = self.model.config;
        let l = n / 6;
        let j = n % 6;
        if n == 6 * self.n_layers() {
            c.vocab_size as nat
        } else if j == 0 {
            (c.q_width() + 2 * c.kv_width()) as nat
        } else if j == 1 {
            self.cache.k[l].len() + self.cache.v[l].len()
        } else if j == 2 {
            c.q_width() as nat
        } else if j == 4 {
            2 * c.hidden_dim as nat
        } else {
            c.dim as nat
        }
    }

    /// How many rows of operation `n` make up a chunk.
    pub open spec fn chunk(self, n: int) -> int {
        let c = self.model.config;
        let j = n % 6;
        let rows = self.n_rows(n);
        if n < 6 * self.n_layers() && j == 1 {
            whole(rows)
        } else if n < 6 * self.n_layers() && j == 2 {
            if worth_splitting(c.n_heads as int, 2 * (self.pos + 1) * c.head_dim) {
                c.head_dim as int
            } else {
                whole(rows)
            }
        } else if n < 6 * self.n_layers() && j == 3 {
            shared_chunk(rows, c.q_width(), self.nth)
        } else if n < 6 * self.n_layers() && j == 5 {
            shared_chunk(rows, c.hidden_dim as int, self.nth)
        } else {
            shared_chunk(rows, c.dim as int, self.nth)
        }
    }

    /// Operation `n`.
    pub open spec fn op(self, n: int) -> TeamOp {
        TeamOp {
            n_rows: self.n_rows(n),
            chunk: self.chunk(n),
            row: |res: Seq<Seq<u32>>, r: int| self.value(n, res)[r],
        }
    }

    /// The operations of the pass.
    pub open spec fn ops(self) -> Seq<TeamOp> {
        Seq::new(self.n_ops(), |n: int| self.op(n))
    }

    /// The model can be run by a team on this token and these caches.
    pub open spec fn wf(self) -> bool {
        &&& self.nth > 0
        &&& self.pos >= 0
        &&& self.token >= 0
        &&& self.model.exact()
        &&& self.model.tok_emb.has_row(self.token, self.model.config.dim as int)
        &&& has_room(self.cache, self.n_layers() as int, self.model.config, self.pos)
    }

    /// What the layers make of the token.
    pub open spec fn flow(self, l: nat) -> Flow {
        layers_flow(
            self.k,
            self.model.config,
            self.model.layers@,
            Flow { x: embedded(self.k, self.model, self.token), cache: self.cache },
            self.pos,
            l,
        )
    }
}

/// The results of two runs agree below `n`.
pub open spec fn agree(a: Seq<Seq<u32>>, b: Seq<Seq<u32>>, n: int) -> bool {
    forall|i: int| 0 <= i < n ==> #[trigger] a[i] == b[i]
}

/// The hidden state depends on nothing but the layers before.
proof fn lemma_hidden_is_local(p: Pass, a: Seq<Seq<u32>>, b: Seq<Seq<u32>>, l: nat)
    requires
        agree(a, b, 6 * l as int),
    ensures
        p.hidden(a, l) == p.hidden(b, l),
    decreases l,
{
    if l > 0 {
        let q = l - 1;
        lemma_hidden_is_local(p, a, b, q as nat);
        assert(a[6 * q + 3] == b[6 * q + 3] && a[6 * q + 5] == b[6 * q + 5]);
    }
}

/// An operation depends on nothing but the operations before.
proof fn lemma_value_is_local(p: Pass, a: Seq<Seq<u32>>, b: Seq<Seq<u32>>, n: int)
    requires
        0 <= n < p.n_ops(),
        agree(a, b, n),
    ensures
        p.value(n, a) == p.value(n, b),
{
    let l = n / 6;
    let j = n % 6;
    assert(n == 6 * l + j);
    lemma_hidden_is_local(p, a, b, l as nat);
    if n < 6 * p.n_layers() {
        if j >= 1 {
            assert(a[6 * l] == b[6 * l]);
        }
        if j >= 2 {
            assert(a[6 * l + 1] == b[6 * l + 1]);
        }
        if j >= 3 {
            assert(a[6 * l + 2] == b[6 * l + 2]);
        }
        if j >= 4 {
            assert(a[6 * l + 3] == b[6 * l + 3]);
        }
        if j >= 5 {
            assert(a[6 * l + 4] == b[6 * l + 4]);
        }
    } else {
        assert(l == p.n_layers());
    }
}

/// An operation fills as many rows as it comes to.
proof fn lemma_value_len(p: Pass, n: int, res: Seq<Seq<u32>>)
    requires
        p.wf(),
        0 <= n < p.n_ops(),
    ensures
        p.value(n, res).len() == p.n_rows(n),
{
    let c = p.model.config;
    if n < 6 * p.n_layers() {
        let l = n / 6;
        let layer = p.layer(l);
        assert(layer.exact(c));
        lemma_whole_heads(c.n_heads as int, c.head_dim as int);
        lemma_whole_heads(c.n_kv_heads as int, c.head_dim as int);
    }
}

/// Run in order, every operation has the value that follows from all the results.
proof fn lemma_results(p: Pass, n: nat)
    requires
        p.wf(),
        n <= p.n_ops(),
    ensures
        in_order(p.ops(), n).len() == n,
        forall|m: int|
            0 <= m < n ==> #[trigger] in_order(p.ops(), n)[m] == p.value(m, in_order(p.ops(), n)),
    decreases n,
{
    if n > 0 {
        let q = (n - 1) as nat;
        lemma_results(p, q);
        let before = in_order(p.ops(), q);
        let all = in_order(p.ops(), n);
        let op = p.ops()[n - 1];
        assert(op == p.op(n - 1));
        assert(all == before.push(op.result(before)));
        assert(agree(before, all, q as int));
        assert forall|m: int| 0 <= m < n implies #[trigger] all[m] == p.value(m, all) by {
            lemma_value_is_local(p, before, all, m);
            if m == q {
                lemma_value_len(p, m, before);
                assert(op.result(before) =~= p.value(m, before));
            } else {
                assert(all[m] == before[m]);
            }
        }
    }
}

/// The operations of layer `l` do what the layer does.
proof fn lemma_layer(p: Pass, res: Seq<Seq<u32>>, l: int)
    requires
        p.wf(),
        0 <= l < p.n_layers(),
        forall|j: int| 0 <= j < 6 ==> res[6 * l + j] == #[trigger] p.layer_value(l, j, res),
        p.hidden(res, l as nat) == p.flow(l as nat).x,
        p.flow(l as nat).cache.k[l] == p.cache.k[l],
        p.flow(l as nat).cache.v[l] == p.cache.v[l],
    ensures
        p.hidden(res, (l + 1) as nat) == p.flow((l + 1) as nat).x,
        p.flow((l + 1) as nat).cache == (CacheView {
            k: p.flow(l as nat).cache.k.update(l, p.keys(res, l)),
            v: p.flow(l as nat).cache.v.update(l, p.values(res, l)),
        }),
{
    let k = p.k;
    let c = p.model.config;
    let layer = p.layer(l);
    let flow = p.flow(l as nat);
    assert(layer.exact(c));
    lemma_whole_heads(c.n_heads as int, c.head_dim as int);
    lemma_whole_heads(c.n_kv_heads as int, c.head_dim as int);
    assert(p.flow((l + 1) as nat) == layer_flow(k, c, layer, l, flow, p.pos));
    // Queries, keys and values.
    let xb = normed(k, flow.x, layer.rms_att@, c.norm_eps);
    let all = res[6 * l];
    assert(all == p.layer_value(l, 0, res));
    assert(all == layer.wq.outputs(k, xb) + layer.wk.outputs(k, xb) + layer.wv.outputs(k, xb));
    assert(all.take(c.q_width()) =~= layer.wq.outputs(k, xb));
    assert(all.subrange(c.q_width(), c.q_width() + c.kv_width()) =~= layer.wk.outputs(k, xb));
    assert(all.skip(c.q_width() + c.kv_width()) =~= layer.wv.outputs(k, xb));
    // The store.
    let qkv = p.qkv(res, l);
    let keys = stored(p.cache.k[l], p.pos, qkv.k);
    let values = stored(p.cache.v[l], p.pos, qkv.v);
    assert(res[6 * l + 1] == p.layer_value(l, 1, res));
    assert(p.keys(res, l) =~= keys);
    assert(p.values(res, l) =~= values);
    // Attention, and back into the hidden state.
    assert(res[6 * l + 2] == p.layer_value(l, 2, res));
    assert(res[6 * l + 3] == p.layer_value(l, 3, res));
    let mid = p.middle(res, l as nat);
    assert(mid == zipped(k, Op::Add, flow.x, res[6 * l + 3]));
    // The gated MLP.
    let xm = normed(k, mid, layer.rms_ffn@, c.norm_eps);
    let gu = res[6 * l + 4];
    assert(gu == p.layer_value(l, 4, res));
    assert(gu == layer.w1.outputs(k, xm) + layer.w3.outputs(k, xm));
    assert(gu.take(c.hidden_dim as int) =~= layer.w1.outputs(k, xm));
    assert(gu.skip(c.hidden_dim as int) =~= layer.w3.outputs(k, xm));
    assert(res[6 * l + 5] == p.layer_value(l, 5, res));
    assert(p.hidden(res, (l + 1) as nat) == zipped(k, Op::Add, mid, res[6 * l + 5]));
}

/// The operations of the first layers do what the layers do.
proof fn lemma_layers(p: Pass, res: Seq<Seq<u32>>, l: nat)
    requires
        p.wf(),
        l <= p.n_layers(),
        forall|m: int| 0 <= m < p.n_ops() ==> #[trigger] res[m] == p.value(m, res),
    ensures
        p.hidden(res, l) == p.flow(l).x,
        p.flow(l).cache.k.len() == p.cache.k.len(),
        p.flow(l).cache.v.len() == p.cache.v.len(),
        forall|i: int|
            0 <= i < p.cache.k.len() ==> #[trigger] p.flow(l).cache.k[i] == (if i < l {
                p.keys(res, i)
            } else {
                p.cache.k[i]
            }),
        forall|i: int|
            0 <= i < p.cache.v.len() ==> #[trigger] p.flow(l).cache.v[i] == (if i < l {
                p.values(res, i)
            } else {
                p.cache.v[i]
            }),
    decreases l,
{
    if l > 0 {
        let q = l - 1;
        lemma_layers(p, res, q as nat);
        assert forall|j: int| 0 <= j < 6 implies res[6 * q + j] == #[trigger] p.layer_value(q, j, res) by {
            assert((6 * q + j) / 6 == q && (6 * q + j) % 6 == j);
            assert(res[6 * q + j] == p.value(6 * q + j, res));
        }
        lemma_layer(p, res, q);
    }
}

/// Every operation is in chunks of some rows.
proof fn lemma_chunks(p: Pass)
    requires
        p.wf(),
    ensures
        are_ops(p.ops()),
{
    let c = p.model.config;
    assert forall|n: int| 0 <= n < p.ops().len() implies (#[trigger] p.ops()[n]).chunk > 0 by {
        assert(p.ops()[n] == p.op(n));
        if n < 6 * p.n_layers() {
            assert(c.runs());
        }
    }
}

/// The results of the operations of a pass, run in order, end in the logits of the
/// forward pass, and the stores among them leave its caches.
pub proof fn law_pass_is_forward(p: Pass)
    requires
        p.wf(),
    ensures
        are_ops(p.ops()),
        in_order(p.ops(), p.n_ops()).last() == head_value(
            p.k,
            p.model,
            token_flow(p.k, p.model, p.cache, p.token, p.pos).x,
        ),
        forall|l: int|
            0 <= l < p.n_layers() ==> #[trigger] token_flow(
                p.k,
                p.model,
                p.cache,
                p.token,
                p.pos,
            ).cache.k[l] == p.keys(in_order(p.ops(), p.n_ops()), l),
        forall|l: int|
            0 <= l < p.n_layers() ==> #[trigger] token_flow(
                p.k,
                p.model,
                p.cache,
                p.token,
                p.pos,
            ).cache.v[l] == p.values(in_order(p.ops(), p.n_ops()), l),
{
    let res = in_order(p.ops(), p.n_ops());
    lemma_chunks(p);
    lemma_results(p, p.n_ops());
    lemma_layers(p, res, p.n_layers());
    let last = 6 * p.n_layers() as int;
    assert(res[last] == p.value(last, res));
}

/// A team that walks through the operations of a pass has, when any of its members is
/// through, the logits of the forward pass in the last result and its caches in the
/// stores: those that `forward` and `forward_team` give.
pub proof fn law_a_team_gives_the_logits_of_forward(
    p: Pass,
    states: Seq<Walk>,
    steps: Seq<WalkStep>,
    n: int,
    i: int,
)
    requires
        p.wf(),
        is_walk(states, steps, p.ops(), p.nth as nat),
        0 <= n <= steps.len(),
        0 <= i < p.nth,
        states[n].b.passed[i] == 2 * p.n_ops(),
    ensures
        states[n].results.last() == head_value(
            p.k,
            p.model,
            token_flow(p.k, p.model, p.cache, p.token, p.pos).x,
        ),
        forall|l: int|
            0 <= l < p.n_layers() ==> #[trigger] token_flow(
                p.k,
                p.model,
                p.cache,
                p.token,
                p.pos,
            ).cache.k[l] == p.keys(states[n].results, l),
        forall|l: int|
            0 <= l < p.n_layers() ==> #[trigger] token_flow(
                p.k,
                p.model,
                p.cache,
                p.token,
                p.pos,
            ).cache.v[l] == p.values(states[n].results, l),
{
    law_a_team_computes_in_order(states, steps, p.ops(), p.nth as nat, n, i, p.n_ops());
    law_pass_is_forward(p);
    let res = states[n].results;
    assert(res.take(p.n_ops() as int) =~= res);
}

} // verus!
