//! A define-then-run computation graph.
//!
//! Nodes are built up front and refer to one another by handles, inputs are bound,
//! and `execute` computes the rest in the order of definition. Shapes are checked
//! as values flow; a mismatch or a missing input is an error.
use crate::arith::{add_all, arith, is_arith, sums, Arith, Op};
use crate::kernels::attention::{attended, attention, heads_of};
use crate::kernels::matmul::{dense_rows, matmul_f32, matmul_q8_f32, product, q8_rows};
use crate::kernels::norms::{normed, rmsnorm, softmax, softmaxed};
use crate::kernels::quant::QuantMatrix;
use crate::kernels::rope::{neox_turned, rope};
use crate::kernels::rows::{lemma_is_matrix, matrix, row_of};
use crate::tensor::dtype::DType;
use crate::tensor::owned::{countable, elements, f32_tensor, f32_values, is_f32_tensor, Tensor, TensorView};
use vstd::prelude::*;

verus! {

/// Handle of a node, handed out by the graph.
#[derive(Debug, Clone, Copy, PartialEq, Eq, Structural)]
pub struct NodeId(usize);

impl NodeId {
    /// The node's place in the graph.
    pub closed spec fn index(self) -> int {
        self.0 as int
    }
}

/// What a node computes.
#[allow(inconsistent_fields)]
#[derive(Debug)]
pub enum Operation {
    /// Bound from outside.
    Input,
    /// Product with dense weights, `n_rows` rows of `k`.
    MatmulF32 { x: NodeId, weight: Vec<u32>, k: usize, n_rows: usize },
    /// Product with quantized weights.
    MatmulQ8 { x: NodeId, weight: QuantMatrix },
    /// RMSNorm with a weight for each of `dim` features.
    RmsNorm { x: NodeId, weight: Vec<u32>, dim: usize, eps: u32 },
    /// Sum of two nodes, value by value.
    Add { a: NodeId, b: NodeId },
    /// Softmax of all values.
    Softmax { x: NodeId },
    /// Rotary position embedding, row by row.
    Rope { x: NodeId, n_heads: usize, head_dim: usize, theta_base: u32 },
    /// Causal self-attention with grouped queries.
    Attention {
        q: NodeId,
        k: NodeId,
        v: NodeId,
        n_heads: usize,
        n_kv_heads: usize,
        head_dim: usize,
    },
}

/// What can go wrong when a graph is run.
#[derive(Debug, PartialEq, Eq)]
pub enum GraphError {
    UnsetInput(NodeId),
    ShapeMismatch { what: &'static str },
    NotF32,
}

/// What a `GraphError` says.
pub enum ErrorView {
    UnsetInput(int),
    ShapeMismatch(Seq<char>),
    NotF32,
}

impl View for GraphError {
    type V = ErrorView;

    open spec fn view(&self) -> ErrorView {
        match self {
            GraphError::UnsetInput(id) => ErrorView::UnsetInput(id.index()),
            GraphError::ShapeMismatch { what } => ErrorView::ShapeMismatch(what@),
            GraphError::NotF32 => ErrorView::NotF32,
        }
    }
}

#[derive(Debug)]
struct Node {
    op: Operation,
    value: Option<Tensor>,
}

/// The graph: a growing list of nodes with the values known so far.
#[derive(Debug)]
pub struct Graph {
    nodes: Vec<Node>,
    /// Rows that flow through the products.
    n_tokens: usize,
}

/// What a graph is: an operation for every node, the values known so far, and the
/// number of rows.
#[verifier::ext_equal]
pub struct GraphView {
    pub ops: Seq<Operation>,
    pub values: Seq<Option<TensorView>>,
    pub n_tokens: int,
}

/// What is known of a value.
pub open spec fn value_view(v: Option<Tensor>) -> Option<TensorView> {
    match v {
        Some(t) => Some(t@),
        None => None,
    }
}

impl View for Graph {
    type V = GraphView;

    closed spec fn view(&self) -> GraphView {
        GraphView {
            ops: Seq::new(self.nodes@.len(), |i: int| self.nodes@[i].op),
            values: Seq::new(self.nodes@.len(), |i: int| value_view(self.nodes@[i].value)),
            n_tokens: self.n_tokens as int,
        }
    }
}

impl Operation {
    /// The operation refers to nodes below `n`, and its parameters are such that
    /// it can be computed.
    pub open spec fn sound(self, n: int, n_tokens: int) -> bool {
        match self {
            Operation::Input => true,
            Operation::MatmulF32 { x, weight, k, n_rows } => {
                &&& x.index() < n
                &&& weight@.len() == n_rows * k
                &&& n_tokens * n_rows <= usize::MAX
            },
            Operation::MatmulQ8 { x, weight } => {
                &&& x.index() < n
                &&& weight.wf()
                &&& n_tokens * weight.rows <= usize::MAX
            },
            Operation::RmsNorm { x, weight, dim, eps } => {
                &&& x.index() < n
                &&& dim > 0
                &&& weight@.len() == dim
            },
            Operation::Add { a, b } => a.index() < n && b.index() < n,
            Operation::Softmax { x } => x.index() < n,
            Operation::Rope { x, n_heads, head_dim, theta_base } => {
                &&& x.index() < n
                &&& head_dim % 2 == 0
                &&& n_heads * head_dim <= usize::MAX
            },
            Operation::Attention { q, k, v, n_heads, n_kv_heads, head_dim } => {
                &&& q.index() < n
                &&& k.index() < n
                &&& v.index() < n
                &&& heads_of(n_heads, n_kv_heads, head_dim).wf()
            },
        }
    }
}

impl Operation {
    /// The operation refers to nodes below `i`.
    pub open spec fn refers_below(self, i: int) -> bool {
        match self {
            Operation::Input => true,
            Operation::MatmulF32 { x, weight, k, n_rows } => x.index() < i,
            Operation::MatmulQ8 { x, weight } => x.index() < i,
            Operation::RmsNorm { x, weight, dim, eps } => x.index() < i,
            Operation::Add { a, b } => a.index() < i && b.index() < i,
            Operation::Softmax { x } => x.index() < i,
            Operation::Rope { x, n_heads, head_dim, theta_base } => x.index() < i,
            Operation::Attention { q, k, v, n_heads, n_kv_heads, head_dim } => q.index() < i
                && k.index() < i && v.index() < i,
        }
    }
}

impl GraphView {
    pub open spec fn wf(self) -> bool {
        &&& self.values.len() == self.ops.len()
        &&& 0 <= self.n_tokens <= usize::MAX
        &&& forall|i: int|
            0 <= i < self.values.len() ==> (#[trigger] self.values[i] matches Some(t) ==> t.wf())
    }

    /// Every operation can be computed.
    pub open spec fn sound(self) -> bool {
        forall|i: int|
            0 <= i < self.ops.len() ==> (#[trigger] self.ops[i]).sound(
                self.ops.len() as int,
                self.n_tokens,
            )
    }

    /// The values that node `i` refers to are there, and have the shapes it asks for.
    /// (Rows of no values are left to the soundness of the node.)
    pub open spec fn shapes_pass(self, i: int) -> bool {
        let n = self.n_tokens;
        match self.ops[i] {
            Operation::Input => false,
            Operation::MatmulF32 { x, weight, k, n_rows } => self.operand(x.index()) matches Ok(a)
                && a.len() == n * k,
            Operation::MatmulQ8 { x, weight } => self.operand(x.index()) matches Ok(a) && a.len()
                == n * weight.cols,
            Operation::RmsNorm { x, weight, dim, eps } => self.operand(x.index()) matches Ok(a) && (
            dim == 0 || a.len() as int % dim as int == 0),
            Operation::Add { a, b } => self.operand(a.index()) matches Ok(va) && (self.operand(
                b.index(),
            ) matches Ok(vb) && va.len() == vb.len()),
            Operation::Softmax { x } => self.operand(x.index()) is Ok,
            Operation::Rope { x, n_heads, head_dim, theta_base } => self.operand(
                x.index(),
            ) matches Ok(a) && a.len() == n * (n_heads * head_dim),
            Operation::Attention { q, k, v, n_heads, n_kv_heads, head_dim } => {
                let heads = heads_of(n_heads, n_kv_heads, head_dim);
                &&& self.operand(q.index()) matches Ok(qv) && qv.len() == n * heads.q_width()
                &&& self.operand(k.index()) matches Ok(kv) && kv.len() == n * heads.kv_width()
                &&& self.operand(v.index()) matches Ok(vv) && vv.len() == n * heads.kv_width()
            },
        }
    }

    /// Node `i` refers to nodes of this graph, and where the shapes let it be
    /// computed, its parameters do too.
    pub open spec fn ready(self, i: int) -> bool {
        &&& self.ops[i].refers_below(self.ops.len() as int)
        &&& self.shapes_pass(i) ==> self.ops[i].sound(self.ops.len() as int, self.n_tokens)
    }

    /// The graph with `op` as a new node.
    pub open spec fn push(self, op: Operation) -> GraphView {
        GraphView { ops: self.ops.push(op), values: self.values.push(None), ..self }
    }

    /// The graph with the value of node `i` known.
    pub open spec fn with(self, i: int, t: TensorView) -> GraphView {
        GraphView { values: self.values.update(i, Some(t)), ..self }
    }

    /// The singles that node `i` holds.
    pub open spec fn operand(self, i: int) -> Result<Seq<u32>, ErrorView> {
        match self.values[i] {
            None => Err(ErrorView::UnsetInput(i)),
            Some(t) => if t.dtype == DType::F32 {
                Ok(f32_values(t))
            } else {
                Err(ErrorView::NotF32)
            },
        }
    }

    /// The value of node `i`, or what keeps it from being computed.
    #[verifier::opaque]
    pub open spec fn eval(self, ar: Arith, i: int) -> Result<TensorView, ErrorView> {
        let n = self.n_tokens;
        match self.ops[i] {
            Operation::Input => Err(ErrorView::UnsetInput(i)),
            Operation::MatmulF32 { x, weight, k, n_rows } => match self.operand(x.index()) {
                Err(e) => Err(e),
                Ok(a) => if a.len() != n * k {
                    Err(ErrorView::ShapeMismatch("matmul_f32 input"@))
                } else {
                    Ok(
                        f32_tensor(
                            seq![n as usize, n_rows],
                            product(
                                a,
                                n,
                                k as int,
                                n_rows as int,
                                dense_rows(ar, weight@, k as int),
                            ),
                        ),
                    )
                },
            },
            Operation::MatmulQ8 { x, weight } => match self.operand(x.index()) {
                Err(e) => Err(e),
                Ok(a) => if a.len() != n * weight.cols {
                    Err(ErrorView::ShapeMismatch("matmul_q8 input"@))
                } else {
                    Ok(
                        f32_tensor(
                            seq![n as usize, weight.rows],
                            product(
                                a,
                                n,
                                weight.cols as int,
                                weight.rows as int,
                                q8_rows(ar, weight),
                            ),
                        ),
                    )
                },
            },
            Operation::RmsNorm { x, weight, dim, eps } => match self.operand(x.index()) {
                Err(e) => Err(e),
                Ok(a) => if a.len() as int % dim as int != 0 {
                    Err(ErrorView::ShapeMismatch("rmsnorm dim"@))
                } else {
                    let rows = a.len() as int / dim as int;
                    Ok(
                        f32_tensor(
                            seq![rows as usize, dim],
                            matrix(
                                rows,
                                dim as int,
                                |r: int| normed(ar, row_of(a, r, dim as int), weight@, eps),
                            ),
                        ),
                    )
                },
            },
            Operation::Add { a, b } => match self.operand(a.index()) {
                Err(e) => Err(e),
                Ok(va) => match self.operand(b.index()) {
                    Err(e) => Err(e),
                    Ok(vb) => if va.len() != vb.len() {
                        Err(ErrorView::ShapeMismatch("add"@))
                    } else {
                        Ok(f32_tensor(self.values[a.index()]->0.shape, sums(ar, va, vb)))
                    },
                },
            },
            Operation::Softmax { x } => match self.operand(x.index()) {
                Err(e) => Err(e),
                Ok(a) => Ok(f32_tensor(seq![a.len() as usize], softmaxed(ar, a))),
            },
            Operation::Rope { x, n_heads, head_dim, theta_base } => match self.operand(x.index()) {
                Err(e) => Err(e),
                Ok(a) => if a.len() != n * (n_heads * head_dim) {
                    Err(ErrorView::ShapeMismatch("rope input"@))
                } else {
                    let w = n_heads * head_dim;
                    Ok(
                        f32_tensor(
                            seq![n as usize, w as usize],
                            matrix(
                                n,
                                w,
                                |p: int|
                                    neox_turned(
                                        ar,
                                        row_of(a, p, w),
                                        p,
                                        head_dim as int,
                                        theta_base,
                                    ),
                            ),
                        ),
                    )
                },
            },
            Operation::Attention { q, k, v, n_heads, n_kv_heads, head_dim } => match self.operand(
                q.index(),
            ) {
                Err(e) => Err(e),
                Ok(qv) => match self.operand(k.index()) {
                    Err(e) => Err(e),
                    Ok(kv) => match self.operand(v.index()) {
                        Err(e) => Err(e),
                        Ok(vv) => {
                            let heads = heads_of(n_heads, n_kv_heads, head_dim);
                            if qv.len() != n * heads.q_width() || kv.len() != n * heads.kv_width()
                                || vv.len() != n * heads.kv_width() {
                                Err(ErrorView::ShapeMismatch("attention qkv"@))
                            } else {
                                Ok(
                                    f32_tensor(
                                        seq![n as usize, heads.q_width() as usize],
                                        matrix(
                                            n,
                                            heads.q_width(),
                                            |i: int|
                                                attended(
                                                    ar,
                                                    row_of(qv, i, heads.q_width()),
                                                    kv,
                                                    vv,
                                                    i,
                                                    heads,
                                                ),
                                        ),
                                    ),
                                )
                            }
                        },
                    },
                },
            },
        }
    }
}

/// What running a graph comes to: the values known afterwards, and the error that
/// stopped it.
pub struct Outcome {
    pub graph: GraphView,
    pub error: Option<ErrorView>,
}

/// Runs the nodes from `i` on, in order: those with a value are passed over, and
/// the first that cannot be computed ends the run.
pub open spec fn run_from(ar: Arith, g: GraphView, i: int) -> Outcome
    decreases g.ops.len() - i,
{
    if i >= g.ops.len() {
        Outcome { graph: g, error: None }
    } else if g.values[i] is Some {
        run_from(ar, g, i + 1)
    } else {
        match g.eval(ar, i) {
            Err(e) => Outcome { graph: g, error: Some(e) },
            Ok(t) => run_from(ar, g.with(i, t), i + 1),
        }
    }
}

/// Every node that a run from `i` on computes is ready when the run comes to it.
pub open spec fn run_is_ready(ar: Arith, g: GraphView, i: int) -> bool
    decreases g.ops.len() - i,
{
    if i >= g.ops.len() {
        true
    } else if g.values[i] is Some {
        run_is_ready(ar, g, i + 1)
    } else {
        &&& g.ready(i)
        &&& g.eval(ar, i) matches Ok(t) ==> run_is_ready(ar, g.with(i, t), i + 1)
    }
}

/// A graph of sound operations is ready for a run, whatever its inputs hold.
pub proof fn law_sound_graphs_run(ar: Arith, g: GraphView, i: int)
    requires
        g.sound(),
        0 <= i,
    ensures
        run_is_ready(ar, g, i),
    decreases g.ops.len() - i,
{
    if i < g.ops.len() {
        assert(g.ops[i].sound(g.ops.len() as int, g.n_tokens));
        if g.values[i] is Some {
            law_sound_graphs_run(ar, g, i + 1);
        } else if let Ok(t) = g.eval(ar, i) {
            law_sound_graphs_run(ar, g.with(i, t), i + 1);
        }
    }
}

/// Running changes no value that was known, and after a run without error every
/// node has one.
pub proof fn law_run_keeps_values(ar: Arith, g: GraphView, i: int)
    requires
        g.values.len() == g.ops.len(),
        0 <= i <= g.ops.len(),
    ensures
        run_from(ar, g, i).graph.ops == g.ops,
        run_from(ar, g, i).graph.n_tokens == g.n_tokens,
        run_from(ar, g, i).graph.values.len() == g.values.len(),
        forall|j: int|
            0 <= j < g.ops.len() && (g.values[j] is Some || j < i)
                ==> #[trigger] run_from(ar, g, i).graph.values[j] == g.values[j],
        run_from(ar, g, i).error is None ==> forall|j: int|
            i <= j < g.ops.len() ==> #[trigger] run_from(ar, g, i).graph.values[j] is Some,
    decreases g.ops.len() - i,
{
    if i < g.ops.len() {
        if g.values[i] is Some {
            law_run_keeps_values(ar, g, i + 1);
        } else {
            match g.eval(ar, i) {
                Err(e) => {},
                Ok(t) => {
                    law_run_keeps_values(ar, g.with(i, t), i + 1);
                },
            }
        }
    }
}

/// A node depends on nothing but the nodes it refers to.
proof fn lemma_eval_is_local(ar: Arith, a: GraphView, b: GraphView, i: int)
    requires
        a.ops[i] == b.ops[i],
        a.n_tokens == b.n_tokens,
        a.ops[i].refers_below(i),
        forall|j: int| 0 <= j < i ==> #[trigger] a.values[j] == b.values[j],
    ensures
        a.eval(ar, i) == b.eval(ar, i),
{
    reveal(GraphView::eval);
}

/// A run without error gives every node the value of its operation on the values
/// of the nodes it refers to, where these come before it.
pub proof fn law_run_computes_nodes(ar: Arith, g: GraphView, i: int, n: int)
    requires
        g.values.len() == g.ops.len(),
        0 <= i <= n < g.ops.len(),
        run_from(ar, g, i).error is None,
        g.values[n] is None,
        g.ops[n].refers_below(n),
    ensures
        run_from(ar, g, i).graph.values[n] is Some,
        run_from(ar, g, i).graph.eval(ar, n) == Ok::<TensorView, ErrorView>(
            run_from(ar, g, i).graph.values[n]->0,
        ),
    decreases g.ops.len() - i,
{
    let end = run_from(ar, g, i).graph;
    if g.values[i] is Some {
        law_run_computes_nodes(ar, g, i + 1, n);
    } else {
        let t = g.eval(ar, i)->Ok_0;
        let next = g.with(i, t);
        if i == n {
            law_run_keeps_values(ar, next, i + 1);
            assert(next.values[n] == Some(t));
            assert(end.values[n] == Some(t));
            assert forall|j: int| 0 <= j < n implies #[trigger] end.values[j] == g.values[j] by {
                assert(next.values[j] == g.values[j]);
            }
            lemma_eval_is_local(ar, end, g, n);
        } else {
            law_run_computes_nodes(ar, next, i + 1, n);
        }
    }
}

/// Running a graph whose nodes all have values does nothing.
pub proof fn law_run_is_idempotent(ar: Arith, g: GraphView, i: int)
    requires
        g.values.len() == g.ops.len(),
        0 <= i <= g.ops.len(),
        forall|j: int| i <= j < g.ops.len() ==> #[trigger] g.values[j] is Some,
    ensures
        run_from(ar, g, i) == (Outcome { graph: g, error: None }),
    decreases g.ops.len() - i,
{
    if i < g.ops.len() {
        law_run_is_idempotent(ar, g, i + 1);
    }
}

/// An input that was never bound is reported as such.
pub proof fn law_unset_input_is_reported(ar: Arith, g: GraphView, i: int)
    requires
        g.values.len() == g.ops.len(),
        0 <= i < g.ops.len(),
        g.ops[i] is Input,
        g.values[i] is None,
        forall|j: int| 0 <= j < i ==> #[trigger] g.values[j] is Some,
    ensures
        run_from(ar, g, 0).error == Some(ErrorView::UnsetInput(i)),
{
    reveal(GraphView::eval);
    lemma_run_skips(ar, g, 0, i);
}

/// Nodes with values are passed over.
proof fn lemma_run_skips(ar: Arith, g: GraphView, from: int, to: int)
    requires
        0 <= from <= to <= g.ops.len(),
        forall|j: int| 0 <= j < to ==> #[trigger] g.values[j] is Some,
    ensures
        run_from(ar, g, from) == run_from(ar, g, to),
    decreases to - from,
{
    if from < to {
        assert(g.values[from] is Some);
        lemma_run_skips(ar, g, from + 1, to);
    }
}

impl Graph {
    /// An empty graph.
    pub fn new() -> (g: Self)
        ensures
            g@ == (GraphView { ops: Seq::empty(), values: Seq::empty(), n_tokens: 0 }),
            g@.wf(),
    {
        let g = Graph { nodes: Vec::new(), n_tokens: 0 };
        proof {
            assert(g@ =~= (GraphView { ops: Seq::empty(), values: Seq::empty(), n_tokens: 0 }));
        }
        g
    }

    fn push(&mut self, op: Operation) -> (id: NodeId)
        requires
            old(self)@.wf(),
        ensures
            final(self)@ == old(self)@.push(op),
            final(self)@.wf(),
            id.index() == old(self)@.ops.len(),
    {
        let id = NodeId(self.nodes.len());
        let ghost before = self@;
        self.nodes.push(Node { op, value: None });
        proof {
            assert(self@.ops =~= before.ops.push(op));
            assert(self@.values =~= before.values.push(None));
        }
        id
    }

    /// Declares an input of `n_tokens` rows; the graph has as many rows as the
    /// largest of its inputs.
    pub fn input(&mut self, n_tokens: usize) -> (id: NodeId)
        requires
            old(self)@.wf(),
        ensures
            final(self)@ == (GraphView {
                n_tokens: if n_tokens > old(self)@.n_tokens {
                    n_tokens as int
                } else {
                    old(self)@.n_tokens
                },
                ..old(self)@.push(Operation::Input)
            }),
            final(self)@.wf(),
            id.index() == old(self)@.ops.len(),
    {
        let ghost before = self@;
        if n_tokens > self.n_tokens {
            self.n_tokens = n_tokens;
        }
        proof {
            assert(self@.ops =~= before.ops);
            assert(self@.values =~= before.values);
        }
        self.push(Operation::Input)
    }

    /// A product with dense weights.
    pub fn matmul_f32(&mut self, x: NodeId, weight: Vec<u32>, k: usize, n_rows: usize) -> (id:
        NodeId)
        requires
            old(self)@.wf(),
        ensures
            final(self)@ == old(self)@.push(Operation::MatmulF32 { x, weight, k, n_rows }),
            final(self)@.wf(),
            id.index() == old(self)@.ops.len(),
    {
        self.push(Operation::MatmulF32 { x, weight, k, n_rows })
    }

    /// A product with quantized weights.
    pub fn matmul_q8(&mut self, x: NodeId, weight: QuantMatrix) -> (id: NodeId)
        requires
            old(self)@.wf(),
        ensures
            final(self)@ == old(self)@.push(Operation::MatmulQ8 { x, weight }),
            final(self)@.wf(),
            id.index() == old(self)@.ops.len(),
    {
        self.push(Operation::MatmulQ8 { x, weight })
    }

    /// A normalization.
    pub fn rmsnorm(&mut self, x: NodeId, weight: Vec<u32>, dim: usize, eps: u32) -> (id: NodeId)
        requires
            old(self)@.wf(),
        ensures
            final(self)@ == old(self)@.push(Operation::RmsNorm { x, weight, dim, eps }),
            final(self)@.wf(),
            id.index() == old(self)@.ops.len(),
    {
        self.push(Operation::RmsNorm { x, weight, dim, eps })
    }

    /// A sum.
    pub fn add(&mut self, a: NodeId, b: NodeId) -> (id: NodeId)
        requires
            old(self)@.wf(),
        ensures
            final(self)@ == old(self)@.push(Operation::Add { a, b }),
            final(self)@.wf(),
            id.index() == old(self)@.ops.len(),
    {
        self.push(Operation::Add { a, b })
    }

    /// A softmax.
    pub fn softmax(&mut self, x: NodeId) -> (id: NodeId)
        requires
            old(self)@.wf(),
        ensures
            final(self)@ == old(self)@.push(Operation::Softmax { x }),
            final(self)@.wf(),
            id.index() == old(self)@.ops.len(),
    {
        self.push(Operation::Softmax { x })
    }

    /// A rotary position embedding; positions are the row indices.
    pub fn rope(&mut self, x: NodeId, n_heads: usize, head_dim: usize, theta_base: u32) -> (id:
        NodeId)
        requires
            old(self)@.wf(),
        ensures
            final(self)@ == old(self)@.push(Operation::Rope { x, n_heads, head_dim, theta_base }),
            final(self)@.wf(),
            id.index() == old(self)@.ops.len(),
    {
        self.push(Operation::Rope { x, n_heads, head_dim, theta_base })
    }

    /// Causal self-attention.
    pub fn attention(
        &mut self,
        q: NodeId,
        k: NodeId,
        v: NodeId,
        n_heads: usize,
        n_kv_heads: usize,
        head_dim: usize,
    ) -> (id: NodeId)
        requires
            old(self)@.wf(),
        ensures
            final(self)@ == old(self)@.push(
                Operation::Attention { q, k, v, n_heads, n_kv_heads, head_dim },
            ),
            final(self)@.wf(),
            id.index() == old(self)@.ops.len(),
    {
        self.push(Operation::Attention { q, k, v, n_heads, n_kv_heads, head_dim })
    }

    /// Sets the value of node `i`.
    fn put(&mut self, i: usize, value: Tensor)
        requires
            old(self)@.wf(),
            i < old(self)@.ops.len(),
            value@.wf(),
        ensures
            final(self)@ == old(self)@.with(i as int, value@),
            final(self)@.wf(),
    {
        let ghost before = self@;
        self.nodes[i].value = Some(value);
        proof {
            assert(self@.ops =~= before.ops);
            assert(self@.values =~= before.values.update(i as int, Some(value@)));
        }
    }

    /// Binds a tensor to an input node.
    pub fn set_input(&mut self, id: NodeId, value: Tensor)
        requires
            old(self)@.wf(),
            id.index() < old(self)@.ops.len(),
            value@.wf(),
        ensures
            final(self)@ == old(self)@.with(id.index(), value@),
            final(self)@.wf(),
    {
        self.put(id.0, value);
    }

    /// The singles that a node holds.
    fn f32_of(&self, id: NodeId) -> (r: Result<Vec<u32>, GraphError>)
        requires
            self@.wf(),
            id.index() < self@.ops.len(),
        ensures
            match self@.operand(id.index()) {
                Ok(values) => r matches Ok(v) && v@ == values && is_f32_tensor(
                    self@.values[id.index()]->0,
                    self@.values[id.index()]->0.shape,
                    values,
                ),
                Err(e) => r matches Err(x) && x@ == e,
            },
    {
        proof {
            assert(self@.values[id.index()] == value_view(self.nodes@[id.index()].value));
        }
        match &self.nodes[id.0].value {
            None => Err(GraphError::UnsetInput(id)),
            Some(t) => match t.as_f32() {
                Some(v) => Ok(v),
                None => Err(GraphError::NotF32),
            },
        }
    }

    /// The shape of a node's value.
    fn shape_of(&self, id: NodeId) -> (shape: Vec<usize>)
        requires
            id.index() < self@.ops.len(),
            self@.values[id.index()] is Some,
        ensures
            shape@ == self@.values[id.index()]->0.shape,
    {
        proof {
            assert(self@.values[id.index()] == value_view(self.nodes@[id.index()].value));
        }
        let mut shape: Vec<usize> = Vec::new();
        if let Some(t) = &self.nodes[id.0].value {
            let s: &[usize] = t.shape();
            let mut i: usize = 0;
            while i < s.len()
                invariant
                    i <= s.len(),
                    shape@ =~= s@.take(i as int),
                decreases s.len() - i,
            {
                shape.push(s[i]);
                i += 1;
            }
        }
        shape
    }

    /// Whether every node can be computed: it refers to nodes of this graph, and
    /// its weights have the shapes it says.
    pub fn is_sound(&self) -> (r: bool)
        requires
            self@.wf(),
            forall|i: int|
                0 <= i < self@.ops.len() ==> (#[trigger] self@.ops[i] matches Operation::MatmulQ8 {
                    x,
                    weight,
                } ==> weight.wf()),
        ensures
            r == self@.sound(),
    {
        let n: usize = self.nodes.len();
        let mut i: usize = 0;
        while i < n
            invariant
                n == self.nodes@.len(),
                n == self@.ops.len(),
                self@.wf(),
                forall|j: int|
                    0 <= j < self@.ops.len() ==> (
                    #[trigger] self@.ops[j] matches Operation::MatmulQ8 { x, weight }
                        ==> weight.wf()),
                i <= n,
                forall|j: int|
                    0 <= j < i ==> (#[trigger] self@.ops[j]).sound(n as int, self@.n_tokens),
            decreases n - i,
        {
            proof {
                assert(self@.ops[i as int] == self.nodes@[i as int].op);
            }
            if !is_sound_operation(&self.nodes[i].op, n, self.n_tokens) {
                return false;
            }
            i += 1;
        }
        true
    }

    /// The value of node `i`.
    fn eval_node<F: Fn(Op, u32, u32) -> u32>(&self, i: usize, calc: &F) -> (r: Result<
        Tensor,
        GraphError,
    >)
        requires
            is_arith(*calc),
            self@.wf(),
            i < self@.ops.len(),
            self@.ops[i as int].refers_below(self@.ops.len() as int),
            self@.shapes_pass(i as int) ==> self@.ops[i as int].sound(
                self@.ops.len() as int,
                self@.n_tokens,
            ),
        ensures
            match self@.eval(arith(*calc), i as int) {
                Ok(t) => r matches Ok(x) && x@ == t && x@.wf(),
                Err(e) => r matches Err(x) && x@ == e,
            },
    {
        let ghost ar = arith(*calc);
        let n: usize = self.n_tokens;
        proof {
            reveal(GraphView::eval);
            assert(self@.ops[i as int] == self.nodes@[i as int].op);
        }
        match &self.nodes[i].op {
            Operation::Input => Err(GraphError::UnsetInput(NodeId(i))),
            Operation::MatmulF32 { x, weight, k, n_rows } => {
                let a = self.f32_of(*x)?;
                if !is_product(a.len(), n, *k) {
                    return Err(GraphError::ShapeMismatch { what: "matmul_f32 input" });
                }
                let out = matmul_f32(a.as_slice(), weight.as_slice(), n, *k, *n_rows, calc);
                Ok(two_dims(n, *n_rows, out))
            },
            Operation::MatmulQ8 { x, weight } => {
                let a = self.f32_of(*x)?;
                if !is_product(a.len(), n, weight.cols) {
                    return Err(GraphError::ShapeMismatch { what: "matmul_q8 input" });
                }
                let out = matmul_q8_f32(a.as_slice(), weight, n, calc);
                Ok(two_dims(n, weight.rows, out))
            },
            Operation::RmsNorm { x, weight, dim, eps } => {
                let a = self.f32_of(*x)?;
                if a.len() % *dim != 0 {
                    return Err(GraphError::ShapeMismatch { what: "rmsnorm dim" });
                }
                let rows: usize = a.len() / *dim;
                proof {
                    assert(a@.len() == rows * *dim) by (nonlinear_arith)
                        requires
                            rows == a@.len() as int / *dim as int,
                            a@.len() as int % *dim as int == 0,
                            *dim > 0,
                    ;
                }
                let out = rmsnorm(a.as_slice(), weight.as_slice(), rows, *dim, *eps, calc);
                proof {
                    lemma_is_matrix(
                        out@,
                        rows as int,
                        *dim as int,
                        |r: int| normed(ar, row_of(a@, r, *dim as int), weight@, *eps),
                    );
                }
                Ok(two_dims(rows, *dim, out))
            },
            Operation::Add { a, b } => {
                let va = self.f32_of(*a)?;
                let vb = self.f32_of(*b)?;
                if va.len() != vb.len() {
                    return Err(GraphError::ShapeMismatch { what: "add" });
                }
                let out = add_all(va.as_slice(), vb.as_slice(), calc);
                let shape = self.shape_of(*a);
                proof {
                    assert(self@.values[a.index()]->0.wf());
                }
                Ok(Tensor::from_f32(shape, out.as_slice()))
            },
            Operation::Softmax { x } => {
                let a = self.f32_of(*x)?;
                let out = softmax(a.as_slice(), calc);
                Ok(one_dim(out))
            },
            Operation::Rope { x, n_heads, head_dim, theta_base } => {
                let mut a = self.f32_of(*x)?;
                if !is_rows_of(a.len(), n, *n_heads, *head_dim) {
                    return Err(GraphError::ShapeMismatch { what: "rope input" });
                }
                let w: usize = *n_heads * *head_dim;
                let ghost before = a@;
                rope(&mut a, n, *n_heads, *head_dim, *theta_base, calc);
                proof {
                    lemma_is_matrix(
                        a@,
                        n as int,
                        w as int,
                        |p: int|
                            neox_turned(
                                ar,
                                row_of(before, p, *n_heads * *head_dim),
                                p,
                                *head_dim as int,
                                *theta_base,
                            ),
                    );
                }
                Ok(two_dims(n, w, a))
            },
            Operation::Attention { q, k, v, n_heads, n_kv_heads, head_dim } => {
                let qv = self.f32_of(*q)?;
                let kv = self.f32_of(*k)?;
                let vv = self.f32_of(*v)?;
                if !is_rows_of(qv.len(), n, *n_heads, *head_dim) || !is_rows_of(
                    kv.len(),
                    n,
                    *n_kv_heads,
                    *head_dim,
                ) || !is_rows_of(vv.len(), n, *n_kv_heads, *head_dim) {
                    return Err(GraphError::ShapeMismatch { what: "attention qkv" });
                }
                let w: usize = *n_heads * *head_dim;
                let out = attention(
                    qv.as_slice(),
                    kv.as_slice(),
                    vv.as_slice(),
                    n,
                    *n_heads,
                    *n_kv_heads,
                    *head_dim,
                    calc,
                );
                proof {
                    let heads = heads_of(*n_heads, *n_kv_heads, *head_dim);
                    lemma_is_matrix(
                        out@,
                        n as int,
                        w as int,
                        |i: int|
                            attended(
                                ar,
                                row_of(qv@, i, *n_heads * *head_dim),
                                kv@,
                                vv@,
                                i,
                                heads,
                            ),
                    );
                }
                Ok(two_dims(n, w, out))
            },
        }
    }

    /// Computes every node that has no value yet, in the order of definition. What a
    /// node asks of its parameters it asks only when the run comes to it and the
    /// shapes fit. (`is_sound` tells graphs that run on any input.)
    pub fn execute<F: Fn(Op, u32, u32) -> u32>(&mut self, calc: &F) -> (r: Result<(), GraphError>)
        requires
            is_arith(*calc),
            old(self)@.wf(),
            run_is_ready(arith(*calc), old(self)@, 0),
        ensures
            final(self)@ == run_from(arith(*calc), old(self)@, 0).graph,
            final(self)@.wf(),
            match run_from(arith(*calc), old(self)@, 0).error {
                None => r is Ok,
                Some(e) => r matches Err(x) && x@ == e,
            },
    {
        let ghost ar = arith(*calc);
        let ghost whole = run_from(ar, self@, 0);
        let n: usize = self.nodes.len();
        let mut i: usize = 0;
        while i < n
            invariant
                is_arith(*calc),
                ar == arith(*calc),
                self@.wf(),
                run_is_ready(ar, self@, i as int),
                n == self@.ops.len(),
                n == self.nodes@.len(),
                i <= n,
                whole == run_from(ar, old(self)@, 0),
                whole == run_from(ar, self@, i as int),
            decreases n - i,
        {
            proof {
                assert(self@.values[i as int] == value_view(self.nodes@[i as int].value));
            }
            if self.nodes[i].value.is_none() {
                match self.eval_node(i, calc) {
                    Ok(value) => {
                        self.put(i, value);
                    },
                    Err(e) => {
                        return Err(e);
                    },
                }
            }
            i += 1;
        }
        Ok(())
    }

    /// The value of a node, after `execute`.
    pub fn output_f32(&self, id: NodeId) -> (r: Result<Vec<u32>, GraphError>)
        requires
            self@.wf(),
            id.index() < self@.ops.len(),
        ensures
            match self@.operand(id.index()) {
                Ok(values) => r matches Ok(v) && v@ == values,
                Err(e) => r matches Err(x) && x@ == e,
            },
    {
        self.f32_of(id)
    }
}

/// Whether an operation can be computed.
fn is_sound_operation(op: &Operation, n: usize, n_tokens: usize) -> (r: bool)
    requires
        op matches Operation::MatmulQ8 { x, weight } ==> weight.wf(),
    ensures
        r == op.sound(n as int, n_tokens as int),
{
    match op {
        Operation::Input => true,
        Operation::MatmulF32 { x, weight, k, n_rows } => x.0 < n && is_product(
            weight.len(),
            *n_rows,
            *k,
        ) && n_tokens.checked_mul(*n_rows).is_some(),
        Operation::MatmulQ8 { x, weight } => x.0 < n && n_tokens.checked_mul(weight.rows).is_some(),
        Operation::RmsNorm { x, weight, dim, eps } => x.0 < n && *dim > 0 && weight.len() == *dim,
        Operation::Add { a, b } => a.0 < n && b.0 < n,
        Operation::Softmax { x } => x.0 < n,
        Operation::Rope { x, n_heads, head_dim, theta_base } => x.0 < n && *head_dim % 2 == 0
            && n_heads.checked_mul(*head_dim).is_some(),
        Operation::Attention { q, k, v, n_heads, n_kv_heads, head_dim } => q.0 < n && k.0 < n && v.0
            < n && *n_kv_heads > 0 && *n_heads % *n_kv_heads == 0 && n_heads.checked_mul(
            *head_dim,
        ).is_some() && n_kv_heads.checked_mul(*head_dim).is_some(),
    }
}

/// Whether `len` is `a * b`.
fn is_product(len: usize, a: usize, b: usize) -> (r: bool)
    ensures
        r == (len == a * b),
{
    proof {
        assert(a * b <= u128::MAX && 0 <= a * b) by (nonlinear_arith)
            requires
                a <= 0xffff_ffff_ffff_ffff,
                b <= 0xffff_ffff_ffff_ffff,
        ;
    }
    len as u128 == a as u128 * b as u128
}

/// Whether `len` is `n` rows of `heads` heads of `dim` values.
fn is_rows_of(len: usize, n: usize, heads: usize, dim: usize) -> (r: bool)
    ensures
        r == (len == n * (heads * dim)),
{
    match heads.checked_mul(dim) {
        Some(w) => is_product(len, n, w),
        None => {
            proof {
                assert(n == 0 ==> n * (heads * dim) == 0) by (nonlinear_arith);
                assert(n >= 1 ==> n * (heads * dim) > usize::MAX) by (nonlinear_arith)
                    requires
                        heads * dim > usize::MAX,
                ;
            }
            n == 0 && len == 0
        },
    }
}

/// A tensor of two dimensions.
fn two_dims(a: usize, b: usize, values: Vec<u32>) -> (t: Tensor)
    requires
        values@.len() == a * b,
    ensures
        t@ == f32_tensor(seq![a, b], values@),
        t@.wf(),
{
    let shape: Vec<usize> = vec![a, b];
    proof {
        assert(shape@ =~= seq![a, b]);
        lemma_two_dims(a, b, values.len());
    }
    Tensor::from_f32(shape, values.as_slice())
}

/// A tensor of one dimension.
fn one_dim(values: Vec<u32>) -> (t: Tensor)
    ensures
        t@ == f32_tensor(seq![values@.len() as usize], values@),
        t@.wf(),
{
    let shape: Vec<usize> = vec![values.len()];
    proof {
        let s = seq![values.len()];
        assert(shape@ =~= s);
        assert(s.drop_last() =~= Seq::empty());
        assert(elements(s) == values.len()) by {
            assert(elements(Seq::<usize>::empty()) == 1);
        }
        assert forall|k: int| 0 <= k <= s.len() implies #[trigger] elements(
            s.take(k),
        ) <= usize::MAX by {
            if k == 0 {
                assert(s.take(0) =~= Seq::empty());
            } else {
                assert(s.take(1) =~= s);
            }
        }
        assert(countable(s));
    }
    Tensor::from_f32(shape, values.as_slice())
}

/// Two dimensions can be multiplied up.
proof fn lemma_two_dims(a: usize, b: usize, n: usize)
    requires
        n == a * b,
    ensures
        elements(seq![a, b]) == n,
        countable(seq![a, b]),
{
    let s = seq![a, b];
    assert(s.drop_last() =~= seq![a]);
    assert(seq![a].drop_last() =~= Seq::empty());
    assert(elements(Seq::<usize>::empty()) == 1);
    assert(elements(seq![a]) == a);
    assert forall|k: int| 0 <= k <= s.len() implies #[trigger] elements(
        s.take(k),
    ) <= usize::MAX by {
        if k == 0 {
            assert(s.take(0) =~= Seq::empty());
        } else if k == 1 {
            assert(s.take(1) =~= seq![a]);
        } else {
            assert(s.take(2) =~= s);
        }
    }
}

} // verus!
