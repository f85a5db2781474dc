//! What a team makes of a list of operations.
//!
//! Every member walks the same operations, one behind the other. Each operation lies
//! between two barriers, and its chunks are shared as the members claim them; a serial
//! section is an operation of a single chunk, which the first member starts out with.
//! The law is that nothing shows of the order in which the members take their steps.
use crate::kernels::team::{
    filled, law_barriers_start, law_claims_cover, law_claims_start, law_claims_step, lemma_arrival, Barriers, Claims,
};
use crate::kernels::threading::{chunk_count, chunk_end, chunk_start, law_chunks_partition, lemma_chunk_bounds};
use vstd::prelude::*;

verus! {

/// An operation: rows to fill, how many make up a chunk, and what a row holds, given
/// the results of the operations before.
pub struct TeamOp {
    pub n_rows: nat,
    pub chunk: int,
    pub row: spec_fn(Seq<Seq<u32>>, int) -> u32,
}

impl TeamOp {
    pub open spec fn n_chunks(self) -> int {
        chunk_count(self.n_rows as int, self.chunk)
    }

    /// The result of the operation behind those of the operations before.
    pub open spec fn result(self, before: Seq<Seq<u32>>) -> Seq<u32> {
        Seq::new(self.n_rows, |r: int| (self.row)(before, r))
    }
}

/// The results of the first `n` operations, run in order and each at once.
pub open spec fn in_order(ops: Seq<TeamOp>, n: nat) -> Seq<Seq<u32>>
    decreases n,
{
    if n == 0 {
        Seq::empty()
    } else {
        let before = in_order(ops, (n - 1) as nat);
        before.push(ops[n - 1].result(before))
    }
}

/// A team on its way: its barriers, the chunks of the operation at hand, and what has
/// been filled in so far.
pub struct Walk {
    pub b: Barriers,
    pub claims: Claims,
    pub results: Seq<Seq<u32>>,
}

/// What a member does next.
pub enum WalkStep {
    /// The first member makes the chunks of the next operation available.
    Reset,
    /// Member `i` arrives at its next barrier.
    Arrive(int),
    /// Member `i` passes the barrier where it waits.
    Pass(int),
    /// Member `i` fills in the rows of the chunk that it holds, and claims another.
    Work(int),
}

impl Walk {
    /// A team of `nth` goes from here to `next` in one step. Operation `o` lies between
    /// barriers `2 * o` and `2 * o + 1`: the first member goes to the former when the
    /// chunks are available, and a member goes to the latter when it holds no chunk
    /// that there is.
    pub open spec fn is_step(self, ops: Seq<TeamOp>, nth: nat, next: Walk, step: WalkStep) -> bool {
        match step {
            WalkStep::Reset => {
                &&& self.b.walking(0)
                &&& self.b.passed[0] % 2 == 0
                &&& next == (Walk { claims: Claims::start(nth), ..self })
            },
            WalkStep::Arrive(i) => {
                let o = self.b.passed[i] / 2;
                &&& self.b.walking(i)
                &&& o < ops.len()
                &&& self.b.passed[i] % 2 == 0 && i == 0 ==> self.claims == Claims::start(nth)
                &&& self.b.passed[i] % 2 == 1 ==> self.claims.held[i] >= ops[o as int].n_chunks()
                &&& next == (Walk { b: self.b.arrive(i), ..self })
            },
            WalkStep::Pass(i) => self.b.opened(i) && next == (Walk { b: self.b.pass(i), ..self }),
            WalkStep::Work(i) => {
                let o = (self.b.passed[i] / 2) as int;
                &&& self.b.walking(i)
                &&& self.b.passed[i] % 2 == 1
                &&& self.claims.held[i] < ops[o].n_chunks()
                &&& next == (Walk {
                    b: self.b,
                    claims: self.claims.step(i),
                    results: self.results.update(o, self.worked(ops[o], o, i)),
                })
            },
        }
    }

    /// The result of operation `o` with the chunk of member `i` filled in, from what the
    /// operations before have left.
    pub open spec fn worked(self, op: TeamOp, o: int, i: int) -> Seq<u32> {
        let c = self.claims.held[i];
        let before = self.results.take(o);
        filled(
            self.results[o],
            |r: int| (op.row)(before, r),
            chunk_start(c, op.chunk),
            chunk_end(c, op.n_rows as int, op.chunk),
        )
    }

    /// What holds wherever a team stands: all operations have their results but the one
    /// at hand, of which the chunks that have been run have theirs.
    pub open spec fn inv(self, ops: Seq<TeamOp>, nth: nat) -> bool {
        let o = (self.b.generation / 2) as int;
        &&& self.b.wf()
        &&& self.b.at.len() == nth
        &&& self.results.len() == ops.len()
        &&& forall|p: int|
            0 <= p < ops.len() ==> (#[trigger] self.results[p]).len() == ops[p].n_rows
        &&& o <= ops.len()
        &&& self.results.take(o) == in_order(ops, o as nat)
        &&& self.b.generation % 2 == 0 && self.b.at[0] == self.b.generation + 1 ==> self.claims
            == Claims::start(nth)
        &&& self.b.generation % 2 == 1 ==> {
            &&& o < ops.len()
            &&& self.claims.wf(ops[o].n_chunks())
            &&& self.claims.held.len() == nth
            &&& forall|i: int|
                0 <= i < nth && #[trigger] self.b.at[i] == self.b.generation + 1
                    ==> self.claims.held[i] >= ops[o].n_chunks()
            &&& self.is_filled(ops[o], o)
        }
    }

    /// The chunks of operation `o` that have been run have their results.
    pub open spec fn is_filled(self, op: TeamOp, o: int) -> bool {
        forall|r: int|
            0 <= r < op.n_rows && self.claims.done.contains(r / op.chunk)
                ==> #[trigger] self.results[o][r] == (op.row)(self.results.take(o), r)
    }
}

/// Every operation is in chunks of some rows.
pub open spec fn are_ops(ops: Seq<TeamOp>) -> bool {
    forall|o: int| 0 <= o < ops.len() ==> (#[trigger] ops[o]).chunk > 0
}

/// `states` are those of a team of `nth` that walks through `ops`, where the members
/// take their steps in the order of `steps`.
pub open spec fn is_walk(states: Seq<Walk>, steps: Seq<WalkStep>, ops: Seq<TeamOp>, nth: nat) -> bool {
    &&& are_ops(ops)
    &&& states.len() == steps.len() + 1
    &&& states[0].b == Barriers::start(nth)
    &&& states[0].results.len() == ops.len()
    &&& forall|o: int|
        0 <= o < ops.len() ==> (#[trigger] states[0].results[o]).len() == ops[o].n_rows
    &&& forall|n: int|
        0 <= n < steps.len() ==> states[n].is_step(ops, nth, states[n + 1], #[trigger] steps[n])
}

/// Arriving at the barrier that starts an operation.
proof fn lemma_arrive_at_start(ops: Seq<TeamOp>, nth: nat, w: Walk, v: Walk, i: int)
    requires
        are_ops(ops),
        w.inv(ops, nth),
        w.is_step(ops, nth, v, WalkStep::Arrive(i)),
        w.b.generation % 2 == 0,
    ensures
        v.inv(ops, nth),
{
    lemma_arrival(w.b, i);
    let o = (w.b.generation / 2) as int;
    if w.b.arrived + 1 == w.b.at.len() {
        assert(v.b.generation / 2 == o && v.b.generation % 2 == 1);
        assert(v.b.generation <= v.b.at[0]);
        assert(w.b.at[0] == w.b.generation + 1 || i == 0);
        assert(w.claims == Claims::start(nth));
        law_claims_start(nth, ops[o].n_chunks());
        assert forall|j: int| 0 <= j < nth && #[trigger] v.b.at[j] == v.b.generation + 1 implies v.claims.held[j]
            >= ops[o].n_chunks() by {
            assert(w.b.at[j] <= w.b.generation + 1);
        }
    }
}

/// The last to arrive at the barrier behind an operation leaves it done.
proof fn lemma_operation_done(ops: Seq<TeamOp>, nth: nat, w: Walk)
    requires
        are_ops(ops),
        w.inv(ops, nth),
        nth > 0,
        w.b.generation % 2 == 1,
        w.claims.finished(ops[(w.b.generation / 2) as int].n_chunks()),
    ensures
        w.results.take((w.b.generation / 2 + 1) as int) == in_order(
            ops,
            w.b.generation / 2 + 1,
        ),
{
    let o = (w.b.generation / 2) as int;
    let op = ops[o];
    law_claims_cover(w.claims, op.n_chunks());
    let before = w.results.take(o);
    assert forall|r: int| 0 <= r < op.n_rows implies w.results[o][r] == op.result(before)[r] by {
        law_chunks_partition(op.n_rows as int, op.chunk, r);
        assert(w.claims.done.contains(r / op.chunk));
    }
    assert(w.results[o] =~= op.result(before));
    assert(w.results.take(o + 1) =~= before.push(w.results[o]));
}

/// Arriving at the barrier behind an operation.
proof fn lemma_arrive_at_end(ops: Seq<TeamOp>, nth: nat, w: Walk, v: Walk, i: int)
    requires
        are_ops(ops),
        w.inv(ops, nth),
        w.is_step(ops, nth, v, WalkStep::Arrive(i)),
        w.b.generation % 2 == 1,
    ensures
        v.inv(ops, nth),
{
    lemma_arrival(w.b, i);
    let o = (w.b.generation / 2) as int;
    if w.b.arrived + 1 == w.b.at.len() {
        let up = v.b;
        assert forall|j: int| 0 <= j < w.claims.held.len() implies #[trigger] w.claims.held[j]
            >= ops[o].n_chunks() by {
            assert(up.generation <= up.at[j]);
            if j != i {
                assert(w.b.at[j] == up.at[j]);
                assert(w.b.at[j] == w.b.generation + 1);
            }
        }
        lemma_operation_done(ops, nth, w);
        assert(v.b.generation / 2 == o + 1 && v.b.generation % 2 == 0);
        assert(v.b.at[0] <= w.b.generation + 1) by {
            assert(w.b.at[0] <= w.b.generation + 1);
        }
    } else {
        assert forall|j: int| 0 <= j < nth && #[trigger] v.b.at[j] == v.b.generation + 1 implies v.claims.held[j]
            >= ops[o].n_chunks() by {
            if j != i {
                assert(v.b.at[j] == w.b.at[j]);
            }
        }
    }
}

/// A chunk is filled in.
proof fn lemma_work(ops: Seq<TeamOp>, nth: nat, w: Walk, v: Walk, i: int)
    requires
        are_ops(ops),
        w.inv(ops, nth),
        w.is_step(ops, nth, v, WalkStep::Work(i)),
    ensures
        v.inv(ops, nth),
{
    assert(w.b.generation <= w.b.at[i] && w.b.passed[i] <= w.b.generation);
    assert(w.b.passed[i] == w.b.generation);
    let o = (w.b.generation / 2) as int;
    let op = ops[o];
    let c = w.claims.held[i];
    law_claims_step(w.claims, i, op.n_chunks());
    lemma_chunk_bounds(c, op.n_rows as int, op.chunk);
    assert(v.results.take(o) =~= w.results.take(o));
    assert forall|r: int|
        0 <= r < op.n_rows && v.claims.done.contains(r / op.chunk) implies #[trigger] v.results[o][r]
        == (op.row)(v.results.take(o), r) by {
        law_chunks_partition(op.n_rows as int, op.chunk, r);
        if r / op.chunk != c {
            assert(w.claims.done.contains(r / op.chunk));
            assert(w.results[o][r] == (op.row)(w.results.take(o), r));
        }
    }
    assert forall|j: int| 0 <= j < nth && #[trigger] v.b.at[j] == v.b.generation + 1 implies v.claims.held[j]
        >= op.n_chunks() by {
        assert(w.b.at[j] == v.b.at[j]);
        assert(j != i);
    }
}

/// Every step keeps what holds of a team on its way.
proof fn lemma_step(ops: Seq<TeamOp>, nth: nat, w: Walk, v: Walk, step: WalkStep)
    requires
        are_ops(ops),
        w.inv(ops, nth),
        w.is_step(ops, nth, v, step),
    ensures
        v.inv(ops, nth),
{
    match step {
        WalkStep::Reset => {
            assert(w.b.generation <= w.b.at[0] && w.b.passed[0] <= w.b.generation);
        },
        WalkStep::Arrive(i) => {
            if w.b.generation % 2 == 0 {
                lemma_arrive_at_start(ops, nth, w, v, i);
            } else {
                lemma_arrive_at_end(ops, nth, w, v, i);
            }
        },
        WalkStep::Pass(i) => {
            assert(w.b.passed[i] <= w.b.generation);
        },
        WalkStep::Work(i) => {
            lemma_work(ops, nth, w, v, i);
        },
    }
}

proof fn lemma_walk(states: Seq<Walk>, steps: Seq<WalkStep>, ops: Seq<TeamOp>, nth: nat, n: int)
    requires
        is_walk(states, steps, ops, nth),
        nth > 0,
        0 <= n <= steps.len(),
    ensures
        states[n].inv(ops, nth),
    decreases n,
{
    if n == 0 {
        law_barriers_start(nth);
        assert(states[0].results.take(0) =~= in_order(ops, 0));
    } else {
        lemma_walk(states, steps, ops, nth, n - 1);
        lemma_step(ops, nth, states[n - 1], states[n], steps[n - 1]);
    }
}

/// In whatever order the members of a team take their steps, when any of them has left
/// the first `q` operations behind, these have the results that they have when they are
/// run in order and each at once.
pub proof fn law_a_team_computes_in_order(
    states: Seq<Walk>,
    steps: Seq<WalkStep>,
    ops: Seq<TeamOp>,
    nth: nat,
    n: int,
    i: int,
    q: nat,
)
    requires
        is_walk(states, steps, ops, nth),
        0 <= n <= steps.len(),
        0 <= i < nth,
        states[n].b.passed[i] >= 2 * q,
    ensures
        q <= ops.len(),
        states[n].results.len() == ops.len(),
        states[n].results.take(q as int) == in_order(ops, q),
{
    lemma_walk(states, steps, ops, nth, n);
    let w = states[n];
    assert(w.b.passed[i] <= w.b.generation);
    let o = w.b.generation / 2;
    assert(q <= o);
    lemma_in_order_prefix(ops, q, o);
    assert(w.results.take(q as int) =~= w.results.take(o as int).take(q as int));
}

/// The results of the first operations are those of the operations so far.
proof fn lemma_in_order_prefix(ops: Seq<TeamOp>, q: nat, n: nat)
    requires
        q <= n,
    ensures
        in_order(ops, n).len() == n,
        in_order(ops, n).take(q as int) == in_order(ops, q),
    decreases n,
{
    if n > 0 {
        lemma_in_order_prefix(ops, if q < n { q } else { 0 }, (n - 1) as nat);
        if q < n {
            assert(in_order(ops, n).take(q as int) =~= in_order(ops, (n - 1) as nat).take(q as int));
        } else {
            assert(in_order(ops, n).take(n as int) =~= in_order(ops, n));
        }
    } else {
        assert(in_order(ops, 0).take(0) =~= in_order(ops, 0));
    }
}

} // verus!
