//! Team execution: members walk through the same operations together, meet at
//! barriers between them, and share the chunks of one operation by claiming them
//! from a counter.
//!
//! What the members share is advanced one atomic step at a time. The laws
//! say what holds whatever the order in which the members take their steps.
use crate::kernels::quant::lemma_row_in;
use crate::kernels::rows::row_of;
use crate::kernels::threading::{
    chunk_count, chunk_end, chunk_range, chunk_start, div_ceil, law_chunks_partition, lemma_chunk_bounds,
};
use vstd::prelude::*;

verus! {

/// Shared state of one team run.
#[derive(Debug)]
pub struct TeamCtx {
    arrived: u32,
    generation: u32,
    steal: u32,
    panicked: bool,
    nth: u32,
}

/// What a team shares: how many members have arrived at the current barrier, the
/// number of that barrier, the next chunk, and whether a member has failed.
pub struct TeamView {
    pub arrived: u32,
    pub generation: u32,
    pub steal: u32,
    pub panicked: bool,
    pub nth: u32,
}

impl View for TeamCtx {
    type V = TeamView;

    closed spec fn view(&self) -> TeamView {
        TeamView {
            arrived: self.arrived,
            generation: self.generation,
            steal: self.steal,
            panicked: self.panicked,
            nth: self.nth,
        }
    }
}

/// What a member that has arrived at a barrier does next.
#[derive(Debug, Clone, Copy, PartialEq, Eq, Structural)]
pub enum Wait {
    /// Every member has arrived.
    Proceed,
    /// Some member has not.
    Spin,
    /// Some member never will, because it has failed.
    Fail,
}

impl TeamCtx {
    /// A team of `nth` members.
    pub fn new(nth: usize) -> (ctx: Self)
        requires
            nth <= u32::MAX,
        ensures
            ctx@ == (TeamView {
                arrived: 0,
                generation: 0,
                steal: 0,
                panicked: false,
                nth: nth as u32,
            }),
    {
        TeamCtx { arrived: 0, generation: 0, steal: 0, panicked: false, nth: nth as u32 }
    }

    /// Marks the team as failed: members that wait at a barrier give up instead
    /// of waiting for the failed one.
    pub fn poison(&mut self)
        ensures
            final(self)@ == (TeamView { panicked: true, ..old(self)@ }),
    {
        self.panicked = true;
    }

    /// A member arrives at the barrier. The last one opens it and gets `None`;
    /// the others get the number of the barrier that they wait for.
    pub fn arrive(&mut self) -> (waits: Option<u32>)
        requires
            old(self)@.arrived < old(self)@.nth,
        ensures
            old(self)@.arrived + 1 == old(self)@.nth ==> waits is None && final(self)@ == (
            TeamView {
                arrived: 0,
                generation: after(old(self)@.generation),
                ..old(self)@
            }),
            old(self)@.arrived + 1 < old(self)@.nth ==> waits == Some(old(self)@.generation)
                && final(self)@ == (TeamView {
                arrived: (old(self)@.arrived + 1) as u32,
                ..old(self)@
            }),
    {
        let generation: u32 = self.generation;
        if self.arrived + 1 == self.nth {
            self.arrived = 0;
            self.generation = generation.wrapping_add(1);
            None
        } else {
            self.arrived = self.arrived + 1;
            Some(generation)
        }
    }

    /// Looks whether the barrier with the given number has opened.
    pub fn poll(&self, generation: u32) -> (w: Wait)
        ensures
            w == (if self@.generation != generation {
                Wait::Proceed
            } else if self@.panicked {
                Wait::Fail
            } else {
                Wait::Spin
            }),
    {
        if self.generation != generation {
            Wait::Proceed
        } else if self.panicked {
            Wait::Fail
        } else {
            Wait::Spin
        }
    }

    /// Makes the chunks behind the members' first ones available for claiming.
    pub fn reset_chunks(&mut self)
        ensures
            final(self)@ == (TeamView { steal: old(self)@.nth, ..old(self)@ }),
    {
        self.steal = self.nth;
    }

    /// Claims the next chunk.
    pub fn claim(&mut self) -> (chunk: u32)
        ensures
            chunk == old(self)@.steal,
            final(self)@ == (TeamView { steal: after(old(self)@.steal), ..old(self)@ }),
    {
        let chunk: u32 = self.steal;
        self.steal = chunk.wrapping_add(1);
        chunk
    }
}

/// The number after `n`, around a wrapping counter.
pub open spec fn after(n: u32) -> u32 {
    if n == u32::MAX {
        0
    } else {
        (n + 1) as u32
    }
}

/// One member of a team: number `ith` of `nth`.
#[derive(Debug, Clone, Copy, PartialEq, Eq, Structural)]
pub struct Team {
    pub ith: usize,
    pub nth: usize,
}

impl Team {
    /// Member `ith` of the team that shares `ctx`.
    pub fn new(ith: usize, ctx: &TeamCtx) -> (t: Self)
        ensures
            t.ith == ith,
            t.nth == ctx@.nth,
    {
        Team { ith, nth: ctx.nth as usize }
    }

    /// Arrives at a barrier: `None` where the member can go on at once, else the
    /// number of the barrier to wait for with `TeamCtx::poll`. A team of one
    /// never waits.
    pub fn barrier(&self, ctx: &mut TeamCtx) -> (waits: Option<u32>)
        requires
            self.nth == old(ctx)@.nth,
            old(ctx)@.arrived < old(ctx)@.nth,
        ensures
            self.nth == 1 ==> waits is None && final(ctx)@ == old(ctx)@,
            self.nth > 1 && old(ctx)@.arrived + 1 == self.nth ==> waits is None && final(ctx)@ == (
            TeamView { arrived: 0, generation: after(old(ctx)@.generation), ..old(ctx)@ }),
            self.nth > 1 && old(ctx)@.arrived + 1 < self.nth ==> waits == Some(
                old(ctx)@.generation,
            ) && final(ctx)@ == (TeamView {
                arrived: (old(ctx)@.arrived + 1) as u32,
                ..old(ctx)@
            }),
    {
        if self.nth == 1 {
            return None;
        }
        ctx.arrive()
    }

    /// Whether this member runs the serial sections, between their two barriers.
    pub fn serial(&self) -> (runs: bool)
        ensures
            runs == (self.ith == 0),
    {
        self.ith == 0
    }

    /// The chunk this member starts an operation with: its own number. The first
    /// member, before the barrier that starts the operation, also makes the other
    /// chunks available.
    pub fn for_chunks(&self, ctx: &mut TeamCtx) -> (first: usize)
        requires
            self.nth == old(ctx)@.nth,
        ensures
            first == self.ith,
            final(ctx)@ == (if self.ith == 0 {
                TeamView { steal: old(ctx)@.nth, ..old(ctx)@ }
            } else {
                old(ctx)@
            }),
    {
        if self.ith == 0 {
            ctx.reset_chunks();
        }
        self.ith
    }
}

/// A team at its barriers: how many have arrived at the current one, how many
/// have opened, and for every member how many it has arrived at and passed.
pub struct Barriers {
    pub arrived: nat,
    pub generation: nat,
    pub at: Seq<nat>,
    pub passed: Seq<nat>,
}

/// How many of `s` equal `v`.
pub open spec fn count_of(s: Seq<nat>, v: nat) -> nat
    decreases s.len(),
{
    if s.len() == 0 {
        0
    } else {
        count_of(s.drop_last(), v) + (if s.last() == v {
            1nat
        } else {
            0
        })
    }
}

/// At most all, and all only if every one equals `v`.
pub proof fn lemma_count_bounds(s: Seq<nat>, v: nat)
    ensures
        count_of(s, v) <= s.len(),
        count_of(s, v) == s.len() ==> forall|i: int| 0 <= i < s.len() ==> s[i] == v,
        (forall|i: int| 0 <= i < s.len() ==> s[i] != v) ==> count_of(s, v) == 0,
    decreases s.len(),
{
    if s.len() > 0 {
        let r = s.drop_last();
        lemma_count_bounds(r, v);
        if count_of(s, v) == s.len() {
            assert forall|i: int| 0 <= i < s.len() implies s[i] == v by {
                if i < r.len() {
                    assert(r[i] == s[i]);
                }
            }
        }
        if forall|i: int| 0 <= i < s.len() ==> s[i] != v {
            assert forall|i: int| 0 <= i < r.len() implies r[i] != v by {
                assert(r[i] == s[i]);
            }
        }
    }
}

/// One more equals `v` after one that did not is made to.
pub proof fn lemma_count_update(s: Seq<nat>, i: int, v: nat)
    requires
        0 <= i < s.len(),
        s[i] != v,
    ensures
        count_of(s.update(i, v), v) == count_of(s, v) + 1,
    decreases s.len(),
{
    let u = s.update(i, v);
    if i == s.len() - 1 {
        assert(u.drop_last() =~= s.drop_last());
    } else {
        assert(u.drop_last() =~= s.drop_last().update(i, v));
        lemma_count_update(s.drop_last(), i, v);
    }
}

impl Barriers {
    /// A team of `nth` that has not met a barrier yet.
    pub open spec fn start(nth: nat) -> Barriers {
        Barriers {
            arrived: 0,
            generation: 0,
            at: Seq::new(nth, |i: int| 0nat),
            passed: Seq::new(nth, |i: int| 0nat),
        }
    }

    /// Nobody is more than one barrier ahead of anybody, a member that has not
    /// passed where it arrived is waiting there, and `arrived` counts the members
    /// at the barrier that has not opened yet.
    pub open spec fn wf(self) -> bool {
        &&& self.at.len() == self.passed.len()
        &&& self.arrived < self.at.len()
        &&& self.arrived == count_of(self.at, self.generation + 1)
        &&& forall|i: int|
            0 <= i < self.at.len() ==> self.generation <= #[trigger] self.at[i] <= self.generation
                + 1
        &&& forall|i: int|
            0 <= i < self.at.len() ==> #[trigger] self.passed[i] <= self.generation
                && self.passed[i] <= self.at[i] <= self.passed[i] + 1
    }

    /// Member `i` is on its way, not waiting at a barrier.
    pub open spec fn walking(self, i: int) -> bool {
        0 <= i < self.at.len() && self.at[i] == self.passed[i]
    }

    /// Member `i` arrives at its next barrier.
    pub open spec fn arrive(self, i: int) -> Barriers {
        let at = self.at.update(i, self.at[i] + 1);
        if self.arrived + 1 == self.at.len() {
            Barriers { arrived: 0, generation: self.generation + 1, at, passed: self.passed }
        } else {
            Barriers {
                arrived: self.arrived + 1,
                generation: self.generation,
                at,
                passed: self.passed,
            }
        }
    }

    /// The barrier at which member `i` waits has opened.
    pub open spec fn opened(self, i: int) -> bool {
        &&& 0 <= i < self.at.len()
        &&& self.at[i] == self.passed[i] + 1
        &&& self.generation != self.passed[i]
    }

    /// Member `i` passes.
    pub open spec fn pass(self, i: int) -> Barriers {
        Barriers { passed: self.passed.update(i, self.passed[i] + 1), ..self }
    }

    /// The shared state of a team at these barriers.
    pub open spec fn shared_by(self, ctx: TeamView) -> bool {
        &&& ctx.nth == self.at.len()
        &&& ctx.arrived == self.arrived
        &&& ctx.generation == self.generation % 0x1_0000_0000
    }
}

/// A team that starts is in order.
pub proof fn law_barriers_start(nth: nat)
    requires
        nth > 0,
    ensures
        Barriers::start(nth).wf(),
{
    lemma_count_bounds(Barriers::start(nth).at, 1);
}

/// Arriving keeps a team in order, and `TeamCtx::arrive` is that step: it tells
/// the member to wait exactly if the barrier stays closed, and what it is told to
/// wait for is the barrier that it has not passed.
pub proof fn law_arriving(b: Barriers, i: int, ctx: TeamView, next: TeamView, waits: Option<u32>)
    requires
        b.wf(),
        b.walking(i),
        b.shared_by(ctx),
        ctx.arrived + 1 == ctx.nth ==> waits is None && next == (TeamView {
            arrived: 0,
            generation: after(ctx.generation),
            ..ctx
        }),
        ctx.arrived + 1 < ctx.nth ==> waits == Some(ctx.generation) && next == (TeamView {
            arrived: (ctx.arrived + 1) as u32,
            ..ctx
        }),
    ensures
        b.arrive(i).wf(),
        b.arrive(i).shared_by(next),
        waits is None <==> b.arrive(i).opened(i),
        waits matches Some(g) ==> g == b.passed[i] % 0x1_0000_0000,
{
    lemma_arrival(b, i);
}

/// A member that arrives has passed all barriers before, and keeps the team in order.
pub proof fn lemma_arrival(b: Barriers, i: int)
    requires
        b.wf(),
        b.walking(i),
    ensures
        b.at[i] == b.generation,
        b.passed[i] == b.generation,
        b.arrive(i).wf(),
{
    let up = b.at.update(i, b.at[i] + 1);
    lemma_count_update(b.at, i, b.generation + 1);
    lemma_count_bounds(up, b.generation + 1);
    if b.arrived + 1 == b.at.len() {
        assert forall|j: int| 0 <= j < up.len() implies up[j] != b.generation + 2 by {
            assert(up[j] == b.generation + 1);
        }
        lemma_count_bounds(up, b.generation + 2);
    }
}

/// A member that waits for barrier `b.passed[i]` is let through by
/// `TeamCtx::poll` exactly when that barrier has opened, though the counter
/// wraps; passing keeps the team in order.
pub proof fn law_passing(b: Barriers, i: int, ctx: TeamView)
    requires
        b.wf(),
        0 <= i < b.at.len(),
        b.at[i] == b.passed[i] + 1,
        b.shared_by(ctx),
    ensures
        ctx.generation != b.passed[i] % 0x1_0000_0000 <==> b.opened(i),
        b.opened(i) ==> b.pass(i).wf() && b.pass(i).shared_by(ctx),
{
    assert(b.generation == b.passed[i] || b.generation == b.passed[i] + 1);
}

/// Nobody passes a barrier that somebody has not arrived at.
pub proof fn law_barrier_separates(b: Barriers, i: int, j: int)
    requires
        b.wf(),
        0 <= i < b.at.len(),
        0 <= j < b.at.len(),
    ensures
        b.passed[i] <= b.at[j],
{
    assert(b.generation <= b.at[j]);
}

/// What a member of a team does next.
pub enum TeamStep {
    /// Member `i` arrives at its next barrier.
    Arrive(int),
    /// Member `i` passes the barrier where it waits.
    Pass(int),
    /// Member `i` runs its serial section.
    Run(int),
}

/// How many of the first `n` steps run a serial section.
pub open spec fn sections_run(steps: Seq<TeamStep>, n: int) -> nat
    decreases n,
{
    if n <= 0 {
        0
    } else {
        sections_run(steps, n - 1) + (if steps[n - 1] is Run {
            1nat
        } else {
            0
        })
    }
}

/// A team takes one step from `b` to `c` on its way through a serial section that
/// lies between barriers `g` and `g + 1`, where `ran` sections have been run. A
/// member whose `Team::serial` says so runs the section, once, when it has passed
/// the first barrier, and then goes to the second.
pub open spec fn is_serial_step(b: Barriers, c: Barriers, g: nat, ran: nat, step: TeamStep) -> bool {
    match step {
        TeamStep::Arrive(i) => {
            &&& b.walking(i)
            &&& i == 0 && b.passed[i] == g + 1 ==> ran > 0
            &&& c == b.arrive(i)
        },
        TeamStep::Pass(i) => b.opened(i) && c == b.pass(i),
        TeamStep::Run(i) => {
            &&& b.walking(i)
            &&& b.passed[i] == g + 1
            &&& i == 0
            &&& ran == 0
            &&& c == b
        },
    }
}

/// `states` are those of a team that takes `steps`, one by one and in any order of
/// its members, through a serial section between barriers `g` and `g + 1`.
pub open spec fn is_serial_history(
    states: Seq<Barriers>,
    steps: Seq<TeamStep>,
    g: nat,
) -> bool {
    &&& states.len() == steps.len() + 1
    &&& states[0].wf()
    &&& states[0].generation <= g
    &&& states[0].at[0] <= g
    &&& forall|n: int|
        0 <= n < steps.len() ==> is_serial_step(
            states[n],
            states[n + 1],
            g,
            sections_run(steps, n),
            #[trigger] steps[n],
        )
}

proof fn lemma_serial_history(states: Seq<Barriers>, steps: Seq<TeamStep>, g: nat, n: int)
    requires
        is_serial_history(states, steps, g),
        0 <= n <= steps.len(),
    ensures
        states[n].wf(),
        sections_run(steps, n) <= 1,
        states[n].at[0] >= g + 2 ==> sections_run(steps, n) == 1,
    decreases n,
{
    if n > 0 {
        lemma_serial_history(states, steps, g, n - 1);
        let b = states[n - 1];
        assert(is_serial_step(b, states[n], g, sections_run(steps, n - 1), steps[n - 1]));
        match steps[n - 1] {
            TeamStep::Arrive(i) => {
                lemma_arrival(b, i);
            },
            TeamStep::Pass(i) => {
                assert(b.passed[i] <= b.generation);
            },
            TeamStep::Run(i) => {},
        }
    }
}

/// In whatever order the members of a team take their steps, a serial section is run
/// by member 0 alone, when every member has arrived at the barrier before it and none
/// has passed the one behind it.
pub proof fn law_serial_section_is_alone(
    states: Seq<Barriers>,
    steps: Seq<TeamStep>,
    g: nat,
    n: int,
)
    requires
        is_serial_history(states, steps, g),
        0 <= n < steps.len(),
        steps[n] is Run,
    ensures
        steps[n] == TeamStep::Run(0),
        forall|j: int| 0 <= j < states[n].at.len() ==> #[trigger] states[n].at[j] >= g + 1,
        forall|j: int| 0 <= j < states[n].at.len() ==> #[trigger] states[n].passed[j] < g + 2,
{
    lemma_serial_history(states, steps, g, n);
    let b = states[n];
    assert(is_serial_step(b, states[n + 1], g, sections_run(steps, n), steps[n]));
    assert(b.passed[0] <= b.generation <= b.at[0]);
}

/// When a member of a team has passed the barrier behind a serial section, the
/// section has been run exactly once.
pub proof fn law_serial_section_is_run_once(
    states: Seq<Barriers>,
    steps: Seq<TeamStep>,
    g: nat,
    n: int,
    j: int,
)
    requires
        is_serial_history(states, steps, g),
        0 <= n <= steps.len(),
        0 <= j < states[n].at.len(),
        states[n].passed[j] >= g + 2,
    ensures
        sections_run(steps, n) == 1,
{
    lemma_serial_history(states, steps, g, n);
    assert(states[n].passed[j] <= states[n].generation);
    assert(states[n].generation <= states[n].at[0]);
}

/// Members at work on the chunks of one operation: the next chunk to claim, the
/// chunk that each member holds, and the chunks that have been run.
pub struct Claims {
    pub next: int,
    pub held: Seq<int>,
    pub done: Set<int>,
}

impl Claims {
    /// Every member holds the chunk of its number, the others are unclaimed.
    pub open spec fn start(nth: nat) -> Claims {
        Claims { next: nth as int, held: Seq::new(nth, |i: int| i), done: Set::empty() }
    }

    /// Whatever has been given out is held by one member or has been run, and not
    /// both; chunks past the last are never run.
    pub open spec fn wf(self, n_chunks: int) -> bool {
        &&& forall|i: int|
            0 <= i < self.held.len() ==> 0 <= #[trigger] self.held[i] < self.next
                && !self.done.contains(self.held[i])
        &&& forall|i: int, j: int|
            0 <= i < j < self.held.len() ==> #[trigger] self.held[i] != #[trigger] self.held[j]
        &&& forall|c: int| #[trigger] self.done.contains(c) ==> 0 <= c < self.next && c < n_chunks
        &&& forall|c: int|
            0 <= c < self.next && !#[trigger] self.done.contains(c) ==> self.held.contains(c)
    }

    /// Member `i` runs the chunk that it holds and claims another.
    pub open spec fn step(self, i: int) -> Claims {
        Claims {
            next: self.next + 1,
            held: self.held.update(i, self.next),
            done: self.done.insert(self.held[i]),
        }
    }

    /// The shared counter of a team that claims these chunks.
    pub open spec fn counted_by(self, ctx: TeamView) -> bool {
        ctx.steal == self.next % 0x1_0000_0000
    }

    /// No member holds a chunk that there is.
    pub open spec fn finished(self, n_chunks: int) -> bool {
        forall|i: int| 0 <= i < self.held.len() ==> #[trigger] self.held[i] >= n_chunks
    }
}

/// Claiming starts in order.
pub proof fn law_claims_start(nth: nat, n_chunks: int)
    ensures
        Claims::start(nth).wf(n_chunks),
{
    let s = Claims::start(nth);
    assert forall|c: int| 0 <= c < s.next && !#[trigger] s.done.contains(c) implies s.held.contains(
        c,
    ) by {
        assert(s.held[c] == c);
    }
}

/// A member that runs the chunk it holds runs one that nobody has run, and
/// claiming stays in order.
pub proof fn law_claims_step(s: Claims, i: int, n_chunks: int)
    requires
        s.wf(n_chunks),
        0 <= i < s.held.len(),
        s.held[i] < n_chunks,
    ensures
        !s.done.contains(s.held[i]),
        s.step(i).wf(n_chunks),
{
    let t = s.step(i);
    assert forall|a: int| 0 <= a < t.held.len() implies 0 <= #[trigger] t.held[a] < t.next
        && !t.done.contains(t.held[a]) by {
        if a != i {
            assert(t.held[a] == s.held[a]);
        }
    }
    assert forall|a: int, b: int| 0 <= a < b < t.held.len() implies #[trigger] t.held[a]
        != #[trigger] t.held[b] by {
        if a != i {
            assert(t.held[a] == s.held[a]);
        }
        if b != i {
            assert(t.held[b] == s.held[b]);
        }
    }
    assert forall|c: int| 0 <= c < t.next && !#[trigger] t.done.contains(c) implies t.held.contains(
        c,
    ) by {
        if c == s.next {
            assert(t.held[i] == c);
        } else {
            assert(!s.done.contains(c));
            assert(s.held.contains(c));
            let a = choose|a: int| 0 <= a < s.held.len() && s.held[a] == c;
            assert(a != i);
            assert(t.held[a] == c);
        }
    }
}

/// `TeamCtx::reset_chunks` starts the claiming, and as long as the counter has not
/// wrapped `TeamCtx::claim` gives out the next chunk and counts on.
pub proof fn law_claiming(s: Claims, i: int, ctx: TeamView, nth: u32)
    requires
        s.next >= 0,
    ensures
        Claims::start(nth as nat).counted_by(TeamView { steal: nth, ..ctx }),
        s.counted_by(ctx) ==> s.step(i).counted_by(TeamView { steal: after(ctx.steal), ..ctx }),
        s.counted_by(ctx) && s.next <= u32::MAX && 0 <= i < s.held.len() ==> s.step(i).held[i]
            == ctx.steal,
{
}

/// When every member has run out of chunks, every chunk has been run. (And none
/// twice, since each was fresh when it was run.)
pub proof fn law_claims_cover(s: Claims, n_chunks: int)
    requires
        s.wf(n_chunks),
        s.held.len() > 0,
        s.finished(n_chunks),
    ensures
        forall|c: int| s.done.contains(c) <==> 0 <= c < n_chunks,
{
    assert(s.held[0] >= n_chunks);
    assert forall|c: int| s.done.contains(c) <==> 0 <= c < n_chunks by {
        if 0 <= c < n_chunks && !s.done.contains(c) {
            assert(s.held.contains(c));
            let a = choose|a: int| 0 <= a < s.held.len() && s.held[a] == c;
            assert(s.held[a] >= n_chunks);
        }
    }
}

/// Who has access to a cell, and what it holds.
pub struct CellView<T> {
    pub readers: nat,
    pub writing: bool,
    pub value: T,
}

/// A shared slot whose access is checked as the team runs: any number of readers,
/// or one writer. Access is by guards, which are handed back when they are done
/// with.
#[derive(Debug)]
pub struct TeamCell<T> {
    /// The highest bit says that there is a writer, the others count readers.
    state: u32,
    value: T,
}

/// Set while there is a writer.
pub const WRITER: u32 = 0x8000_0000;

/// Exclusive access to a cell.
#[derive(Debug)]
pub struct TeamCellMut {
    granted: (),
}

/// Shared access to a cell.
#[derive(Debug)]
pub struct TeamCellRef {
    granted: (),
}

impl<T> View for TeamCell<T> {
    type V = CellView<T>;

    closed spec fn view(&self) -> CellView<T> {
        CellView {
            readers: (self.state % WRITER) as nat,
            writing: self.state >= WRITER,
            value: self.value,
        }
    }
}

impl<T> CellView<T> {
    /// Nobody reads while somebody writes.
    pub open spec fn wf(self) -> bool {
        self.writing ==> self.readers == 0
    }

    /// No guard is out.
    pub open spec fn free(self) -> bool {
        self.readers == 0 && !self.writing
    }
}

impl<T> TeamCell<T> {
    /// A cell to which nobody has access yet.
    pub fn new(value: T) -> (c: Self)
        ensures
            c@.wf(),
            c@ == (CellView { readers: 0, writing: false, value }),
    {
        TeamCell { state: 0, value }
    }

    /// Exclusive access, refused while any guard is out.
    pub fn get_mut(&mut self) -> (g: Option<TeamCellMut>)
        requires
            old(self)@.wf(),
        ensures
            final(self)@.wf(),
            g is Some <==> old(self)@.free(),
            g is Some ==> final(self)@ == (CellView { writing: true, ..old(self)@ }),
            g is None ==> final(self)@ == old(self)@,
    {
        if self.state == 0 {
            self.state = WRITER;
            Some(TeamCellMut { granted: () })
        } else {
            None
        }
    }

    /// Shared access, refused while somebody writes.
    pub fn read(&mut self) -> (g: Option<TeamCellRef>)
        requires
            old(self)@.wf(),
            old(self)@.readers + 1 < WRITER,
        ensures
            final(self)@.wf(),
            g is Some <==> !old(self)@.writing,
            g is Some ==> final(self)@ == (CellView {
                readers: old(self)@.readers + 1,
                ..old(self)@
            }),
            g is None ==> final(self)@ == old(self)@,
    {
        if self.state >= WRITER {
            None
        } else {
            self.state = self.state + 1;
            Some(TeamCellRef { granted: () })
        }
    }

    /// What the cell holds, for a reader.
    pub fn get(&self, _guard: &TeamCellRef) -> (v: &T)
        requires
            self@.readers > 0,
        ensures
            *v == self@.value,
    {
        &self.value
    }

    /// Replaces what the cell holds, for the writer.
    pub fn set(&mut self, _guard: &TeamCellMut, value: T)
        requires
            old(self)@.wf(),
            old(self)@.writing,
        ensures
            final(self)@.wf(),
            final(self)@ == (CellView { value, ..old(self)@ }),
    {
        self.value = value;
    }

    /// What the cell holds, for the writer to change in place.
    pub fn value_mut(&mut self, _guard: &TeamCellMut) -> (v: &mut T)
        requires
            old(self)@.wf(),
            old(self)@.writing,
        ensures
            *v == old(self)@.value,
            final(self)@ == (CellView { value: *final(v), ..old(self)@ }),
    {
        &mut self.value
    }

    /// The writer is done.
    pub fn release_mut(&mut self, _guard: TeamCellMut)
        requires
            old(self)@.wf(),
            old(self)@.writing,
        ensures
            final(self)@ == (CellView { writing: false, ..old(self)@ }),
            final(self)@.free(),
    {
        self.state = self.state - WRITER;
    }

    /// A reader is done.
    pub fn release(&mut self, _guard: TeamCellRef)
        requires
            old(self)@.wf(),
            old(self)@.readers > 0,
        ensures
            final(self)@.wf(),
            final(self)@ == (CellView {
                readers: (old(self)@.readers - 1) as nat,
                ..old(self)@
            }),
    {
        self.state = self.state - 1;
    }
}

/// Multiplications below which an operation is left to the first member.
pub const MIN_MACS_TO_SPLIT: usize = 32768;

/// An operation on `n` pieces of `macs` multiplications each is worth splitting.
pub open spec fn worth_splitting(n: int, macs: int) -> bool {
    n * macs >= MIN_MACS_TO_SPLIT
}

/// Whether an operation is worth splitting.
pub fn is_worth_splitting(n: usize, macs: usize) -> (r: bool)
    ensures
        r == worth_splitting(n as int, macs as int),
{
    proof {
        assert(n as u128 * macs as u128 <= u128::MAX) by (nonlinear_arith)
            requires
                n <= 0xffff_ffff_ffff_ffff,
                macs <= 0xffff_ffff_ffff_ffff,
        ;
    }
    n as u128 * macs as u128 >= MIN_MACS_TO_SPLIT as u128
}

/// Rows of each chunk: about four chunks per member, but no fewer than sixteen
/// rows each.
pub open spec fn rows_per_chunk(n_rows: int, nth: int) -> int {
    let size = chunk_count(n_rows, 4 * nth);
    if size < 16 {
        16
    } else {
        size
    }
}

/// Rows of each chunk.
pub fn chunk_rows(n_rows: usize, nth: usize) -> (n: usize)
    requires
        0 < nth,
        4 * nth <= usize::MAX,
    ensures
        n == rows_per_chunk(n_rows as int, nth as int),
        n >= 16,
{
    let size: usize = div_ceil(n_rows, 4 * nth);
    if size < 16 {
        16
    } else {
        size
    }
}

/// A team that fills rows: the chunks as they are claimed, and what is filled in.
pub struct Filling {
    pub claims: Claims,
    pub out: Seq<u32>,
}

/// `out` with rows `lo..hi` filled in.
pub open spec fn filled(out: Seq<u32>, f: spec_fn(int) -> u32, lo: int, hi: int) -> Seq<u32> {
    Seq::new(
        out.len(),
        |r: int|
            if lo <= r < hi {
                f(r)
            } else {
                out[r]
            },
    )
}

impl Filling {
    /// Member `i` fills in the rows of the chunk that it holds, and claims another.
    pub open spec fn step(self, f: spec_fn(int) -> u32, n_rows: int, chunk: int, i: int) -> Filling {
        let c = self.claims.held[i];
        Filling {
            claims: self.claims.step(i),
            out: filled(self.out, f, chunk_start(c, chunk), chunk_end(c, n_rows, chunk)),
        }
    }
}

/// `states` are those of a team of `nth` that fills `n_rows` rows with `f`, in chunks
/// of `chunk` rows, where the members take their steps in the order of `steps`.
pub open spec fn is_filling(
    states: Seq<Filling>,
    steps: Seq<int>,
    nth: nat,
    f: spec_fn(int) -> u32,
    n_rows: int,
    chunk: int,
) -> bool {
    &&& states.len() == steps.len() + 1
    &&& states[0].claims == Claims::start(nth)
    &&& n_rows <= states[0].out.len()
    &&& forall|n: int|
        0 <= n < steps.len() ==> {
            &&& 0 <= #[trigger] steps[n] < nth
            &&& states[n].claims.held[steps[n]] < chunk_count(n_rows, chunk)
            &&& states[n + 1] == states[n].step(f, n_rows, chunk, steps[n])
        }
}

/// The rows of the chunks that have been run are filled in, and no other row has
/// changed that is not to be filled.
proof fn lemma_filling(
    states: Seq<Filling>,
    steps: Seq<int>,
    nth: nat,
    f: spec_fn(int) -> u32,
    n_rows: int,
    chunk: int,
    n: int,
)
    requires
        is_filling(states, steps, nth, f, n_rows, chunk),
        0 < chunk,
        0 <= n_rows,
        0 <= n <= steps.len(),
    ensures
        states[n].claims.wf(chunk_count(n_rows, chunk)),
        states[n].claims.held.len() == nth,
        states[n].out.len() == states[0].out.len(),
        forall|r: int|
            0 <= r < n_rows && states[n].claims.done.contains(r / chunk)
                ==> #[trigger] states[n].out[r] == f(r),
        forall|r: int|
            n_rows <= r < states[0].out.len() ==> #[trigger] states[n].out[r] == states[0].out[r],
    decreases n,
{
    let n_chunks = chunk_count(n_rows, chunk);
    if n == 0 {
        law_claims_start(nth, n_chunks);
    } else {
        lemma_filling(states, steps, nth, f, n_rows, chunk, n - 1);
        let p = states[n - 1];
        let i = steps[n - 1];
        let c = p.claims.held[i];
        assert(states[n] == p.step(f, n_rows, chunk, i));
        law_claims_step(p.claims, i, n_chunks);
        lemma_chunk_bounds(c, n_rows, chunk);
        assert forall|r: int|
            0 <= r < n_rows && states[n].claims.done.contains(r / chunk) implies #[trigger] states[n].out[r]
            == f(r) by {
            law_chunks_partition(n_rows, chunk, r);
            if r / chunk != c {
                assert(p.claims.done.contains(r / chunk));
                assert(p.out[r] == f(r));
            }
        }
        assert forall|r: int|
            n_rows <= r < states[0].out.len() implies #[trigger] states[n].out[r]
            == states[0].out[r] by {
            assert(p.out[r] == states[0].out[r]);
        }
    }
}

/// In whatever order the members of a team claim the chunks of an operation, once
/// every member has run out of them each row holds what it is filled with, and the
/// rest is as it was: what `team_fill_rows_weighted` gives.
pub proof fn law_any_order_fills_the_rows(
    states: Seq<Filling>,
    steps: Seq<int>,
    nth: nat,
    f: spec_fn(int) -> u32,
    n_rows: int,
    chunk: int,
)
    requires
        is_filling(states, steps, nth, f, n_rows, chunk),
        0 < nth,
        0 < chunk,
        0 <= n_rows,
        states.last().claims.finished(chunk_count(n_rows, chunk)),
    ensures
        states.last().out == filled(states[0].out, f, 0, n_rows),
{
    let n = steps.len() as int;
    let n_chunks = chunk_count(n_rows, chunk);
    lemma_filling(states, steps, nth, f, n_rows, chunk, n);
    law_claims_cover(states[n].claims, n_chunks);
    assert forall|r: int| 0 <= r < states[0].out.len() implies states[n].out[r] == filled(
        states[0].out,
        f,
        0,
        n_rows,
    )[r] by {
        if r < n_rows {
            law_chunks_partition(n_rows, chunk, r);
            assert(states[n].claims.done.contains(r / chunk));
        }
    }
    assert(states[n].out =~= filled(states[0].out, f, 0, n_rows));
}

/// Fills rows `lo..hi` of `out` with `dot`.
fn fill_range<D: Fn(usize) -> u32>(out: &mut Vec<u32>, lo: usize, hi: usize, dot: &D)
    requires
        lo <= hi <= old(out)@.len(),
        forall|r: usize| lo <= r < hi ==> #[trigger] call_requires(*dot, (r,)),
    ensures
        final(out)@.len() == old(out)@.len(),
        forall|r: usize| lo <= r < hi ==> call_ensures(*dot, (r,), #[trigger] final(out)@[r as int]),
        forall|i: int|
            0 <= i < old(out)@.len() && !(lo <= i < hi) ==> #[trigger] final(out)@[i] == old(
                out,
            )@[i],
{
    let ghost before = out@;
    let mut r: usize = lo;
    while r < hi
        invariant
            lo <= r <= hi,
            hi <= before.len(),
            out@.len() == before.len(),
            forall|q: usize| lo <= q < hi ==> #[trigger] call_requires(*dot, (q,)),
            forall|q: usize| lo <= q < r ==> call_ensures(*dot, (q,), #[trigger] out@[q as int]),
            forall|i: int|
                0 <= i < before.len() && !(lo <= i < r) ==> #[trigger] out@[i] == before[i],
        decreases hi - r,
    {
        let v: u32 = dot(r);
        out.set(r, v);
        r += 1;
    }
}

/// Fills `out[..n_rows]` with `dot(r)`, for a team of `nth`: whole where a row's
/// cost makes that too little to split, else chunk by chunk.
pub fn team_fill_rows_weighted<D: Fn(usize) -> u32>(
    nth: usize,
    out: &mut Vec<u32>,
    n_rows: usize,
    row_macs: usize,
    dot: &D,
)
    requires
        0 < nth,
        4 * nth <= usize::MAX,
        n_rows <= old(out)@.len(),
        forall|r: usize| r < n_rows ==> #[trigger] call_requires(*dot, (r,)),
    ensures
        final(out)@.len() == old(out)@.len(),
        forall|r: usize|
            r < n_rows ==> call_ensures(*dot, (r,), #[trigger] final(out)@[r as int]),
        forall|i: int|
            n_rows <= i < old(out)@.len() ==> #[trigger] final(out)@[i] == old(out)@[i],
{
    if !is_worth_splitting(n_rows, row_macs) {
        fill_range(out, 0, n_rows, dot);
        return;
    }
    let ghost before = out@;
    let chunk: usize = chunk_rows(n_rows, nth);
    let n_chunks: usize = div_ceil(n_rows, chunk);
    let mut c: usize = 0;
    let mut end: usize = 0;
    while c < n_chunks
        invariant
            chunk >= 16,
            n_chunks == chunk_count(n_rows as int, chunk as int),
            c <= n_chunks,
            n_rows <= before.len(),
            out@.len() == before.len(),
            end <= n_rows,
            c < n_chunks ==> end == chunk_start(c as int, chunk as int),
            c == n_chunks ==> end == n_rows,
            forall|r: usize| r < n_rows ==> #[trigger] call_requires(*dot, (r,)),
            forall|r: usize| r < end ==> call_ensures(*dot, (r,), #[trigger] out@[r as int]),
            forall|i: int| end <= i < before.len() ==> #[trigger] out@[i] == before[i],
        decreases n_chunks - c,
    {
        proof {
            lemma_chunk_bounds(c as int, n_rows as int, chunk as int);
        }
        let (lo, hi) = chunk_range(c, n_rows, chunk);
        let ghost prior = out@;
        fill_range(out, lo, hi, dot);
        proof {
            assert forall|r: usize| r < hi implies call_ensures(*dot, (r,), #[trigger] out@[r as int]) by {
                if r < lo {
                    assert(out@[r as int] == prior[r as int]);
                }
            }
        }
        end = hi;
        c += 1;
    }
}

/// `f(i)` gives `s`.
pub open spec fn gives<S: Fn(usize) -> Vec<u32>>(f: S, i: usize, s: Seq<u32>) -> bool {
    exists|v: Vec<u32>| #[trigger] call_ensures(f, (i,), v) && v@ == s
}

/// Fills the first `n_slices` slices of `out`, each `width` wide: slice `i` with
/// `f(i)`. The slices are disjoint, so it does not matter which member fills which.
pub fn team_fill_slices<S: Fn(usize) -> Vec<u32>>(
    out: &mut Vec<u32>,
    n_slices: usize,
    width: usize,
    f: &S,
)
    requires
        n_slices * width <= old(out)@.len(),
        forall|i: usize| i < n_slices ==> #[trigger] call_requires(*f, (i,)),
        forall|i: usize, v: Vec<u32>|
            i < n_slices && #[trigger] call_ensures(*f, (i,), v) ==> v@.len() == width,
    ensures
        final(out)@.len() == old(out)@.len(),
        forall|i: usize|
            i < n_slices ==> #[trigger] gives(*f, i, row_of(final(out)@, i as int, width as int)),
        forall|i: int|
            n_slices * width <= i < old(out)@.len() ==> #[trigger] final(out)@[i] == old(out)@[i],
{
    let ghost before = out@;
    proof {
        assert(out.len() == out@.len());
    }
    let mut i: usize = 0;
    while i < n_slices
        invariant
            n_slices * width <= before.len(),
            before.len() <= usize::MAX,
            out@.len() == before.len(),
            i <= n_slices,
            forall|j: usize| j < n_slices ==> #[trigger] call_requires(*f, (j,)),
            forall|j: usize, v: Vec<u32>|
                j < n_slices && #[trigger] call_ensures(*f, (j,), v) ==> v@.len() == width,
            forall|j: usize|
                j < i ==> #[trigger] gives(*f, j, row_of(out@, j as int, width as int)),
            forall|j: int| i * width <= j < before.len() ==> #[trigger] out@[j] == before[j],
        decreases n_slices - i,
    {
        let v: Vec<u32> = f(i);
        let ghost prior = out@;
        proof {
            lemma_row_in(i as int, n_slices as int, width as int);
            assert((i + 1) * width == i * width + width) by (nonlinear_arith);
        }
        let lo: usize = i * width;
        let mut c: usize = 0;
        while c < width
            invariant
                v@.len() == width,
                lo == i * width,
                lo + width <= before.len(),
                before.len() <= usize::MAX,
                out@.len() == before.len(),
                prior.len() == before.len(),
                c <= width,
                forall|j: int| lo <= j < lo + c ==> #[trigger] out@[j] == v@[j - lo],
                forall|j: int|
                    0 <= j < before.len() && !(lo <= j < lo + c) ==> #[trigger] out@[j] == prior[j],
            decreases width - c,
        {
            out.set(lo + c, v[c]);
            c += 1;
        }
        proof {
            assert(row_of(out@, i as int, width as int) =~= v@);
            assert(gives(*f, i, row_of(out@, i as int, width as int)));
            assert forall|j: usize| j < i implies #[trigger] gives(
                *f,
                j,
                row_of(out@, j as int, width as int),
            ) by {
                assert(gives(*f, j, row_of(prior, j as int, width as int)));
                lemma_row_in(j as int, i as int, width as int);
                assert(row_of(out@, j as int, width as int) =~= row_of(
                    prior,
                    j as int,
                    width as int,
                ));
            }
        }
        i += 1;
    }
}

/// Fills `out[..n_rows]` with `dot(r)`, rows that cost next to nothing.
pub fn team_fill_rows<D: Fn(usize) -> u32>(nth: usize, out: &mut Vec<u32>, n_rows: usize, dot: &D)
    requires
        0 < nth,
        4 * nth <= usize::MAX,
        n_rows <= old(out)@.len(),
        forall|r: usize| r < n_rows ==> #[trigger] call_requires(*dot, (r,)),
    ensures
        final(out)@.len() == old(out)@.len(),
        forall|r: usize|
            r < n_rows ==> call_ensures(*dot, (r,), #[trigger] final(out)@[r as int]),
        forall|i: int|
            n_rows <= i < old(out)@.len() ==> #[trigger] final(out)@[i] == old(out)@[i],
{
    team_fill_rows_weighted(nth, out, n_rows, 1, dot);
}

} // verus!
