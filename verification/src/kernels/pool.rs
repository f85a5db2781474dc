//! The worker pool: jobs are cut into chunks, which the submitter and the workers
//! claim one by one; the submitter returns when every chunk has finished.
use crate::kernels::team::{count_of, lemma_count_bounds, lemma_count_update};
use crate::kernels::threading::default_threads;
use vstd::prelude::*;

verus! {

/// One published job.
#[derive(Debug)]
pub struct Job {
    n_chunks: u32,
    /// Next chunk to claim.
    next: u32,
    /// Chunks not yet finished.
    remaining: u32,
    /// Whether any chunk failed.
    panicked: bool,
    /// A team job: its chunks are memberships, whose holders wait for each other,
    /// so that a thread must not hold two.
    team: bool,
}

/// What is known of a job.
pub struct JobView {
    pub n_chunks: u32,
    pub next: u32,
    pub remaining: u32,
    pub panicked: bool,
    pub team: bool,
}

impl View for Job {
    type V = JobView;

    closed spec fn view(&self) -> JobView {
        JobView {
            n_chunks: self.n_chunks,
            next: self.next,
            remaining: self.remaining,
            panicked: self.panicked,
            team: self.team,
        }
    }
}

impl JobView {
    /// No more chunks are claimed than there are, and what has not been claimed has
    /// not finished.
    pub open spec fn wf(self) -> bool {
        &&& self.next <= self.n_chunks
        &&& self.n_chunks - self.next <= self.remaining <= self.n_chunks
    }

    /// A job of which no chunk has been claimed.
    pub open spec fn start(n_chunks: u32, team: bool) -> JobView {
        JobView { n_chunks, next: 0, remaining: n_chunks, panicked: false, team }
    }

    /// The job after a claim.
    pub open spec fn claimed(self) -> JobView {
        if self.next < self.n_chunks {
            JobView { next: (self.next + 1) as u32, ..self }
        } else {
            self
        }
    }

    /// The job after a chunk has finished.
    pub open spec fn finished(self, failed: bool) -> JobView {
        JobView {
            remaining: (self.remaining - 1) as u32,
            panicked: self.panicked || failed,
            ..self
        }
    }
}

impl Job {
    /// Publishes a job of `n_chunks` chunks.
    pub fn new(n_chunks: usize, team: bool) -> (job: Self)
        requires
            n_chunks <= u32::MAX,
        ensures
            job@ == JobView::start(n_chunks as u32, team),
            job@.wf(),
    {
        Job {
            n_chunks: n_chunks as u32,
            next: 0,
            remaining: n_chunks as u32,
            panicked: false,
            team,
        }
    }

    /// Claims the next chunk, if there is one.
    pub fn claim(&mut self) -> (chunk: Option<usize>)
        requires
            old(self)@.wf(),
        ensures
            final(self)@ == old(self)@.claimed(),
            final(self)@.wf(),
            chunk == (if old(self)@.next < old(self)@.n_chunks {
                Some(old(self)@.next as usize)
            } else {
                None::<usize>
            }),
    {
        if self.next < self.n_chunks {
            let chunk: usize = self.next as usize;
            self.next = self.next + 1;
            Some(chunk)
        } else {
            None
        }
    }

    /// Reports a claimed chunk as finished, or failed.
    pub fn finish(&mut self, failed: bool)
        requires
            old(self)@.wf(),
            old(self)@.remaining > old(self)@.n_chunks - old(self)@.next,
        ensures
            final(self)@ == old(self)@.finished(failed),
            final(self)@.wf(),
    {
        self.remaining = self.remaining - 1;
        self.panicked = self.panicked || failed;
    }

    /// Whether every chunk has finished.
    pub fn is_done(&self) -> (b: bool)
        ensures
            b == (self@.remaining == 0),
    {
        self.remaining == 0
    }

    /// Whether any chunk has failed.
    pub fn has_failed(&self) -> (b: bool)
        ensures
            b == self@.panicked,
    {
        self.panicked
    }

    /// Whether a thread may claim another chunk after its first.
    pub fn shares_out(&self) -> (b: bool)
        ensures
            b == !self@.team,
    {
        !self.team
    }
}

/// A job as it runs: what has become of every chunk. Zero stands for a chunk that
/// nobody has claimed, one for a chunk that is running, two for one that has
/// finished.
pub struct JobRun {
    pub next: int,
    pub status: Seq<nat>,
}

impl JobRun {
    /// A job of which no chunk has been claimed.
    pub open spec fn start(n_chunks: nat) -> JobRun {
        JobRun { next: 0, status: Seq::new(n_chunks, |i: int| 0nat) }
    }

    /// Chunks are claimed in order.
    pub open spec fn wf(self) -> bool {
        &&& 0 <= self.next <= self.status.len()
        &&& forall|i: int| 0 <= i < self.next ==> 1 <= #[trigger] self.status[i] <= 2
        &&& forall|i: int| self.next <= i < self.status.len() ==> #[trigger] self.status[i] == 0
    }

    /// Some thread claims the next chunk.
    pub open spec fn claim(self) -> JobRun {
        JobRun { next: self.next + 1, status: self.status.update(self.next, 1) }
    }

    /// Chunk `i` finishes.
    pub open spec fn finish(self, i: int) -> JobRun {
        JobRun { status: self.status.update(i, 2), ..self }
    }

    /// The job that is shared while this runs.
    pub open spec fn shared_by(self, job: JobView) -> bool {
        &&& job.n_chunks == self.status.len()
        &&& job.next == self.next
        &&& job.remaining == self.status.len() - count_of(self.status, 2)
    }
}

/// A job starts in order.
pub proof fn law_job_starts(n_chunks: u32, team: bool)
    ensures
        JobRun::start(n_chunks as nat).wf(),
        JobRun::start(n_chunks as nat).shared_by(JobView::start(n_chunks, team)),
{
    lemma_count_bounds(JobRun::start(n_chunks as nat).status, 2);
}

/// A claim hands out a chunk that nobody has had: it was waiting, and is running
/// from then on.
pub proof fn law_job_claim(run: JobRun, job: JobView)
    requires
        run.wf(),
        run.shared_by(job),
        job.next < job.n_chunks,
    ensures
        run.status[job.next as int] == 0,
        run.claim().wf(),
        run.claim().shared_by(job.claimed()),
        job.wf(),
{
    let s = run.status;
    let u = s.update(run.next, 1);
    lemma_count_same(s, run.next, 1, 2);
    lemma_unclaimed_unfinished(run);
    assert forall|i: int| 0 <= i < run.next + 1 implies 1 <= #[trigger] u[i] <= 2 by {
        if i < run.next {
            assert(s[i] == u[i]);
        }
    }
    assert forall|i: int| run.next + 1 <= i < u.len() implies #[trigger] u[i] == 0 by {
        assert(s[i] == u[i]);
    }
}

/// A running chunk can be reported as finished, whichever it is.
pub proof fn law_job_finish(run: JobRun, job: JobView, i: int, failed: bool)
    requires
        run.wf(),
        run.shared_by(job),
        0 <= i < run.status.len(),
        run.status[i] == 1,
    ensures
        job.wf(),
        job.remaining > job.n_chunks - job.next,
        run.finish(i).wf(),
        run.finish(i).shared_by(job.finished(failed)),
{
    let s = run.status;
    let u = s.update(i, 2);
    lemma_count_update(s, i, 2);
    lemma_unclaimed_unfinished(run);
    lemma_unclaimed_unfinished(run.finish(i));
    lemma_count_bounds(u, 2);
    assert forall|j: int| 0 <= j < run.next implies 1 <= #[trigger] u[j] <= 2 by {
        if j != i {
            assert(s[j] == u[j]);
        }
    }
    assert forall|j: int| run.next <= j < u.len() implies #[trigger] u[j] == 0 by {
        assert(s[j] == u[j]);
    }
}

/// When nothing remains, every chunk has run and none is running: the submitter
/// can let go of what the chunks borrow.
pub proof fn law_job_done(run: JobRun, job: JobView)
    requires
        run.wf(),
        run.shared_by(job),
        job.remaining == 0,
    ensures
        forall|i: int| 0 <= i < run.status.len() ==> #[trigger] run.status[i] == 2,
{
    lemma_count_bounds(run.status, 2);
}

/// Replacing one other value by another leaves the count of `v` as it is.
proof fn lemma_count_same(s: Seq<nat>, i: int, x: nat, v: nat)
    requires
        0 <= i < s.len(),
        s[i] != v,
        x != v,
    ensures
        count_of(s.update(i, x), v) == count_of(s, v),
    decreases s.len(),
{
    let u = s.update(i, x);
    if i == s.len() - 1 {
        assert(u.drop_last() =~= s.drop_last());
    } else {
        assert(u.drop_last() =~= s.drop_last().update(i, x));
        lemma_count_same(s.drop_last(), i, x, v);
    }
}

/// No more chunks have finished than have been claimed.
proof fn lemma_unclaimed_unfinished(run: JobRun)
    requires
        0 <= run.next <= run.status.len(),
        forall|i: int| run.next <= i < run.status.len() ==> #[trigger] run.status[i] == 0,
    ensures
        count_of(run.status, 2) <= run.next,
    decreases run.status.len(),
{
    let s = run.status;
    if run.next == s.len() {
        lemma_count_bounds(s, 2);
    } else {
        let r = JobRun { next: run.next, status: s.drop_last() };
        assert(s[s.len() - 1] == 0);
        assert forall|i: int| r.next <= i < r.status.len() implies #[trigger] r.status[i] == 0 by {
            assert(s[i] == r.status[i]);
        }
        lemma_unclaimed_unfinished(r);
    }
}

/// How a number of chunks is run.
#[derive(Debug, Clone, Copy, PartialEq, Eq, Structural)]
pub enum RunMode {
    /// There is nothing to run.
    Nothing,
    /// The caller runs all chunks itself.
    Inline,
    /// The workers help.
    Dispatch,
}

/// How `n_chunks` chunks are run on a pool of `threads`.
pub fn run_mode(n_chunks: usize, threads: usize) -> (m: RunMode)
    ensures
        m == (if n_chunks == 0 {
            RunMode::Nothing
        } else if n_chunks == 1 || threads == 1 {
            RunMode::Inline
        } else {
            RunMode::Dispatch
        }),
{
    if n_chunks == 0 {
        RunMode::Nothing
    } else if n_chunks == 1 || threads == 1 {
        RunMode::Inline
    } else {
        RunMode::Dispatch
    }
}

/// Looks at a shared counter before waiting is left to the system.
pub const SPIN_ITERS: u32 = 200000;

/// What a worker does when it looks for a job.
#[derive(Debug, Clone, Copy, PartialEq, Eq, Structural)]
pub enum Look {
    /// There is a job it has not seen.
    Work,
    /// Look again.
    Spin,
    /// Sleep until woken.
    Park,
}

/// What a worker that has last seen job number `seen` does after `spins` looks in
/// vain, when `epoch` is the number of the current one.
pub fn worker_look(seen: u64, epoch: u64, spins: u32) -> (l: Look)
    ensures
        l == (if epoch != seen {
            Look::Work
        } else if spins < SPIN_ITERS {
            Look::Spin
        } else {
            Look::Park
        }),
{
    if epoch != seen {
        Look::Work
    } else if spins < SPIN_ITERS {
        Look::Spin
    } else {
        Look::Park
    }
}

/// Claims and runs chunks of `job`: all that are left, or of a team job one.
pub fn execute_chunks<F: Fn(usize)>(job: &mut Job, f: &F)
    requires
        old(job)@.wf(),
        forall|i: usize| i < old(job)@.n_chunks ==> #[trigger] call_requires(*f, (i,)),
    ensures
        final(job)@.wf(),
        ({
            let taken: int = if old(job)@.team && old(job)@.next < old(job)@.n_chunks {
                1
            } else {
                old(job)@.n_chunks - old(job)@.next
            };
            &&& final(job)@ == (JobView {
                next: (old(job)@.next + taken) as u32,
                remaining: (old(job)@.remaining - taken) as u32,
                ..old(job)@
            })
            &&& forall|i: usize|
                old(job)@.next <= i < old(job)@.next + taken ==> #[trigger] call_ensures(
                    *f,
                    (i,),
                    (),
                )
        }),
{
    let ghost start = job@;
    let shares_out: bool = job.shares_out();
    loop
        invariant
            start == old(job)@,
            start.wf(),
            shares_out == !start.team,
            forall|i: usize| i < start.n_chunks ==> #[trigger] call_requires(*f, (i,)),
            job@.wf(),
            start.next <= job@.next,
            job@ == (JobView {
                next: job@.next,
                remaining: (start.remaining - (job@.next - start.next)) as u32,
                ..start
            }),
            start.team ==> job@.next == start.next,
            forall|i: usize|
                start.next <= i < job@.next ==> #[trigger] call_ensures(*f, (i,), ()),
        decreases start.n_chunks - job@.next,
    {
        match job.claim() {
            None => {
                return;
            },
            Some(i) => {
                f(i);
                job.finish(false);
                if !shares_out {
                    return;
                }
            },
        }
    }
}

/// The pool: how many threads, the submitting one included, share the chunks.
#[derive(Debug, Clone, Copy, PartialEq, Eq, Structural)]
pub struct Pool {
    pub threads: usize,
}

impl Pool {
    /// Runs `f(chunk)` for every chunk below `n_chunks`.
    pub fn run<F: Fn(usize)>(&self, n_chunks: usize, f: &F)
        requires
            n_chunks <= u32::MAX,
            forall|i: usize| i < n_chunks ==> #[trigger] call_requires(*f, (i,)),
        ensures
            forall|i: usize| i < n_chunks ==> #[trigger] call_ensures(*f, (i,), ()),
    {
        let mut job = Job::new(n_chunks, false);
        execute_chunks(&mut job, f);
    }

    /// Runs `f(ith)` for every thread of the pool.
    pub fn run_team<F: Fn(usize)>(&self, f: &F)
        requires
            self.threads <= u32::MAX,
            forall|i: usize| i < self.threads ==> #[trigger] call_requires(*f, (i,)),
        ensures
            forall|i: usize| i < self.threads ==> #[trigger] call_ensures(*f, (i,), ()),
    {
        let mut job = Job::new(self.threads, true);
        let ghost start = job@;
        let mut t: usize = 0;
        while t < self.threads
            invariant
                self.threads <= u32::MAX,
                forall|i: usize| i < self.threads ==> #[trigger] call_requires(*f, (i,)),
                t <= self.threads,
                job@.wf(),
                job@.team,
                job@.n_chunks == self.threads,
                job@.next == t,
                forall|i: usize| i < t ==> #[trigger] call_ensures(*f, (i,), ()),
            decreases self.threads - t,
        {
            execute_chunks(&mut job, f);
            t += 1;
        }
    }
}

/// The pool of a process, sized to what the machine offers.
pub fn global(available: Option<usize>) -> (p: Pool)
    ensures
        p.threads == match available {
            Some(a) => if a < 8 {
                a
            } else {
                8
            },
            None => 1,
        },
{
    Pool { threads: default_threads(available) }
}

} // verus!
