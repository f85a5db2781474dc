//! Laws of how work is shared out and buffers are reused.
use crate::kernels::pool::JobView;
use crate::kernels::team::{after, filled, rows_per_chunk, worth_splitting};
use crate::kernels::threading::{
    chunk_count, chunk_list, matmul_split, split_size,
};
use crate::tensor::buffer_pool::{bucket_of, bucket_size, is_bucket_for, lemma_bucket_unique, PoolView};
use vstd::arithmetic::div_mod::lemma_fundamental_div_mod_converse;
use vstd::arithmetic::power2::{lemma2_to64, lemma_pow2_unfold, pow2};
use vstd::prelude::*;

verus! {

/// Ranges of `size` items each, one behind the other, the last one cut off at the end: there
/// are just as many as it takes.
pub proof fn law_ranges_of_a_size(total: int, size: int, n: int, i: int)
    requires
        0 < size,
        0 < total <= usize::MAX,
        (n - 1) * size < total <= n * size,
        0 <= i < n,
    ensures
        chunk_list(total, size).len() == n,
        chunk_list(total, size)[i].0 == i * size,
        i < n - 1 ==> chunk_list(total, size)[i].1 == i * size + size,
        i == n - 1 ==> chunk_list(total, size)[i].1 == total,
{
    lemma_count(total, size, n);
    assert(0 <= i * size && i * size <= (n - 1) * size) by (nonlinear_arith)
        requires
            0 <= i <= n - 1,
            0 < size,
    ;
    assert(n * size == (n - 1) * size + size) by (nonlinear_arith);
    if i < n - 1 {
        assert(i * size + size <= (n - 1) * size) by (nonlinear_arith)
            requires
                i < n - 1,
                0 < size,
        ;
    }
}

proof fn lemma_count(total: int, size: int, n: int)
    requires
        0 < size,
        0 <= total,
        (n - 1) * size < total <= n * size,
    ensures
        chunk_count(total, size) == n,
{
    if total == n * size {
        lemma_fundamental_div_mod_converse(total, size, n, 0);
    } else {
        assert(n * size == (n - 1) * size + size) by (nonlinear_arith);
        lemma_fundamental_div_mod_converse(total, size, n - 1, total - (n - 1) * size);
    }
}

/// Little work, or work for one, stays in one range; else every worker gets the smallest
/// share with which all of them can do it.
pub proof fn law_shares(total: int, least: int, threads: int, size: int)
    requires
        0 < total,
        0 <= threads,
    ensures
        total < least || threads <= 1 || total == 1 ==> split_size(total, least, threads) == total,
        total >= least && 1 < threads <= total && (size - 1) * threads < total <= size * threads
            ==> split_size(total, least, threads) == size,
        total >= least && threads > total && total > 1 ==> split_size(total, least, threads) == 1,
{
    if total >= least && 1 < threads <= total && (size - 1) * threads < total <= size * threads {
        if threads < total {
            lemma_count(total, threads, size);
        } else {
            assert(size == 1) by (nonlinear_arith)
                requires
                    threads == total,
                    (size - 1) * threads < total <= size * threads,
                    threads > 1,
            ;
            lemma_count(total, total, 1);
        }
    }
    if total >= least && threads > total && total > 1 {
        lemma_count(total, total, 1);
    }
}

/// A product of fewer than 262144 multiplications, or one worker's, is not split; that of one
/// token is split by rows, and that of several by tokens.
pub proof fn law_product_shares(tokens: int, k: int, rows: int, threads: int, size: int)
    requires
        0 < tokens,
        0 < rows,
        0 < threads,
    ensures
        tokens * k * rows < 262144 || threads == 1 ==> matmul_split(tokens, k, rows, threads)
            == tokens * rows,
        tokens * k * rows >= 262144 && threads > 1 && tokens > 1 ==> matmul_split(
            tokens,
            k,
            rows,
            threads,
        ) == rows,
        tokens * k * rows >= 262144 && threads > 1 && tokens == 1 && (size - 1) * threads < rows
            <= size * threads ==> matmul_split(tokens, k, rows, threads) == size,
{
    if (size - 1) * threads < rows <= size * threads {
        lemma_count(rows, threads, size);
        assert(size >= 1) by (nonlinear_arith)
            requires
                0 < rows <= size * threads,
                0 < threads,
        ;
    }
}

/// A job starts with all its chunks to claim; claiming hands them out in order, and finishing
/// counts them down and remembers every failure.
pub proof fn law_job_counts(job: JobView, n: u32, team: bool, failed: bool)
    requires
        job.wf(),
    ensures
        JobView::start(n, team).n_chunks == n,
        JobView::start(n, team).next == 0,
        JobView::start(n, team).remaining == n,
        !JobView::start(n, team).panicked,
        JobView::start(n, team).team == team,
        job.next < job.n_chunks ==> job.claimed().next == job.next + 1,
        job.next >= job.n_chunks ==> job.claimed() == job,
        job.claimed().n_chunks == job.n_chunks && job.claimed().remaining == job.remaining
            && job.claimed().panicked == job.panicked && job.claimed().team == job.team,
        job.remaining > 0 ==> job.finished(failed).remaining == job.remaining - 1,
        job.finished(failed).panicked == (job.panicked || failed),
        job.finished(failed).n_chunks == job.n_chunks && job.finished(failed).next == job.next
            && job.finished(failed).team == job.team,
{
}

/// Counters wrap around.
pub proof fn law_counters_wrap(n: u32)
    ensures
        after(n) == (n + 1) % 0x1_0000_0000,
{
}

/// A team splits rows whose products make up at least 32768 multiplications, into chunks of at
/// least 16 rows, and of no more than it takes for four chunks a member.
pub proof fn law_team_chunks(rows: int, macs: int, members: int, size: int)
    requires
        0 < rows,
        0 < members,
        (size - 1) * (4 * members) < rows <= size * (4 * members),
    ensures
        worth_splitting(rows, macs) <==> rows * macs >= 32768,
        size >= 16 ==> rows_per_chunk(rows, members) == size,
        size < 16 ==> rows_per_chunk(rows, members) == 16,
{
    lemma_count(rows, 4 * members, size);
}

/// A member fills the rows of its chunk and no others.
pub proof fn law_members_fill_their_rows(
    out: Seq<u32>,
    f: spec_fn(int) -> u32,
    lo: int,
    hi: int,
    r: int,
)
    requires
        0 <= r < out.len(),
    ensures
        filled(out, f, lo, hi).len() == out.len(),
        lo <= r < hi ==> filled(out, f, lo, hi)[r] == f(r),
        r < lo || hi <= r ==> filled(out, f, lo, hi)[r] == out[r],
{
}

/// A buffer is as large as the smallest of 1024, 2048, 4096 and so on that holds what was
/// asked for.
pub proof fn law_buffer_sizes(size: int, e: nat)
    requires
        0 < size,
    ensures
        size <= 1024 ==> bucket_of(size) == 1024,
        1024 * pow2(e) < size <= 1024 * pow2(e + 1) ==> bucket_of(size) == 1024 * pow2(e + 1),
{
    lemma2_to64();
    if size <= 1024 {
        assert(bucket_size(0) == 1024);
        assert(is_bucket_for(size, 1024));
        lemma_bucket_unique(size, 1024, bucket_of(size));
    }
    if 1024 * pow2(e) < size <= 1024 * pow2(e + 1) {
        let b = 1024 * pow2(e + 1);
        assert(bucket_size(e + 1) == b);
        lemma_pow2_unfold(e + 1);
        assert(is_bucket_for(size, b as int));
        lemma_bucket_unique(size, b as int, bucket_of(size));
    }
}

/// Checking out a buffer adds its size to the active bytes and takes one from its free list,
/// if there is one; no other list changes, and the peak is the largest number of active bytes so
/// far.
pub proof fn law_checkout(p: PoolView, q: PoolView, b: int, c: int)
    requires
        p.acquired(q, b),
    ensures
        q.active == p.active + b,
        q.peak >= q.active && q.peak >= p.peak,
        q.peak == p.peak || q.peak == q.active,
        (p.free)(b) > 0 ==> (q.free)(b) + 1 == (p.free)(b) && q.pooled + b == p.pooled,
        (p.free)(b) == 0 ==> (q.free)(b) == 0 && q.pooled == p.pooled,
        c != b ==> (q.free)(c) == (p.free)(c),
{
    assert((q.free)(b) == (q.free)(b) && (q.free)(c) == (q.free)(c));
}

/// A buffer that comes back goes to the free list of its size and off the active bytes, as far
/// as these go; clearing drops the free lists and nothing else.
pub proof fn law_return_and_clear(p: PoolView, q: PoolView, b: int, c: int)
    ensures
        p.released(q, b) ==> (q.free)(b) == (p.free)(b) + 1 && q.pooled == p.pooled + b && q.peak
            == p.peak && (p.active >= b ==> q.active == p.active - b) && (p.active < b ==> q.active
            == 0) && (c != b ==> (q.free)(c) == (p.free)(c)),
        p.cleared(q) ==> (q.free)(c) == 0 && q.pooled == 0 && q.active == p.active && q.peak
            == p.peak,
        p.unchanged(q) ==> (q.free)(c) == (p.free)(c) && q.pooled == p.pooled && q.active
            == p.active && q.peak == p.peak,
{
    assert((q.free)(b) == (q.free)(b) && (q.free)(c) == (q.free)(c));
}

} // verus!
