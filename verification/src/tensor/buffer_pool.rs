//! A size-bucketed pool that recycles transient buffers.
use std::collections::HashMap;
use vstd::arithmetic::power2::{lemma_pow2_pos, lemma_pow2_strictly_increases, lemma_pow2_unfold, pow2};
use vstd::prelude::*;

verus! {

broadcast use vstd::std_specs::hash::group_hash_axioms;

pub const MIN_BUCKET: usize = 1024;

/// Bucket number `k` holds buffers of this many bytes.
pub open spec fn bucket_size(k: nat) -> int {
    MIN_BUCKET * pow2(k)
}

/// `b` is the bucket for a request of `size` bytes: the smallest power of two
/// that holds it, but no less than `MIN_BUCKET`.
pub open spec fn is_bucket_for(size: int, b: int) -> bool {
    &&& exists|k: nat| b == #[trigger] bucket_size(k)
    &&& size <= b
    &&& b == MIN_BUCKET || b < 2 * size
}

/// The bucket that `is_bucket_for` describes.
pub open spec fn bucket_of(size: int) -> int {
    choose|b: int| is_bucket_for(size, b)
}

proof fn lemma_bucket_sizes_grow(j: nat, k: nat)
    requires
        j < k,
    ensures
        2 * bucket_size(j) <= bucket_size(k),
{
    lemma_pow2_unfold(j + 1);
    if j + 1 < k {
        lemma_pow2_strictly_increases(j + 1, k);
    }
}

/// No request has two buckets.
pub(crate) proof fn lemma_bucket_unique(size: int, a: int, b: int)
    requires
        is_bucket_for(size, a),
        is_bucket_for(size, b),
    ensures
        a == b,
{
    let j = choose|k: nat| a == #[trigger] bucket_size(k);
    let k = choose|k: nat| b == #[trigger] bucket_size(k);
    lemma_pow2_pos(0);
    vstd::arithmetic::power2::lemma2_to64();
    if j < k {
        lemma_bucket_sizes_grow(j, k);
        if k > 0 && j > 0 {
            lemma_bucket_sizes_grow(0, j);
        }
    } else if k < j {
        lemma_bucket_sizes_grow(k, j);
    }
}

/// Bytes in the first `k` buckets, when bucket `i` holds `count(i)` buffers.
pub open spec fn bytes_in(count: spec_fn(int) -> nat, k: nat) -> int
    decreases k,
{
    if k == 0 {
        0
    } else {
        bytes_in(count, (k - 1) as nat) + bucket_size((k - 1) as nat) * count(
            bucket_size((k - 1) as nat),
        )
    }
}

/// One buffer more in one bucket adds that bucket's size.
proof fn lemma_bytes_in_step(less: spec_fn(int) -> nat, more: spec_fn(int) -> nat, j: nat, k: nat)
    requires
        forall|b: int| b != bucket_size(j) ==> #[trigger] less(b) == more(b),
        more(bucket_size(j)) == less(bucket_size(j)) + 1,
    ensures
        bytes_in(more, k) == bytes_in(less, k) + (if j < k {
            bucket_size(j)
        } else {
            0
        }),
    decreases k,
{
    if k > 0 {
        let i = (k - 1) as nat;
        lemma_bytes_in_step(less, more, j, i);
        if i == j {
            let s = bucket_size(j);
            let n = less(s) as int;
            assert(s * (n + 1) == s * n + s) by (nonlinear_arith);
        } else {
            if i < j {
                lemma_bucket_sizes_grow(i, j);
                lemma_pow2_pos(i);
            } else {
                lemma_bucket_sizes_grow(j, i);
                lemma_pow2_pos(j);
            }
            assert(less(bucket_size(i)) == more(bucket_size(i)));
        }
    }
}

proof fn lemma_bytes_in_empty(count: spec_fn(int) -> nat, k: nat)
    requires
        forall|b: int| #[trigger] count(b) == 0,
    ensures
        bytes_in(count, k) == 0,
    decreases k,
{
    if k > 0 {
        lemma_bytes_in_empty(count, (k - 1) as nat);
    }
}

proof fn lemma_bytes_in_nonneg(count: spec_fn(int) -> nat, k: nat)
    ensures
        bytes_in(count, k) >= 0,
    decreases k,
{
    if k > 0 {
        lemma_bytes_in_nonneg(count, (k - 1) as nat);
        lemma_pow2_pos((k - 1) as nat);
        let s = bucket_size((k - 1) as nat);
        let n = count(s) as int;
        assert(s * n >= 0) by (nonlinear_arith)
            requires
                s >= 0,
                n >= 0,
        ;
    }
}

proof fn lemma_bytes_in_at_least(count: spec_fn(int) -> nat, j: nat, k: nat)
    requires
        j < k,
        count(bucket_size(j)) > 0,
    ensures
        bytes_in(count, k) >= bucket_size(j),
    decreases k,
{
    let i = (k - 1) as nat;
    lemma_bytes_in_nonneg(count, i);
    lemma_pow2_pos(i);
    let s = bucket_size(i);
    let n = count(s) as int;
    assert(s * n >= 0) by (nonlinear_arith)
        requires
            s >= 0,
            n >= 0,
    ;
    if i == j {
        assert(s * n >= s) by (nonlinear_arith)
            requires
                s >= 0,
                n >= 1,
        ;
    } else {
        lemma_bytes_in_at_least(count, j, i);
    }
}

/// More buckets than there are powers of two in a `usize`.
pub open spec fn all_buckets() -> nat {
    64
}

proof fn lemma_usize_bucket_number(k: nat)
    requires
        bucket_size(k) <= usize::MAX,
    ensures
        k < all_buckets(),
{
    if k >= 64 {
        vstd::arithmetic::power2::lemma2_to64();
        if k > 64 {
            lemma_pow2_strictly_increases(64, k);
        }
    }
}

/// `Vec::capacity`: at least the length; a byte vector never owns more than
/// `isize::MAX` bytes. What it is beyond that rests with the allocator.
#[verifier::external_body]
fn capacity_of(buf: &Vec<u8>) -> (cap: usize)
    ensures
        buf@.len() <= cap <= isize::MAX,
{
    buf.capacity()
}

/// What a pool accounts for.
pub struct PoolView {
    /// Free buffers, by bucket size.
    pub free: spec_fn(int) -> nat,
    pub active: int,
    pub pooled: int,
    pub peak: int,
}

/// Recycles transient buffers by size bucket. Every buffer is an owned
/// `Vec<u8>`: it is either checked out or on one free list.
pub struct BufferPool {
    free: HashMap<usize, Vec<Vec<u8>>>,
    active_bytes: usize,
    pooled_bytes: usize,
    peak_bytes: usize,
}

impl View for BufferPool {
    type V = PoolView;

    closed spec fn view(&self) -> PoolView {
        PoolView {
            free: |b: int|
                if 0 <= b <= usize::MAX && self.free@.dom().contains(b as usize) {
                    self.free@[b as usize]@.len()
                } else {
                    0
                },
            active: self.active_bytes as int,
            pooled: self.pooled_bytes as int,
            peak: self.peak_bytes as int,
        }
    }
}

impl PoolView {
    /// The pooled bytes are those of the buffers on the free lists, and the
    /// peak has not been exceeded.
    pub open spec fn wf(self) -> bool {
        &&& self.pooled == bytes_in(self.free, all_buckets())
        &&& 0 <= self.active <= self.peak
        &&& 0 <= self.pooled
    }

    /// Checking out a buffer of bucket `b`: a free one if there is any.
    pub open spec fn acquired(self, after: PoolView, b: int) -> bool {
        &&& after.active == self.active + b
        &&& after.peak == (if self.peak >= self.active + b {
            self.peak
        } else {
            self.active + b
        })
        &&& after.pooled == (if (self.free)(b) > 0 {
            self.pooled - b
        } else {
            self.pooled
        })
        &&& forall|c: int|
            #[trigger] (after.free)(c) == (if c == b && (self.free)(c) > 0 {
                ((self.free)(c) - 1) as nat
            } else {
                (self.free)(c)
            })
    }

    /// Taking back a buffer of bucket `b`. A foreign buffer may be larger than
    /// all that is checked out; the count of active bytes stops at zero.
    pub open spec fn released(self, after: PoolView, b: int) -> bool {
        &&& after.active == (if self.active >= b {
            self.active - b
        } else {
            0
        })
        &&& after.peak == self.peak
        &&& after.pooled == self.pooled + b
        &&& forall|c: int|
            #[trigger] (after.free)(c) == (if c == b {
                (self.free)(c) + 1
            } else {
                (self.free)(c)
            })
    }

    /// The same free buffers and the same counters.
    pub open spec fn unchanged(self, after: PoolView) -> bool {
        &&& after.active == self.active
        &&& after.peak == self.peak
        &&& after.pooled == self.pooled
        &&& forall|c: int| #[trigger] (after.free)(c) == (self.free)(c)
    }

    /// No free buffers any more; what is checked out stays so.
    pub open spec fn cleared(self, after: PoolView) -> bool {
        &&& after.active == self.active
        &&& after.peak == self.peak
        &&& after.pooled == 0
        &&& forall|c: int| #[trigger] (after.free)(c) == 0
    }

    /// What returning a buffer of capacity `cap` does: nothing for an empty
    /// one or where the pooled bytes would no longer fit a `usize`.
    pub open spec fn takes_back(self, after: PoolView, cap: int) -> bool {
        if cap == 0 || self.pooled + bucket_of(cap) > usize::MAX {
            self.unchanged(after)
        } else {
            self.released(after, bucket_of(cap))
        }
    }
}

/// What was checked out comes back without a trace but for the peak: the same
/// active bytes as before, and the bucket's buffer on its free list.
pub proof fn law_release_undoes_acquire(p: PoolView, q: PoolView, r: PoolView, b: int)
    requires
        p.wf(),
        b > 0,
        p.acquired(q, b),
        q.released(r, b),
    ensures
        r.active == p.active,
        r.peak == q.peak,
        (p.free)(b) > 0 ==> r.pooled == p.pooled && forall|c: int| #[trigger]
            (r.free)(c) == (p.free)(c),
        (p.free)(b) == 0 ==> r.pooled == p.pooled + b && (r.free)(b) == 1,
{
    assert forall|c: int| (p.free)(b) > 0 implies #[trigger] (r.free)(c) == (p.free)(c) by {
        assert((q.free)(c) == (q.free)(c));
    }
    assert((q.free)(b) == (q.free)(b) && (r.free)(b) == (r.free)(b));
}

/// A step in the life of a pool.
pub enum PoolStep {
    /// A buffer of so many bytes is checked out.
    Acquire(int),
    /// Of the buffers that are outstanding, in the order of their checkout, the one
    /// at this place comes back and is taken.
    Release(int),
    /// A buffer that owns so many bytes is given to the pool, wherever it comes from.
    Foreign(int),
    /// The free lists are dropped.
    Clear,
    /// A request for no bytes, or a return that changes nothing.
    Keep,
}

/// Lengths of the buffers that are outstanding after the first `n` steps.
pub open spec fn outstanding(steps: Seq<PoolStep>, n: int) -> Seq<int>
    decreases n,
{
    if n <= 0 {
        Seq::empty()
    } else {
        let before = outstanding(steps, n - 1);
        match steps[n - 1] {
            PoolStep::Acquire(b) => before.push(b),
            PoolStep::Release(j) => before.remove(j),
            PoolStep::Foreign(cap) => before,
            PoolStep::Clear => before,
            PoolStep::Keep => before,
        }
    }
}

/// Sum of lengths.
pub open spec fn sum_of(lengths: Seq<int>) -> int
    decreases lengths.len(),
{
    if lengths.len() == 0 {
        0
    } else {
        sum_of(lengths.drop_last()) + lengths.last()
    }
}

/// `states` are those of a pool that starts empty and takes `steps`, one by one.
pub open spec fn is_history(states: Seq<PoolView>, steps: Seq<PoolStep>) -> bool {
    &&& states.len() == steps.len() + 1
    &&& states[0].active == 0
    &&& states[0].peak == 0
    &&& forall|n: int|
        0 <= n < steps.len() ==> is_step(
            states[n],
            states[n + 1],
            outstanding(steps, n),
            #[trigger] steps[n],
        )
}

/// A pool with these outstanding buffers goes from `p` to `q` in one step.
pub open spec fn is_step(p: PoolView, q: PoolView, out: Seq<int>, step: PoolStep) -> bool {
    match step {
        PoolStep::Acquire(b) => 0 <= b && p.acquired(q, b),
        PoolStep::Release(j) => 0 <= j < out.len() && p.released(q, out[j]),
        PoolStep::Foreign(cap) => 0 <= cap && p.takes_back(q, cap),
        PoolStep::Clear => p.cleared(q),
        PoolStep::Keep => p.unchanged(q),
    }
}

/// One length less.
proof fn lemma_sum_without(lengths: Seq<int>, j: int)
    requires
        0 <= j < lengths.len(),
    ensures
        sum_of(lengths.remove(j)) == sum_of(lengths) - lengths[j],
    decreases lengths.len(),
{
    let last = lengths.len() - 1;
    if j == last {
        assert(lengths.remove(j) =~= lengths.drop_last());
    } else {
        assert(lengths.remove(j).drop_last() =~= lengths.drop_last().remove(j));
        lemma_sum_without(lengths.drop_last(), j);
    }
}

/// A sum of lengths is no less than any of them.
proof fn lemma_sum_at_least(lengths: Seq<int>, j: int)
    requires
        0 <= j < lengths.len(),
        forall|i: int| 0 <= i < lengths.len() ==> 0 <= #[trigger] lengths[i],
    ensures
        lengths[j] <= sum_of(lengths),
    decreases lengths.len(),
{
    let front = lengths.drop_last();
    assert(sum_of(lengths) == sum_of(front) + lengths[lengths.len() - 1]);
    assert forall|i: int| 0 <= i < front.len() implies 0 <= #[trigger] front[i] by {
        assert(front[i] == lengths[i]);
    }
    if j < front.len() {
        lemma_sum_at_least(front, j);
    } else if front.len() > 0 {
        lemma_sum_at_least(front, 0);
        assert(0 <= front[0]);
    } else {
        assert(sum_of(front) == 0);
    }
}

/// A pool that has been given no buffers but its own, and these as large as it handed
/// them out, has as its active bytes the lengths of the buffers that are outstanding,
/// summed. (A foreign buffer is taken off the active bytes, too.)
pub proof fn law_active_is_what_is_outstanding(states: Seq<PoolView>, steps: Seq<PoolStep>, n: int)
    requires
        is_history(states, steps),
        0 <= n <= steps.len(),
        forall|m: int| 0 <= m < n ==> !(#[trigger] steps[m] is Foreign),
    ensures
        states[n].active == sum_of(outstanding(steps, n)),
    decreases n,
{
    if n > 0 {
        law_active_is_what_is_outstanding(states, steps, n - 1);
        lemma_history(states, steps, n - 1);
        let out = outstanding(steps, n - 1);
        assert(is_step(states[n - 1], states[n], out, steps[n - 1]));
        match steps[n - 1] {
            PoolStep::Acquire(b) => {
                assert(out.push(b).drop_last() =~= out);
            },
            PoolStep::Release(j) => {
                lemma_sum_without(out, j);
                lemma_sum_at_least(out, j);
            },
            PoolStep::Foreign(cap) => {},
            PoolStep::Clear => {},
            PoolStep::Keep => {},
        }
    }
}

/// Neither the active bytes nor the length of a buffer is ever negative.
proof fn lemma_history(states: Seq<PoolView>, steps: Seq<PoolStep>, n: int)
    requires
        is_history(states, steps),
        0 <= n <= steps.len(),
    ensures
        0 <= states[n].active,
        forall|i: int|
            0 <= i < outstanding(steps, n).len() ==> 0 <= #[trigger] outstanding(steps, n)[i],
    decreases n,
{
    if n > 0 {
        lemma_history(states, steps, n - 1);
        assert(is_step(states[n - 1], states[n], outstanding(steps, n - 1), steps[n - 1]));
    }
}

/// Whatever a pool has been through, foreign buffers among it, its peak is the largest
/// number of active bytes that it has had.
pub proof fn law_peak_is_the_maximum(states: Seq<PoolView>, steps: Seq<PoolStep>, n: int)
    requires
        is_history(states, steps),
        0 <= n <= steps.len(),
    ensures
        forall|m: int| 0 <= m <= n ==> (#[trigger] states[m]).active <= states[n].peak,
        exists|m: int| 0 <= m <= n && (#[trigger] states[m]).active == states[n].peak,
    decreases n,
{
    if n == 0 {
        assert(states[0].active == states[0].peak);
    } else {
        law_peak_is_the_maximum(states, steps, n - 1);
        lemma_history(states, steps, n - 1);
        let p = states[n - 1];
        let q = states[n];
        let out = outstanding(steps, n - 1);
        assert(is_step(p, q, out, steps[n - 1]));
        if let PoolStep::Foreign(cap) = steps[n - 1] {
            lemma_request_fits(cap);
        }
        let m = choose|m: int| 0 <= m <= n - 1 && (#[trigger] states[m]).active == p.peak;
        if q.peak == p.peak {
            assert(states[m].active == q.peak);
        } else {
            assert(q.active == q.peak);
        }
    }
}

impl Default for BufferPool {
    fn default() -> (p: Self)
        ensures
            p@.wf(),
            p@.active == 0,
            p@.pooled == 0,
            p@.peak == 0,
            forall|c: int| #[trigger] (p@.free)(c) == 0,
    {
        let p = BufferPool {
            free: HashMap::new(),
            active_bytes: 0,
            pooled_bytes: 0,
            peak_bytes: 0,
        };
        proof {
            lemma_bytes_in_empty(p@.free, all_buckets());
        }
        p
    }
}

impl BufferPool {
    pub fn new() -> (p: Self)
        ensures
            p@.wf(),
            p@.active == 0,
            p@.pooled == 0,
            p@.peak == 0,
            forall|c: int| #[trigger] (p@.free)(c) == 0,
    {
        Self::default()
    }

    /// Round a request up to its bucket, which has to fit a `usize`.
    pub fn round_up(size: usize) -> (b: usize)
        requires
            bucket_of(size as int) <= usize::MAX,
        ensures
            is_bucket_for(size as int, b as int),
            b == bucket_of(size as int),
    {
        let mut bucket: usize = MIN_BUCKET;
        let ghost mut k: nat = 0;
        proof {
            vstd::arithmetic::power2::lemma2_to64();
            lemma_request_fits(size as int);
        }
        while bucket < size
            invariant
                is_bucket_for(size as int, bucket_of(size as int)),
                bucket_of(size as int) <= usize::MAX,
                bucket == bucket_size(k),
                bucket == MIN_BUCKET || bucket < 2 * size,
                bucket >= MIN_BUCKET,
            decreases 2 * size - bucket,
        {
            proof {
                let top = choose|j: nat| bucket_of(size as int) == #[trigger] bucket_size(j);
                if top < k {
                    lemma_bucket_sizes_grow(top, k);
                    lemma_pow2_pos(top);
                }
                lemma_bucket_sizes_grow(k, top);
                lemma_pow2_unfold(k + 1);
                k = k + 1;
            }
            bucket = bucket * 2;
        }
        proof {
            assert(is_bucket_for(size as int, bucket as int));
            lemma_bucket_unique(size as int, bucket as int, bucket_of(size as int));
        }
        bucket
    }

    /// Check out a zeroed buffer of at least `byte_size` bytes.
    pub fn acquire(&mut self, byte_size: usize) -> (buf: Vec<u8>)
        requires
            old(self)@.wf(),
            bucket_of(byte_size as int) <= isize::MAX,
            old(self)@.active + bucket_of(byte_size as int) <= usize::MAX,
        ensures
            final(self)@.wf(),
            byte_size == 0 ==> buf@.len() == 0 && old(self)@.unchanged(final(self)@),
            byte_size > 0 ==> {
                &&& buf@ == Seq::new(bucket_of(byte_size as int) as nat, |i: int| 0u8)
                &&& old(self)@.acquired(final(self)@, bucket_of(byte_size as int))
            },
    {
        if byte_size == 0 {
            return Vec::new();
        }
        proof {
            lemma_request_fits(byte_size as int);
        }
        let bucket: usize = Self::round_up(byte_size);
        let ghost before = self@;
        let ghost k = choose|k: nat| bucket as int == #[trigger] bucket_size(k);
        proof {
            lemma_usize_bucket_number(k);
        }
        self.active_bytes = self.active_bytes + bucket;
        if self.peak_bytes < self.active_bytes {
            self.peak_bytes = self.active_bytes;
        }
        if let Some(mut list) = self.free.remove(&bucket) {
            if let Some(mut buf) = list.pop() {
                proof {
                    lemma_bytes_in_at_least(before.free, k, all_buckets());
                }
                self.pooled_bytes = self.pooled_bytes - bucket;
                self.free.insert(bucket, list);
                buf.clear();
                buf.resize(bucket, 0);
                proof {
                    lemma_bytes_in_step(self@.free, before.free, k, all_buckets());
                }
                return buf;
            }
        }
        proof {
            assert forall|c: int| #[trigger] (self@.free)(c) == (before.free)(c) by {}
            lemma_bytes_in_same(self@.free, before.free, all_buckets());
        }
        vec![0u8; bucket]
    }

    /// Return a buffer to the pool for reuse.
    pub fn release(&mut self, buf: Vec<u8>)
        requires
            old(self)@.wf(),
        ensures
            final(self)@.wf(),
            exists|cap: int|
                buf@.len() <= cap <= isize::MAX && #[trigger] old(self)@.takes_back(
                    final(self)@,
                    cap,
                ),
    {
        let cap: usize = capacity_of(&buf);
        self.release_with_capacity(buf, cap);
        assert(old(self)@.takes_back(self@, cap as int));
    }

    /// Return a buffer that owns `cap` bytes.
    pub fn release_with_capacity(&mut self, buf: Vec<u8>, cap: usize)
        requires
            old(self)@.wf(),
            cap <= isize::MAX,
        ensures
            final(self)@.wf(),
            old(self)@.takes_back(final(self)@, cap as int),
    {
        if cap == 0 {
            return;
        }
        proof {
            lemma_owned_bucket(cap as int);
        }
        let bucket: usize = Self::round_up(cap);
        if usize::MAX - self.pooled_bytes < bucket {
            return;
        }
        let ghost before = self@;
        let ghost k = choose|k: nat| bucket as int == #[trigger] bucket_size(k);
        proof {
            lemma_usize_bucket_number(k);
        }
        self.active_bytes = self.active_bytes.saturating_sub(bucket);
        self.pooled_bytes = self.pooled_bytes + bucket;
        let mut list: Vec<Vec<u8>> = match self.free.remove(&bucket) {
            Some(list) => list,
            None => Vec::new(),
        };
        list.push(buf);
        self.free.insert(bucket, list);
        proof {
            lemma_bytes_in_step(before.free, self@.free, k, all_buckets());
        }
    }

    /// Bytes currently checked out of the pool.
    pub fn active_bytes(&self) -> (n: usize)
        ensures
            n == self@.active,
    {
        self.active_bytes
    }

    /// Bytes held in the free lists.
    pub fn pooled_bytes(&self) -> (n: usize)
        ensures
            n == self@.pooled,
    {
        self.pooled_bytes
    }

    /// High-water mark of the active bytes over the pool's lifetime.
    pub fn peak_bytes(&self) -> (n: usize)
        ensures
            n == self@.peak,
    {
        self.peak_bytes
    }

    /// Drop all cached free buffers.
    pub fn clear(&mut self)
        requires
            old(self)@.wf(),
        ensures
            final(self)@.wf(),
            old(self)@.cleared(final(self)@),
    {
        self.free.clear();
        self.pooled_bytes = 0;
        proof {
            lemma_bytes_in_empty(self@.free, all_buckets());
        }
    }
}

proof fn lemma_bytes_in_same(a: spec_fn(int) -> nat, b: spec_fn(int) -> nat, k: nat)
    requires
        forall|c: int| #[trigger] a(c) == b(c),
    ensures
        bytes_in(a, k) == bytes_in(b, k),
    decreases k,
{
    if k > 0 {
        lemma_bytes_in_same(a, b, (k - 1) as nat);
    }
}

/// Every size has a bucket.
proof fn lemma_bucket_exists(size: int, k: nat)
    requires
        k == 0 || bucket_size((k - 1) as nat) < size,
    ensures
        exists|b: int| is_bucket_for(size, b),
    decreases size - k,
{
    lemma_pow2_pos(k);
    vstd::arithmetic::power2::lemma2_to64();
    if k > 0 {
        lemma_pow2_unfold(k);
    }
    if bucket_size(k) < size {
        lemma_exceeds(k);
        lemma_bucket_exists(size, k + 1);
    } else {
        assert(is_bucket_for(size, bucket_size(k)));
    }
}

proof fn lemma_exceeds(k: nat)
    ensures
        bucket_size(k) > k,
    decreases k,
{
    lemma_pow2_pos(k);
    vstd::arithmetic::power2::lemma2_to64();
    if k > 0 {
        lemma_exceeds((k - 1) as nat);
        lemma_pow2_unfold(k);
    }
}

/// A request is no larger than its bucket.
proof fn lemma_request_fits(size: int)
    ensures
        is_bucket_for(size, bucket_of(size)),
        size <= bucket_of(size),
{
    lemma_bucket_exists(size, 0);
}

/// The bucket of what a vector can own fits a `usize`.
proof fn lemma_owned_bucket(size: int)
    requires
        size <= isize::MAX,
    ensures
        bucket_of(size) <= isize::MAX + 1,
{
    lemma_request_fits(size);
    let k = choose|k: nat| bucket_of(size) == #[trigger] bucket_size(k);
    vstd::arithmetic::power2::lemma2_to64();
    vstd::arithmetic::power2::lemma2_to64_rest();
    let top: nat = if isize::MAX == 0x7fff_ffff {
        21
    } else {
        53
    };
    assert(bucket_size(top) == isize::MAX + 1);
    if k > top {
        lemma_bucket_sizes_grow(top, k);
    } else if k < top {
        lemma_bucket_sizes_grow(k, top);
        lemma_pow2_pos(k);
    }
}

} // verus!
