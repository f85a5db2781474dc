//! Splitting work into ranges that workers can take one at a time.
use vstd::prelude::*;

verus! {

/// Ranges of `chunk` items that cover `total` items.
pub open spec fn chunk_count(total: int, chunk: int) -> int {
    if total % chunk == 0 {
        total / chunk
    } else {
        total / chunk + 1
    }
}

/// First item of range `i`.
pub open spec fn chunk_start(i: int, chunk: int) -> int {
    i * chunk
}

/// One past the last item of range `i`.
pub open spec fn chunk_end(i: int, total: int, chunk: int) -> int {
    if total - i * chunk < chunk {
        total
    } else {
        i * chunk + chunk
    }
}

/// `x` lies in range `i`.
pub open spec fn in_chunk(x: int, i: int, total: int, chunk: int) -> bool {
    chunk_start(i, chunk) <= x < chunk_end(i, total, chunk)
}

/// Every item lies in one range, and in one only.
pub proof fn law_chunks_partition(total: int, chunk: int, x: int)
    requires
        0 < chunk,
        0 <= x < total,
    ensures
        0 <= x / chunk < chunk_count(total, chunk),
        in_chunk(x, x / chunk, total, chunk),
        forall|i: int|
            0 <= i < chunk_count(total, chunk) && #[trigger] in_chunk(x, i, total, chunk) ==> i == x
                / chunk,
{
    let i = x / chunk;
    assert(i * chunk <= x < i * chunk + chunk && 0 <= i) by (nonlinear_arith)
        requires
            i == x / chunk,
            0 < chunk,
            0 <= x,
    ;
    let q = total / chunk;
    assert(total == q * chunk + total % chunk && 0 <= total % chunk < chunk) by (nonlinear_arith)
        requires
            q == total / chunk,
            0 < chunk,
    ;
    assert(i < chunk_count(total, chunk)) by (nonlinear_arith)
        requires
            i * chunk <= x < total,
            total == q * chunk + total % chunk,
            0 <= total % chunk < chunk,
            chunk_count(total, chunk) == if total % chunk == 0 { q } else { q + 1 },
            0 < chunk,
    ;
    assert forall|j: int|
        0 <= j < chunk_count(total, chunk) && #[trigger] in_chunk(x, j, total, chunk) implies j
        == i by {
        assert(j * chunk <= x < j * chunk + chunk);
        assert(j == i) by (nonlinear_arith)
            requires
                j * chunk <= x < j * chunk + chunk,
                i * chunk <= x < i * chunk + chunk,
                0 < chunk,
        ;
    }
}

/// Where a range lies: it starts where the one before it ends, holds something,
/// and the last one ends with the work.
pub proof fn lemma_chunk_bounds(i: int, total: int, chunk: int)
    requires
        0 < chunk,
        0 <= total,
        0 <= i < chunk_count(total, chunk),
    ensures
        0 <= chunk_start(i, chunk) < chunk_end(i, total, chunk) <= total,
        i + 1 < chunk_count(total, chunk) ==> chunk_end(i, total, chunk) == chunk_start(
            i + 1,
            chunk,
        ),
        i + 1 == chunk_count(total, chunk) ==> chunk_end(i, total, chunk) == total,
        chunk_end(i, total, chunk) - chunk_start(i, chunk) <= chunk,
{
    let q = total / chunk;
    let r = total % chunk;
    assert(total == q * chunk + r && 0 <= r < chunk && 0 <= q) by (nonlinear_arith)
        requires
            q == total / chunk,
            r == total % chunk,
            0 < chunk,
            0 <= total,
    ;
    assert(0 <= i * chunk) by (nonlinear_arith)
        requires
            0 <= i,
            0 < chunk,
    ;
    assert((i + 1) * chunk == i * chunk + chunk) by (nonlinear_arith);
    if i < q {
        assert(i * chunk + chunk <= q * chunk) by (nonlinear_arith)
            requires
                i + 1 <= q,
                0 < chunk,
        ;
        if i + 1 == q && r == 0 {
            assert(i * chunk + chunk == q * chunk) by (nonlinear_arith)
                requires
                    i + 1 == q,
            ;
        }
    } else {
        assert(i == q);
    }
}

/// The ranges of `chunk` items, in order.
pub open spec fn chunk_list(total: int, chunk: int) -> Seq<(usize, usize)> {
    Seq::new(
        chunk_count(total, chunk) as nat,
        |i: int| (chunk_start(i, chunk) as usize, chunk_end(i, total, chunk) as usize),
    )
}

/// The parts of `s` that lie in the first `n` ranges, one behind the other.
pub open spec fn joined_parts<T>(s: Seq<T>, chunk: int, n: nat) -> Seq<T>
    decreases n,
{
    if n == 0 {
        Seq::empty()
    } else {
        joined_parts(s, chunk, (n - 1) as nat) + s.subrange(
            chunk_start(n - 1, chunk),
            chunk_end(n - 1, s.len() as int, chunk),
        )
    }
}

/// Whatever is computed range by range and put together in order is the whole.
pub proof fn law_parts_make_whole<T>(s: Seq<T>, chunk: int)
    requires
        0 < chunk,
    ensures
        joined_parts(s, chunk, chunk_count(s.len() as int, chunk) as nat) == s,
{
    let n = chunk_count(s.len() as int, chunk);
    assert(0 <= s.len() as int / chunk) by (nonlinear_arith)
        requires
            0 < chunk,
    ;
    if n == 0 {
        assert(s.len() == 0) by (nonlinear_arith)
            requires
                s.len() as int % chunk == 0,
                s.len() as int / chunk == 0,
                0 < chunk,
        ;
        assert(joined_parts(s, chunk, 0) =~= s);
    } else {
        lemma_joined_parts(s, chunk, n as nat);
        lemma_chunk_bounds(n - 1, s.len() as int, chunk);
        assert(s.take(s.len() as int) =~= s);
    }
}

/// The first `n` parts make up the items before the end of range `n - 1`.
proof fn lemma_joined_parts<T>(s: Seq<T>, chunk: int, n: nat)
    requires
        0 < chunk,
        0 < n <= chunk_count(s.len() as int, chunk),
    ensures
        joined_parts(s, chunk, n) == s.take(chunk_end(n - 1, s.len() as int, chunk)),
    decreases n,
{
    lemma_chunk_bounds(n - 1, s.len() as int, chunk);
    if n > 1 {
        lemma_joined_parts(s, chunk, (n - 1) as nat);
        lemma_chunk_bounds(n - 2, s.len() as int, chunk);
    } else {
        assert(joined_parts(s, chunk, 0) =~= Seq::empty());
        assert(0 * chunk == 0) by (nonlinear_arith);
    }
    assert(joined_parts(s, chunk, n) =~= s.take(chunk_end(n - 1, s.len() as int, chunk)));
}

/// `total / chunk`, rounded up.
pub fn div_ceil(total: usize, chunk: usize) -> (n: usize)
    requires
        chunk > 0,
    ensures
        n == chunk_count(total as int, chunk as int),
        n <= total,
        total <= n * chunk,
{
    let q: usize = total / chunk;
    let r: usize = total % chunk;
    proof {
        assert(total == q * chunk + r && q <= total) by (nonlinear_arith)
            requires
                q == total / chunk,
                r == total % chunk,
                chunk > 0,
        ;
        assert((q + 1) * chunk == q * chunk + chunk) by (nonlinear_arith);
        if r != 0 {
            assert(q < total) by (nonlinear_arith)
                requires
                    total == q * chunk + r,
                    r > 0,
                    chunk > 0,
                    q >= 0,
            ;
        }
    }
    if r == 0 {
        q
    } else {
        q + 1
    }
}

/// Range `i`.
pub fn chunk_range(i: usize, total: usize, chunk: usize) -> (r: (usize, usize))
    requires
        chunk > 0,
        i < chunk_count(total as int, chunk as int),
    ensures
        r.0 == chunk_start(i as int, chunk as int),
        r.1 == chunk_end(i as int, total as int, chunk as int),
{
    proof {
        lemma_chunk_bounds(i as int, total as int, chunk as int);
    }
    let start: usize = i * chunk;
    if total - start < chunk {
        (start, total)
    } else {
        (start, start + chunk)
    }
}

/// The ranges of `chunk` items, in order.
pub fn chunks(total: usize, chunk: usize) -> (r: Vec<(usize, usize)>)
    requires
        chunk > 0,
    ensures
        r@ == chunk_list(total as int, chunk as int),
{
    let n: usize = div_ceil(total, chunk);
    let mut r: Vec<(usize, usize)> = Vec::new();
    let mut i: usize = 0;
    while i < n
        invariant
            chunk > 0,
            n == chunk_count(total as int, chunk as int),
            i <= n,
            r@ =~= chunk_list(total as int, chunk as int).take(i as int),
        decreases n - i,
    {
        r.push(chunk_range(i, total, chunk));
        i += 1;
    }
    r
}

/// Workers that share `total` items: as many as asked for, but at least one and
/// no more than there are items.
pub open spec fn workers(total: int, threads: int) -> int {
    let wanted = if threads < 1 {
        1
    } else {
        threads
    };
    if wanted < total {
        wanted
    } else {
        total
    }
}

/// Items of each range when `total` items are split over `threads` workers:
/// everything in one range where that is too little to split.
pub open spec fn split_size(total: int, min_parallel: int, threads: int) -> int {
    let n = workers(total, threads);
    if n == 1 || total < min_parallel {
        total
    } else {
        chunk_count(total, n)
    }
}

/// Splits `total` items over up to `threads` workers. Little work, less than
/// `min_parallel`, stays in one range; no work has none.
pub fn parallel_ranges(total: usize, min_parallel: usize, threads: usize) -> (r: Vec<(usize, usize)>)
    ensures
        total == 0 ==> r@.len() == 0,
        total > 0 ==> r@ == chunk_list(
            total as int,
            split_size(total as int, min_parallel as int, threads as int),
        ),
        r@.len() <= workers(total as int, threads as int),
{
    if total == 0 {
        return Vec::new();
    }
    let wanted: usize = if threads < 1 {
        1
    } else {
        threads
    };
    let n: usize = if wanted < total {
        wanted
    } else {
        total
    };
    let size: usize = if n == 1 || total < min_parallel {
        total
    } else {
        div_ceil(total, n)
    };
    proof {
        assert(size > 0) by (nonlinear_arith)
            requires
                total > 0,
                size == total || total <= size * n,
                n > 0,
        ;
        let c = chunk_count(total as int, size as int);
        if size == total {
            vstd::arithmetic::div_mod::lemma_fundamental_div_mod_converse(
                total as int,
                total as int,
                1,
                0,
            );
        } else {
            let q = total as int / size as int;
            let m = total as int % size as int;
            assert(total == q * size + m && 0 <= m < size) by (nonlinear_arith)
                requires
                    q == total as int / size as int,
                    m == total as int % size as int,
                    size > 0,
            ;
            assert(c <= n) by (nonlinear_arith)
                requires
                    total == q * size + m,
                    0 <= m < size,
                    total <= size * n,
                    c == if m == 0 { q } else { q + 1 },
                    size > 0,
            ;
        }
    }
    chunks(total, size)
}

/// Default number of workers: what the machine offers, no more than eight, and
/// one where it does not say.
pub fn default_threads(available: Option<usize>) -> (n: usize)
    ensures
        n == match available {
            Some(a) => if a < 8 {
                a
            } else {
                8
            },
            None => 1,
        },
{
    match available {
        Some(a) => if a < 8 {
            a
        } else {
            8
        },
        None => 1,
    }
}

/// Multiplications below which a product is not worth splitting.
pub const MIN_MACS_FOR_THREADS: usize = 262144;

/// Outputs of each range of a product.
pub open spec fn matmul_split(n_tokens: int, k: int, n_rows: int, threads: int) -> int {
    if n_tokens * k * n_rows < MIN_MACS_FOR_THREADS || threads == 1 {
        n_tokens * n_rows
    } else if n_tokens == 1 {
        let size = chunk_count(n_rows, threads);
        if size < 1 {
            1
        } else {
            size
        }
    } else {
        n_rows
    }
}

/// How the outputs of a product are split: not at all where it is small, by
/// weight rows for a single token, else token by token.
pub fn matmul_ranges(n_tokens: usize, k: usize, n_rows: usize, threads: usize) -> (r: Vec<
    (usize, usize),
>)
    requires
        n_tokens * k <= usize::MAX,
        n_tokens * n_rows <= usize::MAX,
        threads > 0,
    ensures
        n_tokens * n_rows == 0 ==> r@.len() == 0,
        n_tokens * n_rows > 0 ==> r@ == chunk_list(
            n_tokens * n_rows,
            matmul_split(n_tokens as int, k as int, n_rows as int, threads as int),
        ),
{
    let total: usize = n_tokens * n_rows;
    if total == 0 {
        return Vec::new();
    }
    let inputs: usize = n_tokens * k;
    proof {
        assert(inputs as u128 * n_rows as u128 <= u128::MAX) by (nonlinear_arith)
            requires
                inputs <= 0xffff_ffff_ffff_ffff,
                n_rows <= 0xffff_ffff_ffff_ffff,
        ;
        assert(n_tokens > 0 && n_rows > 0) by (nonlinear_arith)
            requires
                n_tokens * n_rows > 0,
                n_tokens >= 0,
                n_rows >= 0,
        ;
    }
    let macs: u128 = inputs as u128 * n_rows as u128;
    let size: usize = if macs < MIN_MACS_FOR_THREADS as u128 || threads == 1 {
        total
    } else if n_tokens == 1 {
        let c: usize = div_ceil(n_rows, threads);
        if c < 1 {
            1
        } else {
            c
        }
    } else {
        n_rows
    };
    chunks(total, size)
}

} // verus!
