//! Causal scaled-dot-product attention with grouped queries.
//!
//! Queries are rows of `n_heads * head_dim` values, keys and values rows of
//! `n_kv_heads * head_dim`; `n_heads / n_kv_heads` consecutive query heads share
//! one key and value head. Position `pos` attends to the rows `0..=pos`.
use crate::arith::{
    arith, from_usize, is_arith, natural, products, sum_of_products, total, Arith, Op, NEG_ZERO, ONE, ZERO,
};
use crate::kernels::norms::{softmax, softmaxed};
use crate::kernels::quant::lemma_row_in;
use crate::kernels::rows::{is_rows, lemma_is_rows_push, row_of, row_slice};
use crate::kernels::team::{gives, team_fill_slices};
use vstd::prelude::*;

verus! {

/// How the heads of a layer are laid out.
#[derive(Debug, Clone, Copy, PartialEq, Eq, Structural)]
pub struct Heads {
    pub n_heads: usize,
    pub n_kv_heads: usize,
    pub head_dim: usize,
}

impl Heads {
    /// Width of a query row.
    pub open spec fn q_width(self) -> int {
        self.n_heads * self.head_dim
    }

    /// Width of a key or value row.
    pub open spec fn kv_width(self) -> int {
        self.n_kv_heads * self.head_dim
    }

    /// The key and value head of query head `h`.
    pub open spec fn kv_head(self, h: int) -> int {
        h / (self.n_heads as int / self.n_kv_heads as int)
    }

    /// Query heads share key heads evenly, and rows have a length.
    pub open spec fn wf(self) -> bool {
        &&& self.n_kv_heads > 0
        &&& self.n_heads % self.n_kv_heads == 0
        &&& self.q_width() <= usize::MAX
        &&& self.kv_width() <= usize::MAX
    }
}

/// The layout of `n_heads` query heads over `n_kv_heads` key heads, each
/// `head_dim` wide.
pub open spec fn heads_of(n_heads: usize, n_kv_heads: usize, head_dim: usize) -> Heads {
    Heads { n_heads, n_kv_heads, head_dim }
}

/// The part of row `t` of `cache` that belongs to key head `kv`.
pub open spec fn head_of_row(cache: Seq<u32>, t: int, kv: int, heads: Heads) -> Seq<u32> {
    let lo = t * heads.kv_width() + kv * heads.head_dim;
    cache.subrange(lo, lo + heads.head_dim)
}

/// `q . key * (1 / sqrt(head_dim))`.
pub open spec fn score(k: Arith, q: Seq<u32>, key: Seq<u32>) -> u32 {
    k(
        Op::Mul,
        total(k, NEG_ZERO, products(k, q, key)),
        k(Op::Div, ONE, k(Op::Sqrt, natural(k, q.len() as int), 0)),
    )
}

/// Scores of head `h` of the query row `q` against the rows up to `pos`.
pub open spec fn scores(
    k: Arith,
    q: Seq<u32>,
    keys: Seq<u32>,
    pos: int,
    h: int,
    heads: Heads,
) -> Seq<u32> {
    Seq::new(
        (pos + 1) as nat,
        |t: int|
            score(
                k,
                row_of(q, h, heads.head_dim as int),
                head_of_row(keys, t, heads.kv_head(h), heads),
            ),
    )
}

/// What each row up to `pos` adds to value `d` of head `h`.
pub open spec fn shares(
    k: Arith,
    probs: Seq<u32>,
    values: Seq<u32>,
    pos: int,
    h: int,
    d: int,
    heads: Heads,
) -> Seq<u32> {
    Seq::new(
        (pos + 1) as nat,
        |t: int| k(Op::Mul, probs[t], head_of_row(values, t, heads.kv_head(h), heads)[d]),
    )
}

/// Output of head `h`: the values up to `pos`, weighted by the softmax of the
/// scores.
pub open spec fn head_output(
    k: Arith,
    q: Seq<u32>,
    keys: Seq<u32>,
    values: Seq<u32>,
    pos: int,
    h: int,
    heads: Heads,
) -> Seq<u32> {
    let probs = softmaxed(k, scores(k, q, keys, pos, h, heads));
    Seq::new(
        heads.head_dim as nat,
        |d: int| total(k, ZERO, shares(k, probs, values, pos, h, d, heads)),
    )
}

/// Output row of the query row `q` at position `pos`.
pub open spec fn attended(
    k: Arith,
    q: Seq<u32>,
    keys: Seq<u32>,
    values: Seq<u32>,
    pos: int,
    heads: Heads,
) -> Seq<u32> {
    Seq::new(
        heads.q_width() as nat,
        |i: int|
            head_output(k, q, keys, values, pos, i / heads.head_dim as int, heads)[i
                % heads.head_dim as int],
    )
}

/// Where the part of a cache row that belongs to one head lies.
pub proof fn lemma_head_in_row(cache_len: int, t: int, kv: int, pos: int, heads: Heads)
    requires
        0 <= t <= pos,
        0 <= kv < heads.n_kv_heads,
        cache_len >= (pos + 1) * heads.kv_width(),
    ensures
        0 <= t * heads.kv_width(),
        0 <= kv * heads.head_dim,
        0 <= t * heads.kv_width() + kv * heads.head_dim,
        t * heads.kv_width() + kv * heads.head_dim + heads.head_dim <= (t + 1) * heads.kv_width(),
        (t + 1) * heads.kv_width() <= cache_len,
{
    lemma_row_in(t, pos + 1, heads.kv_width());
    lemma_row_in(kv, heads.n_kv_heads as int, heads.head_dim as int);
    assert((t + 1) * heads.kv_width() == t * heads.kv_width() + heads.kv_width())
        by (nonlinear_arith);
}

/// Every query head has a key head.
pub proof fn lemma_kv_head(h: int, heads: Heads)
    requires
        heads.n_kv_heads > 0,
        heads.n_heads % heads.n_kv_heads == 0,
        0 <= h < heads.n_heads,
    ensures
        heads.n_heads as int / heads.n_kv_heads as int > 0,
        0 <= heads.kv_head(h) < heads.n_kv_heads,
{
    let n = heads.n_heads as int;
    let m = heads.n_kv_heads as int;
    let g = n / m;
    assert(n == g * m && g > 0) by (nonlinear_arith)
        requires
            g == n / m,
            n % m == 0,
            m > 0,
            n > 0,
    ;
    assert(0 <= h / g < m) by (nonlinear_arith)
        requires
            0 <= h < g * m,
            g > 0,
    ;
}

/// The slice of row `t` of a cache that belongs to key head `kv`.
fn head_slice<'a>(cache: &'a [u32], t: usize, kv: usize, pos: usize, heads: Heads) -> (s: &'a [u32])
    requires
        heads.wf(),
        t <= pos,
        kv < heads.n_kv_heads,
        cache@.len() >= (pos + 1) * heads.kv_width(),
    ensures
        s@.len() == heads.head_dim,
        s@ == head_of_row(cache@, t as int, kv as int, heads),
{
    proof {
        lemma_head_in_row(cache@.len() as int, t as int, kv as int, pos as int, heads);
        assert(cache.len() == cache@.len());
    }
    let lo: usize = t * (heads.n_kv_heads * heads.head_dim) + kv * heads.head_dim;
    vstd::slice::slice_subrange(cache, lo, lo + heads.head_dim)
}

/// One head of one step of decoding.
fn decode_one_head<F: Fn(Op, u32, u32) -> u32>(
    q: &[u32],
    keys: &[u32],
    values: &[u32],
    pos: usize,
    h: usize,
    heads: Heads,
    calc: &F,
) -> (out: Vec<u32>)
    requires
        is_arith(*calc),
        heads.wf(),
        pos < usize::MAX,
        h < heads.n_heads,
        q@.len() == heads.q_width(),
        keys@.len() >= (pos + 1) * heads.kv_width(),
        values@.len() >= (pos + 1) * heads.kv_width(),
    ensures
        out@ == head_output(arith(*calc), q@, keys@, values@, pos as int, h as int, heads),
{
    let ghost k = arith(*calc);
    let scale: u32 = calc(Op::Div, ONE, calc(Op::Sqrt, from_usize(heads.head_dim, calc), 0));
    proof {
        lemma_kv_head(h as int, heads);
    }
    let kv: usize = h / (heads.n_heads / heads.n_kv_heads);
    let q_vec: &[u32] = row_slice(q, h, heads.head_dim, Ghost(heads.n_heads as int));
    let ghost want = scores(k, q@, keys@, pos as int, h as int, heads);
    let mut found: Vec<u32> = Vec::new();
    let mut t: usize = 0;
    while t < pos + 1
        invariant
            is_arith(*calc),
            k == arith(*calc),
            heads.wf(),
            pos < usize::MAX,
            kv < heads.n_kv_heads,
            kv == heads.kv_head(h as int),
            keys@.len() >= (pos + 1) * heads.kv_width(),
            q_vec@ == row_of(q@, h as int, heads.head_dim as int),
            q_vec@.len() == heads.head_dim,
            scale == k(Op::Div, ONE, k(Op::Sqrt, natural(k, heads.head_dim as int), 0)),
            want == scores(k, q@, keys@, pos as int, h as int, heads),
            t <= pos + 1,
            found@ =~= want.take(t as int),
        decreases pos + 1 - t,
    {
        let key: &[u32] = head_slice(keys, t, kv, pos, heads);
        let s: u32 = calc(Op::Mul, sum_of_products(q_vec, key, calc), scale);
        proof {
            assert(s == want[t as int]);
        }
        found.push(s);
        t += 1;
    }
    proof {
        assert(found@ =~= want);
    }
    let probs: Vec<u32> = softmax(found.as_slice(), calc);
    let mut out: Vec<u32> = vec![ZERO; heads.head_dim];
    let mut u: usize = 0;
    while u < pos + 1
        invariant
            is_arith(*calc),
            k == arith(*calc),
            heads.wf(),
            pos < usize::MAX,
            kv < heads.n_kv_heads,
            kv == heads.kv_head(h as int),
            values@.len() >= (pos + 1) * heads.kv_width(),
            probs@.len() == pos + 1,
            out@.len() == heads.head_dim,
            u <= pos + 1,
            forall|d: int|
                0 <= d < heads.head_dim ==> #[trigger] out@[d] == total(
                    k,
                    ZERO,
                    shares(k, probs@, values@, pos as int, h as int, d, heads).take(u as int),
                ),
        decreases pos + 1 - u,
    {
        let value: &[u32] = head_slice(values, u, kv, pos, heads);
        let p: u32 = probs[u];
        let mut d: usize = 0;
        while d < heads.head_dim
            invariant
                is_arith(*calc),
                k == arith(*calc),
                u < pos + 1,
                p == probs@[u as int],
                probs@.len() == pos + 1,
                value@ == head_of_row(values@, u as int, heads.kv_head(h as int), heads),
                value@.len() == heads.head_dim,
                out@.len() == heads.head_dim,
                d <= heads.head_dim,
                forall|e: int|
                    0 <= e < d ==> #[trigger] out@[e] == total(
                        k,
                        ZERO,
                        shares(k, probs@, values@, pos as int, h as int, e, heads).take(u + 1),
                    ),
                forall|e: int|
                    d <= e < heads.head_dim ==> #[trigger] out@[e] == total(
                        k,
                        ZERO,
                        shares(k, probs@, values@, pos as int, h as int, e, heads).take(u as int),
                    ),
            decreases heads.head_dim - d,
        {
            let y: u32 = calc(Op::Add, out[d], calc(Op::Mul, p, value[d]));
            proof {
                let s = shares(k, probs@, values@, pos as int, h as int, d as int, heads);
                assert(s.take(u + 1).drop_last() =~= s.take(u as int));
                assert(s.take(u + 1).last() == s[u as int]);
            }
            out.set(d, y);
            d += 1;
        }
        u += 1;
    }
    proof {
        let all = head_output(k, q@, keys@, values@, pos as int, h as int, heads);
        assert forall|d: int| 0 <= d < heads.head_dim implies out@[d] == all[d] by {
            let s = shares(k, probs@, values@, pos as int, h as int, d, heads);
            assert(s.take(pos + 1) =~= s);
        }
        assert(out@ =~= all);
    }
    out
}

/// Heads side by side make up the output row.
proof fn lemma_heads_make_row(
    k: Arith,
    q: Seq<u32>,
    keys: Seq<u32>,
    values: Seq<u32>,
    pos: int,
    heads: Heads,
    out: Seq<u32>,
)
    requires
        is_rows(
            out,
            heads.n_heads as int,
            heads.head_dim as int,
            |h: int| head_output(k, q, keys, values, pos, h, heads),
        ),
    ensures
        out == attended(k, q, keys, values, pos, heads),
{
    let w = heads.head_dim as int;
    let n = heads.n_heads as int;
    let want = attended(k, q, keys, values, pos, heads);
    assert(0 <= n * w) by (nonlinear_arith)
        requires
            0 <= n,
            0 <= w,
    ;
    assert forall|i: int| 0 <= i < out.len() implies out[i] == want[i] by {
        assert(w > 0) by (nonlinear_arith)
            requires
                0 <= i < n * w,
                0 <= n,
                0 <= w,
        ;
        let h = i / w;
        let d = i % w;
        assert(i == h * w + d && 0 <= d < w && 0 <= h < n) by (nonlinear_arith)
            requires
                0 <= i < n * w,
                0 < w,
                h == i / w,
                d == i % w,
        ;
        lemma_row_in(h, n, w);
        assert(row_of(out, h, w)[d] == out[i]);
    }
    assert(out =~= want);
}

/// Output row of the query row `q` at position `pos`.
fn decode_row<F: Fn(Op, u32, u32) -> u32>(
    q: &[u32],
    k_cache: &[u32],
    v_cache: &[u32],
    pos: usize,
    heads: Heads,
    calc: &F,
) -> (out: Vec<u32>)
    requires
        is_arith(*calc),
        heads.wf(),
        pos < usize::MAX,
        q@.len() == heads.q_width(),
        k_cache@.len() >= (pos + 1) * heads.kv_width(),
        v_cache@.len() >= (pos + 1) * heads.kv_width(),
    ensures
        out@ == attended(arith(*calc), q@, k_cache@, v_cache@, pos as int, heads),
{
    let ghost f = |h: int|
        head_output(arith(*calc), q@, k_cache@, v_cache@, pos as int, h, heads);
    let mut out: Vec<u32> = Vec::new();
    let mut h: usize = 0;
    while h < heads.n_heads
        invariant
            is_arith(*calc),
            heads.wf(),
            pos < usize::MAX,
            q@.len() == heads.q_width(),
            k_cache@.len() >= (pos + 1) * heads.kv_width(),
            v_cache@.len() >= (pos + 1) * heads.kv_width(),
            f == (|h: int|
                head_output(arith(*calc), q@, k_cache@, v_cache@, pos as int, h, heads)),
            h <= heads.n_heads,
            is_rows(out@, h as int, heads.head_dim as int, f),
        decreases heads.n_heads - h,
    {
        let mut y: Vec<u32> = decode_one_head(q, k_cache, v_cache, pos, h, heads, calc);
        proof {
            lemma_is_rows_push(out@, y@, h as int, heads.head_dim as int, f);
        }
        out.append(&mut y);
        h += 1;
    }
    proof {
        lemma_heads_make_row(arith(*calc), q@, k_cache@, v_cache@, pos as int, heads, out@);
    }
    out
}

/// One step of decoding: the output row of the query row `q` at position `pos`,
/// whose key and value rows are already in the caches.
pub fn attention_decode<F: Fn(Op, u32, u32) -> u32>(
    q: &[u32],
    k_cache: &[u32],
    v_cache: &[u32],
    pos: usize,
    n_heads: usize,
    n_kv_heads: usize,
    head_dim: usize,
    calc: &F,
) -> (out: Vec<u32>)
    requires
        is_arith(*calc),
        heads_of(n_heads, n_kv_heads, head_dim).wf(),
        pos < usize::MAX,
        q@.len() == n_heads * head_dim,
        k_cache@.len() >= (pos + 1) * (n_kv_heads * head_dim),
        v_cache@.len() >= (pos + 1) * (n_kv_heads * head_dim),
    ensures
        out@ == attended(
            arith(*calc),
            q@,
            k_cache@,
            v_cache@,
            pos as int,
            heads_of(n_heads, n_kv_heads, head_dim),
        ),
{
    decode_row(q, k_cache, v_cache, pos, Heads { n_heads, n_kv_heads, head_dim }, calc)
}

/// One step of decoding for a team, whose members share the heads: fills
/// `out[..n_heads * head_dim]`.
pub fn attention_decode_team<F: Fn(Op, u32, u32) -> u32>(
    q: &[u32],
    k_cache: &[u32],
    v_cache: &[u32],
    pos: usize,
    n_heads: usize,
    n_kv_heads: usize,
    head_dim: usize,
    out: &mut Vec<u32>,
    calc: &F,
)
    requires
        is_arith(*calc),
        heads_of(n_heads, n_kv_heads, head_dim).wf(),
        pos < usize::MAX,
        q@.len() == n_heads * head_dim,
        k_cache@.len() >= (pos + 1) * (n_kv_heads * head_dim),
        v_cache@.len() >= (pos + 1) * (n_kv_heads * head_dim),
        old(out)@.len() >= n_heads * head_dim,
    ensures
        final(out)@.len() == old(out)@.len(),
        final(out)@.take(n_heads * head_dim) == attended(
            arith(*calc),
            q@,
            k_cache@,
            v_cache@,
            pos as int,
            heads_of(n_heads, n_kv_heads, head_dim),
        ),
        forall|i: int|
            n_heads * head_dim <= i < old(out)@.len() ==> #[trigger] final(out)@[i] == old(
                out,
            )@[i],
{
    let heads = Heads { n_heads, n_kv_heads, head_dim };
    let ghost k = arith(*calc);
    let head = |h: usize| -> (v: Vec<u32>)
        requires
            h < n_heads,
        ensures
            v@ == head_output(
                arith(*calc),
                q@,
                k_cache@,
                v_cache@,
                pos as int,
                h as int,
                heads,
            ),
        { decode_one_head(q, k_cache, v_cache, pos, h, heads, calc) };
    team_fill_slices(out, n_heads, head_dim, &head);
    proof {
        let w = n_heads * head_dim;
        let front = out@.take(w);
        let f = |h: int| head_output(k, q@, k_cache@, v_cache@, pos as int, h, heads);
        assert forall|h: int| 0 <= h < n_heads implies #[trigger] row_of(front, h, head_dim as int)
            == f(h) by {
            lemma_row_in(h, n_heads as int, head_dim as int);
            assert(row_of(front, h, head_dim as int) =~= row_of(out@, h, head_dim as int));
            let i = h as usize;
            assert(gives(head, i, row_of(out@, i as int, head_dim as int)));
        }
        lemma_heads_make_row(k, q@, k_cache@, v_cache@, pos as int, heads, front);
    }
}

/// Causal self-attention over `seq` rows: row `i` of the output is what position
/// `i` makes of the rows `0..=i`.
pub fn attention<F: Fn(Op, u32, u32) -> u32>(
    q: &[u32],
    k: &[u32],
    v: &[u32],
    seq: usize,
    n_heads: usize,
    n_kv_heads: usize,
    head_dim: usize,
    calc: &F,
) -> (out: Vec<u32>)
    requires
        is_arith(*calc),
        heads_of(n_heads, n_kv_heads, head_dim).wf(),
        q@.len() == seq * (n_heads * head_dim),
        k@.len() == seq * (n_kv_heads * head_dim),
        v@.len() == seq * (n_kv_heads * head_dim),
    ensures
        is_rows(
            out@,
            seq as int,
            n_heads * head_dim,
            |i: int|
                attended(
                    arith(*calc),
                    row_of(q@, i, n_heads * head_dim),
                    k@,
                    v@,
                    i,
                    heads_of(n_heads, n_kv_heads, head_dim),
                ),
        ),
{
    let w: usize = n_heads * head_dim;
    let heads = Heads { n_heads, n_kv_heads, head_dim };
    let ghost f = |i: int|
        attended(arith(*calc), row_of(q@, i, heads.q_width()), k@, v@, i, heads);
    let mut out: Vec<u32> = Vec::new();
    let mut i: usize = 0;
    while i < seq
        invariant
            is_arith(*calc),
            heads.wf(),
            w == heads.q_width(),
            q@.len() == seq * heads.q_width(),
            k@.len() == seq * heads.kv_width(),
            v@.len() == seq * heads.kv_width(),
            f == (|i: int|
                attended(arith(*calc), row_of(q@, i, heads.q_width()), k@, v@, i, heads)),
            i <= seq,
            is_rows(out@, i as int, heads.q_width(), f),
        decreases seq - i,
    {
        proof {
            lemma_row_in(i as int, seq as int, heads.kv_width());
            assert((i + 1) * heads.kv_width() == i * heads.kv_width() + heads.kv_width())
                by (nonlinear_arith);
        }
        let row: &[u32] = row_slice(q, i, w, Ghost(seq as int));
        let mut y: Vec<u32> = decode_row(row, k, v, i, heads, calc);
        proof {
            lemma_is_rows_push(out@, y@, i as int, heads.q_width(), f);
        }
        out.append(&mut y);
        i += 1;
    }
    out
}

/// What a position makes of the caches depends on the rows up to it alone.
pub proof fn law_attention_is_causal(
    k: Arith,
    q: Seq<u32>,
    keys: Seq<u32>,
    values: Seq<u32>,
    other_keys: Seq<u32>,
    other_values: Seq<u32>,
    pos: int,
    heads: Heads,
)
    requires
        heads.wf(),
        0 <= pos,
        keys.len() >= (pos + 1) * heads.kv_width(),
        values.len() >= (pos + 1) * heads.kv_width(),
        other_keys.len() >= (pos + 1) * heads.kv_width(),
        other_values.len() >= (pos + 1) * heads.kv_width(),
        keys.take((pos + 1) * heads.kv_width()) == other_keys.take((pos + 1) * heads.kv_width()),
        values.take((pos + 1) * heads.kv_width()) == other_values.take(
            (pos + 1) * heads.kv_width(),
        ),
    ensures
        attended(k, q, keys, values, pos, heads) == attended(
            k,
            q,
            other_keys,
            other_values,
            pos,
            heads,
        ),
{
    let n = (pos + 1) * heads.kv_width();
    assert forall|t: int, h: int|
        0 <= t <= pos && 0 <= h < heads.n_heads implies #[trigger] head_of_row(
        keys,
        t,
        heads.kv_head(h),
        heads,
    ) == head_of_row(other_keys, t, heads.kv_head(h), heads) && head_of_row(
        values,
        t,
        heads.kv_head(h),
        heads,
    ) == head_of_row(other_values, t, heads.kv_head(h), heads) by {
        lemma_kv_head(h, heads);
        lemma_head_in_row(n, t, heads.kv_head(h), pos, heads);
        assert forall|i: int| 0 <= i < n implies keys[i] == other_keys[i] && values[i]
            == other_values[i] by {
            assert(keys.take(n)[i] == other_keys.take(n)[i]);
            assert(values.take(n)[i] == other_values.take(n)[i]);
        }
        assert(head_of_row(keys, t, heads.kv_head(h), heads) =~= head_of_row(
            other_keys,
            t,
            heads.kv_head(h),
            heads,
        ));
        assert(head_of_row(values, t, heads.kv_head(h), heads) =~= head_of_row(
            other_values,
            t,
            heads.kv_head(h),
            heads,
        ));
    }
    let a = attended(k, q, keys, values, pos, heads);
    let b = attended(k, q, other_keys, other_values, pos, heads);
    assert forall|i: int| 0 <= i < heads.q_width() implies a[i] == b[i] by {
        let w = heads.head_dim as int;
        let n_heads = heads.n_heads as int;
        assert(w > 0) by (nonlinear_arith)
            requires
                0 <= i < n_heads * w,
                0 <= n_heads,
                0 <= w,
        ;
        let h = i / w;
        assert(0 <= h < n_heads) by (nonlinear_arith)
            requires
                0 <= i < n_heads * w,
                0 < w,
                h == i / w,
        ;
        let d = i % w;
        assert(scores(k, q, keys, pos, h, heads) =~= scores(k, q, other_keys, pos, h, heads)) by {
            assert forall|t: int| 0 <= t <= pos implies scores(k, q, keys, pos, h, heads)[t]
                == scores(k, q, other_keys, pos, h, heads)[t] by {
                assert(head_of_row(keys, t, heads.kv_head(h), heads) == head_of_row(
                    other_keys,
                    t,
                    heads.kv_head(h),
                    heads,
                ));
            }
        }
        let probs = softmaxed(k, scores(k, q, keys, pos, h, heads));
        let s1 = shares(k, probs, values, pos, h, d, heads);
        let s2 = shares(k, probs, other_values, pos, h, d, heads);
        assert forall|t: int| 0 <= t <= pos implies s1[t] == s2[t] by {
            assert(head_of_row(keys, t, heads.kv_head(h), heads) == head_of_row(
                other_keys,
                t,
                heads.kv_head(h),
                heads,
            ));
        }
        assert(s1 =~= s2);
    }
    assert(a =~= b);
}

/// Decoding against caches that hold the rows up to `pos` gives row `pos` of
/// attention over the whole sequence.
pub proof fn law_decode_is_attention_row(
    k: Arith,
    q: Seq<u32>,
    keys: Seq<u32>,
    values: Seq<u32>,
    seq: int,
    heads: Heads,
    out: Seq<u32>,
    k_cache: Seq<u32>,
    v_cache: Seq<u32>,
    pos: int,
)
    requires
        heads.wf(),
        keys.len() == seq * heads.kv_width(),
        values.len() == seq * heads.kv_width(),
        is_rows(
            out,
            seq,
            heads.q_width(),
            |i: int| attended(k, row_of(q, i, heads.q_width()), keys, values, i, heads),
        ),
        0 <= pos < seq,
        k_cache.len() >= (pos + 1) * heads.kv_width(),
        v_cache.len() >= (pos + 1) * heads.kv_width(),
        k_cache.take((pos + 1) * heads.kv_width()) == keys.take((pos + 1) * heads.kv_width()),
        v_cache.take((pos + 1) * heads.kv_width()) == values.take((pos + 1) * heads.kv_width()),
    ensures
        attended(k, row_of(q, pos, heads.q_width()), k_cache, v_cache, pos, heads) == row_of(
            out,
            pos,
            heads.q_width(),
        ),
{
    lemma_row_in(pos, seq, heads.kv_width());
    assert((pos + 1) * heads.kv_width() == pos * heads.kv_width() + heads.kv_width())
        by (nonlinear_arith);
    law_attention_is_causal(
        k,
        row_of(q, pos, heads.q_width()),
        k_cache,
        v_cache,
        keys,
        values,
        pos,
        heads,
    );
}

} // verus!
