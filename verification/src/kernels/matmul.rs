//! Matrix products: dense, Q8 and packed weights against rows of activations.
//!
//! Weights have one row per output, so every output is a dot product of an
//! activation row with a weight row. Output `t * n_rows + r` belongs to token
//! `t` and weight row `r`.
use crate::arith::{arith, from_i32, integer, is_arith, products, total, Arith, Op, ZERO};
use crate::kernels::kquant::{KQuantKind, KQuantMatrix};
use crate::kernels::native_dot::{
    lemma_term_is_unique, row_term, term_at, term_width, term_width_of, Term,
};
use crate::kernels::quant::{
    code_of, group, group_scale, lemma_row_in, max_magnitude, quantize_acts, quantizes, QuantActs, QuantMatrix,
};
use crate::kernels::rows::{is_rows, lemma_is_rows_push, lemma_rows_unique, row_of, row_slice};
use crate::kernels::team::team_fill_rows_weighted;
use vstd::prelude::*;

verus! {

/// Every fourth product, `a[l] * b[l] + a[4 + l] * b[4 + l] + ...`, `n` of them.
pub open spec fn lane(k: Arith, a: Seq<u32>, b: Seq<u32>, l: int, n: nat) -> u32
    decreases n,
{
    if n == 0 {
        ZERO
    } else {
        k(
            Op::Add,
            lane(k, a, b, l, (n - 1) as nat),
            k(Op::Mul, a[4 * (n - 1) + l], b[4 * (n - 1) + l]),
        )
    }
}

/// The first `4 * n` products, summed in four lanes.
pub open spec fn quad_sum(k: Arith, a: Seq<u32>, b: Seq<u32>, n: nat) -> u32 {
    k(
        Op::Add,
        k(Op::Add, k(Op::Add, lane(k, a, b, 0, n), lane(k, a, b, 1, n)), lane(k, a, b, 2, n)),
        lane(k, a, b, 3, n),
    )
}

/// Dot product: four lanes, then what is left over, from left to right.
pub open spec fn dot_value(k: Arith, a: Seq<u32>, b: Seq<u32>) -> u32 {
    let n = a.len() / 4;
    total(
        k,
        quad_sum(k, a, b, n),
        products(k, a.subrange(4 * n as int, a.len() as int), b.subrange(4 * n as int, a.len() as int)),
    )
}

/// The first `4 * n` products, summed in four lanes.
fn dot_quads<F: Fn(Op, u32, u32) -> u32>(a: &[u32], b: &[u32], n: usize, calc: &F) -> (r: u32)
    requires
        is_arith(*calc),
        4 * n <= a@.len(),
        4 * n <= b@.len(),
    ensures
        r == quad_sum(arith(*calc), a@, b@, n as nat),
{
    let ghost k = arith(*calc);
    let mut s0: u32 = ZERO;
    let mut s1: u32 = ZERO;
    let mut s2: u32 = ZERO;
    let mut s3: u32 = ZERO;
    let mut i: usize = 0;
    proof {
        assert(a.len() == a@.len() && b.len() == b@.len());
    }
    while i < n
        invariant
            is_arith(*calc),
            k == arith(*calc),
            a.len() == a@.len(),
            b.len() == b@.len(),
            4 * n <= a@.len(),
            4 * n <= b@.len(),
            i <= n,
            s0 == lane(k, a@, b@, 0, i as nat),
            s1 == lane(k, a@, b@, 1, i as nat),
            s2 == lane(k, a@, b@, 2, i as nat),
            s3 == lane(k, a@, b@, 3, i as nat),
        decreases n - i,
    {
        let at: usize = 4 * i;
        s0 = calc(Op::Add, s0, calc(Op::Mul, a[at], b[at]));
        s1 = calc(Op::Add, s1, calc(Op::Mul, a[at + 1], b[at + 1]));
        s2 = calc(Op::Add, s2, calc(Op::Mul, a[at + 2], b[at + 2]));
        s3 = calc(Op::Add, s3, calc(Op::Mul, a[at + 3], b[at + 3]));
        i += 1;
    }
    calc(Op::Add, calc(Op::Add, calc(Op::Add, s0, s1), s2), s3)
}

/// Dense dot product.
pub fn dot_f32<F: Fn(Op, u32, u32) -> u32>(a: &[u32], b: &[u32], calc: &F) -> (r: u32)
    requires
        is_arith(*calc),
        a.len() == b.len(),
    ensures
        r == dot_value(arith(*calc), a@, b@),
{
    let ghost k = arith(*calc);
    let n: usize = a.len() / 4;
    let mut sum: u32 = dot_quads(a, b, n, calc);
    let ghost start = sum;
    let ghost rest = products(
        k,
        a@.subrange(4 * n as int, a@.len() as int),
        b@.subrange(4 * n as int, a@.len() as int),
    );
    let mut i: usize = 4 * n;
    proof {
        assert(rest.take(0) =~= seq![]);
    }
    while i < a.len()
        invariant
            is_arith(*calc),
            k == arith(*calc),
            a.len() == b.len(),
            n == a.len() / 4,
            4 * n <= i <= a.len(),
            rest == products(
                k,
                a@.subrange(4 * n as int, a@.len() as int),
                b@.subrange(4 * n as int, a@.len() as int),
            ),
            sum == total(k, start, rest.take(i - 4 * n)),
        decreases a.len() - i,
    {
        proof {
            assert(rest.take(i + 1 - 4 * n).drop_last() =~= rest.take(i - 4 * n));
        }
        sum = calc(Op::Add, sum, calc(Op::Mul, a[i], b[i]));
        i += 1;
    }
    proof {
        assert(rest.take(i - 4 * n) =~= rest);
    }
    sum
}

/// Codes as singles.
pub open spec fn singles(k: Arith, q: Seq<i8>) -> Seq<u32> {
    Seq::new(q.len(), |i: int| integer(k, q[i] as int))
}

/// Group `g` of a row of Q8 codes against activations: `scale * (a . q)`.
pub open spec fn q8_group(k: Arith, a: Seq<u32>, q: Seq<i8>, scales: Seq<u32>, g: int) -> u32 {
    k(
        Op::Mul,
        scales[g],
        quad_sum(
            k,
            a.subrange(32 * g, 32 * g + 32),
            singles(k, q.subrange(32 * g, 32 * g + 32)),
            8,
        ),
    )
}

/// Dot product of activations with a row of Q8 codes.
pub open spec fn q8_dot_value(k: Arith, a: Seq<u32>, q: Seq<i8>, scales: Seq<u32>) -> u32 {
    total(k, ZERO, Seq::new(scales.len(), |g: int| q8_group(k, a, q, scales, g)))
}

/// Dot product of activations with a row of Q8 codes.
pub fn dot_q8<F: Fn(Op, u32, u32) -> u32>(a: &[u32], q: &[i8], scales: &[u32], calc: &F) -> (r: u32)
    requires
        is_arith(*calc),
        a@.len() == 32 * scales@.len(),
        q@.len() == 32 * scales@.len(),
    ensures
        r == q8_dot_value(arith(*calc), a@, q@, scales@),
{
    let ghost k = arith(*calc);
    let ghost terms = Seq::new(scales@.len(), |g: int| q8_group(k, a@, q@, scales@, g));
    let mut sum: u32 = ZERO;
    let mut g: usize = 0;
    proof {
        assert(a.len() == a@.len() && q.len() == q@.len());
    }
    while g < scales.len()
        invariant
            is_arith(*calc),
            k == arith(*calc),
            a.len() == a@.len(),
            q.len() == q@.len(),
            a@.len() == 32 * scales@.len(),
            q@.len() == 32 * scales@.len(),
            terms == Seq::new(scales@.len(), |g: int| q8_group(k, a@, q@, scales@, g)),
            g <= scales.len(),
            sum == total(k, ZERO, terms.take(g as int)),
        decreases scales.len() - g,
    {
        let base: usize = 32 * g;
        let a_part: &[u32] = vstd::slice::slice_subrange(a, base, base + 32);
        let q_part: &[i8] = vstd::slice::slice_subrange(q, base, base + 32);
        let mut values: Vec<u32> = Vec::new();
        let mut i: usize = 0;
        while i < 32
            invariant
                is_arith(*calc),
                k == arith(*calc),
                q_part@.len() == 32,
                i <= 32,
                values@ =~= singles(k, q_part@).take(i as int),
            decreases 32 - i,
        {
            values.push(from_i32(q_part[i] as i32, calc));
            i += 1;
        }
        proof {
            assert(values@ =~= singles(k, q_part@));
            assert(terms.take(g + 1).drop_last() =~= terms.take(g as int));
        }
        let s: u32 = dot_quads(a_part, values.as_slice(), 8, calc);
        sum = calc(Op::Add, sum, calc(Op::Mul, scales[g], s));
        g += 1;
    }
    proof {
        assert(terms.take(g as int) =~= terms);
    }
    sum
}

/// Scales of a row of activations.
pub open spec fn act_scales(k: Arith, x: Seq<u32>) -> Seq<u32> {
    Seq::new(x.len() / 32, |g: int| group_scale(k, max_magnitude(group(x, g))))
}

/// Codes of a row of activations.
pub open spec fn act_codes(k: Arith, x: Seq<u32>) -> Seq<i8> {
    Seq::new(x.len(), |i: int| code_of(k, x[i], act_scales(k, x)[i / 32]))
}

/// `acts` is `x`, quantized.
pub open spec fn are_acts(k: Arith, x: Seq<u32>, acts: QuantActs) -> bool {
    &&& acts.wf()
    &&& acts.q@ == act_codes(k, x)
    &&& acts.scales@ == act_scales(k, x)
}

/// Quantized activations are the codes and scales of the row.
pub proof fn lemma_quantizes_acts(k: Arith, x: Seq<u32>, acts: QuantActs)
    requires
        acts.wf(),
        quantizes(k, x, acts.q@, acts.scales@),
    ensures
        are_acts(k, x, acts),
{
    assert(acts.scales@ =~= act_scales(k, x));
    assert(acts.q@ =~= act_codes(k, x));
}

/// A term, multiplied out.
pub open spec fn term_value(k: Arith, kind: KQuantKind, t: Term) -> u32 {
    match kind {
        KQuantKind::Q40 => k(Op::Mul, k(Op::Mul, t.d, t.sa), integer(k, t.dot as int)),
        KQuantKind::Q4K => k(
            Op::Mul,
            t.sa,
            k(
                Op::Sub,
                k(Op::Mul, k(Op::Mul, t.d, integer(k, t.sc as int)), integer(k, t.dot as int)),
                k(Op::Mul, k(Op::Mul, t.dmin, integer(k, t.m as int)), integer(k, t.sum as int)),
            ),
        ),
        KQuantKind::Q6K => k(
            Op::Mul,
            k(Op::Mul, k(Op::Mul, t.d, t.sa), integer(k, t.sc as int)),
            integer(k, t.dot as int),
        ),
    }
}

/// A term, multiplied out.
fn term_product<F: Fn(Op, u32, u32) -> u32>(kind: KQuantKind, t: Term, calc: &F) -> (v: u32)
    requires
        is_arith(*calc),
    ensures
        v == term_value(arith(*calc), kind, t),
{
    let dot: u32 = from_i32(t.dot, calc);
    match kind {
        KQuantKind::Q40 => calc(Op::Mul, calc(Op::Mul, t.d, t.sa), dot),
        KQuantKind::Q4K => {
            let sc: u32 = from_i32(t.sc, calc);
            let m: u32 = from_i32(t.m, calc);
            let sum: u32 = from_i32(t.sum, calc);
            let left: u32 = calc(Op::Mul, calc(Op::Mul, t.d, sc), dot);
            let right: u32 = calc(Op::Mul, calc(Op::Mul, t.dmin, m), sum);
            calc(Op::Mul, t.sa, calc(Op::Sub, left, right))
        },
        KQuantKind::Q6K => {
            let sc: u32 = from_i32(t.sc, calc);
            calc(Op::Mul, calc(Op::Mul, calc(Op::Mul, t.d, t.sa), sc), dot)
        },
    }
}

/// The terms of row `r`, multiplied out.
pub open spec fn term_values(
    k: Arith,
    m: KQuantMatrix,
    codes: Seq<i8>,
    scales: Seq<u32>,
    r: int,
) -> Seq<u32> {
    Seq::new(
        (m.cols as int / term_width(m.kind)) as nat,
        |t: int| term_value(k, m.kind, term_at(m, codes, scales, r, t)),
    )
}

/// Integer dot product of packed weight row `r` with quantized activations.
pub open spec fn kquant_dot_value(
    k: Arith,
    m: KQuantMatrix,
    codes: Seq<i8>,
    scales: Seq<u32>,
    r: int,
) -> u32 {
    total(k, ZERO, term_values(k, m, codes, scales, r))
}

impl KQuantMatrix {
    /// Integer dot product of packed weight row `r` with quantized activations.
    pub fn row_dot<F: Fn(Op, u32, u32) -> u32>(&self, acts: &QuantActs, r: usize, calc: &F) -> (v:
        u32)
        requires
            is_arith(*calc),
            self.wf(),
            acts.wf(),
            acts.q@.len() == self.cols,
            r < self.rows,
        ensures
            v == kquant_dot_value(arith(*calc), *self, acts.q@, acts.scales@, r as int),
    {
        let ghost k = arith(*calc);
        let ghost values = term_values(k, *self, acts.q@, acts.scales@, r as int);
        let n: usize = self.cols / term_width_of(self.kind);
        let mut sum: u32 = ZERO;
        let mut t: usize = 0;
        while t < n
            invariant
                is_arith(*calc),
                k == arith(*calc),
                self.wf(),
                acts.wf(),
                acts.q@.len() == self.cols,
                r < self.rows,
                n == self.cols as int / term_width(self.kind),
                values == term_values(k, *self, acts.q@, acts.scales@, r as int),
                t <= n,
                sum == total(k, ZERO, values.take(t as int)),
            decreases n - t,
        {
            let term = row_term(self, acts, r, t);
            proof {
                lemma_term_is_unique(*self, *acts, r as int, t as int, term);
                assert(values.take(t + 1).drop_last() =~= values.take(t as int));
            }
            sum = calc(Op::Add, sum, term_product(self.kind, term, calc));
            t += 1;
        }
        proof {
            assert(values.take(n as int) =~= values);
        }
        sum
    }
}

/// The dot product of the `n` codes of `a` and `b` from `lo` on.
pub open spec fn byte_dot(a: Seq<i8>, b: Seq<i8>, lo: int, n: nat) -> int
    decreases n,
{
    if n == 0 {
        0
    } else {
        byte_dot(a, b, lo, (n - 1) as nat) + a[lo + n - 1] * b[lo + n - 1]
    }
}

/// Integer dot product of quantized activations with a row of Q8 codes.
pub open spec fn q8_q8_value(
    k: Arith,
    codes: Seq<i8>,
    act_scales: Seq<u32>,
    q: Seq<i8>,
    scales: Seq<u32>,
) -> u32 {
    total(
        k,
        ZERO,
        Seq::new(
            scales.len(),
            |g: int|
                k(
                    Op::Mul,
                    k(Op::Mul, scales[g], act_scales[g]),
                    integer(k, byte_dot(codes, q, 32 * g, 32)),
                ),
        ),
    )
}

/// Integer dot product of quantized activations with a row of Q8 codes: group by
/// group, the scales times the dot product of the codes.
pub fn dot_q8_q8<F: Fn(Op, u32, u32) -> u32>(
    acts: &QuantActs,
    q: &[i8],
    scales: &[u32],
    calc: &F,
) -> (v: u32)
    requires
        is_arith(*calc),
        acts.wf(),
        acts.q@.len() == q@.len(),
        q@.len() == 32 * scales@.len(),
    ensures
        v == q8_q8_value(arith(*calc), acts.q@, acts.scales@, q@, scales@),
{
    let ghost k = arith(*calc);
    let ghost terms = Seq::new(
        scales@.len(),
        |g: int|
            k(
                Op::Mul,
                k(Op::Mul, scales@[g], acts.scales@[g]),
                integer(k, byte_dot(acts.q@, q@, 32 * g, 32)),
            ),
    );
    proof {
        assert(q.len() == q@.len() && acts.q.len() == acts.q@.len());
    }
    let mut sum: u32 = ZERO;
    let mut g: usize = 0;
    while g < scales.len()
        invariant
            is_arith(*calc),
            k == arith(*calc),
            acts.wf(),
            acts.q.len() == q.len(),
            q.len() == 32 * scales@.len(),
            terms == Seq::new(
                scales@.len(),
                |g: int|
                    k(
                        Op::Mul,
                        k(Op::Mul, scales@[g], acts.scales@[g]),
                        integer(k, byte_dot(acts.q@, q@, 32 * g, 32)),
                    ),
            ),
            g <= scales.len(),
            sum == total(k, ZERO, terms.take(g as int)),
        decreases scales.len() - g,
    {
        let base: usize = 32 * g;
        let mut dot: i32 = 0;
        let mut l: usize = 0;
        while l < 32
            invariant
                base == 32 * g,
                acts.q.len() == q.len(),
                base + 32 <= q.len(),
                l <= 32,
                dot == byte_dot(acts.q@, q@, base as int, l as nat),
                -16384 * l <= dot <= 16384 * l,
            decreases 32 - l,
        {
            let a: i32 = acts.q[base + l] as i32;
            let b: i32 = q[base + l] as i32;
            proof {
                assert(-16384 <= a * b <= 16384) by (nonlinear_arith)
                    requires
                        -128 <= a <= 127,
                        -128 <= b <= 127,
                ;
            }
            dot = dot + a * b;
            l += 1;
        }
        proof {
            assert(terms.take(g + 1).drop_last() =~= terms.take(g as int));
        }
        let scale: u32 = calc(Op::Mul, scales[g], acts.scales[g]);
        sum = calc(Op::Add, sum, calc(Op::Mul, scale, from_i32(dot, calc)));
        g += 1;
    }
    proof {
        assert(terms.take(g as int) =~= terms);
    }
    sum
}

/// The outputs of a product: for each token, `f(activation row, r)` for every
/// weight row `r`.
pub open spec fn product(
    a: Seq<u32>,
    n_tokens: int,
    k: int,
    n_rows: int,
    f: spec_fn(Seq<u32>, int) -> u32,
) -> Seq<u32> {
    Seq::new((n_tokens * n_rows) as nat, |i: int| f(row_of(a, i / n_rows, k), i % n_rows))
}

/// One token's outputs.
pub open spec fn row_outputs(x: Seq<u32>, n_rows: int, f: spec_fn(Seq<u32>, int) -> u32) -> Seq<u32> {
    Seq::new(n_rows as nat, |r: int| f(x, r))
}

/// A batch of tokens gives, row by row, what the tokens give one at a time.
pub proof fn law_prefill_is_decode(
    a: Seq<u32>,
    n_tokens: int,
    k: int,
    n_rows: int,
    f: spec_fn(Seq<u32>, int) -> u32,
    t: int,
)
    requires
        0 <= t < n_tokens,
        0 <= n_rows,
    ensures
        row_of(product(a, n_tokens, k, n_rows, f), t, n_rows) == row_outputs(
            row_of(a, t, k),
            n_rows,
            f,
        ),
{
    lemma_row_in(t, n_tokens, n_rows);
    let all = product(a, n_tokens, k, n_rows, f);
    let one = row_outputs(row_of(a, t, k), n_rows, f);
    assert forall|r: int| 0 <= r < n_rows implies row_of(all, t, n_rows)[r] == one[r] by {
        let i = t * n_rows + r;
        vstd::arithmetic::div_mod::lemma_fundamental_div_mod_converse(i, n_rows, t, r);
    }
    assert(row_of(all, t, n_rows) =~= one);
}

/// The product with a single token is that token's outputs.
pub proof fn lemma_single_token(a: Seq<u32>, n_rows: int, f: spec_fn(Seq<u32>, int) -> u32)
    requires
        0 <= n_rows,
    ensures
        product(a, 1, a.len() as int, n_rows, f) == row_outputs(a, n_rows, f),
{
    law_prefill_is_decode(a, 1, a.len() as int, n_rows, f, 0);
    let all = product(a, 1, a.len() as int, n_rows, f);
    assert(row_of(a, 0, a.len() as int) =~= a);
    assert(row_of(all, 0, n_rows) =~= all);
}

/// Dot products of `a_row` with dense weight rows, `cols` wide.
pub open spec fn dense_rows(k: Arith, w: Seq<u32>, cols: int) -> spec_fn(Seq<u32>, int) -> u32 {
    |x: Seq<u32>, r: int| dot_value(k, x, row_of(w, r, cols))
}

/// Dot products with the rows of a Q8 matrix.
pub open spec fn q8_rows(k: Arith, m: QuantMatrix) -> spec_fn(Seq<u32>, int) -> u32 {
    |x: Seq<u32>, r: int|
        q8_dot_value(
            k,
            x,
            row_of(m.q@, r, m.cols as int),
            row_of(m.scales@, r, m.cols as int / 32),
        )
}

/// Dot products with the rows of a packed matrix, the activations quantized
/// first.
pub open spec fn kquant_rows(k: Arith, m: KQuantMatrix) -> spec_fn(Seq<u32>, int) -> u32 {
    |x: Seq<u32>, r: int| kquant_dot_value(k, m, act_codes(k, x), act_scales(k, x), r)
}

/// The outputs `lo..hi` of a product, where `dot` computes one output from a
/// token's activations and a weight row.
fn run_matmul<D: Fn(&[u32], usize) -> u32>(
    a: &[u32],
    n_tokens: usize,
    k: usize,
    n_rows: usize,
    lo: usize,
    hi: usize,
    dot: &D,
    Ghost(f): Ghost<spec_fn(Seq<u32>, int) -> u32>,
) -> (out: Vec<u32>)
    requires
        a@.len() == n_tokens * k,
        lo <= hi <= n_tokens * n_rows,
        forall|x: &[u32], r: usize|
            x@.len() == k && r < n_rows ==> #[trigger] call_requires(*dot, (x, r)),
        forall|x: &[u32], r: usize, v: u32|
            x@.len() == k && r < n_rows && #[trigger] call_ensures(*dot, (x, r), v) ==> v == f(
                x@,
                r as int,
            ),
    ensures
        out@ == product(a@, n_tokens as int, k as int, n_rows as int, f).subrange(
            lo as int,
            hi as int,
        ),
{
    let ghost all = product(a@, n_tokens as int, k as int, n_rows as int, f);
    let mut out: Vec<u32> = Vec::new();
    let mut i: usize = lo;
    while i < hi
        invariant
            a@.len() == n_tokens * k,
            lo <= i <= hi,
            hi <= n_tokens * n_rows,
            all == product(a@, n_tokens as int, k as int, n_rows as int, f),
            forall|x: &[u32], r: usize|
                x@.len() == k && r < n_rows ==> #[trigger] call_requires(*dot, (x, r)),
            forall|x: &[u32], r: usize, v: u32|
                x@.len() == k && r < n_rows && #[trigger] call_ensures(*dot, (x, r), v) ==> v == f(
                    x@,
                    r as int,
                ),
            out@ =~= all.subrange(lo as int, i as int),
        decreases hi - i,
    {
        proof {
            assert(n_rows > 0) by (nonlinear_arith)
                requires
                    0 <= i < n_tokens * n_rows,
                    n_tokens >= 0,
                    n_rows >= 0,
            ;
            assert((i as int) / (n_rows as int) < n_tokens) by (nonlinear_arith)
                requires
                    0 <= i < n_tokens * n_rows,
                    n_rows > 0,
            ;
        }
        let row: &[u32] = row_slice(a, i / n_rows, k, Ghost(n_tokens as int));
        let v: u32 = dot(row, i % n_rows);
        out.push(v);
        i += 1;
    }
    out
}

/// The outputs `lo..hi` of a dense product.
pub fn matmul_f32_range<F: Fn(Op, u32, u32) -> u32>(
    a: &[u32],
    w: &[u32],
    n_tokens: usize,
    k: usize,
    n_rows: usize,
    lo: usize,
    hi: usize,
    calc: &F,
) -> (out: Vec<u32>)
    requires
        is_arith(*calc),
        a@.len() == n_tokens * k,
        w@.len() == n_rows * k,
        lo <= hi <= n_tokens * n_rows,
    ensures
        out@ == product(
            a@,
            n_tokens as int,
            k as int,
            n_rows as int,
            dense_rows(arith(*calc), w@, k as int),
        ).subrange(lo as int, hi as int),
{
    let dot = |x: &[u32], r: usize| -> (v: u32)
        requires
            x@.len() == k,
            r < n_rows,
        ensures
            v == dot_value(arith(*calc), x@, row_of(w@, r as int, k as int)),
        { dot_f32(x, row_slice(w, r, k, Ghost(n_rows as int)), calc) };
    run_matmul(
        a,
        n_tokens,
        k,
        n_rows,
        lo,
        hi,
        &dot,
        Ghost(dense_rows(arith(*calc), w@, k as int)),
    )
}

/// Dense product: `out[t, r]` is the dot product of activation row `t` with
/// weight row `r`.
pub fn matmul_f32<F: Fn(Op, u32, u32) -> u32>(
    a: &[u32],
    w: &[u32],
    n_tokens: usize,
    k: usize,
    n_rows: usize,
    calc: &F,
) -> (out: Vec<u32>)
    requires
        is_arith(*calc),
        a@.len() == n_tokens * k,
        w@.len() == n_rows * k,
        n_tokens * n_rows <= usize::MAX,
    ensures
        out@ == product(
            a@,
            n_tokens as int,
            k as int,
            n_rows as int,
            dense_rows(arith(*calc), w@, k as int),
        ),
{
    proof {
        assert(0 <= n_tokens * n_rows) by (nonlinear_arith);
    }
    let out = matmul_f32_range(a, w, n_tokens, k, n_rows, 0, n_tokens * n_rows, calc);
    proof {
        assert(out@ =~= product(
            a@,
            n_tokens as int,
            k as int,
            n_rows as int,
            dense_rows(arith(*calc), w@, k as int),
        ));
    }
    out
}

/// The outputs `lo..hi` of a product with Q8 weights.
pub fn matmul_q8_range<F: Fn(Op, u32, u32) -> u32>(
    a: &[u32],
    w: &QuantMatrix,
    n_tokens: usize,
    lo: usize,
    hi: usize,
    calc: &F,
) -> (out: Vec<u32>)
    requires
        is_arith(*calc),
        w.wf(),
        a@.len() == n_tokens * w.cols,
        lo <= hi <= n_tokens * w.rows,
    ensures
        out@ == product(
            a@,
            n_tokens as int,
            w.cols as int,
            w.rows as int,
            q8_rows(arith(*calc), *w),
        ).subrange(lo as int, hi as int),
{
    let dot = |x: &[u32], r: usize| -> (v: u32)
        requires
            x@.len() == w.cols,
            r < w.rows,
        ensures
            v == q8_rows(arith(*calc), *w)(x@, r as int),
        { q8_row_dot(w, x, r, calc) };
    run_matmul(
        a,
        n_tokens,
        w.cols,
        w.rows,
        lo,
        hi,
        &dot,
        Ghost(q8_rows(arith(*calc), *w)),
    )
}

/// Dot product of activations with row `r` of a Q8 matrix.
pub fn q8_row_dot<F: Fn(Op, u32, u32) -> u32>(w: &QuantMatrix, x: &[u32], r: usize, calc: &F) -> (v:
    u32)
    requires
        is_arith(*calc),
        w.wf(),
        x@.len() == w.cols,
        r < w.rows,
    ensures
        v == q8_rows(arith(*calc), *w)(x@, r as int),
{
    let q: &[i8] = w.row_codes(r);
    let s: &[u32] = w.row_scales(r);
    proof {
        let n = w.cols as int / 32;
        lemma_row_in(r as int, w.rows as int, n);
        lemma_row_in(r as int, w.rows as int, w.cols as int);
        assert(w.rows * w.cols == 32 * (w.rows * n)) by (nonlinear_arith)
            requires
                w.cols == 32 * n,
        ;
    }
    dot_q8(x, q, s, calc)
}

/// Product of Q8 weights with single-precision activations.
pub fn matmul_q8_f32<F: Fn(Op, u32, u32) -> u32>(
    a: &[u32],
    w: &QuantMatrix,
    n_tokens: usize,
    calc: &F,
) -> (out: Vec<u32>)
    requires
        is_arith(*calc),
        w.wf(),
        a@.len() == n_tokens * w.cols,
        n_tokens * w.rows <= usize::MAX,
    ensures
        out@ == product(
            a@,
            n_tokens as int,
            w.cols as int,
            w.rows as int,
            q8_rows(arith(*calc), *w),
        ),
{
    proof {
        assert(0 <= n_tokens * w.rows) by (nonlinear_arith);
    }
    let out = matmul_q8_range(a, w, n_tokens, 0, n_tokens * w.rows, calc);
    proof {
        assert(out@ =~= product(
            a@,
            n_tokens as int,
            w.cols as int,
            w.rows as int,
            q8_rows(arith(*calc), *w),
        ));
    }
    out
}

/// Product of packed weights with a batch of quantized activation rows.
pub fn matmul_kquant_prefill<F: Fn(Op, u32, u32) -> u32>(
    acts: &[QuantActs],
    m: &KQuantMatrix,
    calc: &F,
) -> (out: Vec<u32>)
    requires
        is_arith(*calc),
        m.wf(),
        forall|t: int|
            0 <= t < acts@.len() ==> (#[trigger] acts@[t]).wf() && acts@[t].q@.len() == m.cols,
    ensures
        out@.len() == acts@.len() * m.rows,
        forall|t: int|
            0 <= t < acts@.len() ==> #[trigger] row_of(out@, t, m.rows as int) == Seq::new(
                m.rows as nat,
                |r: int|
                    kquant_dot_value(arith(*calc), *m, acts@[t].q@, acts@[t].scales@, r),
            ),
{
    let ghost f = |t: int|
        Seq::new(
            m.rows as nat,
            |r: int| kquant_dot_value(arith(*calc), *m, acts@[t].q@, acts@[t].scales@, r),
        );
    let mut out: Vec<u32> = Vec::new();
    let mut t: usize = 0;
    while t < acts.len()
        invariant
            is_arith(*calc),
            m.wf(),
            forall|t: int|
                0 <= t < acts@.len() ==> (#[trigger] acts@[t]).wf() && acts@[t].q@.len() == m.cols,
            f == (|t: int|
                Seq::new(
                    m.rows as nat,
                    |r: int| kquant_dot_value(arith(*calc), *m, acts@[t].q@, acts@[t].scales@, r),
                )),
            t <= acts.len(),
            is_rows(out@, t as int, m.rows as int, f),
        decreases acts.len() - t,
    {
        let mut y: Vec<u32> = kquant_outputs(&acts[t], m, calc);
        proof {
            lemma_is_rows_push(out@, y@, t as int, m.rows as int, f);
        }
        out.append(&mut y);
        t += 1;
    }
    proof {
        assert forall|t: int| 0 <= t < acts@.len() implies #[trigger] row_of(out@, t, m.rows as int)
            == Seq::new(
            m.rows as nat,
            |r: int| kquant_dot_value(arith(*calc), *m, acts@[t].q@, acts@[t].scales@, r),
        ) by {
            assert(row_of(out@, t, m.rows as int) == f(t));
        }
    }
    out
}

/// All outputs of packed weights for one row of quantized activations.
pub fn kquant_outputs<F: Fn(Op, u32, u32) -> u32>(
    acts: &QuantActs,
    m: &KQuantMatrix,
    calc: &F,
) -> (out: Vec<u32>)
    requires
        is_arith(*calc),
        m.wf(),
        acts.wf(),
        acts.q@.len() == m.cols,
    ensures
        out@ == Seq::new(
            m.rows as nat,
            |r: int| kquant_dot_value(arith(*calc), *m, acts.q@, acts.scales@, r),
        ),
{
    let ghost want = Seq::new(
        m.rows as nat,
        |r: int| kquant_dot_value(arith(*calc), *m, acts.q@, acts.scales@, r),
    );
    let mut out: Vec<u32> = Vec::new();
    let mut r: usize = 0;
    while r < m.rows
        invariant
            is_arith(*calc),
            m.wf(),
            acts.wf(),
            acts.q@.len() == m.cols,
            want == Seq::new(
                m.rows as nat,
                |r: int| kquant_dot_value(arith(*calc), *m, acts.q@, acts.scales@, r),
            ),
            r <= m.rows,
            out@ =~= want.take(r as int),
        decreases m.rows - r,
    {
        let v: u32 = m.row_dot(acts, r, calc);
        out.push(v);
        r += 1;
    }
    out
}

/// Product of packed weights with single-precision activations, each row of
/// which is quantized once.
pub fn matmul_kquant_f32<F: Fn(Op, u32, u32) -> u32>(
    a: &[u32],
    m: &KQuantMatrix,
    n_tokens: usize,
    calc: &F,
) -> (out: Vec<u32>)
    requires
        is_arith(*calc),
        m.wf(),
        a@.len() == n_tokens * m.cols,
    ensures
        out@ == product(
            a@,
            n_tokens as int,
            m.cols as int,
            m.rows as int,
            kquant_rows(arith(*calc), *m),
        ),
{
    let ghost k = arith(*calc);
    let ghost all = product(a@, n_tokens as int, m.cols as int, m.rows as int, kquant_rows(k, *m));
    let ghost f = |t: int|
        row_outputs(row_of(a@, t, m.cols as int), m.rows as int, kquant_rows(k, *m));
    let mut out: Vec<u32> = Vec::new();
    let mut t: usize = 0;
    while t < n_tokens
        invariant
            is_arith(*calc),
            k == arith(*calc),
            m.wf(),
            a@.len() == n_tokens * m.cols,
            f == (|t: int|
                row_outputs(row_of(a@, t, m.cols as int), m.rows as int, kquant_rows(k, *m))),
            t <= n_tokens,
            is_rows(out@, t as int, m.rows as int, f),
        decreases n_tokens - t,
    {
        let row: &[u32] = row_slice(a, t, m.cols, Ghost(n_tokens as int));
        let acts = quantize_acts(row, calc);
        proof {
            lemma_quantizes_acts(k, row@, acts);
        }
        let mut y: Vec<u32> = kquant_outputs(&acts, m, calc);
        proof {
            assert(y@ =~= f(t as int));
            lemma_is_rows_push(out@, y@, t as int, m.rows as int, f);
        }
        out.append(&mut y);
        t += 1;
    }
    proof {
        assert(0 <= n_tokens * m.rows) by (nonlinear_arith);
        assert forall|t: int| 0 <= t < n_tokens implies #[trigger] row_of(all, t, m.rows as int)
            == f(t) by {
            law_prefill_is_decode(
                a@,
                n_tokens as int,
                m.cols as int,
                m.rows as int,
                kquant_rows(k, *m),
                t,
            );
        }
        lemma_rows_unique(out@, all, n_tokens as int, m.rows as int, f);
    }
    out
}

/// All outputs of packed weights for one row of quantized activations, filled in
/// by a team of `nth`; what lies behind them in `out` is left as it is.
pub fn matmul_kquant_team<F: Fn(Op, u32, u32) -> u32>(
    nth: usize,
    acts: &QuantActs,
    m: &KQuantMatrix,
    out: &mut Vec<u32>,
    calc: &F,
)
    requires
        is_arith(*calc),
        m.wf(),
        acts.wf(),
        acts.q@.len() == m.cols,
        0 < nth,
        4 * nth <= usize::MAX,
        m.rows <= old(out)@.len(),
    ensures
        final(out)@ == Seq::new(
            m.rows as nat,
            |r: int| kquant_dot_value(arith(*calc), *m, acts.q@, acts.scales@, r),
        ) + old(out)@.skip(m.rows as int),
{
    let ghost before = out@;
    let dot = |r: usize| -> (v: u32)
        requires
            r < m.rows,
        ensures
            v == kquant_dot_value(arith(*calc), *m, acts.q@, acts.scales@, r as int),
        { m.row_dot(acts, r, calc) };
    team_fill_rows_weighted(nth, out, m.rows, m.cols, &dot);
    proof {
        let want = Seq::new(
            m.rows as nat,
            |r: int| kquant_dot_value(arith(*calc), *m, acts.q@, acts.scales@, r),
        ) + before.skip(m.rows as int);
        assert forall|r: int| 0 <= r < out@.len() implies out@[r] == want[r] by {
            if r < m.rows {
                assert(call_ensures(dot, (r as usize,), out@[(r as usize) as int]));
            }
        }
        assert(out@ =~= want);
    }
}

} // verus!
