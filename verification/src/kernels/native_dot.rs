//! Integer dot products of packed weight rows against quantized activations.
//!
//! A row is cut into terms, runs of weights that share their block scales and
//! their integer scale and min. Over one term
//! `sum a * (d * sc * q - dmin * m)` is `sa * (d * sc * dot - dmin * m * sum)`,
//! where `a = sa * qa`, `dot` is the integer `sum qa * q`, and `sum` the
//! integer `sum qa`. Everything up to those two integers is computed here.
use crate::kernels::kquant::{
    block_d, block_dmin, has_scales, lemma_weight_range, unpack_weight, weight_at, KQuantKind, KQuantMatrix, Weight,
};
use crate::kernels::quant::{code_sum, lemma_row_in, QuantActs};
use vstd::arithmetic::div_mod::lemma_fundamental_div_mod_converse;
use vstd::prelude::*;

verus! {

/// Weights per term.
pub open spec fn term_width(kind: KQuantKind) -> int {
    match kind {
        KQuantKind::Q6K => 16,
        _ => 32,
    }
}

/// Weights per term.
pub fn term_width_of(kind: KQuantKind) -> (n: usize)
    ensures
        n == term_width(kind),
{
    match kind {
        KQuantKind::Q6K => 16,
        _ => 32,
    }
}

/// One run of weights, reduced to what is left to multiply.
#[derive(Debug, Clone, Copy)]
pub struct Term {
    /// Block scales, as bit patterns.
    pub d: u32,
    pub dmin: u32,
    /// Scale of the activations.
    pub sa: u32,
    pub sc: i32,
    pub m: i32,
    /// Dot product of codes.
    pub dot: i32,
    /// Sum of the activations' codes.
    pub sum: i32,
}

/// The dot product of the `n` codes from `lo` on with the weights' `q`.
pub open spec fn code_dot(q: Seq<i8>, w: spec_fn(int) -> Weight, lo: int, n: nat) -> int
    decreases n,
{
    if n == 0 {
        0
    } else {
        code_dot(q, w, lo, (n - 1) as nat) + q[lo + n - 1] * w(lo + n - 1).q
    }
}

/// Dot product with the weights themselves, for given values of the scales:
/// the `a` are `sa * qa`, the weights `d * sc * q - dmin * m`.
pub open spec fn value_dot(
    q: Seq<i8>,
    w: spec_fn(int) -> Weight,
    d: int,
    dmin: int,
    sa: int,
    lo: int,
    n: nat,
) -> int
    decreases n,
{
    if n == 0 {
        0
    } else {
        let x = w(lo + n - 1);
        value_dot(q, w, d, dmin, sa, lo, (n - 1) as nat) + (sa * q[lo + n - 1]) * (d * x.sc * x.q
            - dmin * x.m)
    }
}

/// Row `r` as a function from column to weight.
pub open spec fn row_weights(m: KQuantMatrix, r: int) -> spec_fn(int) -> Weight {
    |j: int| m.weight(r, j)
}

/// `term` is term `t` of row `r`.
pub open spec fn is_term(m: KQuantMatrix, acts: QuantActs, r: int, t: int, term: Term) -> bool {
    let width = term_width(m.kind);
    let lo = t * width;
    let base = (r * m.row_blocks() + lo / m.kind.values()) * m.kind.bytes();
    &&& term.d == block_d(m.kind, m.blocks@, base)
    &&& term.dmin == block_dmin(m.kind, m.blocks@, base)
    &&& term.sa == acts.scales@[lo / 32]
    &&& term.sum == code_sum(acts.q@, lo, width as nat)
    &&& term.dot == code_dot(acts.q@, row_weights(m, r), lo, width as nat)
    &&& forall|j: int|
        lo <= j < lo + width ==> (#[trigger] row_weights(m, r)(j)).sc == term.sc && row_weights(
            m,
            r,
        )(j).m == term.m
}

/// Term `t` of row `r`, for activations with the given codes and scales.
pub open spec fn term_at(m: KQuantMatrix, codes: Seq<i8>, scales: Seq<u32>, r: int, t: int) -> Term {
    let width = term_width(m.kind);
    let lo = t * width;
    let base = (r * m.row_blocks() + lo / m.kind.values()) * m.kind.bytes();
    Term {
        d: block_d(m.kind, m.blocks@, base),
        dmin: block_dmin(m.kind, m.blocks@, base),
        sa: scales[lo / 32],
        sc: row_weights(m, r)(lo).sc,
        m: row_weights(m, r)(lo).m,
        dot: code_dot(codes, row_weights(m, r), lo, width as nat) as i32,
        sum: code_sum(codes, lo, width as nat) as i32,
    }
}

/// A term is determined by the weights and the activations.
pub proof fn lemma_term_is_unique(m: KQuantMatrix, acts: QuantActs, r: int, t: int, term: Term)
    requires
        is_term(m, acts, r, t, term),
    ensures
        term == term_at(m, acts.q@, acts.scales@, r, t),
{
    let lo = t * term_width(m.kind);
    assert(row_weights(m, r)(lo).sc == term.sc);
}

/// Weights of one term share their integer scale and min.
proof fn lemma_term_uniform(kind: KQuantKind, data: Seq<u8>, base: int, i: int, j: int)
    requires
        0 <= i < kind.values(),
        0 <= j < kind.values(),
        i / term_width(kind) == j / term_width(kind),
    ensures
        weight_at(kind, data, base, i).sc == weight_at(kind, data, base, j).sc,
        weight_at(kind, data, base, i).m == weight_at(kind, data, base, j).m,
{
    if kind == KQuantKind::Q6K {
        lemma_sixteens(i);
        lemma_sixteens(j);
    }
}

/// Half, group and sub-block of a Q6_K weight follow from its run of sixteen.
proof fn lemma_sixteens(j: int)
    requires
        0 <= j < 256,
    ensures
        j / 128 == (j / 16) / 8,
        j % 128 / 32 == (j / 16) % 8 / 2,
        j % 32 / 16 == (j / 16) % 2,
{
}

/// The native dot is the dequantized dot: whatever numbers the scales stand
/// for, a term multiplied out is the dot product of the dequantized
/// activations with the dequantized weights.
pub proof fn law_term_is_dequantized_dot(
    q: Seq<i8>,
    w: spec_fn(int) -> Weight,
    sc: int,
    m: int,
    d: int,
    dmin: int,
    sa: int,
    lo: int,
    n: nat,
)
    requires
        forall|j: int| lo <= j < lo + n ==> (#[trigger] w(j)).sc == sc && w(j).m == m,
    ensures
        value_dot(q, w, d, dmin, sa, lo, n) == sa * (d * sc * code_dot(q, w, lo, n) - dmin * m
            * code_sum(q, lo, n)),
    decreases n,
{
    if n == 0 {
        assert(sa * (d * sc * 0 - dmin * m * 0) == 0) by (nonlinear_arith);
    } else {
        law_term_is_dequantized_dot(q, w, sc, m, d, dmin, sa, lo, (n - 1) as nat);
        let x = w(lo + n - 1);
        assert(x.sc == sc && x.m == m);
        let a = q[lo + n - 1] as int;
        let k = x.q as int;
        let dot = code_dot(q, w, lo, (n - 1) as nat);
        let sum = code_sum(q, lo, (n - 1) as nat);
        let u = d * sc;
        let v = dmin * m;
        assert(u * (dot + a * k) == u * dot + u * (a * k)) by (nonlinear_arith);
        assert(v * (sum + a) == v * sum + v * a) by (nonlinear_arith);
        assert((sa * a) * (u * k - v) == sa * (u * (a * k) - v * a)) by (nonlinear_arith);
        let x0 = u * dot - v * sum;
        let y0 = u * (a * k) - v * a;
        assert(sa * x0 + sa * y0 == sa * (x0 + y0)) by (nonlinear_arith);
    }
}

/// The offset trick of the Q4_0 format: with `q = code - 8`, the dot product
/// is that of the raw codes less eight times the sum of the activations.
pub proof fn law_offset_folds_into_sum(
    q: Seq<i8>,
    w: spec_fn(int) -> Weight,
    raw: spec_fn(int) -> Weight,
    offset: int,
    lo: int,
    n: nat,
)
    requires
        forall|j: int| lo <= j < lo + n ==> (#[trigger] w(j)).q == raw(j).q - offset,
    ensures
        code_dot(q, w, lo, n) == code_dot(q, raw, lo, n) - offset * code_sum(q, lo, n),
    decreases n,
{
    if n > 0 {
        law_offset_folds_into_sum(q, w, raw, offset, lo, (n - 1) as nat);
        let a = q[lo + n - 1] as int;
        let s = code_sum(q, lo, (n - 1) as nat);
        let k = raw(lo + n - 1).q as int;
        assert(w(lo + n - 1).q == k - offset);
        assert(a * (k - offset) == a * k - offset * a) by (nonlinear_arith);
        assert(offset * (s + a) == offset * s + offset * a) by (nonlinear_arith);
    } else {
        assert(offset * 0 == 0) by (nonlinear_arith);
    }
}

/// A column and the block it lies in.
proof fn lemma_term_block(kind: KQuantKind, t: int, l: int)
    requires
        0 <= t,
        0 <= l < term_width(kind),
    ensures
        (t * term_width(kind) + l) / kind.values() == t * term_width(kind) / kind.values(),
        (t * term_width(kind) + l) % kind.values() == t * term_width(kind) % kind.values() + l,
        (t * term_width(kind) % kind.values() + l) / term_width(kind) == t * term_width(kind)
            % kind.values() / term_width(kind),
        (t * term_width(kind) + l) / 32 == t * term_width(kind) / 32,
{
    let w = term_width(kind);
    let per = kind.values() / w;
    lemma_run_in_block(t, l, w, per);
    lemma_run_in_block(t, 0, w, per);
    lemma_run_in_block(t, l, w, 32int / w);
    lemma_run_in_block(t, 0, w, 32int / w);
}

/// Place `l` of run `t`, where blocks are `per` runs of `w`.
proof fn lemma_run_in_block(t: int, l: int, w: int, per: int)
    requires
        0 <= t,
        0 <= l < w,
        0 < per,
    ensures
        (t * w + l) / (w * per) == t / per,
        (t * w + l) % (w * per) == (t % per) * w + l,
        ((t % per) * w + l) / w == t % per,
{
    let q = t / per;
    let r = t % per;
    assert(t == per * q + r && 0 <= r < per) by (nonlinear_arith)
        requires
            q == t / per,
            r == t % per,
            0 < per,
    ;
    assert(t * w + l == q * (w * per) + (r * w + l)) by (nonlinear_arith)
        requires
            t == per * q + r,
    ;
    assert(0 <= r * w + l < w * per) by (nonlinear_arith)
        requires
            0 <= r < per,
            0 <= l < w,
    ;
    lemma_fundamental_div_mod_converse(t * w + l, w * per, q, r * w + l);
    lemma_fundamental_div_mod_converse(r * w + l, w, r, l);
}

/// Term `t` of weight row `r`.
pub fn row_term(m: &KQuantMatrix, acts: &QuantActs, r: usize, t: usize) -> (term: Term)
    requires
        m.wf(),
        acts.wf(),
        acts.q@.len() == m.cols,
        r < m.rows,
        t < m.cols as int / term_width(m.kind),
    ensures
        is_term(*m, *acts, r as int, t as int, term),
{
    let kind = m.kind;
    let width: usize = term_width_of(kind);
    let values: usize = kind.block_values();
    let bytes: usize = kind.block_bytes();
    let row_blocks: usize = m.cols / values;
    let lo: usize = t * width;
    let inner: usize = lo % values;
    let block: usize = lo / values;
    let ghost rb = m.row_blocks();
    proof {
        assert(m.blocks.len() == m.blocks@.len());
        assert(m.dscales.len() == m.dscales@.len());
        assert(lo + width <= m.cols);
        assert(block < row_blocks);
        lemma_row_in(r as int, m.rows as int, rb);
        let at = r * rb + block;
        let total = m.rows * rb;
        assert(at * bytes + bytes <= total * bytes) by (nonlinear_arith)
            requires
                at + 1 <= total,
                bytes >= 0,
        ;
        assert(0 <= at <= at * bytes) by (nonlinear_arith)
            requires
                at >= 0,
                bytes >= 1,
        ;
        assert(has_scales(kind, m.blocks@, m.dscales@, at));
    }
    let at: usize = r * row_blocks + block;
    let base: usize = at * bytes;
    let (d, dmin) = match kind {
        KQuantKind::Q4K => (m.dscales[2 * at], m.dscales[2 * at + 1]),
        _ => (m.dscales[at], 0),
    };
    let sa: u32 = acts.scales[lo / 32];
    let first = unpack_weight(kind, m.blocks.as_slice(), base, inner);
    let mut dot: i32 = 0;
    let mut sum: i32 = 0;
    let mut l: usize = 0;
    while l < width
        invariant
            m.wf(),
            acts.wf(),
            acts.q@.len() == m.cols,
            kind == m.kind,
            width == term_width(kind),
            values == kind.values(),
            lo == t * width,
            lo + width <= m.cols,
            inner == lo % values,
            block == lo / values,
            at == r * m.row_blocks() + block,
            base == at * kind.bytes(),
            base + kind.bytes() <= m.blocks.len(),
            first == weight_at(kind, m.blocks@, base as int, inner as int),
            l <= width,
            sum == code_sum(acts.q@, lo as int, l as nat),
            dot == code_dot(acts.q@, row_weights(*m, r as int), lo as int, l as nat),
            -128 * l <= sum <= 128 * l,
            -4096 * l <= dot <= 4096 * l,
            forall|j: int|
                lo <= j < lo + l ==> (#[trigger] row_weights(*m, r as int)(j)).sc == first.sc
                    && row_weights(*m, r as int)(j).m == first.m,
        decreases width - l,
    {
        proof {
            lemma_term_block(kind, t as int, l as int);
            lemma_weight_range(kind, m.blocks@, base as int, inner + l);
            lemma_term_uniform(kind, m.blocks@, base as int, inner as int, inner + l);
        }
        let w = unpack_weight(kind, m.blocks.as_slice(), base, inner + l);
        let a: i32 = acts.q[lo + l] as i32;
        proof {
            assert(row_weights(*m, r as int)(lo + l) == w);
            assert(-4096 <= a * w.q <= 4096) by (nonlinear_arith)
                requires
                    -128 <= a <= 127,
                    -32 <= w.q <= 31,
            ;
        }
        dot = dot + a * w.q;
        sum = sum + a;
        l += 1;
    }
    Term { d, dmin, sa, sc: first.sc, m: first.m, dot, sum }
}

} // verus!
