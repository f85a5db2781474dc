//! Laws of attention with grouped queries.
use crate::arith::{natural, products, total, Arith, Op};
use crate::kernels::attention::{attended, head_of_row, lemma_head_in_row, scores, shares, Heads};
use crate::kernels::norms::softmaxed;
use crate::kernels::quant::lemma_row_in;
use crate::kernels::rows::row_of;
use vstd::arithmetic::div_mod::lemma_fundamental_div_mod_converse;
use vstd::prelude::*;

verus! {

/// Number of query heads that share a key and value head.
pub open spec fn group(heads: Heads) -> int {
    heads.n_heads as int / heads.n_kv_heads as int
}

/// Consecutive query heads share a key and value head: the `j`-th of group `kv` is
/// paired with `kv`, and every query head is one of some group.
pub proof fn law_consecutive_heads_share_a_key_head(heads: Heads, kv: int, j: int)
    requires
        heads.wf(),
        0 <= kv < heads.n_kv_heads,
        0 <= j < group(heads),
    ensures
        0 <= kv * group(heads) + j < heads.n_heads,
        heads.kv_head(kv * group(heads) + j) == kv,
        heads.n_kv_heads * group(heads) == heads.n_heads,
{
    let n = heads.n_heads as int;
    let m = heads.n_kv_heads as int;
    let g = group(heads);
    assert(n == m * g) by (nonlinear_arith)
        requires
            g == n / m,
            n % m == 0,
            m > 0,
    ;
    assert(0 <= kv * g && kv * g + g <= m * g) by (nonlinear_arith)
        requires
            0 <= kv < m,
            0 <= g,
    ;
    lemma_fundamental_div_mod_converse(kv * g + j, g, kv, j);
}

/// Value `d` of head `h` stands at `h * head_dim + d` of an output row.
proof fn lemma_place(heads: Heads, h: int, d: int)
    requires
        0 <= h < heads.n_heads,
        0 <= d < heads.head_dim,
    ensures
        0 <= h * heads.head_dim + d < heads.q_width(),
        (h * heads.head_dim + d) / heads.head_dim as int == h,
        (h * heads.head_dim + d) % heads.head_dim as int == d,
{
    let w = heads.head_dim as int;
    lemma_row_in(h, heads.n_heads as int, w);
    lemma_fundamental_div_mod_converse(h * w + d, w, h, d);
}

/// The dot product of head `h` of a query row with the part of row `t` of the keys that
/// belongs to key head `kv`, value by value.
pub open spec fn dot_with(
    k: Arith,
    q: Seq<u32>,
    keys: Seq<u32>,
    heads: Heads,
    h: int,
    kv: int,
    t: int,
) -> Seq<u32> {
    Seq::new(
        heads.head_dim as nat,
        |d: int|
            k(
                Op::Mul,
                q[h * heads.head_dim + d],
                keys[t * (heads.n_kv_heads * heads.head_dim) + kv * heads.head_dim + d],
            ),
    )
}

/// What attention gives, value by value: value `d` of the `j`-th query head of group
/// `kv` is the sum over the positions up to `pos` of value `d` of value head `kv`, each
/// multiplied by its weight; the weights are the softmax of the dot products of the
/// query head with key head `kv`, over the square root of the width of a head.
#[verifier::spinoff_prover]
pub proof fn law_attention_value(
    k: Arith,
    q: Seq<u32>,
    keys: Seq<u32>,
    values: Seq<u32>,
    pos: int,
    heads: Heads,
    kv: int,
    j: int,
    d: int,
    weights: Seq<u32>,
)
    requires
        heads.wf(),
        0 <= pos,
        0 <= kv < heads.n_kv_heads,
        0 <= j < group(heads),
        0 <= d < heads.head_dim,
        q.len() == heads.n_heads * heads.head_dim,
        keys.len() >= (pos + 1) * (heads.n_kv_heads * heads.head_dim),
        values.len() >= (pos + 1) * (heads.n_kv_heads * heads.head_dim),
        weights == softmaxed(
            k,
            Seq::new(
                (pos + 1) as nat,
                |t: int|
                    k(
                        Op::Mul,
                        total(
                            k,
                            0x8000_0000,
                            dot_with(k, q, keys, heads, kv * group(heads) + j, kv, t),
                        ),
                        k(
                            Op::Div,
                            0x3f80_0000,
                            k(Op::Sqrt, natural(k, heads.head_dim as int), 0),
                        ),
                    ),
            ),
        ),
    ensures
        attended(k, q, keys, values, pos, heads)[(kv * group(heads) + j) * heads.head_dim + d]
            == total(
            k,
            0,
            Seq::new(
                (pos + 1) as nat,
                |t: int|
                    k(
                        Op::Mul,
                        weights[t],
                        values[t * (heads.n_kv_heads * heads.head_dim) + kv * heads.head_dim + d],
                    ),
            ),
        ),
{
    let h = kv * group(heads) + j;
    law_consecutive_heads_share_a_key_head(heads, kv, j);
    lemma_place(heads, h, d);
    let s = Seq::new(
        (pos + 1) as nat,
        |t: int|
            k(
                Op::Mul,
                total(k, 0x8000_0000, dot_with(k, q, keys, heads, h, kv, t)),
                k(Op::Div, 0x3f80_0000, k(Op::Sqrt, natural(k, heads.head_dim as int), 0)),
            ),
    );
    lemma_row_in(h, heads.n_heads as int, heads.head_dim as int);
    assert forall|t: int| 0 <= t <= pos implies scores(k, q, keys, pos, h, heads)[t] == s[t] by {
        lemma_head_in_row(keys.len() as int, t, kv, pos, heads);
        let a = row_of(q, h, heads.head_dim as int);
        let b = head_of_row(keys, t, kv, heads);
        assert(products(k, a, b) =~= dot_with(k, q, keys, heads, h, kv, t));
        assert(a.len() == heads.head_dim);
    }
    assert(scores(k, q, keys, pos, h, heads) =~= s);
    let want = Seq::new(
        (pos + 1) as nat,
        |t: int|
            k(
                Op::Mul,
                weights[t],
                values[t * (heads.n_kv_heads * heads.head_dim) + kv * heads.head_dim + d],
            ),
    );
    let have = shares(k, weights, values, pos, h, d, heads);
    assert forall|t: int| 0 <= t <= pos implies have[t] == want[t] by {
        lemma_head_in_row(values.len() as int, t, kv, pos, heads);
    }
    assert(have =~= want);
}

/// The output of the query heads of group `kv` depends on no part of the caches but
/// what belongs to key and value head `kv`, and each query head on its own part of the
/// query row.
#[verifier::spinoff_prover]
pub proof fn law_heads_read_their_own_columns(
    k: Arith,
    q: Seq<u32>,
    keys: Seq<u32>,
    values: Seq<u32>,
    other_q: Seq<u32>,
    other_keys: Seq<u32>,
    other_values: Seq<u32>,
    pos: int,
    heads: Heads,
    kv: int,
    j: int,
    d: int,
)
    requires
        heads.wf(),
        0 <= pos,
        0 <= kv < heads.n_kv_heads,
        0 <= j < group(heads),
        0 <= d < heads.head_dim,
        q.len() == heads.n_heads * heads.head_dim,
        other_q.len() == heads.n_heads * heads.head_dim,
        keys.len() >= (pos + 1) * (heads.n_kv_heads * heads.head_dim),
        values.len() >= (pos + 1) * (heads.n_kv_heads * heads.head_dim),
        other_keys.len() >= (pos + 1) * (heads.n_kv_heads * heads.head_dim),
        other_values.len() >= (pos + 1) * (heads.n_kv_heads * heads.head_dim),
        forall|e: int|
            0 <= e < heads.head_dim ==> q[(kv * group(heads) + j) * heads.head_dim + e]
                == #[trigger] other_q[(kv * group(heads) + j) * heads.head_dim + e],
        forall|t: int, e: int|
            0 <= t <= pos && 0 <= e < heads.head_dim ==> keys[t * (heads.n_kv_heads
                * heads.head_dim) + kv * heads.head_dim + e] == #[trigger] other_keys[t * (
            heads.n_kv_heads * heads.head_dim) + kv * heads.head_dim + e],
        forall|t: int, e: int|
            0 <= t <= pos && 0 <= e < heads.head_dim ==> values[t * (heads.n_kv_heads
                * heads.head_dim) + kv * heads.head_dim + e] == #[trigger] other_values[t * (
            heads.n_kv_heads * heads.head_dim) + kv * heads.head_dim + e],
    ensures
        attended(k, q, keys, values, pos, heads)[(kv * group(heads) + j) * heads.head_dim + d]
            == attended(k, other_q, other_keys, other_values, pos, heads)[(kv * group(heads) + j)
            * heads.head_dim + d],
{
    let h = kv * group(heads) + j;
    let w = heads.n_kv_heads * heads.head_dim;
    let scale = k(Op::Div, 0x3f80_0000, k(Op::Sqrt, natural(k, heads.head_dim as int), 0));
    let s1 = Seq::new(
        (pos + 1) as nat,
        |t: int| k(Op::Mul, total(k, 0x8000_0000, dot_with(k, q, keys, heads, h, kv, t)), scale),
    );
    let s2 = Seq::new(
        (pos + 1) as nat,
        |t: int|
            k(
                Op::Mul,
                total(k, 0x8000_0000, dot_with(k, other_q, other_keys, heads, h, kv, t)),
                scale,
            ),
    );
    assert forall|t: int| 0 <= t <= pos implies s1[t] == s2[t] by {
        let a = dot_with(k, q, keys, heads, h, kv, t);
        let b = dot_with(k, other_q, other_keys, heads, h, kv, t);
        assert forall|e: int| 0 <= e < heads.head_dim implies a[e] == b[e] by {
            assert(q[h * heads.head_dim + e] == other_q[h * heads.head_dim + e]);
            assert(keys[t * w + kv * heads.head_dim + e] == other_keys[t * w + kv * heads.head_dim
                + e]);
        }
        assert(a =~= b);
    }
    assert(s1 =~= s2);
    let weights = softmaxed(k, s1);
    law_attention_value(k, q, keys, values, pos, heads, kv, j, d, weights);
    law_attention_value(k, other_q, other_keys, other_values, pos, heads, kv, j, d, weights);
    let v1 = Seq::new(
        (pos + 1) as nat,
        |t: int| k(Op::Mul, weights[t], values[t * w + kv * heads.head_dim + d]),
    );
    let v2 = Seq::new(
        (pos + 1) as nat,
        |t: int| k(Op::Mul, weights[t], other_values[t * w + kv * heads.head_dim + d]),
    );
    assert forall|t: int| 0 <= t <= pos implies v1[t] == v2[t] by {
        assert(values[t * w + kv * heads.head_dim + d] == other_values[t * w + kv * heads.head_dim
            + d]);
    }
    assert(v1 =~= v2);
}

} // verus!
