//! Laws of the numeric kernels: what every value of a result is.
use crate::arith::{natural, products, scaled, sums, total, Arith, Op};
use crate::float_bits::greater32;
use crate::kernels::matmul::{dot_value, lane, q8_dot_value, singles};
use crate::kernels::norms::{exponentials, gelu_value, maximum, normed, silu_value, softmaxed};
use crate::kernels::rope::{interleaved_turned, neox_turned};
use vstd::arithmetic::div_mod::lemma_fundamental_div_mod_converse;
use vstd::prelude::*;

verus! {

/// A sum is taken from left to right: nothing is the start, and each value is added to
/// the sum of those before it.
pub proof fn law_sum_from_left_to_right(k: Arith, start: u32, s: Seq<u32>, x: u32)
    ensures
        total(k, start, Seq::empty()) == start,
        total(k, start, s.push(x)) == k(Op::Add, total(k, start, s), x),
{
    assert(s.push(x).drop_last() =~= s);
}

/// The sum over a sequence, by its partial sums.
pub proof fn lemma_partial_sums(k: Arith, s: Seq<u32>, part: Seq<u32>, n: int)
    requires
        part.len() == s.len() + 1,
        0 <= n <= s.len(),
        forall|i: int| 0 <= i < s.len() ==> #[trigger] part[i + 1] == k(Op::Add, part[i], s[i]),
    ensures
        total(k, part[0], s.take(n)) == part[n],
    decreases n,
{
    if n > 0 {
        lemma_partial_sums(k, s, part, n - 1);
        assert(s.take(n).drop_last() =~= s.take(n - 1));
        assert(part[n - 1 + 1] == k(Op::Add, part[n - 1], s[n - 1]));
    } else {
        assert(s.take(0) =~= Seq::<u32>::empty());
    }
}

/// Every value of a normalized row is the value, times one over the root of the mean
/// square plus `eps`, times the weight of its own place.
pub proof fn law_norm_value(k: Arith, row: Seq<u32>, weight: Seq<u32>, eps: u32, part: Seq<u32>, i: int)
    requires
        weight.len() == row.len(),
        part.len() == row.len() + 1,
        part[0] == 0x8000_0000,
        forall|j: int|
            0 <= j < row.len() ==> #[trigger] part[j + 1] == k(
                Op::Add,
                part[j],
                k(Op::Mul, row[j], row[j]),
            ),
        0 <= i < row.len(),
    ensures
        normed(k, row, weight, eps).len() == row.len(),
        normed(k, row, weight, eps)[i] == k(
            Op::Mul,
            k(
                Op::Mul,
                row[i],
                k(
                    Op::Div,
                    0x3f80_0000,
                    k(
                        Op::Sqrt,
                        k(
                            Op::Add,
                            k(Op::Div, part[row.len() as int], natural(k, row.len() as int)),
                            eps,
                        ),
                        0,
                    ),
                ),
            ),
            weight[i],
        ),
{
    let squares = products(k, row, row);
    assert forall|j: int| 0 <= j < squares.len() implies #[trigger] part[j + 1] == k(
        Op::Add,
        part[j],
        squares[j],
    ) by {
        assert(part[j + 1] == k(Op::Add, part[j], k(Op::Mul, row[j], row[j])));
    }
    lemma_partial_sums(k, squares, part, row.len() as int);
    assert(squares.take(row.len() as int) =~= squares);
}

proof fn lemma_running_maximum(k: Arith, s: Seq<u32>, top: Seq<u32>, n: int)
    requires
        top.len() == s.len() + 1,
        top[0] == 0xff80_0000,
        0 <= n <= s.len(),
        forall|i: int| 0 <= i < s.len() ==> #[trigger] top[i + 1] == k(Op::Max, top[i], s[i]),
    ensures
        maximum(k, s.take(n)) == top[n],
    decreases n,
{
    if n > 0 {
        lemma_running_maximum(k, s, top, n - 1);
        assert(s.take(n).drop_last() =~= s.take(n - 1));
        assert(top[n - 1 + 1] == k(Op::Max, top[n - 1], s[n - 1]));
    } else {
        assert(s.take(0) =~= Seq::<u32>::empty());
    }
}

/// Every weight of a softmax is the exponential of how far its value lies below the
/// largest, divided by the sum of all of these: multiplied by one over it, or by zero
/// where the sum is not positive.
pub proof fn law_softmax_value(k: Arith, s: Seq<u32>, top: Seq<u32>, part: Seq<u32>, i: int)
    requires
        top.len() == s.len() + 1,
        top[0] == 0xff80_0000,
        forall|j: int| 0 <= j < s.len() ==> #[trigger] top[j + 1] == k(Op::Max, top[j], s[j]),
        part.len() == s.len() + 1,
        part[0] == 0x8000_0000,
        forall|j: int|
            0 <= j < s.len() ==> #[trigger] part[j + 1] == k(
                Op::Add,
                part[j],
                k(Op::Exp, k(Op::Sub, s[j], top[s.len() as int]), 0),
            ),
        0 <= i < s.len(),
    ensures
        softmaxed(k, s).len() == s.len(),
        softmaxed(k, s)[i] == k(
            Op::Mul,
            k(Op::Exp, k(Op::Sub, s[i], top[s.len() as int]), 0),
            if 0 < part[s.len() as int] <= 0x7f80_0000 {
                k(Op::Div, 0x3f80_0000, part[s.len() as int])
            } else {
                0
            },
        ),
{
    let n = s.len() as int;
    lemma_running_maximum(k, s, top, n);
    assert(s.take(n) =~= s);
    let e = exponentials(k, s);
    assert forall|j: int| 0 <= j < e.len() implies #[trigger] part[j + 1] == k(
        Op::Add,
        part[j],
        e[j],
    ) by {
        assert(part[j + 1] == k(Op::Add, part[j], k(Op::Exp, k(Op::Sub, s[j], top[n]), 0)));
    }
    lemma_partial_sums(k, e, part, n);
    assert(e.take(n) =~= e);
    assert(greater32(part[n], 0) <==> 0 < part[n] <= 0x7f80_0000);
}

/// SiLU is the value over one plus the exponential of its negative.
pub proof fn law_silu(k: Arith, x: u32, e: u32)
    requires
        e == k(Op::Exp, k(Op::Neg, x, 0), 0),
    ensures
        silu_value(k, x) == k(Op::Mul, x, k(Op::Div, 0x3f80_0000, k(Op::Add, 0x3f80_0000, e))),
{
}

/// GELU is half the value, times one plus the hyperbolic tangent of a cubic in it.
pub proof fn law_gelu(k: Arith, x: u32, cube: u32, t: u32)
    requires
        cube == k(Op::Mul, k(Op::Mul, x, x), x),
        t == k(
            Op::Tanh,
            k(Op::Mul, 0x3f4c_422a, k(Op::Add, x, k(Op::Mul, 0x3d37_2713, cube))),
            0,
        ),
    ensures
        gelu_value(k, x) == k(
            Op::Mul,
            k(Op::Mul, 0x3f00_0000, x),
            k(Op::Add, 0x3f80_0000, t),
        ),
{
}

/// The angle of a pair whose exponent is `e`: the position times the base to the power
/// of minus the exponent over the width of a head.
pub open spec fn rotation(k: Arith, pos: int, e: u32, head_dim: int, theta: u32) -> u32 {
    k(
        Op::Mul,
        natural(k, pos),
        k(Op::Pow, theta, k(Op::Div, k(Op::Neg, e, 0), natural(k, head_dim))),
    )
}

/// `(p, q)` is `(x, y)`, rotated by `a`.
pub open spec fn is_rotated(k: Arith, x: u32, y: u32, a: u32, p: u32, q: u32) -> bool {
    let s = k(Op::Sin, a, 0);
    let c = k(Op::Cos, a, 0);
    &&& p == k(Op::Sub, k(Op::Mul, x, c), k(Op::Mul, y, s))
    &&& q == k(Op::Add, k(Op::Mul, x, s), k(Op::Mul, y, c))
}

/// In the convention of halves, value `j` of a head is rotated against the value half
/// a head further on, in every head by the same angle: that of exponent `2 j`.
pub proof fn law_halves_are_rotated(
    k: Arith,
    row: Seq<u32>,
    pos: int,
    head_dim: int,
    theta: u32,
    h: int,
    j: int,
)
    requires
        head_dim > 0,
        head_dim % 2 == 0,
        0 <= h,
        h * head_dim + head_dim <= row.len(),
        0 <= j < head_dim / 2,
    ensures
        neox_turned(k, row, pos, head_dim, theta).len() == row.len(),
        is_rotated(
            k,
            row[h * head_dim + j],
            row[h * head_dim + j + head_dim / 2],
            rotation(k, pos, k(Op::Mul, 0x4000_0000, natural(k, j)), head_dim, theta),
            neox_turned(k, row, pos, head_dim, theta)[h * head_dim + j],
            neox_turned(k, row, pos, head_dim, theta)[h * head_dim + j + head_dim / 2],
        ),
{
    let half = head_dim / 2;
    lemma_fundamental_div_mod_converse(h * head_dim + j, head_dim, h, j);
    lemma_fundamental_div_mod_converse(h * head_dim + (j + half), head_dim, h, j + half);
    assert(0 <= h * head_dim) by (nonlinear_arith)
        requires
            0 <= h,
            0 < head_dim,
    ;
}

/// In the convention of neighbours, value `2 j` of a head is rotated against value
/// `2 j + 1`, in every head by the same angle: that of exponent `2 j`.
pub proof fn law_neighbours_are_rotated(
    k: Arith,
    row: Seq<u32>,
    pos: int,
    head_dim: int,
    theta: u32,
    h: int,
    j: int,
)
    requires
        head_dim > 0,
        head_dim % 2 == 0,
        0 <= h,
        h * head_dim + head_dim <= row.len(),
        0 <= j < head_dim / 2,
    ensures
        interleaved_turned(k, row, pos, head_dim, theta).len() == row.len(),
        is_rotated(
            k,
            row[h * head_dim + 2 * j],
            row[h * head_dim + 2 * j + 1],
            rotation(k, pos, natural(k, 2 * j), head_dim, theta),
            interleaved_turned(k, row, pos, head_dim, theta)[h * head_dim + 2 * j],
            interleaved_turned(k, row, pos, head_dim, theta)[h * head_dim + 2 * j + 1],
        ),
{
    let i = h * head_dim + 2 * j;
    lemma_fundamental_div_mod_converse(i, head_dim, h, 2 * j);
    let half = head_dim / 2;
    assert(h * head_dim == 2 * (h * half)) by (nonlinear_arith)
        requires
            head_dim == 2 * half,
    ;
    assert(i % 2 == 0);
    assert(0 <= h * head_dim) by (nonlinear_arith)
        requires
            0 <= h,
            0 < head_dim,
    ;
}

/// Lane `l` after `n` products, by its partial sums.
proof fn lemma_lane(k: Arith, a: Seq<u32>, b: Seq<u32>, l: int, acc: Seq<u32>, n: nat)
    requires
        acc.len() > n,
        acc[0] == 0,
        forall|i: int|
            0 <= i < n ==> #[trigger] acc[i + 1] == k(
                Op::Add,
                acc[i],
                k(Op::Mul, a[4 * i + l], b[4 * i + l]),
            ),
    ensures
        lane(k, a, b, l, n) == acc[n as int],
    decreases n,
{
    if n > 0 {
        lemma_lane(k, a, b, l, acc, (n - 1) as nat);
        assert(acc[n - 1 + 1] == k(Op::Add, acc[n - 1], k(Op::Mul, a[4 * (n - 1) + l], b[4 * (n - 1)
            + l])));
    }
}

/// `acc` is the running sum of every fourth product, from the `l`-th on.
pub open spec fn is_lane(k: Arith, a: Seq<u32>, b: Seq<u32>, l: int, acc: Seq<u32>, n: int) -> bool {
    &&& acc.len() == n + 1
    &&& acc[0] == 0
    &&& forall|i: int|
        0 <= i < n ==> #[trigger] acc[i + 1] == k(
            Op::Add,
            acc[i],
            k(Op::Mul, a[4 * i + l], b[4 * i + l]),
        )
}

/// A dot product takes every pair of values once: four lanes of every fourth product
/// each, added up in order, and then the products that are left over.
#[verifier::spinoff_prover]
pub proof fn law_dot_product(
    k: Arith,
    a: Seq<u32>,
    b: Seq<u32>,
    c0: Seq<u32>,
    c1: Seq<u32>,
    c2: Seq<u32>,
    c3: Seq<u32>,
    tail: Seq<u32>,
    n: int,
)
    requires
        a.len() == b.len(),
        0 <= n,
        4 * n <= a.len() < 4 * n + 4,
        is_lane(k, a, b, 0, c0, n),
        is_lane(k, a, b, 1, c1, n),
        is_lane(k, a, b, 2, c2, n),
        is_lane(k, a, b, 3, c3, n),
        tail.len() == a.len() - 4 * n + 1,
        tail[0] == k(Op::Add, k(Op::Add, k(Op::Add, c0[n], c1[n]), c2[n]), c3[n]),
        forall|i: int|
            0 <= i < a.len() - 4 * n ==> #[trigger] tail[i + 1] == k(
                Op::Add,
                tail[i],
                k(Op::Mul, a[4 * n + i], b[4 * n + i]),
            ),
    ensures
        dot_value(k, a, b) == tail[a.len() - 4 * n],
{
    assert(a.len() / 4 == n);
    lemma_lane(k, a, b, 0, c0, n as nat);
    lemma_lane(k, a, b, 1, c1, n as nat);
    lemma_lane(k, a, b, 2, c2, n as nat);
    lemma_lane(k, a, b, 3, c3, n as nat);
    let rest = products(k, a.subrange(4 * n, a.len() as int), b.subrange(4 * n, a.len() as int));
    assert forall|i: int| 0 <= i < rest.len() implies #[trigger] tail[i + 1] == k(
        Op::Add,
        tail[i],
        rest[i],
    ) by {
        assert(tail[i + 1] == k(Op::Add, tail[i], k(Op::Mul, a[4 * n + i], b[4 * n + i])));
    }
    lemma_partial_sums(k, rest, tail, rest.len() as int);
    assert(rest.take(rest.len() as int) =~= rest);
}

/// A dot product with eight-bit codes is the sum over their groups of 32, each group's
/// scale times its dot product in four lanes with the codes as singles.
#[verifier::spinoff_prover]
pub proof fn law_q8_dot_product(
    k: Arith,
    a: Seq<u32>,
    q: Seq<i8>,
    scales: Seq<u32>,
    lanes: Seq<Seq<Seq<u32>>>,
    part: Seq<u32>,
)
    requires
        a.len() == 32 * scales.len(),
        q.len() == a.len(),
        lanes.len() == scales.len(),
        forall|g: int, l: int|
            0 <= g < scales.len() && 0 <= l < 4 ==> is_lane(
                k,
                a.subrange(32 * g, 32 * g + 32),
                Seq::new(32, |i: int| k(Op::Integer, (q[32 * g + i] as int % 0x1_0000_0000) as u32, 0)),
                l,
                #[trigger] lanes[g][l],
                8,
            ),
        part.len() == scales.len() + 1,
        part[0] == 0,
        forall|g: int|
            0 <= g < scales.len() ==> #[trigger] part[g + 1] == k(
                Op::Add,
                part[g],
                k(
                    Op::Mul,
                    scales[g],
                    k(
                        Op::Add,
                        k(Op::Add, k(Op::Add, lanes[g][0][8], lanes[g][1][8]), lanes[g][2][8]),
                        lanes[g][3][8],
                    ),
                ),
            ),
    ensures
        q8_dot_value(k, a, q, scales) == part[scales.len() as int],
{
    let terms = Seq::new(
        scales.len(),
        |g: int| crate::kernels::matmul::q8_group(k, a, q, scales, g),
    );
    assert forall|g: int| 0 <= g < terms.len() implies #[trigger] part[g + 1] == k(
        Op::Add,
        part[g],
        terms[g],
    ) by {
        let x = a.subrange(32 * g, 32 * g + 32);
        let y = singles(k, q.subrange(32 * g, 32 * g + 32));
        let z = Seq::new(
            32,
            |i: int| k(Op::Integer, (q[32 * g + i] as int % 0x1_0000_0000) as u32, 0),
        );
        assert(y =~= z);
        assert(is_lane(k, x, z, 0, lanes[g][0], 8));
        assert(is_lane(k, x, z, 1, lanes[g][1], 8));
        assert(is_lane(k, x, z, 2, lanes[g][2], 8));
        assert(is_lane(k, x, z, 3, lanes[g][3], 8));
        lemma_lane(k, x, y, 0, lanes[g][0], 8);
        lemma_lane(k, x, y, 1, lanes[g][1], 8);
        lemma_lane(k, x, y, 2, lanes[g][2], 8);
        lemma_lane(k, x, y, 3, lanes[g][3], 8);
    }
    lemma_partial_sums(k, terms, part, scales.len() as int);
    assert(terms.take(scales.len() as int) =~= terms);
}

/// Values are combined place by place.
pub proof fn law_place_by_place(k: Arith, a: Seq<u32>, b: Seq<u32>, c: u32, i: int)
    requires
        a.len() == b.len(),
        0 <= i < a.len(),
    ensures
        products(k, a, b).len() == a.len(),
        products(k, a, b)[i] == k(Op::Mul, a[i], b[i]),
        sums(k, a, b).len() == a.len(),
        sums(k, a, b)[i] == k(Op::Add, a[i], b[i]),
        scaled(k, a, c).len() == a.len(),
        scaled(k, a, c)[i] == k(Op::Mul, a[i], c),
{
}

/// A natural number is handed to the arithmetic as two words, an integer as one.
pub proof fn law_numbers_are_handed_over_whole(k: Arith, hi: u32, lo: u32, n: int)
    requires
        -0x8000_0000 <= n < 0x8000_0000,
    ensures
        natural(k, hi * 0x1_0000_0000 + lo) == k(Op::Natural, hi, lo),
        n >= 0 ==> crate::arith::integer(k, n) == k(Op::Integer, n as u32, 0),
        n < 0 ==> crate::arith::integer(k, n) == k(Op::Integer, (n + 0x1_0000_0000) as u32, 0),
{
    assert((hi * 0x1_0000_0000 + lo) / 0x1_0000_0000 == hi);
    assert((hi * 0x1_0000_0000 + lo) % 0x1_0000_0000 == lo as int);
}

} // verus!
