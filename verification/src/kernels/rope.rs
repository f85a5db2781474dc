//! Rotary position embedding: every head's values are rotated, two by two, by
//! angles that grow with the position.
use crate::arith::{arith, from_usize, is_arith, natural, Arith, Op, TWO};
use crate::kernels::quant::lemma_row_in;
use crate::kernels::rows::{copy_row, is_rows, lemma_is_rows_push, row_of};
use vstd::arithmetic::div_mod::lemma_fundamental_div_mod_converse;
use vstd::prelude::*;

verus! {

/// The angle at position `pos` of the pair whose exponent is `e` of `head_dim`:
/// `pos * theta^(-e / head_dim)`.
pub open spec fn angle(k: Arith, pos: int, e: u32, head_dim: int, theta: u32) -> u32 {
    let freq = k(Op::Pow, theta, k(Op::Div, k(Op::Neg, e, 0), natural(k, head_dim)));
    k(Op::Mul, natural(k, pos), freq)
}

/// First coordinate of `(x, y)`, rotated by `a`.
pub open spec fn turned_x(k: Arith, x: u32, y: u32, a: u32) -> u32 {
    k(Op::Sub, k(Op::Mul, x, k(Op::Cos, a, 0)), k(Op::Mul, y, k(Op::Sin, a, 0)))
}

/// Second coordinate of `(x, y)`, rotated by `a`.
pub open spec fn turned_y(k: Arith, x: u32, y: u32, a: u32) -> u32 {
    k(Op::Add, k(Op::Mul, x, k(Op::Sin, a, 0)), k(Op::Mul, y, k(Op::Cos, a, 0)))
}

/// Angle of pair `j` of a head, in the convention that pairs halves.
pub open spec fn half_angle(k: Arith, pos: int, j: int, head_dim: int, theta: u32) -> u32 {
    angle(k, pos, k(Op::Mul, TWO, natural(k, j)), head_dim, theta)
}

/// A row at position `pos`, rotated in the convention that pairs value `j` of a
/// head with value `j + head_dim / 2`.
pub open spec fn neox_value(
    k: Arith,
    row: Seq<u32>,
    pos: int,
    head_dim: int,
    theta: u32,
    i: int,
) -> u32 {
    let half = head_dim / 2;
    let j = i % head_dim;
    if j < half {
        turned_x(k, row[i], row[i + half], half_angle(k, pos, j, head_dim, theta))
    } else {
        turned_y(k, row[i - half], row[i], half_angle(k, pos, j - half, head_dim, theta))
    }
}

/// A row at position `pos`, rotated half against half.
pub open spec fn neox_turned(k: Arith, row: Seq<u32>, pos: int, head_dim: int, theta: u32) -> Seq<u32> {
    Seq::new(row.len(), |i: int| neox_value(k, row, pos, head_dim, theta, i))
}

/// Value `i` of a row at position `pos`, rotated in the convention that pairs
/// neighbours.
pub open spec fn interleaved_value(
    k: Arith,
    row: Seq<u32>,
    pos: int,
    head_dim: int,
    theta: u32,
    i: int,
) -> u32 {
    if i % 2 == 0 {
        turned_x(k, row[i], row[i + 1], angle(k, pos, natural(k, i % head_dim), head_dim, theta))
    } else {
        turned_y(
            k,
            row[i - 1],
            row[i],
            angle(k, pos, natural(k, (i - 1) % head_dim), head_dim, theta),
        )
    }
}

/// A row at position `pos`, rotated neighbour against neighbour.
pub open spec fn interleaved_turned(
    k: Arith,
    row: Seq<u32>,
    pos: int,
    head_dim: int,
    theta: u32,
) -> Seq<u32> {
    Seq::new(row.len(), |i: int| interleaved_value(k, row, pos, head_dim, theta, i))
}

/// Sine and cosine of the angle of one pair.
fn sin_cos<F: Fn(Op, u32, u32) -> u32>(
    pos: usize,
    e: u32,
    head_dim: usize,
    theta: u32,
    calc: &F,
) -> (r: (u32, u32))
    requires
        is_arith(*calc),
    ensures
        r.0 == arith(*calc)(Op::Sin, angle(arith(*calc), pos as int, e, head_dim as int, theta), 0),
        r.1 == arith(*calc)(Op::Cos, angle(arith(*calc), pos as int, e, head_dim as int, theta), 0),
{
    let freq: u32 = calc(
        Op::Pow,
        theta,
        calc(Op::Div, calc(Op::Neg, e, 0), from_usize(head_dim, calc)),
    );
    let a: u32 = calc(Op::Mul, from_usize(pos, calc), freq);
    (calc(Op::Sin, a, 0), calc(Op::Cos, a, 0))
}

/// Positions within a head.
proof fn lemma_in_head(h: int, head_dim: int, c: int)
    requires
        0 <= c < head_dim,
    ensures
        (h * head_dim + c) / head_dim == h,
        (h * head_dim + c) % head_dim == c,
{
    lemma_fundamental_div_mod_converse(h * head_dim + c, head_dim, h, c);
}

/// Rotates a single position's row in place, pairing value `j` of a head with
/// value `j + head_dim / 2`.
pub fn rope_neox<F: Fn(Op, u32, u32) -> u32>(
    x: &mut Vec<u32>,
    pos: usize,
    head_dim: usize,
    theta: u32,
    calc: &F,
)
    requires
        is_arith(*calc),
        head_dim > 0,
        head_dim % 2 == 0,
        old(x).len() % head_dim == 0,
    ensures
        final(x)@ == neox_turned(arith(*calc), old(x)@, pos as int, head_dim as int, theta),
{
    let ghost before = x@;
    let ghost want = neox_turned(arith(*calc), before, pos as int, head_dim as int, theta);
    let half: usize = head_dim / 2;
    let n: usize = x.len();
    let n_heads: usize = n / head_dim;
    proof {
        assert(n == n_heads * head_dim) by (nonlinear_arith)
            requires
                n_heads == n / head_dim,
                n % head_dim == 0,
                head_dim > 0,
        ;
    }
    let mut h: usize = 0;
    while h < n_heads
        invariant
            is_arith(*calc),
            head_dim > 0,
            half == head_dim / 2,
            head_dim % 2 == 0,
            n == n_heads * head_dim,
            before.len() == n,
            x@.len() == n,
            want == neox_turned(arith(*calc), before, pos as int, head_dim as int, theta),
            h <= n_heads,
            forall|i: int| 0 <= i < h * head_dim ==> x@[i] == want[i],
            forall|i: int| h * head_dim <= i < n ==> x@[i] == before[i],
        decreases n_heads - h,
    {
        proof {
            lemma_row_in(h as int, n_heads as int, head_dim as int);
            assert((h + 1) * head_dim == h * head_dim + head_dim) by (nonlinear_arith);
        }
        let base: usize = h * head_dim;
        let mut j: usize = 0;
        while j < half
            invariant
                is_arith(*calc),
                head_dim > 0,
                half == head_dim / 2,
                head_dim % 2 == 0,
                base == h * head_dim,
                base + head_dim <= n,
                before.len() == n,
                x@.len() == n,
                want == neox_turned(arith(*calc), before, pos as int, head_dim as int, theta),
                j <= half,
                forall|i: int| 0 <= i < base + j ==> x@[i] == want[i],
                forall|i: int| base + half <= i < base + half + j ==> x@[i] == want[i],
                forall|i: int| base + j <= i < base + half ==> x@[i] == before[i],
                forall|i: int| base + half + j <= i < n ==> x@[i] == before[i],
            decreases half - j,
        {
            let e: u32 = calc(Op::Mul, TWO, from_usize(j, calc));
            let (sin, cos) = sin_cos(pos, e, head_dim, theta, calc);
            let x1: u32 = x[base + j];
            let x2: u32 = x[base + j + half];
            let y1: u32 = calc(Op::Sub, calc(Op::Mul, x1, cos), calc(Op::Mul, x2, sin));
            let y2: u32 = calc(Op::Add, calc(Op::Mul, x1, sin), calc(Op::Mul, x2, cos));
            proof {
                lemma_in_head(h as int, head_dim as int, j as int);
                lemma_in_head(h as int, head_dim as int, j + half);
                assert(y1 == want[base + j]);
                assert(y2 == want[base + j + half]);
            }
            x.set(base + j, y1);
            x.set(base + j + half, y2);
            j += 1;
        }
        h += 1;
    }
    proof {
        assert(x@ =~= want);
    }
}

/// Rotates a single position's row in place, pairing each value with its
/// neighbour.
pub fn rope_interleaved<F: Fn(Op, u32, u32) -> u32>(
    x: &mut Vec<u32>,
    pos: usize,
    head_dim: usize,
    theta: u32,
    calc: &F,
)
    requires
        is_arith(*calc),
        head_dim > 0,
        head_dim % 2 == 0,
        old(x).len() % head_dim == 0,
    ensures
        final(x)@ == interleaved_turned(arith(*calc), old(x)@, pos as int, head_dim as int, theta),
{
    let ghost before = x@;
    let ghost want = interleaved_turned(arith(*calc), before, pos as int, head_dim as int, theta);
    let n: usize = x.len();
    proof {
        let m = n as int / head_dim as int;
        let h = head_dim as int / 2;
        assert(n == 2 * (m * h)) by (nonlinear_arith)
            requires
                m == n as int / head_dim as int,
                n as int % head_dim as int == 0,
                head_dim == 2 * h,
                head_dim > 0,
        ;
    }
    let mut i: usize = 0;
    while i < n
        invariant
            is_arith(*calc),
            head_dim > 0,
            n % 2 == 0,
            i % 2 == 0,
            before.len() == n,
            x@.len() == n,
            want == interleaved_turned(
                arith(*calc),
                before,
                pos as int,
                head_dim as int,
                theta,
            ),
            i <= n,
            forall|c: int| 0 <= c < i ==> x@[c] == want[c],
            forall|c: int| i <= c < n ==> x@[c] == before[c],
        decreases n - i,
    {
        let e: u32 = from_usize(i % head_dim, calc);
        let (sin, cos) = sin_cos(pos, e, head_dim, theta, calc);
        let x0: u32 = x[i];
        let x1: u32 = x[i + 1];
        let y0: u32 = calc(Op::Sub, calc(Op::Mul, x0, cos), calc(Op::Mul, x1, sin));
        let y1: u32 = calc(Op::Add, calc(Op::Mul, x0, sin), calc(Op::Mul, x1, cos));
        proof {
            assert(y0 == want[i as int]);
            assert(y1 == want[i + 1]);
        }
        x.set(i, y0);
        x.set(i + 1, y1);
        i += 2;
    }
    proof {
        assert(x@ =~= want);
    }
}

/// Rotates a whole sequence in place, row `p` being at position `p`; value `j`
/// of a head is paired with value `j + head_dim / 2`.
pub fn rope<F: Fn(Op, u32, u32) -> u32>(
    x: &mut Vec<u32>,
    seq: usize,
    n_heads: usize,
    head_dim: usize,
    theta: u32,
    calc: &F,
)
    requires
        is_arith(*calc),
        head_dim % 2 == 0,
        old(x).len() == seq * (n_heads * head_dim),
        n_heads * head_dim <= usize::MAX,
    ensures
        is_rows(
            final(x)@,
            seq as int,
            n_heads * head_dim,
            |p: int|
                neox_turned(
                    arith(*calc),
                    row_of(old(x)@, p, n_heads * head_dim),
                    p,
                    head_dim as int,
                    theta,
                ),
        ),
{
    let ghost before = x@;
    let w: usize = n_heads * head_dim;
    let ghost f = |p: int|
        neox_turned(arith(*calc), row_of(before, p, w as int), p, head_dim as int, theta);
    let mut out: Vec<u32> = Vec::new();
    let mut p: usize = 0;
    while p < seq
        invariant
            is_arith(*calc),
            head_dim % 2 == 0,
            w == n_heads * head_dim,
            x@ == before,
            before.len() == seq * w,
            f == (|p: int|
                neox_turned(arith(*calc), row_of(before, p, w as int), p, head_dim as int, theta)),
            p <= seq,
            is_rows(out@, p as int, w as int, f),
        decreases seq - p,
    {
        let mut row: Vec<u32> = copy_row(x.as_slice(), p, w, Ghost(seq as int));
        if head_dim > 0 {
            proof {
                assert((n_heads * head_dim) % (head_dim as int) == 0) by (nonlinear_arith)
                    requires
                        head_dim > 0,
                ;
            }
            rope_neox(&mut row, p, head_dim, theta, calc);
        } else {
            proof {
                assert(n_heads * head_dim == 0) by (nonlinear_arith)
                    requires
                        head_dim == 0,
                ;
                assert(row@ =~= f(p as int));
            }
        }
        proof {
            lemma_is_rows_push(out@, row@, p as int, w as int, f);
        }
        out.append(&mut row);
        p += 1;
    }
    *x = out;
}

} // verus!
