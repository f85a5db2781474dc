//! Laws of sampling.
use crate::arith::{Arith, Op};
use crate::float_bits::greater32;
use crate::kernels::norms::softmaxed;
use crate::model::sampler::{
    argmax_of, divided, fraction, law_argmax_is_first_maximum, pick_from, xorshift, SamplerView,
};
use vstd::prelude::*;

verus! {

/// What is left of a draw after the weights before: a NaN or more than zero.
pub open spec fn goes_on(left: u32) -> bool {
    0 < left < 0x8000_0000 || left > 0xff80_0000
}

/// A draw that is handed on from weight to weight ends where it is used up.
proof fn lemma_walk(k: Arith, p: Seq<u32>, left: Seq<u32>, j: int, i: int)
    requires
        0 <= j <= i < p.len(),
        left.len() >= i + 2,
        forall|m: int| 0 <= m <= i ==> #[trigger] left[m + 1] == k(Op::Sub, left[m], p[m]),
        forall|m: int| 0 < m <= i ==> goes_on(#[trigger] left[m]),
        i + 1 == p.len() || !goes_on(left[i + 1]),
    ensures
        pick_from(k, p, left[j], j) == i,
    decreases i - j,
{
    assert(left[j + 1] == k(Op::Sub, left[j], p[j]));
    if j < i {
        assert(goes_on(left[j + 1]));
        lemma_walk(k, p, left, j + 1, i);
    }
}

/// With a temperature, the token is the one in whose bucket the generator's next number
/// falls: the number, uniform in steps of `2^-24`, is lessened by one weight of the
/// softmax after the other, and the first token at which nothing is left is drawn, or
/// else the last. Every token whose bucket some number falls in is drawn for it, and
/// numbers in different buckets draw different tokens.
pub proof fn law_the_draw_falls_into_its_bucket(
    k: Arith,
    s: SamplerView,
    t: u32,
    logits: Seq<u32>,
    p: Seq<u32>,
    number: int,
    left: Seq<u32>,
    i: int,
)
    requires
        s.temp == Some(t),
        0 <= i < logits.len(),
        p == softmaxed(k, Seq::new(logits.len(), |j: int| k(Op::Div, logits[j], t))),
        number == (xorshift(s.state) * 0x2545_F491_4F6C_DD1D) % 0x1_0000_0000_0000_0000,
        left.len() == i + 2,
        left[0] == k(
            Op::Div,
            k(Op::Natural, 0, (number / 0x100_0000_0000) as u32),
            k(Op::Natural, 0, 0x100_0000),
        ),
        forall|m: int| 0 <= m <= i ==> #[trigger] left[m + 1] == k(Op::Sub, left[m], p[m]),
        forall|m: int| 0 < m <= i ==> goes_on(#[trigger] left[m]),
        i + 1 == logits.len() || !goes_on(left[i + 1]),
    ensures
        s.token(k, logits) == i,
{
    assert(divided(k, logits, t) =~= Seq::new(logits.len(), |j: int| k(Op::Div, logits[j], t)));
    assert(0 <= number < 0x1_0000_0000_0000_0000);
    assert(0 <= number / 0x100_0000_0000 < 0x100_0000);
    assert(left[0] == fraction(k, xorshift(s.state)));
    assert(p.len() == logits.len());
    lemma_walk(k, p, left, 0, i);
}

/// Every draw with a temperature takes the generator one step on, and the next draw is
/// made with the number of the state after that; a greedy one leaves the sampler as it
/// is.
pub proof fn law_every_draw_uses_up_one_number(s: SamplerView)
    ensures
        s.temp is Some ==> s.next().state == xorshift(s.state),
        s.next().temp == s.temp,
        s.temp is None ==> s.next() == s,
{
}

/// The generator's step, in numbers: the state is mixed with itself shifted down by
/// twelve places, up by twenty-five and down by twenty-seven.
pub proof fn law_generator_mixes_the_state(x: u64, a: u64, b: u64)
    requires
        a == x ^ (x / 0x1000),
        b == a ^ ((a * 0x200_0000) % 0x1_0000_0000_0000_0000) as u64,
    ensures
        xorshift(x) == b ^ (b / 0x800_0000),
{
    assert(x >> 12 == x / 0x1000) by (bit_vector);
    assert(a << 25 == ((a * 0x200_0000) % 0x1_0000_0000_0000_0000) as u64) by (bit_vector);
    assert(b >> 27 == b / 0x800_0000) by (bit_vector);
}

/// Different states are followed by different states: the generator forgets nothing.
pub proof fn law_generator_is_injective(x: u64, y: u64)
    requires
        xorshift(x) == xorshift(y),
    ensures
        x == y,
{
    let d = x ^ y;
    assert(xorshift(x ^ y) == xorshift(x) ^ xorshift(y)) by (bit_vector);
    assert(xorshift(x) ^ xorshift(y) == 0) by (bit_vector)
        requires
            xorshift(x) == xorshift(y),
    ;
    if d != 0 {
        crate::model::sampler::law_xorshift_never_zero(d);
    }
    assert(x == y) by (bit_vector)
        requires
            x ^ y == 0,
    ;
}

/// A greedy sampler draws a token whose logit no other exceeds, whatever its state.
pub proof fn law_greedy_draws_the_largest(k: Arith, s: SamplerView, logits: Seq<u32>, j: int)
    requires
        s.temp is None,
        0 <= j < logits.len(),
    ensures
        0 <= s.token(k, logits) < logits.len(),
        !greater32(logits[j], logits[s.token(k, logits)]),
        j < s.token(k, logits) && j > 0 && logits[j] % 0x8000_0000 <= 0x7f80_0000 ==> greater32(
            logits[s.token(k, logits)],
            logits[j],
        ),
{
    law_argmax_is_first_maximum(logits);
    assert(s.token(k, logits) == argmax_of(logits));
    assert(!greater32(logits[j], logits[argmax_of(logits)]));
}

} // verus!
