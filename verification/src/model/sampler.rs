//! Token sampling: greedy, or by temperature with a small seeded generator.
use crate::arith::{arith, is_arith, natural, Arith, Op};
use crate::float_bits::{greater32, greater_f32, is_nan32, magnitude32};
use crate::kernels::norms::{softmax, softmaxed};
use vstd::prelude::*;

verus! {

/// The state that follows `x`.
pub open spec fn xorshift(x: u64) -> u64 {
    let a = x ^ (x >> 12);
    let b = a ^ (a << 25);
    b ^ (b >> 27)
}

/// The number a state is output as.
pub open spec fn scrambled(x: u64) -> u64 {
    ((x * 0x2545F4914F6CDD1D) % 0x1_0000_0000_0000_0000) as u64
}

/// The generator never falls into the fixed point zero.
pub proof fn law_xorshift_never_zero(x: u64)
    requires
        x != 0,
    ensures
        xorshift(x) != 0,
{
    assert(xorshift(x) != 0) by (bit_vector)
        requires
            x != 0,
    ;
}

/// xorshift64*: tiny, deterministic, good enough for sampling.
#[derive(Debug)]
pub struct XorShift(u64);

impl XorShift {
    /// The current state.
    pub closed spec fn state(&self) -> u64 {
        self.0
    }

    /// Seeds the generator; zero, its one bad seed, becomes one.
    pub fn new(seed: u64) -> (g: Self)
        ensures
            g.state() == (if seed == 0 {
                1
            } else {
                seed
            }),
            g.state() != 0,
    {
        if seed == 0 {
            XorShift(1)
        } else {
            XorShift(seed)
        }
    }

    /// The next 64-bit number.
    pub fn next_u64(&mut self) -> (r: u64)
        ensures
            final(self).state() == xorshift(old(self).state()),
            r == scrambled(final(self).state()),
            old(self).state() != 0 ==> final(self).state() != 0,
    {
        let x: u64 = self.0;
        let a: u64 = x ^ (x >> 12);
        let b: u64 = a ^ (a << 25);
        let c: u64 = b ^ (b >> 27);
        proof {
            if x != 0 {
                law_xorshift_never_zero(x);
            }
        }
        self.0 = c;
        c.wrapping_mul(0x2545F4914F6CDD1D)
    }
}

/// The number in `[0, 1)` that a state is output as.
pub open spec fn fraction(k: Arith, state: u64) -> u32 {
    k(
        Op::Div,
        natural(k, (scrambled(state) / 0x100_0000_0000) as int),
        natural(k, 0x100_0000),
    )
}

impl XorShift {
    /// Uniform in `[0, 1)`, in steps of `2^-24`.
    pub fn next_f32<F: Fn(Op, u32, u32) -> u32>(&mut self, calc: &F) -> (r: u32)
        requires
            is_arith(*calc),
        ensures
            final(self).state() == xorshift(old(self).state()),
            old(self).state() != 0 ==> final(self).state() != 0,
            r == fraction(arith(*calc), final(self).state()),
    {
        let n: u64 = self.next_u64() / 0x100_0000_0000;
        let top: u32 = calc(Op::Natural, 0, n as u32);
        let bottom: u32 = calc(Op::Natural, 0, 0x100_0000);
        calc(Op::Div, top, bottom)
    }
}

/// How the next token is chosen.
#[derive(Debug)]
pub enum Sampler {
    Greedy,
    /// Softmax at a temperature (a single, by its bits), drawn with `rng`.
    Temperature { temp: u32, rng: XorShift },
}

/// What a sampler is: its temperature, unless it is greedy, and the state of its
/// generator.
pub struct SamplerView {
    pub temp: Option<u32>,
    pub state: u64,
}

impl View for Sampler {
    type V = SamplerView;

    open spec fn view(&self) -> SamplerView {
        match self {
            Sampler::Greedy => SamplerView { temp: None, state: 0 },
            Sampler::Temperature { temp, rng } => SamplerView {
                temp: Some(*temp),
                state: rng.state(),
            },
        }
    }
}

/// The index of the first of the greatest values, zero if there are none. A NaN
/// is greater than nothing, and nothing is greater than a NaN.
pub open spec fn argmax_of(v: Seq<u32>) -> int
    decreases v.len(),
{
    if v.len() == 0 {
        0
    } else {
        let best = argmax_of(v.drop_last());
        if greater32(v.last(), v[best]) {
            v.len() - 1
        } else {
            best
        }
    }
}

/// Greedy sampling picks a value that none exceeds, and the first such: every
/// value before it is less, unless it is a NaN.
pub proof fn law_argmax_is_first_maximum(v: Seq<u32>)
    requires
        v.len() > 0,
    ensures
        0 <= argmax_of(v) < v.len(),
        forall|j: int| 0 <= j < v.len() ==> !greater32(#[trigger] v[j], v[argmax_of(v)]),
        forall|j: int|
            0 <= j < argmax_of(v) ==> #[trigger] greater32(v[argmax_of(v)], v[j]) || (j > 0
                && is_nan32(v[j])),
        is_nan32(v[0]) ==> argmax_of(v) == 0,
    decreases v.len(),
{
    let r = v.drop_last();
    if r.len() > 0 {
        law_argmax_is_first_maximum(r);
        let best = argmax_of(r);
        let last = v.len() - 1;
        assert(r[best] == v[best]);
        assert forall|j: int| 0 <= j < v.len() implies !greater32(
            #[trigger] v[j],
            v[argmax_of(v)],
        ) by {
            if j < r.len() {
                assert(r[j] == v[j]);
                assert(!greater32(r[j], r[best]));
            }
        }
        assert forall|j: int| 0 <= j < argmax_of(v) implies #[trigger] greater32(
            v[argmax_of(v)],
            v[j],
        ) || (j > 0 && is_nan32(v[j])) by {
            assert(r[j] == v[j]);
            if argmax_of(v) == last {
                assert(!greater32(r[j], r[best]));
                if j < best {
                    assert(greater32(r[best], r[j]) || (j > 0 && is_nan32(r[j])));
                }
            } else {
                assert(greater32(r[best], r[j]) || (j > 0 && is_nan32(r[j])));
            }
        }
    } else {
        assert(argmax_of(r) == 0);
    }
}

/// Index of the greatest value.
pub fn argmax(v: &[u32]) -> (best: u32)
    ensures
        best == argmax_of(v@) as u32,
{
    let mut best: usize = 0;
    let mut i: usize = 0;
    while i < v.len()
        invariant
            i <= v.len(),
            best == argmax_of(v@.take(i as int)),
            best == 0 || best < i,
        decreases v.len() - i,
    {
        proof {
            assert(v@.take(i + 1).drop_last() =~= v@.take(i as int));
        }
        if greater_f32(v[i], v[best]) {
            best = i;
        }
        i += 1;
    }
    proof {
        assert(v@.take(i as int) =~= v@);
    }
    best as u32
}

/// `x <= 0`.
pub open spec fn used_up(x: u32) -> bool {
    !is_nan32(x) && !greater32(x, 0)
}

/// Walks the cumulative distribution from index `i` on: the first index at which
/// `r`, less the weights up to and including it, is used up, or else the last.
pub open spec fn pick_from(k: Arith, weights: Seq<u32>, r: u32, i: int) -> int
    decreases weights.len() - i,
{
    let rest = k(Op::Sub, r, weights[i]);
    if i + 1 >= weights.len() || used_up(rest) {
        i
    } else {
        pick_from(k, weights, rest, i + 1)
    }
}

/// Whatever the arithmetic, a pick is an index.
pub proof fn law_pick_in_range(k: Arith, weights: Seq<u32>, r: u32, i: int)
    requires
        0 <= i < weights.len(),
    ensures
        i <= pick_from(k, weights, r, i) < weights.len(),
    decreases weights.len() - i,
{
    let rest = k(Op::Sub, r, weights[i]);
    if i + 1 < weights.len() && !used_up(rest) {
        law_pick_in_range(k, weights, rest, i + 1);
    }
}

/// `a[i] / c` for every `i`.
pub open spec fn divided(k: Arith, a: Seq<u32>, c: u32) -> Seq<u32> {
    Seq::new(a.len(), |i: int| k(Op::Div, a[i], c))
}

impl SamplerView {
    /// The token drawn for `logits`.
    pub open spec fn token(self, k: Arith, logits: Seq<u32>) -> int {
        match self.temp {
            None => argmax_of(logits),
            Some(temp) => pick_from(
                k,
                softmaxed(k, divided(k, logits, temp)),
                fraction(k, xorshift(self.state)),
                0,
            ),
        }
    }

    /// The sampler after a draw.
    pub open spec fn next(self) -> SamplerView {
        match self.temp {
            None => self,
            Some(temp) => SamplerView { temp: self.temp, state: xorshift(self.state) },
        }
    }
}

/// Sampling is reproducible and stays in range: what is drawn is the index of a
/// logit, and depends on the sampler's state and the logits alone.
pub proof fn law_sample_in_range(k: Arith, s: SamplerView, logits: Seq<u32>)
    requires
        logits.len() > 0,
    ensures
        0 <= s.token(k, logits) < logits.len(),
{
    match s.temp {
        None => law_argmax_is_first_maximum(logits),
        Some(temp) => law_pick_in_range(
            k,
            softmaxed(k, divided(k, logits, temp)),
            fraction(k, xorshift(s.state)),
            0,
        ),
    }
}

impl Sampler {
    /// Greedy for a temperature of zero, of either sign; else by temperature.
    pub fn new(temp: u32, seed: u64) -> (s: Self)
        ensures
            s is Greedy <==> magnitude32(temp) == 0,
            s@ == (if magnitude32(temp) == 0 {
                SamplerView { temp: None, state: 0 }
            } else {
                SamplerView {
                    temp: Some(temp),
                    state: if seed == 0 {
                        1
                    } else {
                        seed
                    },
                }
            }),
    {
        if temp % 0x8000_0000 == 0 {
            Sampler::Greedy
        } else {
            Sampler::Temperature { temp, rng: XorShift::new(seed) }
        }
    }

    /// Whether the sampler is greedy.
    pub fn is_greedy(&self) -> (b: bool)
        ensures
            b == (self@.temp is None),
    {
        match self {
            Sampler::Greedy => true,
            Sampler::Temperature { .. } => false,
        }
    }

    /// Draws a token: the index of a logit, of which a token has the low 32 bits.
    /// (With a temperature there has to be something to draw.)
    pub fn sample<F: Fn(Op, u32, u32) -> u32>(&mut self, logits: &[u32], calc: &F) -> (token: u32)
        requires
            is_arith(*calc),
            old(self)@.temp is Some ==> logits.len() > 0,
        ensures
            token == old(self)@.token(arith(*calc), logits@) as u32,
            final(self)@ == old(self)@.next(),
    {
        match self {
            Sampler::Greedy => argmax(logits),
            Sampler::Temperature { temp, rng } => {
                let ghost k = arith(*calc);
                let t: u32 = *temp;
                let mut scaled: Vec<u32> = Vec::new();
                let mut i: usize = 0;
                while i < logits.len()
                    invariant
                        is_arith(*calc),
                        k == arith(*calc),
                        i <= logits.len(),
                        scaled@ =~= divided(k, logits@, t).take(i as int),
                    decreases logits.len() - i,
                {
                    let v: u32 = calc(Op::Div, logits[i], t);
                    scaled.push(v);
                    i += 1;
                }
                proof {
                    assert(scaled@ =~= divided(k, logits@, t));
                }
                let probs: Vec<u32> = softmax(scaled.as_slice(), calc);
                let r: u32 = rng.next_f32(calc);
                pick(probs.as_slice(), r, calc)
            },
        }
    }
}

/// Walks the cumulative distribution: the first index at which `r`, less the
/// weights up to and including it, is used up, or else the last index.
fn pick<F: Fn(Op, u32, u32) -> u32>(weights: &[u32], r: u32, calc: &F) -> (index: u32)
    requires
        is_arith(*calc),
        0 < weights.len(),
    ensures
        index == pick_from(arith(*calc), weights@, r, 0) as u32,
{
    let mut rest: u32 = r;
    let mut i: usize = 0;
    while i + 1 < weights.len()
        invariant
            is_arith(*calc),
            0 < weights.len(),
            i < weights.len(),
            pick_from(arith(*calc), weights@, r, 0) == pick_from(
                arith(*calc),
                weights@,
                rest,
                i as int,
            ),
        decreases weights.len() - i,
    {
        rest = calc(Op::Sub, rest, weights[i]);
        let mag: u32 = rest % 0x8000_0000;
        if mag <= 0x7f80_0000 && !greater_f32(rest, 0) {
            return i as u32;
        }
        i += 1;
    }
    i as u32
}

} // verus!
