//! Single-precision arithmetic.
//!
//! The library carries singles as bit patterns and does no rounding of its own.
//! A caller hands in one function that computes every operation below; the
//! contracts speak of what that function computes, so they hold of any
//! arithmetic, and what is proved equal is equal to the last bit.
use vstd::prelude::*;

verus! {

/// An operation on one or two singles, or from an integer to a single.
#[derive(Debug, Clone, Copy, PartialEq, Eq, Structural)]
pub enum Op {
    /// `a + b`.
    Add,
    /// `a - b`.
    Sub,
    /// `a * b`.
    Mul,
    /// `a / b`.
    Div,
    /// The larger of the two.
    Max,
    /// `a` to the power of `b`.
    Pow,
    /// `-a`.
    Neg,
    /// Square root of `a`.
    Sqrt,
    /// Exponential of `a`.
    Exp,
    /// Hyperbolic tangent of `a`.
    Tanh,
    /// Sine of `a`.
    Sin,
    /// Cosine of `a`.
    Cos,
    /// `a`, rounded to a whole number no larger than 127 in magnitude, as a
    /// two's complement integer.
    Code,
    /// The single nearest to the natural number with high word `a` and low word
    /// `b`.
    Natural,
    /// The single nearest to the two's complement integer `a`.
    Integer,
}

pub const ZERO: u32 = 0;

pub const NEG_ZERO: u32 = 0x8000_0000;

pub const HALF: u32 = 0x3f00_0000;

pub const ONE: u32 = 0x3f80_0000;

pub const TWO: u32 = 0x4000_0000;

pub const NEG_INFINITY: u32 = 0xff80_0000;

/// What an arithmetic computes.
pub type Arith = spec_fn(Op, u32, u32) -> u32;

/// What `calc` computes.
pub open spec fn arith<F: Fn(Op, u32, u32) -> u32>(calc: F) -> Arith {
    |op: Op, a: u32, b: u32| choose|r: u32| call_ensures(calc, (op, a, b), r)
}

/// `calc` computes every operation, and always to the same result.
pub open spec fn is_arith<F: Fn(Op, u32, u32) -> u32>(calc: F) -> bool {
    &&& forall|op: Op, a: u32, b: u32| call_requires(calc, (op, a, b))
    &&& forall|op: Op, a: u32, b: u32, r: u32|
        call_ensures(calc, (op, a, b), r) ==> r == arith(calc)(op, a, b)
}

/// A natural number as a single.
pub open spec fn natural(k: Arith, n: int) -> u32 {
    k(Op::Natural, (n / 0x1_0000_0000) as u32, (n % 0x1_0000_0000) as u32)
}

/// A natural number as a single.
pub fn from_usize<F: Fn(Op, u32, u32) -> u32>(n: usize, calc: &F) -> (r: u32)
    requires
        is_arith(*calc),
    ensures
        r == natural(arith(*calc), n as int),
{
    let n: u64 = n as u64;
    calc(Op::Natural, (n / 0x1_0000_0000) as u32, (n % 0x1_0000_0000) as u32)
}

/// An integer as a single.
pub open spec fn integer(k: Arith, n: int) -> u32 {
    k(Op::Integer, (n % 0x1_0000_0000) as u32, 0)
}

/// An integer as a single.
pub fn from_i32<F: Fn(Op, u32, u32) -> u32>(n: i32, calc: &F) -> (r: u32)
    requires
        is_arith(*calc),
    ensures
        r == integer(arith(*calc), n as int),
{
    let word: u32 = if n < 0 {
        (n as i64 + 0x1_0000_0000) as u32
    } else {
        n as u32
    };
    calc(Op::Integer, word, 0)
}

/// `s[0] + s[1] + ...`, from left to right, the first of them added to `start`.
pub open spec fn total(k: Arith, start: u32, s: Seq<u32>) -> u32
    decreases s.len(),
{
    if s.len() == 0 {
        start
    } else {
        k(Op::Add, total(k, start, s.drop_last()), s.last())
    }
}

/// `a[i] * b[i]` for every `i`.
pub open spec fn products(k: Arith, a: Seq<u32>, b: Seq<u32>) -> Seq<u32> {
    Seq::new(a.len(), |i: int| k(Op::Mul, a[i], b[i]))
}

/// `a[i] + b[i]` for every `i`.
pub open spec fn sums(k: Arith, a: Seq<u32>, b: Seq<u32>) -> Seq<u32> {
    Seq::new(a.len(), |i: int| k(Op::Add, a[i], b[i]))
}

/// Sum of the products `a[i] * b[i]`, from left to right.
pub fn sum_of_products<F: Fn(Op, u32, u32) -> u32>(a: &[u32], b: &[u32], calc: &F) -> (r: u32)
    requires
        is_arith(*calc),
        a.len() == b.len(),
    ensures
        r == total(arith(*calc), NEG_ZERO, products(arith(*calc), a@, b@)),
{
    let ghost p = products(arith(*calc), a@, b@);
    let mut r: u32 = NEG_ZERO;
    let mut i: usize = 0;
    while i < a.len()
        invariant
            is_arith(*calc),
            a.len() == b.len(),
            p == products(arith(*calc), a@, b@),
            i <= a.len(),
            r == total(arith(*calc), NEG_ZERO, p.take(i as int)),
        decreases a.len() - i,
    {
        proof {
            assert(p.take(i + 1).drop_last() =~= p.take(i as int));
        }
        r = calc(Op::Add, r, calc(Op::Mul, a[i], b[i]));
        i += 1;
    }
    proof {
        assert(p.take(i as int) =~= p);
    }
    r
}

/// `a[i] + b[i]` for every `i`.
pub fn add_all<F: Fn(Op, u32, u32) -> u32>(a: &[u32], b: &[u32], calc: &F) -> (r: Vec<u32>)
    requires
        is_arith(*calc),
        a.len() == b.len(),
    ensures
        r@ == sums(arith(*calc), a@, b@),
{
    let mut r: Vec<u32> = Vec::new();
    let mut i: usize = 0;
    while i < a.len()
        invariant
            is_arith(*calc),
            a.len() == b.len(),
            i <= a.len(),
            r@ =~= sums(arith(*calc), a@, b@).take(i as int),
        decreases a.len() - i,
    {
        let v: u32 = calc(Op::Add, a[i], b[i]);
        r.push(v);
        i += 1;
    }
    r
}

/// `a[i] * b[i]` for every `i`.
pub fn multiply_all<F: Fn(Op, u32, u32) -> u32>(a: &[u32], b: &[u32], calc: &F) -> (r: Vec<u32>)
    requires
        is_arith(*calc),
        a.len() == b.len(),
    ensures
        r@ == products(arith(*calc), a@, b@),
{
    let mut r: Vec<u32> = Vec::new();
    let mut i: usize = 0;
    while i < a.len()
        invariant
            is_arith(*calc),
            a.len() == b.len(),
            i <= a.len(),
            r@ =~= products(arith(*calc), a@, b@).take(i as int),
        decreases a.len() - i,
    {
        let v: u32 = calc(Op::Mul, a[i], b[i]);
        r.push(v);
        i += 1;
    }
    r
}

/// `a[i] * c` for every `i`.
pub open spec fn scaled(k: Arith, a: Seq<u32>, c: u32) -> Seq<u32> {
    Seq::new(a.len(), |i: int| k(Op::Mul, a[i], c))
}

/// `a[i] * c` for every `i`.
pub fn scale_all<F: Fn(Op, u32, u32) -> u32>(a: &[u32], c: u32, calc: &F) -> (r: Vec<u32>)
    requires
        is_arith(*calc),
    ensures
        r@ == scaled(arith(*calc), a@, c),
{
    let mut r: Vec<u32> = Vec::new();
    let mut i: usize = 0;
    while i < a.len()
        invariant
            is_arith(*calc),
            i <= a.len(),
            r@ =~= scaled(arith(*calc), a@, c).take(i as int),
        decreases a.len() - i,
    {
        let v: u32 = calc(Op::Mul, a[i], c);
        r.push(v);
        i += 1;
    }
    r
}

} // verus!
