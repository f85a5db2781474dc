//! Double-precision patterns, and their rounding to singles.
use crate::float_bits::{
    half_even, lemma_lift, lemma_round_half_even, lemma_single_monotone, lemma_single_step,
    magnitude32, negative32, scaled32,
};
use vstd::arithmetic::power2::{lemma_pow2_adds, lemma_pow2_pos, lemma_pow2_unfold, pow2};
use vstd::prelude::*;

verus! {

/// Sign bit of a double.
pub open spec fn negative64(x: u64) -> bool {
    x >= 0x8000_0000_0000_0000
}

/// The pattern of `|x|`.
pub open spec fn magnitude64(x: u64) -> u64 {
    x % 0x8000_0000_0000_0000
}

pub open spec fn is_nan64(x: u64) -> bool {
    magnitude64(x) > 0x7ff0_0000_0000_0000
}

/// `2^1074` times the double with magnitude pattern `m`.
pub open spec fn scaled64(m: int) -> int {
    if m < 0x10_0000_0000_0000 {
        m
    } else {
        (0x10_0000_0000_0000 + m % 0x10_0000_0000_0000) * pow2(
            (m / 0x10_0000_0000_0000 - 1) as nat,
        )
    }
}

/// `scaled32` on the scale of `scaled64`.
pub open spec fn single_on_double_scale(k: int) -> int {
    scaled32(k) * pow2(925)
}

/// `y` is the single that the double `x` narrows to.
pub open spec fn narrows_double(x: u64, y: u32) -> bool {
    &&& negative32(y) == negative64(x)
    &&& is_nan64(x) ==> magnitude32(y) == 0x7fc0_0000
    &&& !is_nan64(x) ==> rounds_to_single(scaled64(magnitude64(x) as int), magnitude32(y) as int)
}

/// Round to nearest, ties to even: `k` is the single magnitude for a number of
/// scaled magnitude `x`. Numbers from halfway past the largest single up go to infinity.
pub open spec fn rounds_to_single(x: int, k: int) -> bool {
    &&& 0 <= k <= 0x7f80_0000
    &&& k > 0 ==> {
        let mid2 = single_on_double_scale(k - 1) + single_on_double_scale(k);
        mid2 < 2 * x || (mid2 == 2 * x && k % 2 == 0)
    }
    &&& k < 0x7f80_0000 ==> {
        let mid2 = single_on_double_scale(k) + single_on_double_scale(k + 1);
        2 * x < mid2 || (mid2 == 2 * x && k % 2 == 0)
    }
}

proof fn lemma_scale_strict(p: int, j: int, k: int)
    requires
        p > 0,
        0 <= j < k <= 0x7f80_0000,
    ensures
        scaled32(j) * p < scaled32(k) * p,
{
    lemma_single_monotone(j, k);
    let a = scaled32(j);
    let b = scaled32(k);
    assert(a * p < b * p) by (nonlinear_arith)
        requires
            a < b,
            p > 0,
    ;
}

/// Narrows a double to a single, rounding to nearest with ties to even. What is
/// too large becomes infinity, what is too small a signed zero, and a NaN
/// the quiet NaN of its sign.
pub fn f64_to_f32(x: u64) -> (y: u32)
    ensures
        narrows_double(x, y),
        y == narrowed(x),
{
    let y: u32 = narrow(x);
    proof {
        law_narrowing_is_unique(x, y, narrowed(x));
    }
    y
}

fn narrow(x: u64) -> (y: u32)
    ensures
        narrows_double(x, y),
{
    let negative: bool = x >= 0x8000_0000_0000_0000;
    let mag: u64 = x % 0x8000_0000_0000_0000;
    let exp: u64 = mag / 0x10_0000_0000_0000;
    let frac: u64 = mag % 0x10_0000_0000_0000;
    if exp == 0x7ff && frac != 0 {
        return signed_pattern(negative, 0x7fc0_0000);
    }
    if exp >= 1151 {
        proof {
            lemma_too_large(mag as int);
        }
        return signed_pattern(negative, 0x7f80_0000);
    }
    if exp < 873 {
        proof {
            lemma_too_small(mag as int);
        }
        return signed_pattern(negative, 0);
    }
    let whole: u64 = frac + 0x10_0000_0000_0000;
    if exp <= 896 {
        let unit: u64 = pow2_u64(926 - exp);
        proof {
            vstd::arithmetic::power2::lemma2_to64();
            vstd::arithmetic::power2::lemma2_to64_rest();
            lemma_pow2_pos((926 - exp) as nat);
            if exp > 873 {
                vstd::arithmetic::power2::lemma_pow2_strictly_increases((926 - exp) as nat, 53);
            }
        }
        let k: u64 = round_half_even(whole, unit);
        proof {
            lemma_rounds_subnormal(mag as int, k as int);
        }
        return signed_pattern(negative, k as u32);
    }
    let q: u64 = round_half_even(whole, 0x2000_0000);
    let k: u64 = (exp - 897) * 0x80_0000 + q;
    proof {
        lemma_rounds_normal(mag as int, k as int);
    }
    signed_pattern(negative, k as u32)
}

/// The pattern with the given sign and magnitude.
fn signed_pattern(negative: bool, magnitude: u32) -> (h: u32)
    requires
        magnitude < 0x8000_0000,
    ensures
        negative32(h) == negative,
        magnitude32(h) == magnitude,
{
    if negative {
        0x8000_0000 + magnitude
    } else {
        magnitude
    }
}

/// `2^s` for a small `s`.
fn pow2_u64(s: u64) -> (p: u64)
    requires
        s < 64,
    ensures
        p == pow2(s as nat),
{
    let mut p: u64 = 1;
    let mut i: u64 = 0;
    proof {
        vstd::arithmetic::power2::lemma2_to64();
        vstd::arithmetic::power2::lemma2_to64_rest();
    }
    while i < s
        invariant
            i <= s < 64,
            p == pow2(i as nat),
        decreases s - i,
    {
        proof {
            lemma_pow2_unfold((i + 1) as nat);
            vstd::arithmetic::power2::lemma2_to64();
            vstd::arithmetic::power2::lemma2_to64_rest();
            if i + 1 < 63 {
                vstd::arithmetic::power2::lemma_pow2_strictly_increases((i + 1) as nat, 63);
            }
        }
        p = 2 * p;
        i += 1;
    }
    p
}

/// `m / unit`, rounded to nearest with ties to even.
fn round_half_even(m: u64, unit: u64) -> (k: u64)
    requires
        0 < unit < 0x8000_0000_0000_0000,
        m < 0x8000_0000_0000_0000,
    ensures
        k == half_even(m as int, unit as int),
{
    let q: u64 = m / unit;
    let r: u64 = m % unit;
    proof {
        assert(q <= m) by (nonlinear_arith)
            requires
                q == m / unit,
                unit > 0,
        ;
    }
    if 2 * r > unit || (2 * r == unit && q % 2 == 1) {
        q + 1
    } else {
        q
    }
}

proof fn lemma_too_large(m: int)
    requires
        1151 * 0x10_0000_0000_0000 <= m <= 0x7ff0_0000_0000_0000,
    ensures
        rounds_to_single(scaled64(m), 0x7f80_0000),
{
    let e = (m / 0x10_0000_0000_0000 - 1) as nat;
    let x = scaled64(m);
    if e > 1150 {
        vstd::arithmetic::power2::lemma_pow2_strictly_increases(1150, e);
    }
    lemma_pow2_adds(225, 925);
    lemma_pow2_adds(52, 1150);
    lemma_pow2_adds(254, 925);
    lemma_pow2_adds(23, 1179);
    vstd::arithmetic::power2::lemma2_to64();
    vstd::arithmetic::power2::lemma2_to64_rest();
    let p = pow2(e) as int;
    let base = pow2(1150) as int;
    let f = m % 0x10_0000_0000_0000;
    assert((0x10_0000_0000_0000 + f) * p >= 0x10_0000_0000_0000 * base) by (nonlinear_arith)
        requires
            p >= base,
            base >= 0,
            f >= 0,
    ;
    lemma_single_step(0x7f80_0000 - 1);
    lemma_pow2_pos(925);
    let c = pow2(925) as int;
    let a = scaled32(0x7f80_0000 - 1);
    let b = scaled32(0x7f80_0000);
    assert(a * c < b * c) by (nonlinear_arith)
        requires
            a < b,
            c > 0,
    ;
    assert(b == 0x80_0000 * pow2(254));
    assert((0x80_0000 * pow2(254)) * c == 0x80_0000 * (pow2(254) * c)) by (nonlinear_arith);
}

proof fn lemma_too_small(m: int)
    requires
        0 <= m < 873 * 0x10_0000_0000_0000,
    ensures
        rounds_to_single(scaled64(m), 0),
{
    vstd::arithmetic::power2::lemma2_to64();
    vstd::arithmetic::power2::lemma2_to64_rest();
    lemma_pow2_adds(53, 871);
    lemma_pow2_unfold(925);
    vstd::arithmetic::power2::lemma_pow2_strictly_increases(53, 924);
    let c = pow2(925) as int;
    assert(0 * c == 0 && 1 * c == c) by (nonlinear_arith);
    if m >= 0x10_0000_0000_0000 {
        let e = (m / 0x10_0000_0000_0000 - 1) as nat;
        if e < 871 {
            vstd::arithmetic::power2::lemma_pow2_strictly_increases(e, 871);
        }
        let p = pow2(e) as int;
        let f = m % 0x10_0000_0000_0000;
        let base = pow2(871) as int;
        lemma_pow2_pos(e);
        assert((0x10_0000_0000_0000 + f) * p < 0x20_0000_0000_0000 * base) by (nonlinear_arith)
            requires
                0 < p <= base,
                0 <= f < 0x10_0000_0000_0000,
        ;
    }
}

proof fn lemma_rounds_subnormal(m: int, k: int)
    requires
        873 * 0x10_0000_0000_0000 <= m < 897 * 0x10_0000_0000_0000,
        k == half_even(0x10_0000_0000_0000 + m % 0x10_0000_0000_0000, pow2((926 - m / 0x10_0000_0000_0000) as nat) as int),
    ensures
        rounds_to_single(scaled64(m), k),
        k <= 0x80_0000,
{
    let exp = m / 0x10_0000_0000_0000;
    let w = 0x10_0000_0000_0000 + m % 0x10_0000_0000_0000;
    let unit = pow2((926 - exp) as nat) as int;
    let p = pow2((exp - 1) as nat) as int;
    let c = pow2(925) as int;
    lemma_pow2_pos((926 - exp) as nat);
    lemma_pow2_pos((exp - 1) as nat);
    lemma_pow2_adds((926 - exp) as nat, (exp - 1) as nat);
    assert(unit * p == c);
    vstd::arithmetic::power2::lemma2_to64();
    vstd::arithmetic::power2::lemma2_to64_rest();
    if exp < 896 {
        vstd::arithmetic::power2::lemma_pow2_strictly_increases(30, (926 - exp) as nat);
    }
    assert(unit >= 0x4000_0000);
    assert(w / unit < 0x80_0000 && w / unit >= 0) by (nonlinear_arith)
        requires
            0 <= w < 0x20_0000_0000_0000,
            unit >= 0x4000_0000,
    ;
    lemma_round_half_even(w, unit, k);
    assert(0 <= k <= 0x80_0000);
    lemma_single_small(k);
    if k > 0 {
        lemma_single_small(k - 1);
        assert((k - 1) * c + k * c == ((2 * k - 1) * unit) * p) by (nonlinear_arith)
            requires
                unit * p == c,
        ;
    }
    assert(scaled64(m) == w * p);
    lemma_single_step(k);
    assert((2 * w) * p == 2 * (w * p)) by (nonlinear_arith);
    lemma_lift(p, (2 * k - 1) * unit, 2 * w);
    lemma_lift(p, 2 * w, (2 * k + 1) * unit);
    assert(k * c + (k + 1) * c == ((2 * k + 1) * unit) * p) by (nonlinear_arith)
        requires
            unit * p == c,
    ;
    assert(scaled32(k + 1) == k + 1) by {
        if k == 0x80_0000 {
            assert(scaled32(0x80_0000) == 0x80_0000 * 1);
            assert(pow2(0) == 1);
        }
    }
}

/// Up to the first normal number a single is its own pattern.
proof fn lemma_single_small(k: int)
    requires
        0 <= k <= 0x80_0000,
    ensures
        scaled32(k) == k,
{
    vstd::arithmetic::power2::lemma2_to64();
    vstd::arithmetic::power2::lemma2_to64_rest();
    if k == 0x80_0000 {
        assert((0x80_0000 + 0) * pow2(0) == 0x80_0000);
    }
}

proof fn lemma_rounds_normal(m: int, k: int)
    requires
        897 * 0x10_0000_0000_0000 <= m < 1151 * 0x10_0000_0000_0000,
        k == (m / 0x10_0000_0000_0000 - 897) * 0x80_0000 + half_even(0x10_0000_0000_0000 + m % 0x10_0000_0000_0000, 0x2000_0000),
    ensures
        rounds_to_single(scaled64(m), k),
{
    let exp = m / 0x10_0000_0000_0000;
    let w = 0x10_0000_0000_0000 + m % 0x10_0000_0000_0000;
    let p = pow2((exp - 1) as nat) as int;
    let c = pow2(925) as int;
    let q = w / 0x2000_0000;
    let k0 = (exp - 897) * 0x80_0000 + q;
    lemma_pow2_pos((exp - 1) as nat);
    lemma_pow2_pos(925);
    lemma_round_half_even(w, 0x2000_0000, half_even(w, 0x2000_0000));
    // The gap above `k0`, on the scale of doubles, is `0x2000_0000 * p`.
    let g = pow2((exp - 897) as nat) as int;
    lemma_pow2_adds((exp - 897) as nat, 925);
    lemma_pow2_adds(29, (exp - 1) as nat);
    vstd::arithmetic::power2::lemma2_to64();
    vstd::arithmetic::power2::lemma2_to64_rest();
    assert(g * c == 0x2000_0000 * p);
    assert(k0 / 0x80_0000 == exp - 896 && k0 % 0x80_0000 == q - 0x80_0000);
    assert(scaled32(k0) == q * g);
    assert((q * g) * c == q * (0x2000_0000 * p)) by (nonlinear_arith)
        requires
            g * c == 0x2000_0000 * p,
    ;
    lemma_single_step(k0);
    let s0 = scaled32(k0);
    assert((s0 + g) * c == s0 * c + 0x2000_0000 * p) by (nonlinear_arith)
        requires
            g * c == 0x2000_0000 * p,
    ;
    let v0 = single_on_double_scale(k0);
    let v1 = single_on_double_scale(k0 + 1);
    assert(v0 == (0x2000_0000 * q) * p) by (nonlinear_arith)
        requires
            v0 == q * (0x2000_0000 * p),
    ;
    assert(v1 == v0 + 0x2000_0000 * p);
    let x = scaled64(m);
    assert(x == w * p);
    let r = w % 0x2000_0000;
    assert(w == 0x2000_0000 * q + r);
    assert(x == v0 + r * p) by (nonlinear_arith)
        requires
            x == w * p,
            w == 0x2000_0000 * q + r,
            v0 == (0x2000_0000 * q) * p,
    ;
    lemma_lift(p, r, 0x1000_0000);
    lemma_lift(p, 0x1000_0000, r);
    assert(r * p >= 0) by (nonlinear_arith)
        requires
            r >= 0,
            p > 0,
    ;
    lemma_lift(p, r, 0x2000_0000);
    assert(k0 % 2 == q % 2);
    if k == k0 {
        if k0 > 0 {
            lemma_scale_strict(c, k0 - 1, k0);
        }
    } else {
        assert(k == k0 + 1);
        if k < 0x7f80_0000 {
            lemma_scale_strict(c, k, k + 1);
        }
    }
}

proof fn lemma_rounding_not_below(x: int, j: int, k: int)
    requires
        rounds_to_single(x, j),
        0 <= j < k <= 0x7f80_0000,
    ensures
        !rounds_to_single(x, k),
{
    lemma_pow2_pos(925);
    let p = pow2(925) as int;
    if j + 1 < k {
        lemma_scale_strict(p, j + 1, k);
        lemma_scale_strict(p, j, k - 1);
    }
}

/// A double narrows to one single only.
pub proof fn law_narrowing_is_unique(x: u64, y: u32, z: u32)
    requires
        narrows_double(x, y),
        narrows_double(x, z),
    ensures
        y == z,
{
    if !is_nan64(x) {
        let s = scaled64(magnitude64(x) as int);
        let j = magnitude32(y) as int;
        let k = magnitude32(z) as int;
        if j < k {
            lemma_rounding_not_below(s, j, k);
        } else if k < j {
            lemma_rounding_not_below(s, k, j);
        }
    }
}

/// The single that a double narrows to.
pub open spec fn narrowed(x: u64) -> u32 {
    choose|y: u32| narrows_double(x, y)
}

} // verus!
