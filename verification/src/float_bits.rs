//! IEEE 754 numbers carried as their bit patterns.
//!
//! A single-precision number travels through the library as the `u32` of its
//! bits, a half as a `u16`, a double as a `u64`. What a pattern stands for is
//! an integer multiple of the smallest positive number of its format, so every
//! conversion below is stated as an equation, or as a rounding rule, between
//! integers.
use vstd::arithmetic::power2::{lemma_pow2_adds, lemma_pow2_pos, lemma_pow2_unfold, pow2};
use vstd::prelude::*;

verus! {

/// Sign bit of a single.
pub open spec fn negative32(x: u32) -> bool {
    x >= 0x8000_0000
}

/// The pattern of `|x|`.
pub open spec fn magnitude32(x: u32) -> u32 {
    x % 0x8000_0000
}

pub open spec fn is_nan32(x: u32) -> bool {
    magnitude32(x) > 0x7f80_0000
}

pub open spec fn is_finite32(x: u32) -> bool {
    magnitude32(x) < 0x7f80_0000
}

/// Sign bit of a half.
pub open spec fn negative16(h: u16) -> bool {
    h >= 0x8000
}

/// The pattern of `|h|`.
pub open spec fn magnitude16(h: u16) -> u16 {
    h % 0x8000
}

pub open spec fn is_nan16(h: u16) -> bool {
    magnitude16(h) > 0x7c00
}

pub open spec fn is_finite16(h: u16) -> bool {
    magnitude16(h) < 0x7c00
}

/// `2^149` times the number with magnitude pattern `m`. For the pattern of
/// infinity this is the first power of two out of range.
pub open spec fn scaled32(m: int) -> int {
    if m < 0x80_0000 {
        m
    } else {
        (0x80_0000 + m % 0x80_0000) * pow2((m / 0x80_0000 - 1) as nat)
    }
}

/// `2^24` times the half with magnitude pattern `k`, infinity as in `scaled32`.
pub open spec fn scaled16(k: int) -> int {
    if k < 1024 {
        k
    } else {
        (1024 + k % 1024) * pow2((k / 1024 - 1) as nat)
    }
}

/// `scaled16` on the scale of `scaled32`.
pub open spec fn half_on_single_scale(k: int) -> int {
    scaled16(k) * pow2(125)
}

/// Round to nearest, ties to even: `k` is the half magnitude for a number of
/// scaled magnitude `x`. Numbers from halfway past the largest half up go to infinity.
pub open spec fn rounds_to_half(x: int, k: int) -> bool {
    &&& 0 <= k <= 0x7c00
    &&& k > 0 ==> {
        let mid2 = half_on_single_scale(k - 1) + half_on_single_scale(k);
        mid2 < 2 * x || (mid2 == 2 * x && k % 2 == 0)
    }
    &&& k < 0x7c00 ==> {
        let mid2 = half_on_single_scale(k) + half_on_single_scale(k + 1);
        2 * x < mid2 || (mid2 == 2 * x && k % 2 == 0)
    }
}

/// `x` is the single that the half `h` widens to: the same number, or for
/// infinities and NaNs the same payload in the upper fraction bits.
pub open spec fn widens(h: u16, x: u32) -> bool {
    &&& negative32(x) == negative16(h)
    &&& is_finite16(h) ==> is_finite32(x) && scaled32(magnitude32(x) as int)
        == half_on_single_scale(magnitude16(h) as int)
    &&& !is_finite16(h) ==> magnitude32(x) == 0x7f80_0000 + (magnitude16(h) - 0x7c00) * 8192
}

/// The single that `h` widens to.
pub open spec fn widened(h: u16) -> u32 {
    choose|x: u32| widens(h, x)
}

/// `h` is the half that the single `x` narrows to.
pub open spec fn narrows(x: u32, h: u16) -> bool {
    &&& negative16(h) == negative32(x)
    &&& is_nan32(x) ==> magnitude16(h) == 0x7e00
    &&& !is_nan32(x) ==> rounds_to_half(scaled32(magnitude32(x) as int), magnitude16(h) as int)
}

/// Neighbouring halves differ by one unit in the last place.
proof fn lemma_half_step(k: int)
    requires
        0 <= k < 0x7c00,
    ensures
        k < 1024 ==> scaled16(k + 1) == scaled16(k) + 1,
        k >= 1024 ==> scaled16(k + 1) == scaled16(k) + pow2((k / 1024 - 1) as nat),
        scaled16(k) < scaled16(k + 1),
{
    vstd::arithmetic::power2::lemma2_to64();
    if k == 1023 {
        assert((1024 + (k + 1) % 1024) * pow2(0) == 1024);
    }
    if k >= 1024 {
        let e = (k / 1024 - 1) as nat;
        lemma_pow2_pos(e);
        let p = pow2(e) as int;
        let f = k % 1024;
        if f == 1023 {
            assert((k + 1) / 1024 == k / 1024 + 1 && (k + 1) % 1024 == 0);
            lemma_pow2_unfold(e + 1);
            assert((1024 + 0) * (2 * p) == (1024 + 1023) * p + p) by (nonlinear_arith);
        } else {
            assert((k + 1) / 1024 == k / 1024 && (k + 1) % 1024 == f + 1);
            assert((1024 + f + 1) * p == (1024 + f) * p + p) by (nonlinear_arith);
        }
    }
}

/// Larger patterns stand for larger halves.
proof fn lemma_half_monotone(j: int, k: int)
    requires
        0 <= j <= k <= 0x7c00,
    ensures
        scaled16(j) <= scaled16(k),
        j < k ==> scaled16(j) < scaled16(k),
    decreases k - j,
{
    if j < k {
        lemma_half_monotone(j, k - 1);
        lemma_half_step(k - 1);
    }
}

/// The rounding rule picks one pattern only.
proof fn lemma_rounding_unique(x: int, j: int, k: int)
    requires
        rounds_to_half(x, j),
        rounds_to_half(x, k),
    ensures
        j == k,
{
    if j < k {
        lemma_rounding_not_below(x, j, k);
    } else if k < j {
        lemma_rounding_not_below(x, k, j);
    }
}

proof fn lemma_rounding_not_below(x: int, j: int, k: int)
    requires
        rounds_to_half(x, j),
        0 <= j < k <= 0x7c00,
    ensures
        !rounds_to_half(x, k),
{
    lemma_pow2_pos(125);
    let p = pow2(125) as int;
    lemma_half_monotone(j + 1, k);
    lemma_scale(p, j + 1, k);
    lemma_half_monotone(j, k - 1);
    lemma_scale(p, j, k - 1);
    if j + 1 < k {
        lemma_scale_strict(p, j, k - 1);
    }
}

proof fn lemma_scale(p: int, j: int, k: int)
    requires
        p > 0,
        scaled16(j) <= scaled16(k),
    ensures
        scaled16(j) * p <= scaled16(k) * p,
{
    let a = scaled16(j);
    let b = scaled16(k);
    assert(a * p <= b * p) by (nonlinear_arith)
        requires
            a <= b,
            p > 0,
    ;
}

proof fn lemma_scale_strict(p: int, j: int, k: int)
    requires
        p > 0,
        0 <= j < k <= 0x7c00,
    ensures
        scaled16(j) * p < scaled16(k) * p,
{
    lemma_half_monotone(j, k);
    let a = scaled16(j);
    let b = scaled16(k);
    assert(a * p < b * p) by (nonlinear_arith)
        requires
            a < b,
            p > 0,
    ;
}

/// Widens a half to a single. Every finite half is a single, so nothing is
/// rounded; a NaN keeps its payload in the upper fraction bits.
pub fn f16_to_f32(h: u16) -> (x: u32)
    ensures
        widens(h, x),
        x == widened(h),
{
    let x: u32 = widen(h);
    proof {
        law_widening_is_unique(h, x, widened(h));
    }
    x
}

fn widen(h: u16) -> (x: u32)
    ensures
        widens(h, x),
{
    let sign: u32 = if h >= 0x8000 {
        0x8000_0000
    } else {
        0
    };
    let mag: u32 = (h % 0x8000) as u32;
    let exp: u32 = mag / 1024;
    let frac: u32 = mag % 1024;
    if exp == 0x1f {
        return sign + 0x7f80_0000 + frac * 8192;
    }
    if exp == 0 {
        if frac == 0 {
            return sign;
        }
        // A subnormal half is a normal single: move its leading one into place.
        let mut m: u32 = frac;
        let mut e: u32 = 113;
        proof {
            vstd::arithmetic::power2::lemma2_to64();
            assert(m * 8192 * pow2(112) == frac * pow2(125)) by {
                lemma_pow2_adds(13, 112);
                assert(pow2(13) == 8192) by {
                    vstd::arithmetic::power2::lemma2_to64();
                }
                assert(frac * 8192 * pow2(112) == frac * (8192 * pow2(112))) by (nonlinear_arith);
            }
        }
        while m < 1024
            invariant
                0 < m < 2048,
                103 <= e <= 113,
                pow2((113 - e) as nat) <= m,
                m * 8192 * pow2((e - 1) as nat) == frac * pow2(125),
            decreases 2048 - m,
        {
            proof {
                assert(pow2(10) == 1024) by {
                    vstd::arithmetic::power2::lemma2_to64();
                }
                lemma_pow2_unfold((114 - e) as nat);
                lemma_pow2_unfold((e - 1) as nat);
                let p = pow2((e - 2) as nat) as int;
                assert((2 * m) * 8192 * p == m * 8192 * (2 * p)) by (nonlinear_arith);
            }
            m = 2 * m;
            e = e - 1;
        }
        let r: u32 = e * 0x80_0000 + (m - 1024) * 8192;
        proof {
            assert(r / 0x80_0000 == e && r % 0x80_0000 == (m - 1024) * 8192);
            assert(magnitude32((sign + r) as u32) == r);
        }
        return sign + r;
    }
    let r: u32 = (exp + 112) * 0x80_0000 + frac * 8192;
    proof {
        assert(r / 0x80_0000 == exp + 112 && r % 0x80_0000 == frac * 8192);
        assert(magnitude32((sign + r) as u32) == r);
        lemma_pow2_adds(13, (exp + 111) as nat);
        lemma_pow2_adds((exp - 1) as nat, 125);
        assert(pow2(13) == 8192) by {
            vstd::arithmetic::power2::lemma2_to64();
        }
        let a = pow2((exp + 111) as nat) as int;
        let b = pow2((exp - 1) as nat) as int;
        let c = pow2(125) as int;
        assert((0x80_0000 + frac * 8192) * a == (1024 + frac) * (8192 * a)) by (nonlinear_arith);
        assert((1024 + frac) * (b * c) == ((1024 + frac) * b) * c) by (nonlinear_arith);
    }
    sign + r
}

/// Round-half-even division: `q` is the quotient, `r` what it leaves.
pub(crate) proof fn lemma_round_half_even(m: int, unit: int, k: int)
    requires
        unit > 0,
        0 <= m,
        k == m / unit + (if 2 * (m % unit) > unit || (2 * (m % unit) == unit && (m / unit) % 2
            == 1) {
            1int
        } else {
            0
        }),
    ensures
        (2 * k - 1) * unit < 2 * m || ((2 * k - 1) * unit == 2 * m && k % 2 == 0),
        2 * m < (2 * k + 1) * unit || (2 * m == (2 * k + 1) * unit && k % 2 == 0),
{
    let q = m / unit;
    let r = m % unit;
    vstd::arithmetic::div_mod::lemma_fundamental_div_mod(m, unit);
    assert((2 * q - 1) * unit == 2 * (unit * q) - unit) by (nonlinear_arith);
    assert((2 * q + 1) * unit == 2 * (unit * q) + unit) by (nonlinear_arith);
    assert((2 * q + 3) * unit == 2 * (unit * q) + 3 * unit) by (nonlinear_arith);
}

/// Narrows a single to a half, rounding to nearest with ties to even. What is
/// too large becomes infinity, what is too small a signed zero, and a NaN
/// stays a (quiet) NaN.
pub fn f32_to_f16(x: u32) -> (h: u16)
    ensures
        narrows(x, h),
{
    let negative: bool = x >= 0x8000_0000;
    let mag: u32 = x % 0x8000_0000;
    let exp: u32 = mag / 0x80_0000;
    let frac: u32 = mag % 0x80_0000;
    if exp == 0xff && frac != 0 {
        return signed_pattern(negative, 0x7e00);
    }
    if exp >= 143 {
        proof {
            lemma_too_large(mag as int);
        }
        return signed_pattern(negative, 0x7c00);
    }
    if exp < 102 {
        proof {
            lemma_too_small(mag as int);
        }
        return signed_pattern(negative, 0);
    }
    let whole: u32 = frac + 0x80_0000;
    if exp <= 112 {
        let unit: u32 = pow2_u32(126 - exp);
        proof {
            vstd::arithmetic::power2::lemma2_to64();
            lemma_pow2_pos((126 - exp) as nat);
            if exp > 102 {
                vstd::arithmetic::power2::lemma_pow2_strictly_increases((126 - exp) as nat, 24);
            }
        }
        let k: u32 = round_half_even(whole, unit);
        proof {
            lemma_rounds_subnormal(mag as int, k as int);
        }
        return signed_pattern(negative, k as u16);
    }
    let q: u32 = round_half_even(whole, 8192);
    let k: u32 = (exp - 113) * 1024 + q;
    proof {
        lemma_rounds_normal(mag as int, k as int);
    }
    signed_pattern(negative, k as u16)
}

/// The pattern with the given sign and magnitude.
fn signed_pattern(negative: bool, magnitude: u16) -> (h: u16)
    requires
        magnitude < 0x8000,
    ensures
        negative16(h) == negative,
        magnitude16(h) == magnitude,
{
    if negative {
        0x8000 + magnitude
    } else {
        magnitude
    }
}

/// `2^s` for a small `s`.
fn pow2_u32(s: u32) -> (p: u32)
    requires
        s < 32,
    ensures
        p == pow2(s as nat),
{
    let mut p: u32 = 1;
    let mut i: u32 = 0;
    proof {
        vstd::arithmetic::power2::lemma2_to64();
    }
    while i < s
        invariant
            i <= s < 32,
            p == pow2(i as nat),
        decreases s - i,
    {
        proof {
            lemma_pow2_unfold((i + 1) as nat);
            vstd::arithmetic::power2::lemma2_to64();
            if i + 1 < 31 {
                vstd::arithmetic::power2::lemma_pow2_strictly_increases((i + 1) as nat, 31);
            }
        }
        p = 2 * p;
        i += 1;
    }
    p
}

pub open spec fn half_even(m: int, unit: int) -> int {
    m / unit + (if 2 * (m % unit) > unit || (2 * (m % unit) == unit && (m / unit) % 2 == 1) {
        1int
    } else {
        0
    })
}

/// `m / unit`, rounded to nearest with ties to even.
fn round_half_even(m: u32, unit: u32) -> (k: u32)
    requires
        0 < unit < 0x8000_0000,
        m < 0x8000_0000,
    ensures
        k == half_even(m as int, unit as int),
{
    let q: u32 = m / unit;
    let r: u32 = m % unit;
    proof {
        assert(q <= m) by (nonlinear_arith)
            requires
                q == m / unit,
                unit > 0,
        ;
    }
    if 2 * r > unit || (2 * r == unit && q % 2 == 1) {
        q + 1
    } else {
        q
    }
}

proof fn lemma_too_large(m: int)
    requires
        143 * 0x80_0000 <= m <= 0x7f80_0000,
    ensures
        rounds_to_half(scaled32(m), 0x7c00),
{
    let e = (m / 0x80_0000 - 1) as nat;
    let x = scaled32(m);
    if e > 142 {
        vstd::arithmetic::power2::lemma_pow2_strictly_increases(142, e);
    }
    lemma_pow2_adds(17, 125);
    lemma_pow2_adds(23, 142);
    lemma_pow2_adds(30, 125);
    lemma_pow2_adds(10, 155);
    vstd::arithmetic::power2::lemma2_to64();
    let p = pow2(e) as int;
    let base = pow2(142) as int;
    let f = m % 0x80_0000;
    assert((0x80_0000 + f) * p >= 0x80_0000 * base) by (nonlinear_arith)
        requires
            p >= base,
            base >= 0,
            f >= 0,
    ;
    lemma_half_step(0x7c00 - 1);
    lemma_pow2_pos(125);
    let c = pow2(125) as int;
    let a = scaled16(0x7c00 - 1);
    let b = scaled16(0x7c00);
    assert(a * c < b * c) by (nonlinear_arith)
        requires
            a < b,
            c > 0,
    ;
    assert(b == 1024 * pow2(30));
    assert((1024 * pow2(30)) * c == 1024 * (pow2(30) * c)) by (nonlinear_arith);
}

proof fn lemma_too_small(m: int)
    requires
        0 <= m < 102 * 0x80_0000,
    ensures
        rounds_to_half(scaled32(m), 0),
{
    vstd::arithmetic::power2::lemma2_to64();
    lemma_pow2_adds(24, 100);
    lemma_pow2_unfold(125);
    vstd::arithmetic::power2::lemma_pow2_strictly_increases(24, 124);
    let c = pow2(125) as int;
    assert(0 * c == 0 && 1 * c == c) by (nonlinear_arith);
    if m >= 0x80_0000 {
        let e = (m / 0x80_0000 - 1) as nat;
        if e < 100 {
            vstd::arithmetic::power2::lemma_pow2_strictly_increases(e, 100);
        }
        let p = pow2(e) as int;
        let f = m % 0x80_0000;
        let base = pow2(100) as int;
        lemma_pow2_pos(e);
        assert((0x80_0000 + f) * p < 0x100_0000 * base) by (nonlinear_arith)
            requires
                0 < p <= base,
                0 <= f < 0x80_0000,
        ;
    }
}

proof fn lemma_rounds_subnormal(m: int, k: int)
    requires
        102 * 0x80_0000 <= m < 113 * 0x80_0000,
        k == half_even(0x80_0000 + m % 0x80_0000, pow2((126 - m / 0x80_0000) as nat) as int),
    ensures
        rounds_to_half(scaled32(m), k),
        k <= 1024,
{
    let exp = m / 0x80_0000;
    let w = 0x80_0000 + m % 0x80_0000;
    let unit = pow2((126 - exp) as nat) as int;
    let p = pow2((exp - 1) as nat) as int;
    let c = pow2(125) as int;
    lemma_pow2_pos((126 - exp) as nat);
    lemma_pow2_pos((exp - 1) as nat);
    lemma_pow2_adds((126 - exp) as nat, (exp - 1) as nat);
    assert(unit * p == c);
    vstd::arithmetic::power2::lemma2_to64();
    if exp < 112 {
        vstd::arithmetic::power2::lemma_pow2_strictly_increases(14, (126 - exp) as nat);
    }
    assert(unit >= 16384);
    assert(w / unit < 1024 && w / unit >= 0) by (nonlinear_arith)
        requires
            0 <= w < 0x100_0000,
            unit >= 16384,
    ;
    lemma_round_half_even(w, unit, k);
    assert(0 <= k <= 1024);
    lemma_half_small(k);
    if k > 0 {
        lemma_half_small(k - 1);
        assert((k - 1) * c + k * c == ((2 * k - 1) * unit) * p) by (nonlinear_arith)
            requires
                unit * p == c,
        ;
    }
    assert(scaled32(m) == w * p);
    lemma_half_step(k);
    assert((2 * w) * p == 2 * (w * p)) by (nonlinear_arith);
    lemma_lift(p, (2 * k - 1) * unit, 2 * w);
    lemma_lift(p, 2 * w, (2 * k + 1) * unit);
    assert(k * c + (k + 1) * c == ((2 * k + 1) * unit) * p) by (nonlinear_arith)
        requires
            unit * p == c,
    ;
    assert(scaled16(k + 1) == k + 1) by {
        if k == 1024 {
            assert(scaled16(1024) == 1024 * 1);
            assert(pow2(0) == 1);
        }
    }
}

/// Up to the first normal number a half is its own pattern.
proof fn lemma_half_small(k: int)
    requires
        0 <= k <= 1024,
    ensures
        scaled16(k) == k,
{
    vstd::arithmetic::power2::lemma2_to64();
    if k == 1024 {
        assert((1024 + 0) * pow2(0) == 1024);
    }
}

pub(crate) proof fn lemma_lift(p: int, a: int, b: int)
    requires
        p > 0,
    ensures
        a < b ==> a * p < b * p,
        a == b ==> a * p == b * p,
{
    if a < b {
        assert(a * p < b * p) by (nonlinear_arith)
            requires
                a < b,
                p > 0,
        ;
    }
}

proof fn lemma_rounds_normal(m: int, k: int)
    requires
        113 * 0x80_0000 <= m < 143 * 0x80_0000,
        k == (m / 0x80_0000 - 113) * 1024 + half_even(0x80_0000 + m % 0x80_0000, 8192),
    ensures
        rounds_to_half(scaled32(m), k),
{
    let exp = m / 0x80_0000;
    let w = 0x80_0000 + m % 0x80_0000;
    let p = pow2((exp - 1) as nat) as int;
    let c = pow2(125) as int;
    let q = w / 8192;
    let k0 = (exp - 113) * 1024 + q;
    lemma_pow2_pos((exp - 1) as nat);
    lemma_pow2_pos(125);
    lemma_round_half_even(w, 8192, half_even(w, 8192));
    // The gap above `k0`, on the scale of singles, is `8192 * p`.
    let g = pow2((exp - 113) as nat) as int;
    lemma_pow2_adds((exp - 113) as nat, 125);
    lemma_pow2_adds(13, (exp - 1) as nat);
    vstd::arithmetic::power2::lemma2_to64();
    assert(g * c == 8192 * p);
    assert(k0 / 1024 == exp - 112 && k0 % 1024 == q - 1024);
    assert(scaled16(k0) == q * g);
    assert((q * g) * c == q * (8192 * p)) by (nonlinear_arith)
        requires
            g * c == 8192 * p,
    ;
    lemma_half_step(k0);
    let s0 = scaled16(k0);
    assert((s0 + g) * c == s0 * c + 8192 * p) by (nonlinear_arith)
        requires
            g * c == 8192 * p,
    ;
    let v0 = half_on_single_scale(k0);
    let v1 = half_on_single_scale(k0 + 1);
    assert(v0 == (8192 * q) * p) by (nonlinear_arith)
        requires
            v0 == q * (8192 * p),
    ;
    assert(v1 == v0 + 8192 * p);
    let x = scaled32(m);
    assert(x == w * p);
    let r = w % 8192;
    assert(w == 8192 * q + r);
    assert(x == v0 + r * p) by (nonlinear_arith)
        requires
            x == w * p,
            w == 8192 * q + r,
            v0 == (8192 * q) * p,
    ;
    lemma_lift(p, r, 4096);
    lemma_lift(p, 4096, r);
    assert(r * p >= 0) by (nonlinear_arith)
        requires
            r >= 0,
            p > 0,
    ;
    lemma_lift(p, r, 8192);
    assert(k0 % 2 == q % 2);
    if k == k0 {
        if k0 > 0 {
            lemma_half_step(k0 - 1);
            lemma_scale(c, k0 - 1, k0);
            lemma_scale_strict(c, k0 - 1, k0);
        }
    } else {
        assert(k == k0 + 1);
        if k < 0x7c00 {
            lemma_scale_strict(c, k, k + 1);
        }
    }
}

/// Neighbouring singles differ by one unit in the last place.
pub(crate) proof fn lemma_single_step(m: int)
    requires
        0 <= m < 0x7f80_0000,
    ensures
        m < 0x80_0000 ==> scaled32(m + 1) == scaled32(m) + 1,
        m >= 0x80_0000 ==> scaled32(m + 1) == scaled32(m) + pow2((m / 0x80_0000 - 1) as nat),
        scaled32(m) < scaled32(m + 1),
{
    vstd::arithmetic::power2::lemma2_to64();
    if m == 0x80_0000 - 1 {
        assert((0x80_0000 + (m + 1) % 0x80_0000) * pow2(0) == 0x80_0000);
    }
    if m >= 0x80_0000 {
        let e = (m / 0x80_0000 - 1) as nat;
        lemma_pow2_pos(e);
        let p = pow2(e) as int;
        let f = m % 0x80_0000;
        if f == 0x80_0000 - 1 {
            assert((m + 1) / 0x80_0000 == m / 0x80_0000 + 1 && (m + 1) % 0x80_0000 == 0);
            lemma_pow2_unfold(e + 1);
            assert(0x80_0000 * (2 * p) == (0x80_0000 + 0x7f_ffff) * p + p) by (nonlinear_arith);
        } else {
            assert((m + 1) / 0x80_0000 == m / 0x80_0000 && (m + 1) % 0x80_0000 == f + 1);
            assert((0x80_0000 + f + 1) * p == (0x80_0000 + f) * p + p) by (nonlinear_arith);
        }
    }
}

pub(crate) proof fn lemma_single_monotone(j: int, k: int)
    requires
        0 <= j < k <= 0x7f80_0000,
    ensures
        scaled32(j) < scaled32(k),
    decreases k - j,
{
    lemma_single_step(k - 1);
    if j < k - 1 {
        lemma_single_monotone(j, k - 1);
    }
}

/// A half widens to one single only.
pub proof fn law_widening_is_unique(h: u16, x: u32, y: u32)
    requires
        widens(h, x),
        widens(h, y),
    ensures
        x == y,
{
    let a = magnitude32(x) as int;
    let b = magnitude32(y) as int;
    if is_finite16(h) {
        if a < b {
            lemma_single_monotone(a, b);
        } else if b < a {
            lemma_single_monotone(b, a);
        }
    }
}

/// Orders the patterns of numbers as the numbers themselves; both zeros are one.
pub open spec fn order_key(x: u32) -> int {
    if negative32(x) {
        -(magnitude32(x) as int)
    } else {
        magnitude32(x) as int
    }
}

/// `a > b`. A NaN is not greater than anything, nor anything greater than it.
pub open spec fn greater32(a: u32, b: u32) -> bool {
    !is_nan32(a) && !is_nan32(b) && order_key(a) > order_key(b)
}

/// `2^149` times a number, infinities standing just out of range.
pub open spec fn number32(x: u32) -> int {
    if negative32(x) {
        -scaled32(magnitude32(x) as int)
    } else {
        scaled32(magnitude32(x) as int)
    }
}

/// Comparing patterns compares the numbers they stand for.
pub proof fn law_greater_is_numeric(a: u32, b: u32)
    requires
        !is_nan32(a),
        !is_nan32(b),
    ensures
        greater32(a, b) <==> number32(a) > number32(b),
{
    let x = magnitude32(a) as int;
    let y = magnitude32(b) as int;
    if x < y {
        lemma_single_monotone(x, y);
    } else if y < x {
        lemma_single_monotone(y, x);
    }
    if x > 0 {
        lemma_single_monotone(0, x);
    }
    if y > 0 {
        lemma_single_monotone(0, y);
    }
}

/// `a > b` on bit patterns.
pub fn greater_f32(a: u32, b: u32) -> (r: bool)
    ensures
        r == greater32(a, b),
{
    let x: u32 = a % 0x8000_0000;
    let y: u32 = b % 0x8000_0000;
    if x > 0x7f80_0000 || y > 0x7f80_0000 {
        return false;
    }
    if a >= 0x8000_0000 {
        b >= 0x8000_0000 && x < y
    } else if b >= 0x8000_0000 {
        x > 0 || y > 0
    } else {
        x > y
    }
}

/// Narrowing undoes widening: every half but a NaN comes back as it was.
pub proof fn law_half_round_trip(h: u16, x: u32, back: u16)
    requires
        !is_nan16(h),
        widens(h, x),
        narrows(x, back),
    ensures
        back == h,
{
    let k = magnitude16(h) as int;
    if is_finite16(h) {
        lemma_pow2_pos(125);
        if k > 0 {
            lemma_scale_strict(pow2(125) as int, k - 1, k);
        }
        lemma_scale_strict(pow2(125) as int, k, k + 1);
        lemma_rounding_unique(scaled32(magnitude32(x) as int), k, magnitude16(back) as int);
    } else {
        lemma_too_large(0x7f80_0000);
        lemma_rounding_unique(scaled32(0x7f80_0000), 0x7c00, magnitude16(back) as int);
    }
}

} // verus!
