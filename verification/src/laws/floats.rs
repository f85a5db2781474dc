//! Laws of halves, singles and doubles by their bits.
use crate::double_bits::{narrowed, narrows_double, law_narrowing_is_unique, scaled64};
use crate::float_bits::{
    greater32, half_on_single_scale, law_widening_is_unique, magnitude16, magnitude32, narrows,
    scaled32, widened, widens,
};
use vstd::arithmetic::power2::{lemma2_to64, lemma_pow2_adds, lemma_pow2_pos, pow2};
use vstd::prelude::*;

verus! {

/// The sign bit of a single, for a half of that sign.
pub open spec fn sign_of(h: u16) -> int {
    if h >= 0x8000 {
        0x8000_0000
    } else {
        0
    }
}

proof fn lemma_is_widened(h: u16, x: u32)
    requires
        widens(h, x),
    ensures
        widened(h) == x,
{
    assert(widens(h, widened(h)));
    law_widening_is_unique(h, x, widened(h));
}

/// A half that is zero, infinite or no number widens to the single that is.
pub proof fn law_special_halves_widen(h: u16)
    ensures
        h % 0x8000 == 0 ==> widened(h) == sign_of(h),
        h % 0x8000 == 0x7c00 ==> widened(h) == sign_of(h) + 0x7f80_0000,
        h % 0x8000 > 0x7c00 ==> widened(h) == sign_of(h) + 0x7f80_0000 + (h % 0x8000 - 0x7c00)
            * 8192,
{
    if h % 0x8000 == 0 {
        let x = sign_of(h) as u32;
        assert(scaled32(magnitude32(x) as int) == 0);
        assert(half_on_single_scale(magnitude16(h) as int) == 0) by (nonlinear_arith)
            requires
                half_on_single_scale(magnitude16(h) as int) == 0 * pow2(125),
        ;
        lemma_is_widened(h, x);
    } else if h % 0x8000 >= 0x7c00 {
        lemma_is_widened(
            h,
            (sign_of(h) + 0x7f80_0000 + (h % 0x8000 - 0x7c00) * 8192) as u32,
        );
    }
}

/// A normal half keeps its fraction and gets the exponent of a single, 112 more.
#[verifier::spinoff_prover]
pub proof fn law_normal_halves_widen(h: u16)
    requires
        0x400 <= h % 0x8000 < 0x7c00,
    ensures
        widened(h) == sign_of(h) + (h % 0x8000) * 8192 + 112 * 0x80_0000,
{
    let m = h as int % 0x8000;
    let e = m / 1024;
    let f = m % 1024;
    let r = m * 8192 + 112 * 0x80_0000;
    let x = (sign_of(h) + r) as u32;
    assert(m == 1024 * e + f);
    assert(r == (e + 112) * 0x80_0000 + f * 8192);
    assert(r / 0x80_0000 == e + 112 && r % 0x80_0000 == f * 8192);
    assert(magnitude32(x) == r);
    assert(1 <= e < 31);
    lemma_pow2_adds(13, (e + 111) as nat);
    lemma_pow2_adds((e - 1) as nat, 125);
    assert(pow2(13) == 8192) by {
        lemma2_to64();
    }
    let a = pow2((e + 111) as nat) as int;
    let b = pow2((e - 1) as nat) as int;
    let c = pow2(125) as int;
    assert((0x80_0000 + f * 8192) * a == (1024 + f) * (8192 * a)) by (nonlinear_arith);
    assert((1024 + f) * (b * c) == ((1024 + f) * b) * c) by (nonlinear_arith);
    assert(scaled32(r) == (0x80_0000 + f * 8192) * a);
    assert(half_on_single_scale(m) == ((1024 + f) * b) * c);
    lemma_is_widened(h, x);
}

/// A half below the normal ones becomes a normal single: its leading bit, number `p`, gives
/// the exponent, and what is below it the fraction.
#[verifier::spinoff_prover]
pub proof fn law_small_halves_widen(h: u16, p: nat)
    requires
        p < 10,
        pow2(p) <= h % 0x8000 < 2 * pow2(p),
        h % 0x8000 < 0x400,
    ensures
        widened(h) == sign_of(h) + (p + 103) * 0x80_0000 + (h % 0x8000 - pow2(p)) * pow2(
            (23 - p) as nat,
        ),
{
    let m = h as int % 0x8000;
    let a = pow2(p) as int;
    let b = pow2((23 - p) as nat) as int;
    let c = pow2((p + 102) as nat) as int;
    lemma_pow2_adds(p, (23 - p) as nat);
    lemma_pow2_adds((23 - p) as nat, (p + 102) as nat);
    assert(pow2(23) == 0x80_0000) by {
        lemma2_to64();
    }
    assert(a * b == 0x80_0000 && b * c == pow2(125));
    let f = (m - a) * b;
    lemma_pow2_pos((23 - p) as nat);
    assert(0 <= f < 0x80_0000) by (nonlinear_arith)
        requires
            f == (m - a) * b,
            a <= m < 2 * a,
            a * b == 0x80_0000,
            b > 0,
    ;
    let r = (p + 103) * 0x80_0000 + f;
    assert(r / 0x80_0000 == p + 103 && r % 0x80_0000 == f);
    let x = (sign_of(h) + r) as u32;
    assert(magnitude32(x) == r);
    assert((0x80_0000 + f) * c == m * (b * c)) by (nonlinear_arith)
        requires
            f == (m - a) * b,
            a * b == 0x80_0000,
    ;
    assert(scaled32(r) == (0x80_0000 + f) * c);
    assert(half_on_single_scale(m) == m * pow2(125));
    lemma_is_widened(h, x);
}

/// A single is larger than another by the sign and then by the bits; zeros are equal, and
/// what is no number is neither larger nor smaller.
pub proof fn law_order_of_singles(a: u32, b: u32)
    ensures
        a <= 0x7f80_0000 && b <= 0x7f80_0000 ==> (greater32(a, b) <==> a > b),
        a <= 0x7f80_0000 && 0x8000_0000 <= b <= 0xff80_0000 ==> (greater32(a, b) <==> a > 0 || b
            > 0x8000_0000),
        0x8000_0000 <= a <= 0xff80_0000 && b <= 0x7f80_0000 ==> !greater32(a, b),
        0x8000_0000 <= a <= 0xff80_0000 && 0x8000_0000 <= b <= 0xff80_0000 ==> (greater32(a, b)
            <==> a < b),
        a % 0x8000_0000 > 0x7f80_0000 || b % 0x8000_0000 > 0x7f80_0000 ==> !greater32(a, b),
{
}

/// What a half of magnitude `m` is worth, on the scale of the smallest single.
pub proof fn law_worth_of_a_half(m: int)
    requires
        0 <= m < 0x7c00,
    ensures
        m < 1024 ==> half_on_single_scale(m) == m * pow2(125),
        m >= 1024 ==> half_on_single_scale(m) == (1024 + m % 1024) * pow2((m / 1024 - 1) as nat)
            * pow2(125),
{
}

/// What a single of magnitude `m` is worth, on the scale of the smallest one, and what a
/// double is.
pub proof fn law_worth_of_a_single(m: int)
    requires
        0 <= m,
    ensures
        m < 0x80_0000 ==> scaled32(m) == m,
        0x80_0000 <= m < 0x7f80_0000 ==> scaled32(m) == (0x80_0000 + m % 0x80_0000) * pow2(
            (m / 0x80_0000 - 1) as nat,
        ),
        m < 0x10_0000_0000_0000 ==> scaled64(m) == m,
        m >= 0x10_0000_0000_0000 ==> scaled64(m) == (0x10_0000_0000_0000 + m % 0x10_0000_0000_0000)
            * pow2((m / 0x10_0000_0000_0000 - 1) as nat),
{
}

/// A single becomes the nearest half, of two the even one: it lies no further than halfway to
/// the neighbours, and at most as far as that only if the half is even.
pub proof fn law_single_becomes_the_nearest_half(x: u32, h: u16)
    requires
        narrows(x, h),
    ensures
        (h >= 0x8000) == (x >= 0x8000_0000),
        x % 0x8000_0000 > 0x7f80_0000 ==> h % 0x8000 == 0x7e00,
        x % 0x8000_0000 <= 0x7f80_0000 ==> {
            let m = h as int % 0x8000;
            let w = 2 * scaled32(x as int % 0x8000_0000);
            &&& m <= 0x7c00
            &&& 0 < m ==> half_on_single_scale(m - 1) + half_on_single_scale(m) <= w
            &&& 0 < m && m % 2 == 1 ==> half_on_single_scale(m - 1) + half_on_single_scale(m) < w
            &&& m < 0x7c00 ==> w <= half_on_single_scale(m) + half_on_single_scale(m + 1)
            &&& m < 0x7c00 && m % 2 == 1 ==> w < half_on_single_scale(m) + half_on_single_scale(
                m + 1,
            )
        },
{
}

/// A double becomes the nearest single, of two the even one.
pub proof fn law_double_becomes_the_nearest_single(x: u64, y: u32)
    requires
        narrows_double(x, y),
    ensures
        narrowed(x) == y,
        (y >= 0x8000_0000) == (x >= 0x8000_0000_0000_0000),
        x % 0x8000_0000_0000_0000 > 0x7ff0_0000_0000_0000 ==> y % 0x8000_0000 == 0x7fc0_0000,
        x % 0x8000_0000_0000_0000 <= 0x7ff0_0000_0000_0000 ==> {
            let m = y as int % 0x8000_0000;
            let w = 2 * scaled64(x as int % 0x8000_0000_0000_0000);
            &&& m <= 0x7f80_0000
            &&& 0 < m ==> (scaled32(m - 1) + scaled32(m)) * pow2(925) <= w
            &&& 0 < m && m % 2 == 1 ==> (scaled32(m - 1) + scaled32(m)) * pow2(925) < w
            &&& m < 0x7f80_0000 ==> w <= (scaled32(m) + scaled32(m + 1)) * pow2(925)
            &&& m < 0x7f80_0000 && m % 2 == 1 ==> w < (scaled32(m) + scaled32(m + 1)) * pow2(925)
        },
{
    assert(narrows_double(x, narrowed(x)));
    law_narrowing_is_unique(x, y, narrowed(x));
    let m = y as int % 0x8000_0000;
    let p = pow2(925) as int;
    let a = scaled32(m - 1);
    let b = scaled32(m);
    let c = scaled32(m + 1);
    assert((a + b) * p == a * p + b * p && (b + c) * p == b * p + c * p) by (nonlinear_arith);
}

} // verus!
