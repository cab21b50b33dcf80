//! What bit patterns stand for.

use vstd::arithmetic::power2::{
    lemma_pow2_pos, lemma_pow2_strictly_increases, lemma_pow2_unfold, pow2,
};
use vstd::prelude::*;

use crate::float::{Float32, Float64};

verus! {

/// The number that a pattern without sign stands for, in units of half the
/// smallest positive number. `unit` is one more than the largest fraction; what
/// is above the fraction is the exponent.
pub open spec fn scaled(unit: int, pattern: int) -> int {
    if pattern / unit == 0 {
        2 * (pattern % unit)
    } else {
        (unit + pattern % unit) * pow2((pattern / unit) as nat)
    }
}

/// The number that a single precision pattern stands for, in units of half the
/// smallest positive one.
pub open spec fn single_value(x: Float32) -> int {
    if x.bits < 0x8000_0000 {
        scaled(0x80_0000, x.bits as int)
    } else {
        -scaled(0x80_0000, x.bits - 0x8000_0000)
    }
}

/// Whether a single precision pattern stands for a number or an infinity.
pub open spec fn is_single(x: Float32) -> bool {
    x.bits as int % 0x8000_0000 <= 0x7f80_0000
}

/// The number that a double precision pattern stands for, in units of half the
/// smallest positive one.
pub open spec fn double_value(x: Float64) -> int {
    if x.bits < 0x8000_0000_0000_0000 {
        scaled(0x10_0000_0000_0000, x.bits as int)
    } else {
        -scaled(0x10_0000_0000_0000, x.bits - 0x8000_0000_0000_0000)
    }
}

/// Whether a double precision pattern stands for a number or an infinity.
pub open spec fn is_double(x: Float64) -> bool {
    x.bits as int % 0x8000_0000_0000_0000 <= 0x7ff0_0000_0000_0000
}

/// Larger patterns stand for larger numbers.
proof fn lemma_scaled_increases(unit: int, a: int, b: int)
    requires
        0 < unit,
        0 <= a < b,
    ensures
        0 <= scaled(unit, a) < scaled(unit, b),
        a == 0 ==> scaled(unit, a) == 0,
{
    let (e, f) = (a / unit, a % unit);
    let (g, h) = (b / unit, b % unit);
    vstd::arithmetic::div_mod::lemma_fundamental_div_mod(a, unit);
    vstd::arithmetic::div_mod::lemma_fundamental_div_mod(b, unit);
    vstd::arithmetic::div_mod::lemma_mod_bound(a, unit);
    vstd::arithmetic::div_mod::lemma_mod_bound(b, unit);
    vstd::arithmetic::div_mod::lemma_div_is_ordered(a, b, unit);
    vstd::arithmetic::div_mod::lemma_div_pos_is_pos(a, unit);
    lemma_pow2_pos(e as nat);
    lemma_pow2_pos(g as nat);
    assert(0 <= (unit + f) * pow2(e as nat)) by (nonlinear_arith)
        requires
            0 < unit,
            0 <= f,
            0 < pow2(e as nat),
    ;
    if a == 0 {
        vstd::arithmetic::div_mod::lemma_div_basics(unit);
        assert(f == 0 && e == 0);
    }
    if e == g {
        assert(f < h);
        assert((unit + f) * pow2(e as nat) < (unit + h) * pow2(e as nat)) by (nonlinear_arith)
            requires
                f < h,
                0 < pow2(e as nat),
        ;
    } else {
        assert(e < g);
        let low = pow2(e as nat);
        let next = pow2((e + 1) as nat);
        let high = pow2(g as nat);
        lemma_pow2_unfold((e + 1) as nat);
        assert(next == 2 * low);
        assert(next <= high) by {
            if e + 1 < g {
                lemma_pow2_strictly_increases((e + 1) as nat, g as nat);
            }
        }
        assert((unit + f) * low < unit * next) by (nonlinear_arith)
            requires
                0 <= f < unit,
                0 < low,
                next == 2 * low,
        ;
        assert(unit * next <= (unit + h) * high) by (nonlinear_arith)
            requires
                0 < unit,
                0 <= h,
                0 < next <= high,
        ;
        if e == 0 {
            lemma_pow2_pos(0);
            assert(2 * f < unit * next) by (nonlinear_arith)
                requires
                    0 <= f < unit,
                    0 < low,
                    next == 2 * low,
            ;
        }
    }
}

/// Single precision numbers order as the numbers that they stand for; nothing is
/// below or above a pattern that stands for none.
pub proof fn law_single_order(a: Float32, b: Float32)
    ensures
        is_single(a) && is_single(b) ==> (a.less(b) <==> single_value(a) < single_value(b)),
        !is_single(a) || !is_single(b) ==> !a.less(b),
{
    let u: int = 0x80_0000;
    let x = a.bits as int % 0x8000_0000;
    let y = b.bits as int % 0x8000_0000;
    lemma_scaled_is_positive(u, x);
    lemma_scaled_is_positive(u, y);
    if x < y {
        lemma_scaled_increases(u, x, y);
    } else if y < x {
        lemma_scaled_increases(u, y, x);
    }
}

/// A pattern without sign stands for zero only where it is zero.
proof fn lemma_scaled_is_positive(unit: int, a: int)
    requires
        0 < unit,
        0 <= a,
    ensures
        0 <= scaled(unit, a),
        0 < a ==> 0 < scaled(unit, a),
        a == 0 ==> scaled(unit, a) == 0,
{
    if a > 0 {
        lemma_scaled_increases(unit, 0, a);
    } else {
        lemma_scaled_increases(unit, 0, 1);
    }
}

/// What the named single precision numbers are: zero, a number that no number is
/// above, and what is above all numbers.
pub proof fn law_single_constants(a: Float32)
    requires
        a.bits as int % 0x8000_0000 < 0x7f80_0000,
    ensures
        single_value(Float32::spec_zero()) == 0,
        is_single(Float32::spec_max()),
        Float32::spec_max().bits as int % 0x8000_0000 < 0x7f80_0000,
        single_value(a) <= single_value(Float32::spec_max()),
        is_single(Float32::spec_infinity()),
        single_value(a) < single_value(Float32::spec_infinity()),
{
    let u: int = 0x80_0000;
    let x = a.bits as int % 0x8000_0000;
    lemma_scaled_is_positive(u, 0);
    lemma_scaled_is_positive(u, x);
    lemma_scaled_is_positive(u, 0x7f7f_ffff);
    lemma_scaled_increases(u, x, 0x7f80_0000);
    if x < 0x7f7f_ffff {
        lemma_scaled_increases(u, x, 0x7f7f_ffff);
    }
}

/// Double precision numbers order as the numbers that they stand for; nothing is
/// below or above a pattern that stands for none.
pub proof fn law_double_order(a: Float64, b: Float64)
    ensures
        is_double(a) && is_double(b) ==> (a.less(b) <==> double_value(a) < double_value(b)),
        !is_double(a) || !is_double(b) ==> !a.less(b),
{
    let u: int = 0x10_0000_0000_0000;
    let x = a.bits as int % 0x8000_0000_0000_0000;
    let y = b.bits as int % 0x8000_0000_0000_0000;
    lemma_scaled_is_positive(u, x);
    lemma_scaled_is_positive(u, y);
    if x < y {
        lemma_scaled_increases(u, x, y);
    } else if y < x {
        lemma_scaled_increases(u, y, x);
    }
}

/// A number without its sign, and zero.
pub proof fn law_double_without_sign(a: Float64)
    ensures
        double_value(Float64::spec_zero()) == 0,
        is_double(a.spec_abs()) == is_double(a),
        double_value(a.spec_abs()) >= 0,
        double_value(a.spec_abs()) == double_value(a) || double_value(a.spec_abs())
            == -double_value(a),
        a.spec_abs().bits == a.bits || a.spec_abs().bits + 0x8000_0000_0000_0000 == a.bits,
        a.spec_abs().bits < 0x8000_0000_0000_0000,
{
    let u: int = 0x10_0000_0000_0000;
    let x = a.bits as int % 0x8000_0000_0000_0000;
    lemma_scaled_is_positive(u, 0);
    lemma_scaled_is_positive(u, x);
}

} // verus!
