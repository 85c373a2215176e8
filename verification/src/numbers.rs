//! What the arithmetic of progress values means, told by bit patterns and whole numbers alone.
//!
//! A bit pattern stands for a whole number of units of the smallest positive number, of which two
//! to the power of 1074 make one. Sums and products are held against every other number that the
//! patterns can express: none is closer to the exact result.

use crate::binary64::{lemma_one, Binary64};
use crate::rounding::{grid, lemma_grid_increases, lemma_nearest_exists, nearest};
use vstd::arithmetic::power2::{lemma2_to64, lemma_pow2_pos, lemma_pow2_unfold, pow2};
use vstd::prelude::*;

verus! {

/// How far apart two whole numbers are.
pub open spec fn distance(a: int, b: int) -> int {
    if a <= b {
        b - a
    } else {
        a - b
    }
}

/// What a bit pattern means: the highest bit is the sign; the rest, without it, is the magnitude.
/// Its lower fifty-two bits are a fraction, the eleven above them an exponent. A magnitude with an
/// exponent of zero stands for as many units as its fraction says; any other finite one for its
/// fraction, with a leading bit, times a power of two. The magnitudes from that of infinity on
/// stand for infinity and, above it, for what is not a number.
pub proof fn law_meaning_of_bits(number: Binary64, exponent: int, fraction: int)
    requires
        0 <= fraction < 0x10_0000_0000_0000,
        0 <= exponent < 0x800,
        number.bits == exponent * 0x10_0000_0000_0000 + fraction || number.bits
            == 0x8000_0000_0000_0000 + exponent * 0x10_0000_0000_0000 + fraction,
    ensures
        number.magnitude() == exponent * 0x10_0000_0000_0000 + fraction,
        number.negative() <==> number.bits >= 0x8000_0000_0000_0000,
        number.finite() <==> exponent < 0x7ff,
        number.infinite() <==> exponent == 0x7ff && fraction == 0,
        number.not_a_number() <==> exponent == 0x7ff && fraction > 0,
        exponent == 0 ==> number.value() == if number.bits >= 0x8000_0000_0000_0000 {
            -fraction
        } else {
            fraction
        },
        0 < exponent < 0x7ff ==> number.value() == if number.bits >= 0x8000_0000_0000_0000 {
            -((0x10_0000_0000_0000 + fraction) * pow2((exponent - 1) as nat))
        } else {
            (0x10_0000_0000_0000 + fraction) * pow2((exponent - 1) as nat)
        },
{
    let m = exponent * 0x10_0000_0000_0000 + fraction;
    assert(m < 0x8000_0000_0000_0000 && m / 0x10_0000_0000_0000 == exponent && m
        % 0x10_0000_0000_0000 == fraction) by (nonlinear_arith)
        requires
            m == exponent * 0x10_0000_0000_0000 + fraction,
            0 <= fraction < 0x10_0000_0000_0000,
            0 <= exponent < 0x800,
    ;
    lemma_pow2_pos((exponent - 1) as nat);
    if exponent > 0 {
        let p = pow2((exponent - 1) as nat) as int;
        assert((0x10_0000_0000_0000 + fraction) * p >= 0) by (nonlinear_arith)
            requires
                p > 0,
                fraction >= 0,
        ;
    }
}

/// What a magnitude stands for: its fraction, with a leading bit unless its exponent is zero, times
/// a power of two. The magnitude of infinity stands for the power of two after the largest finite
/// number.
pub proof fn law_meaning_of_magnitudes(exponent: int, fraction: int)
    requires
        0 <= fraction < 0x10_0000_0000_0000,
        0 <= exponent,
    ensures
        exponent == 0 ==> grid(exponent * 0x10_0000_0000_0000 + fraction) == fraction,
        exponent > 0 ==> grid(exponent * 0x10_0000_0000_0000 + fraction) == (0x10_0000_0000_0000
            + fraction) * pow2((exponent - 1) as nat),
{
    let m = exponent * 0x10_0000_0000_0000 + fraction;
    assert(m / 0x10_0000_0000_0000 == exponent && m % 0x10_0000_0000_0000 == fraction)
        by (nonlinear_arith)
        requires
            m == exponent * 0x10_0000_0000_0000 + fraction,
            0 <= fraction < 0x10_0000_0000_0000,
            0 <= exponent,
    ;
    if exponent > 0 {
        let p = pow2((exponent - 1) as nat) as int;
        assert((0x10_0000_0000_0000 + fraction) * p >= 0) by (nonlinear_arith)
            requires
                p >= 0,
                fraction >= 0,
        ;
    }
}

/// Twice the middle between the largest finite number and the power of two after it.
proof fn lemma_edge_of_the_finite()
    ensures
        grid(0x7fef_ffff_ffff_ffff) + grid(0x7ff0_0000_0000_0000) == 0x3f_ffff_ffff_ffff * pow2(
            2045,
        ),
{
    law_meaning_of_magnitudes(0x7fe, 0xf_ffff_ffff_ffff);
    law_meaning_of_magnitudes(0x7ff, 0);
    lemma_pow2_unfold(2046);
}

/// No magnitude is closer to a number than the nearest one, and of two that are equally close the
/// even one is the nearest.
pub proof fn law_nearest_is_closest(number: nat, shift: nat, other: int)
    requires
        0 <= other < 0x7ff0_0000_0000_0000,
    ensures
        ({
            let found = nearest(number, shift);
            let scale = pow2(shift) as int;
            let here = distance(number as int, grid(found) * scale);
            let there = distance(number as int, grid(other) * scale);
            &&& 0 <= found <= 0x7ff0_0000_0000_0000
            &&& found < 0x7ff0_0000_0000_0000 ==> here <= there
            &&& found < 0x7ff0_0000_0000_0000 && here == there && found != other ==> found % 2
                == 0
            &&& found == 0x7ff0_0000_0000_0000 <==> 2 * number >= (0x3f_ffff_ffff_ffff * pow2(2045))
                * scale
        }),
{
    let found = nearest(number, shift);
    let s = pow2(shift) as int;
    let n = number as int;
    lemma_nearest_exists(number, shift);
    lemma_pow2_pos(shift);
    let h = grid(found) as int;
    let o = grid(other) as int;
    if other > found {
        let next = grid(found + 1) as int;
        lemma_grid_increases(found, found + 1);
        if other > found + 1 {
            lemma_grid_increases(found + 1, other);
        }
        assert((h + next) * s <= (h + o) * s && h * s < o * s && (o > next ==> (h + next) * s < (h
            + o) * s) && (h + o) * s == h * s + o * s) by (nonlinear_arith)
            requires
                next <= o,
                h < o,
                s > 0,
        ;
    }
    if other < found {
        let below = grid(found - 1) as int;
        lemma_grid_increases(found - 1, found);
        if other < found - 1 {
            lemma_grid_increases(other, found - 1);
        }
        assert((below + h) * s >= (o + h) * s && o * s < h * s && (o < below ==> (below + h) * s > (
        o + h) * s) && (o + h) * s == o * s + h * s) by (nonlinear_arith)
            requires
                o <= below,
                o < h,
                s > 0,
        ;
    }
    let last = grid(0x7fef_ffff_ffff_ffff) as int;
    let beyond = grid(0x7ff0_0000_0000_0000) as int;
    lemma_edge_of_the_finite();
    if found < 0x7ff0_0000_0000_0000 {
        let next = grid(found + 1) as int;
        if found < 0x7fef_ffff_ffff_ffff {
            lemma_grid_increases(found, 0x7fef_ffff_ffff_ffff);
            lemma_grid_increases(found + 1, 0x7ff0_0000_0000_0000);
            assert((h + next) * s < (last + beyond) * s) by (nonlinear_arith)
                requires
                    h < last,
                    next < beyond,
                    s > 0,
            ;
        }
    }
}

/// What is not a number spoils every sum; opposite infinities have no sum; otherwise infinity
/// prevails.
pub proof fn law_sum_beyond_the_finite(a: Binary64, b: Binary64)
    ensures
        a.not_a_number() || b.not_a_number() ==> a.sum_of(b).bits == 0x7ff8_0000_0000_0000,
        a.infinite() && b.infinite() && a.bits != b.bits ==> a.sum_of(b).bits
            == 0x7ff8_0000_0000_0000,
        a.infinite() && b.infinite() && a.bits == b.bits ==> a.sum_of(b) == a,
        a.infinite() && b.finite() ==> a.sum_of(b) == a,
        a.finite() && b.infinite() ==> a.sum_of(b) == b,
{
}

/// The sum of two finite numbers is the closest that there is: no finite number `other` is closer
/// to the exact sum, and of two that are equally close it is the even one. It is infinite exactly
/// from half a step beyond the largest finite number on. It has the sign of the exact sum; an
/// exact sum of zero is negative only for two negative zeros.
pub proof fn law_sum_is_closest(a: Binary64, b: Binary64, other: Binary64)
    requires
        a.finite(),
        b.finite(),
        other.finite(),
    ensures
        ({
            let exact = a.value() + b.value();
            let sum = a.sum_of(b);
            let here = distance(exact, sum.value());
            let there = distance(exact, other.value());
            &&& !sum.not_a_number()
            &&& sum.finite() ==> here <= there
            &&& sum.finite() && here == there && sum.value() != other.value() ==> sum.magnitude()
                % 2 == 0
            &&& sum.infinite() <==> 2 * distance(exact, 0) >= 0x3f_ffff_ffff_ffff * pow2(2045)
            &&& exact > 0 ==> !sum.negative()
            &&& exact < 0 ==> sum.negative()
            &&& exact == 0 ==> sum.bits == if a.bits >= 0x8000_0000_0000_0000 && b.bits
                >= 0x8000_0000_0000_0000 {
                0x8000_0000_0000_0000u64
            } else {
                0
            }
        }),
{
    lemma2_to64();
    let exact = a.value() + b.value();
    let size = distance(exact, 0) as nat;
    law_nearest_is_closest(size, 0, other.magnitude());
    law_nearest_is_closest(size, 0, 0);
    let found = nearest(size, 0);
    lemma_pow2_pos(2045);
    let one = pow2(0) as int;
    assert(forall|x: int| #[trigger] (x * one) == x) by (nonlinear_arith)
        requires
            one == 1,
    ;
    assert((0x3f_ffff_ffff_ffff * pow2(2045)) * one == 0x3f_ffff_ffff_ffff * pow2(2045));
    lemma_same_grid(found, other.magnitude());
    lemma_same_grid(found, 0);
}

/// Different magnitudes stand for different numbers.
proof fn lemma_same_grid(a: int, b: int)
    requires
        0 <= a,
        0 <= b,
    ensures
        grid(a) == grid(b) ==> a == b,
{
    if a < b {
        lemma_grid_increases(a, b);
    }
    if b < a {
        lemma_grid_increases(b, a);
    }
}

/// What is not a number spoils every product; zero times infinity has none; otherwise infinity
/// prevails, with the sign that the product of the signs has.
pub proof fn law_product_beyond_the_finite(a: Binary64, b: Binary64)
    ensures
        a.not_a_number() || b.not_a_number() ==> a.product_of(b).bits == 0x7ff8_0000_0000_0000,
        a.infinite() && b.magnitude() == 0 ==> a.product_of(b).bits == 0x7ff8_0000_0000_0000,
        a.magnitude() == 0 && b.infinite() ==> a.product_of(b).bits == 0x7ff8_0000_0000_0000,
        !a.not_a_number() && !b.not_a_number() && (a.infinite() || b.infinite()) && a.magnitude()
            != 0 && b.magnitude() != 0 ==> a.product_of(b).bits == if a.negative()
            == b.negative() {
            0x7ff0_0000_0000_0000u64
        } else {
            0xfff0_0000_0000_0000u64
        },
{
}

/// The product of two finite numbers is the closest that there is: no finite number `other` is
/// closer to the exact product, and of two that are equally close it is the even one. It is
/// infinite exactly from half a step beyond the largest finite number on. It is negative exactly
/// if one of the two is.
///
/// The product of two numbers of units counts squares of units, of which one unit holds two to the
/// power of 1074.
pub proof fn law_product_is_closest(a: Binary64, b: Binary64, other: Binary64)
    requires
        a.finite(),
        b.finite(),
        other.finite(),
    ensures
        ({
            let exact = a.value() * b.value();
            let unit = pow2(1074) as int;
            let product = a.product_of(b);
            let here = distance(exact, product.value() * unit);
            let there = distance(exact, other.value() * unit);
            &&& !product.not_a_number()
            &&& product.negative() <==> a.negative() != b.negative()
            &&& product.finite() ==> here <= there
            &&& product.finite() && here == there && product.value() != other.value()
                ==> product.magnitude() % 2 == 0
            &&& product.infinite() <==> 2 * distance(exact, 0) >= (0x3f_ffff_ffff_ffff * pow2(
                2045,
            )) * unit
        }),
{
    let exact = a.value() * b.value();
    let unit = pow2(1074) as int;
    let product = a.product_of(b);
    let x = grid(a.magnitude()) as int;
    let y = grid(b.magnitude()) as int;
    let size = (x * y) as nat;
    let negative = a.negative() != b.negative();
    lemma_pow2_pos(1074);
    assert(x * y >= 0 && (-x) * y == -(x * y) && x * (-y) == -(x * y) && (-x) * (-y) == x * y)
        by (nonlinear_arith)
        requires
            x >= 0,
            y >= 0,
    ;
    law_nearest_is_closest(size, 1074, other.magnitude());
    law_nearest_is_closest(size, 1074, 0);
    let found = nearest(size, 1074);
    lemma_same_grid(found, other.magnitude());
    lemma_same_grid(found, 0);
    let p = grid(found) as int;
    let o = grid(other.magnitude()) as int;
    assert((-p) * unit == -(p * unit) && (-o) * unit == -(o * unit) && p * unit >= 0 && o * unit
        >= 0) by (nonlinear_arith)
        requires
            unit > 0,
            p >= 0,
            o >= 0,
    ;
    assert(0 * unit == 0);
    assert(o > 0 ==> o * unit > 0) by (nonlinear_arith)
        requires
            unit > 0,
    ;
    assert(product.magnitude() == found);
    assert(product.negative() == negative);
    assert(exact == if negative {
        -(x * y)
    } else {
        x * y
    });
    assert(distance(exact, 0) == size);
}

/// A number is in the unit range exactly if its pattern is not above that of one.
pub proof fn law_unit_range_by_bits(number: Binary64)
    ensures
        number.in_unit_range() <==> number.bits <= 0x3ff0_0000_0000_0000,
{
    lemma_one();
    if number.magnitude() < 0x3ff0_0000_0000_0000 {
        lemma_grid_increases(number.magnitude(), 0x3ff0_0000_0000_0000);
    }
    if number.magnitude() > 0x3ff0_0000_0000_0000 {
        lemma_grid_increases(0x3ff0_0000_0000_0000, number.magnitude());
    }
}

/// Clamping keeps every number from zero to one, lowers what is above one to one, and turns what is
/// negative or not a number into zero.
pub proof fn law_clamped_by_bits(number: Binary64)
    ensures
        number.clamped().bits == if number.bits <= 0x3ff0_0000_0000_0000 {
            number.bits
        } else if number.bits <= 0x7ff0_0000_0000_0000 {
            0x3ff0_0000_0000_0000u64
        } else {
            0
        },
{
    law_unit_range_by_bits(number);
}

} // verus!
