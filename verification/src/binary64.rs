//! Sixty-four bit binary floating-point numbers, computed on their bit patterns.
//!
//! A [`Binary64`] is the pattern of an IEEE 754 double. Addition and multiplication round to the
//! nearest number and to the even one of two that are equally near, as the arithmetic of `double`
//! does on every machine. The one liberty that the standard leaves open is which pattern stands
//! for a result that is not a number; here it is always [`NOT_A_NUMBER`].

use crate::rounding::{
    grid, is_nearest, lemma_grid_increases, lemma_grid_of_scaled, lemma_nearest_is, nearest,
    round_to_nearest, FRACTION_RANGE, INFINITY, UNIT_SHIFT,
};
use vstd::arithmetic::power2::{
    lemma2_to64, lemma_pow2_adds, lemma_pow2_pos, lemma_pow2_strictly_increases, lemma_pow2_unfold,
    pow2,
};
use vstd::prelude::*;

verus! {

/// The weight of the sign bit.
pub const SIGN: u64 = 0x8000_0000_0000_0000;

/// The pattern of every result that is not a number.
pub const NOT_A_NUMBER: u64 = 0x7ff8_0000_0000_0000;

/// The pattern of one.
pub const ONE: u64 = 0x3ff0_0000_0000_0000;

/// A floating-point number, held as its bit pattern.
#[derive(Debug, Clone, Copy, PartialEq, Eq, Structural)]
pub struct Binary64 {
    pub bits: u64,
}

impl Binary64 {
    /// The sign bit is set.
    pub open spec fn negative(self) -> bool {
        self.bits >= SIGN
    }

    /// The pattern without the sign bit.
    pub open spec fn magnitude(self) -> int {
        if self.bits >= SIGN {
            self.bits - SIGN
        } else {
            self.bits as int
        }
    }

    pub open spec fn not_a_number(self) -> bool {
        self.magnitude() > INFINITY
    }

    pub open spec fn infinite(self) -> bool {
        self.magnitude() == INFINITY
    }

    pub open spec fn finite(self) -> bool {
        self.magnitude() < INFINITY
    }

    /// The value of a finite number, in units of the smallest positive number.
    pub open spec fn value(self) -> int {
        if self.negative() {
            -(grid(self.magnitude()) as int)
        } else {
            grid(self.magnitude()) as int
        }
    }

    /// The number with the given sign and magnitude.
    pub open spec fn of(negative: bool, magnitude: int) -> Binary64 {
        Binary64 {
            bits: (magnitude + if negative {
                SIGN as int
            } else {
                0
            }) as u64,
        }
    }

    /// The sum of two numbers, rounded once.
    pub open spec fn sum_of(self, other: Binary64) -> Binary64 {
        if self.not_a_number() || other.not_a_number() {
            Binary64 { bits: NOT_A_NUMBER }
        } else if self.infinite() && other.infinite() {
            if self.negative() == other.negative() {
                self
            } else {
                Binary64 { bits: NOT_A_NUMBER }
            }
        } else if self.infinite() {
            self
        } else if other.infinite() {
            other
        } else {
            let exact = self.value() + other.value();
            if exact > 0 {
                Binary64::of(false, nearest(exact as nat, 0))
            } else if exact < 0 {
                Binary64::of(true, nearest((-exact) as nat, 0))
            } else {
                Binary64::of(self.negative() && other.negative(), 0)
            }
        }
    }

    /// The product of two numbers, rounded once.
    pub open spec fn product_of(self, other: Binary64) -> Binary64 {
        let negative = self.negative() != other.negative();
        if self.not_a_number() || other.not_a_number() {
            Binary64 { bits: NOT_A_NUMBER }
        } else if self.infinite() || other.infinite() {
            if self.magnitude() == 0 || other.magnitude() == 0 {
                Binary64 { bits: NOT_A_NUMBER }
            } else {
                Binary64::of(negative, INFINITY as int)
            }
        } else {
            let exact = grid(self.magnitude()) * grid(other.magnitude());
            Binary64::of(negative, nearest(exact, UNIT_SHIFT as nat))
        }
    }

    /// A number from zero to one, both included; no negative zero.
    pub open spec fn in_unit_range(self) -> bool {
        &&& self.finite()
        &&& !self.negative()
        &&& self.value() <= pow2(UNIT_SHIFT as nat)
    }

    /// The number of the unit range that is closest to this one; zero for what is not a number.
    pub open spec fn clamped(self) -> Binary64 {
        if self.not_a_number() || self.negative() {
            Binary64 { bits: 0 }
        } else if self.infinite() || self.value() > pow2(UNIT_SHIFT as nat) {
            Binary64 { bits: ONE }
        } else {
            self
        }
    }
}

/// The pattern of one names the magnitude of as many units as there are in one.
pub proof fn lemma_one()
    ensures
        grid(ONE as int) == pow2(UNIT_SHIFT as nat),
{
    lemma2_to64();
    lemma_grid_of_scaled(FRACTION_RANGE as int, 1022);
    lemma_pow2_adds(32, 20);
    lemma_pow2_adds(52, 1022);
}

/// Zero is in the unit range.
pub proof fn lemma_zero()
    ensures
        (Binary64 { bits: 0 }).in_unit_range(),
{
    lemma_pow2_pos(UNIT_SHIFT as nat);
}

impl Binary64 {
    /// A clamped number is in the unit range.
    pub proof fn lemma_clamped(self)
        ensures
            self.clamped().in_unit_range(),
    {
        lemma_one();
        lemma_zero();
    }

    pub fn from_bits(bits: u64) -> (number: Binary64)
        ensures
            number.bits == bits,
    {
        Binary64 { bits }
    }

    pub fn to_bits(self) -> (bits: u64)
        ensures
            bits == self.bits,
    {
        self.bits
    }

    fn split(self) -> (parts: (bool, u64))
        ensures
            parts.0 == self.negative(),
            parts.1 == self.magnitude(),
    {
        if self.bits >= SIGN {
            (true, self.bits - SIGN)
        } else {
            (false, self.bits)
        }
    }

    fn join(negative: bool, magnitude: u64) -> (number: Binary64)
        requires
            magnitude <= INFINITY,
        ensures
            number == Binary64::of(negative, magnitude as int),
    {
        if negative {
            Binary64 { bits: magnitude + SIGN }
        } else {
            Binary64 { bits: magnitude }
        }
    }

    /// Brings a number into the range from zero to one.
    pub fn clamp_to_unit(self) -> (number: Binary64)
        ensures
            number == self.clamped(),
            number.in_unit_range(),
    {
        let (negative, magnitude) = self.split();
        proof {
            lemma_one();
            lemma2_to64();
            if magnitude < ONE {
                lemma_grid_increases(magnitude as int, ONE as int);
            }
            if ONE < magnitude {
                lemma_grid_increases(ONE as int, magnitude as int);
            }
            lemma_pow2_pos(UNIT_SHIFT as nat);
        }
        if negative || magnitude > INFINITY {
            Binary64 { bits: 0 }
        } else if magnitude > ONE {
            Binary64 { bits: ONE }
        } else {
            self
        }
    }

    /// Multiplies two numbers.
    pub fn times(self, other: Binary64) -> (product: Binary64)
        ensures
            product == self.product_of(other),
    {
        let (left_negative, left) = self.split();
        let (right_negative, right) = other.split();
        let negative = left_negative != right_negative;
        if left > INFINITY || right > INFINITY {
            return Binary64 { bits: NOT_A_NUMBER };
        }
        if left == INFINITY || right == INFINITY {
            if left == 0 || right == 0 {
                return Binary64 { bits: NOT_A_NUMBER };
            }
            return Binary64::join(negative, INFINITY);
        }
        let (left_significand, left_exponent) = scaled_parts(left);
        let (right_significand, right_exponent) = scaled_parts(right);
        proof {
            let a = left_significand as int;
            let b = right_significand as int;
            let p = pow2(left_exponent as nat) as int;
            let q = pow2(right_exponent as nat) as int;
            assert(0 <= a * b < 4 * FRACTION_RANGE * FRACTION_RANGE) by (nonlinear_arith)
                requires
                    0 <= a < 2 * FRACTION_RANGE,
                    0 <= b < 2 * FRACTION_RANGE,
            ;
            lemma_pow2_adds(left_exponent as nat, right_exponent as nat);
            assert((a * p) * (b * q) == (a * b) * (p * q)) by (nonlinear_arith);
        }
        let significand: u128 = (left_significand as u128) * (right_significand as u128);
        let pattern = round_to_nearest(significand, left_exponent + right_exponent, UNIT_SHIFT);
        Binary64::join(negative, pattern)
    }
}

impl Binary64 {
    /// Adds two numbers.
    pub fn plus(self, other: Binary64) -> (sum: Binary64)
        ensures
            sum == self.sum_of(other),
    {
        let (left_negative, left) = self.split();
        let (right_negative, right) = other.split();
        if left > INFINITY || right > INFINITY {
            return Binary64 { bits: NOT_A_NUMBER };
        }
        if left == INFINITY {
            if right == INFINITY && left_negative != right_negative {
                return Binary64 { bits: NOT_A_NUMBER };
            }
            return self;
        }
        if right == INFINITY {
            return other;
        }
        let (_, left_exponent) = scaled_parts(left);
        let (_, right_exponent) = scaled_parts(right);
        if left_exponent >= right_exponent {
            add_aligned(self, other)
        } else {
            add_aligned(other, self)
        }
    }
}

/// The exponent of two in the distance from a magnitude to the next one.
spec fn exponent_of(pattern: int) -> int {
    if pattern < FRACTION_RANGE {
        0
    } else {
        pattern / FRACTION_RANGE as int - 1
    }
}

/// Adds two finite numbers, of which the first has the larger exponent.
fn add_aligned(high: Binary64, low: Binary64) -> (sum: Binary64)
    requires
        high.finite(),
        low.finite(),
        exponent_of(low.magnitude()) <= exponent_of(high.magnitude()),
    ensures
        sum == high.sum_of(low),
        sum == low.sum_of(high),
{
    let (high_negative, high_magnitude) = high.split();
    let (low_negative, low_magnitude) = low.split();
    let (high_significand, high_exponent) = scaled_parts(high_magnitude);
    let (low_significand, low_exponent) = scaled_parts(low_magnitude);
    let distance: u32 = high_exponent - low_exponent;
    if distance > 64 {
        proof {
            lemma_far_apart(
                high,
                low,
                high_significand as int,
                high_exponent as nat,
                low_significand as int,
                low_exponent as nat,
            );
        }
        return high;
    }
    let raised: u128 = raise(high_significand, distance);
    let ghost unit = pow2(low_exponent as nat) as int;
    proof {
        lemma2_to64();
        lemma_pow2_adds(distance as nat, low_exponent as nat);
        lemma_pow2_pos(low_exponent as nat);
        let power = pow2(distance as nat) as int;
        assert(high_significand * (power * unit) == (high_significand * power) * unit)
            by (nonlinear_arith);
        assert((raised + low_significand) * unit == raised * unit + low_significand * unit)
            by (nonlinear_arith);
        assert((raised - low_significand) * unit == raised * unit - low_significand * unit)
            by (nonlinear_arith);
        assert((low_significand - raised) * unit == low_significand * unit - raised * unit)
            by (nonlinear_arith);
        assert(raised > low_significand ==> (raised - low_significand) * unit > 0)
            by (nonlinear_arith)
            requires
                unit > 0,
        ;
        assert(raised < low_significand ==> (low_significand - raised) * unit > 0)
            by (nonlinear_arith)
            requires
                unit > 0,
        ;
        assert(raised + low_significand > 0 ==> (raised + low_significand) * unit > 0)
            by (nonlinear_arith)
            requires
                unit > 0,
        ;
        assert(0 * unit == 0);
    }
    let mut negative: bool = high_negative;
    let mut significand: u128 = 0;
    if high_negative == low_negative {
        significand = raised + low_significand as u128;
    } else if raised > low_significand as u128 {
        significand = raised - low_significand as u128;
    } else {
        significand = low_significand as u128 - raised;
        negative = low_negative;
    }
    if significand == 0 {
        return Binary64::join(high_negative && low_negative, 0);
    }
    let pattern = round_to_nearest(significand, low_exponent, 0);
    Binary64::join(negative, pattern)
}

/// A significand times a power of two.
fn raise(significand: u64, by: u32) -> (raised: u128)
    requires
        significand < 2 * FRACTION_RANGE,
        by <= 64,
    ensures
        raised == significand * pow2(by as nat),
        raised < 0x40_0000_0000_0000 * pow2(64),
{
    let mut raised: u128 = significand as u128;
    let mut done: u32 = 0;
    proof {
        lemma2_to64();
    }
    while done < by
        invariant
            done <= by <= 64,
            significand < 2 * FRACTION_RANGE,
            raised == significand * pow2(done as nat),
        decreases by - done,
    {
        proof {
            lemma2_to64();
            lemma_pow2_unfold((done + 1) as nat);
            lemma_pow2_strictly_increases(done as nat, 64);
            let low = pow2(done as nat) as int;
            assert(significand * low < 2 * FRACTION_RANGE * 0x10000000000000000) by (nonlinear_arith)
                requires
                    0 <= significand < 2 * FRACTION_RANGE,
                    0 <= low < 0x10000000000000000,
            ;
            assert(significand * (2 * low) == 2 * (significand * low)) by (nonlinear_arith);
        }
        raised = 2 * raised;
        done = done + 1;
    }
    proof {
        lemma2_to64();
        if by < 64 {
            lemma_pow2_strictly_increases(by as nat, 64);
        }
        lemma_pow2_pos(by as nat);
        let high = pow2(by as nat) as int;
        assert(significand * high < 2 * FRACTION_RANGE * 0x10000000000000000) by (nonlinear_arith)
            requires
                0 <= significand < 2 * FRACTION_RANGE,
                0 < high <= 0x10000000000000000,
        ;
    }
    raised
}

/// The significand and the exponent of a finite magnitude.
fn scaled_parts(pattern: u64) -> (parts: (u64, u32))
    requires
        pattern < INFINITY,
    ensures
        grid(pattern as int) == parts.0 * pow2(parts.1 as nat),
        parts.0 < 2 * FRACTION_RANGE,
        parts.1 <= 2045,
        parts.1 > 0 ==> parts.0 >= FRACTION_RANGE,
        parts.1 == exponent_of(pattern as int),
        pattern == parts.1 * FRACTION_RANGE + parts.0,
{
    let exponent: u64 = pattern / FRACTION_RANGE;
    let fraction: u64 = pattern % FRACTION_RANGE;
    if exponent == 0 {
        proof {
            lemma_grid_of_scaled(fraction as int, 0);
        }
        (fraction, 0)
    } else {
        proof {
            lemma_grid_of_scaled(FRACTION_RANGE + fraction, (exponent - 1) as nat);
        }
        (FRACTION_RANGE + fraction, (exponent - 1) as u32)
    }
}

/// A number whose exponent is far below that of another is lost in the sum.
proof fn lemma_far_apart(
    high: Binary64,
    low: Binary64,
    high_significand: int,
    high_exponent: nat,
    low_significand: int,
    low_exponent: nat,
)
    requires
        high.finite(),
        low.finite(),
        grid(high.magnitude()) == high_significand * pow2(high_exponent),
        grid(low.magnitude()) == low_significand * pow2(low_exponent),
        high.magnitude() == high_exponent * FRACTION_RANGE + high_significand,
        FRACTION_RANGE <= high_significand < 2 * FRACTION_RANGE,
        0 <= low_significand < 2 * FRACTION_RANGE,
        high_exponent > low_exponent + 64,
        high_exponent <= 2045,
    ensures
        high.sum_of(low) == high,
        low.sum_of(high) == high,
{
    let pattern = high.magnitude();
    let here = grid(pattern) as int;
    let little = grid(low.magnitude()) as int;
    let step = pow2(high_exponent) as int;
    let half_step = pow2((high_exponent - 1) as nat) as int;
    let least = pow2(low_exponent) as int;
    lemma2_to64();
    lemma_pow2_pos(low_exponent);
    lemma_pow2_unfold(high_exponent);
    // The lost number is less than a quarter of the smaller gap beside the other.
    lemma_pow2_adds(64, low_exponent);
    if high_exponent - 1 > 64 + low_exponent {
        lemma_pow2_strictly_increases(64 + low_exponent, (high_exponent - 1) as nat);
    }
    assert(4 * little < half_step) by (nonlinear_arith)
        requires
            little == low_significand * least,
            low_significand < 2 * FRACTION_RANGE,
            least > 0,
            half_step >= 0x10000000000000000 * least,
    ;
    // The gap above.
    lemma_grid_of_scaled(high_significand + 1, high_exponent);
    assert((high_significand + 1) * step == high_significand * step + step) by (nonlinear_arith);
    // The gap below.
    if high_significand > FRACTION_RANGE {
        lemma_grid_of_scaled(high_significand - 1, high_exponent);
        assert((high_significand - 1) * step == high_significand * step - step)
            by (nonlinear_arith);
    } else {
        lemma_grid_of_scaled(2 * FRACTION_RANGE - 1, (high_exponent - 1) as nat);
        assert((2 * FRACTION_RANGE - 1) * half_step == high_significand * step - half_step)
            by (nonlinear_arith)
            requires
                step == 2 * half_step,
                high_significand == FRACTION_RANGE,
        ;
        assert((high_exponent - 1) * FRACTION_RANGE + (2 * FRACTION_RANGE - 1) == pattern - 1)
            by (nonlinear_arith)
            requires
                pattern == high_exponent * FRACTION_RANGE + high_significand,
                high_significand == FRACTION_RANGE,
        ;
    }
    assert(here >= step) by (nonlinear_arith)
        requires
            here == high_significand * step,
            high_significand >= 1,
            step >= 0,
    ;
    assert(is_nearest((here + little) as nat, 0, pattern));
    assert(is_nearest((here - little) as nat, 0, pattern));
    lemma_nearest_is((here + little) as nat, 0, pattern);
    lemma_nearest_is((here - little) as nat, 0, pattern);
}

} // verus!
