//! The grid of binary floating-point magnitudes and rounding onto it.
//!
//! A magnitude is named by its bit pattern without the sign: eleven bits of exponent above
//! fifty-two bits of fraction. Values are counted in units of the smallest positive number
//! (two to the power of -1074), so that every magnitude is a whole number of units.

use vstd::arithmetic::power2::{
    lemma2_to64, lemma_pow2_adds, lemma_pow2_pos, lemma_pow2_strictly_increases, lemma_pow2_unfold,
    pow2,
};
use vstd::prelude::*;

verus! {

/// Two to the power of 52: the weight of the implicit leading bit of a normal number, and the
/// distance between the patterns of a number and of its double.
pub const FRACTION_RANGE: u64 = 0x10_0000_0000_0000;

/// The pattern of infinity, which also stands for the first magnitude beyond the finite ones.
pub const INFINITY: u64 = 0x7ff0_0000_0000_0000;

/// One is two to this power of units.
pub const UNIT_SHIFT: u32 = 1074;

/// The magnitude, in units, whose pattern is `pattern`.
///
/// For the pattern of infinity this is the power of two that follows the largest finite
/// magnitude.
pub open spec fn grid(pattern: int) -> nat {
    let exponent = pattern / FRACTION_RANGE as int;
    let fraction = pattern % FRACTION_RANGE as int;
    if exponent <= 0 {
        fraction as nat
    } else {
        ((FRACTION_RANGE + fraction) * pow2((exponent - 1) as nat)) as nat
    }
}

/// `pattern` is the magnitude nearest to `number / 2^shift` units, and the even one of the two
/// where two are equally near.
pub open spec fn is_nearest(number: nat, shift: nat, pattern: int) -> bool {
    &&& 0 <= pattern <= INFINITY
    &&& pattern < INFINITY ==> {
        let twice_midpoint = (grid(pattern) + grid(pattern + 1)) * pow2(shift);
        2 * number < twice_midpoint || (2 * number == twice_midpoint && pattern % 2 == 0)
    }
    &&& pattern > 0 ==> {
        let twice_midpoint = (grid(pattern - 1) + grid(pattern)) * pow2(shift);
        2 * number > twice_midpoint || (2 * number == twice_midpoint && pattern % 2 == 0)
    }
}

/// The magnitude nearest to `number / 2^shift` units.
pub open spec fn nearest(number: nat, shift: nat) -> int {
    choose|pattern: int| is_nearest(number, shift, pattern)
}

/// Neighbouring patterns name growing magnitudes.
pub proof fn lemma_grid_step(pattern: int)
    requires
        0 <= pattern,
    ensures
        grid(pattern) < grid(pattern + 1),
{
    let range = FRACTION_RANGE as int;
    let e = pattern / range;
    let f = pattern % range;
    if f + 1 < range {
        assert((pattern + 1) / range == e && (pattern + 1) % range == f + 1) by (nonlinear_arith)
            requires
                range == 0x10_0000_0000_0000,
                e == pattern / range,
                f == pattern % range,
                f + 1 < range,
                0 <= pattern,
        ;
        if e > 0 {
            let p = pow2((e - 1) as nat);
            lemma_pow2_pos((e - 1) as nat);
            assert((range + f) * p < (range + (f + 1)) * p) by (nonlinear_arith)
                requires
                    p > 0,
            ;
        }
    } else {
        assert((pattern + 1) / range == e + 1 && (pattern + 1) % range == 0) by (nonlinear_arith)
            requires
                range == 0x10_0000_0000_0000,
                e == pattern / range,
                f == pattern % range,
                f + 1 == range,
                0 <= pattern,
        ;
        let p = pow2(e as nat);
        lemma_pow2_pos(e as nat);
        assert((range + 0) * p >= range) by (nonlinear_arith)
            requires
                p > 0,
                range > 0,
        ;
        if e > 0 {
            let h = pow2((e - 1) as nat);
            lemma_pow2_pos((e - 1) as nat);
            lemma_pow2_unfold(e as nat);
            assert((range + f) * h < (range + 0) * p) by (nonlinear_arith)
                requires
                    p == 2 * h,
                    h > 0,
                    f < range,
            ;
        }
    }
}

/// Patterns are ordered as the magnitudes that they name.
pub proof fn lemma_grid_increases(low: int, high: int)
    requires
        0 <= low < high,
    ensures
        grid(low) < grid(high),
    decreases high - low,
{
    lemma_grid_step(high - 1);
    if low < high - 1 {
        lemma_grid_increases(low, high - 1);
    }
}

/// A significand of at most fifty-three bits, scaled by a power of two, is on the grid.
pub proof fn lemma_grid_of_scaled(significand: int, exponent: nat)
    requires
        0 <= significand <= 2 * FRACTION_RANGE,
        exponent == 0 || significand >= FRACTION_RANGE,
    ensures
        grid(exponent * FRACTION_RANGE + significand) == significand * pow2(exponent),
{
    let range = FRACTION_RANGE as int;
    let pattern = exponent * FRACTION_RANGE + significand;
    lemma2_to64();
    if significand < range {
        assert(pattern / range == 0 && pattern % range == significand) by (nonlinear_arith)
            requires
                range == 0x10_0000_0000_0000,
                pattern == significand,
                0 <= significand < range,
        ;
    } else if significand < 2 * range {
        assert(pattern / range == exponent + 1 && pattern % range == significand - range)
            by (nonlinear_arith)
            requires
                range == 0x10_0000_0000_0000,
                pattern == exponent * range + significand,
                range <= significand < 2 * range,
        ;
    } else {
        assert(pattern / range == exponent + 2 && pattern % range == 0) by (nonlinear_arith)
            requires
                range == 0x10_0000_0000_0000,
                pattern == exponent * range + significand,
                significand == 2 * range,
        ;
        lemma_pow2_unfold(exponent + 1);
        let p = pow2(exponent);
        assert((range + 0) * (2 * p) == significand * p) by (nonlinear_arith)
            requires
                significand == 2 * range,
        ;
    }
}

/// No two magnitudes are nearest to the same number.
pub proof fn lemma_nearest_unique(number: nat, shift: nat, a: int, b: int)
    requires
        is_nearest(number, shift, a),
        is_nearest(number, shift, b),
    ensures
        a == b,
{
    lemma_nearest_ordered(number, shift, a, b);
    lemma_nearest_ordered(number, shift, b, a);
}

proof fn lemma_nearest_ordered(number: nat, shift: nat, a: int, b: int)
    requires
        is_nearest(number, shift, a),
        is_nearest(number, shift, b),
    ensures
        a >= b,
{
    let s = pow2(shift);
    lemma_pow2_pos(shift);
    if a < b {
        lemma_grid_step(a);
    }
    if a + 1 < b {
        lemma_grid_increases(a, b - 1);
        lemma_grid_increases(a + 1, b);
        assert((grid(a) + grid(a + 1)) * s < (grid(b - 1) + grid(b)) * s) by (nonlinear_arith)
            requires
                s > 0,
                grid(a) < grid(b - 1),
                grid(a + 1) < grid(b),
        ;
    }
}

/// A pattern that is nearest to a number is the nearest one.
pub proof fn lemma_nearest_is(number: nat, shift: nat, pattern: int)
    requires
        is_nearest(number, shift, pattern),
    ensures
        nearest(number, shift) == pattern,
{
    lemma_nearest_unique(number, shift, pattern, nearest(number, shift));
}

/// Scaling a number and its shift alike changes nothing.
pub proof fn lemma_nearest_scaled(number: nat, shift: nat, by: nat, pattern: int)
    requires
        is_nearest(number, shift, pattern),
    ensures
        is_nearest(number * pow2(by), shift + by, pattern),
{
    let s = pow2(shift);
    let t = pow2(by);
    lemma_pow2_adds(shift, by);
    lemma_pow2_pos(by);
    let n = number as int;
    assert(forall|m: int| 2 * n < m * s ==> 2 * (n * t) < #[trigger] (m * (s * t)))
        by (nonlinear_arith)
        requires
            t > 0,
    ;
    assert(forall|m: int| 2 * n > m * s ==> 2 * (n * t) > #[trigger] (m * (s * t)))
        by (nonlinear_arith)
        requires
            t > 0,
    ;
    assert(forall|m: int| 2 * n == m * s ==> 2 * (n * t) == #[trigger] (m * (s * t)))
        by (nonlinear_arith);
}

/// A magnitude is the one nearest to itself.
pub proof fn lemma_nearest_exact(pattern: int, shift: nat)
    requires
        0 <= pattern < INFINITY,
    ensures
        nearest((grid(pattern) * pow2(shift)) as nat, shift) == pattern,
{
    let s = pow2(shift);
    let g = grid(pattern) as int;
    lemma_pow2_pos(shift);
    lemma_grid_step(pattern);
    let above = grid(pattern + 1) as int;
    assert(2 * (g * s) < (g + above) * s) by (nonlinear_arith)
        requires
            s > 0,
            g < above,
    ;
    if pattern > 0 {
        lemma_grid_step(pattern - 1);
        let below = grid(pattern - 1) as int;
        assert(2 * (g * s) > (below + g) * s) by (nonlinear_arith)
            requires
                s > 0,
                below < g,
        ;
    }
    lemma_nearest_is((grid(pattern) * pow2(shift)) as nat, shift, pattern);
}

/// Every number below a magnitude has a nearest one.
proof fn lemma_nearest_exists_below(number: nat, shift: nat, top: int)
    requires
        0 < top <= INFINITY,
        number < grid(top) * pow2(shift),
    ensures
        exists|pattern: int| is_nearest(number, shift, pattern),
    decreases top,
{
    let s = pow2(shift) as int;
    let n = number as int;
    let b = top - 1;
    let here = grid(b) as int;
    let next = grid(top) as int;
    lemma_pow2_pos(shift);
    lemma_grid_step(b);
    if n < here * s {
        assert(b > 0) by (nonlinear_arith)
            requires
                0 <= n < here * s,
                b == 0 ==> here == 0,
                b >= 0,
        ;
        lemma_nearest_exists_below(number, shift, b);
    } else if 2 * n < (here + next) * s || (2 * n == (here + next) * s && b % 2 == 0) {
        if b > 0 {
            lemma_grid_step(b - 1);
            let below = grid(b - 1) as int;
            assert(2 * n > (below + here) * s) by (nonlinear_arith)
                requires
                    n >= here * s,
                    below < here,
                    s > 0,
            ;
        }
        assert(is_nearest(number, shift, b));
    } else {
        if top < INFINITY {
            lemma_grid_step(top);
            let above = grid(top + 1) as int;
            assert(2 * n < (next + above) * s) by (nonlinear_arith)
                requires
                    n < next * s,
                    next < above,
                    s > 0,
            ;
        }
        assert(is_nearest(number, shift, top));
    }
}

/// Every number has a nearest magnitude.
pub proof fn lemma_nearest_exists(number: nat, shift: nat)
    ensures
        is_nearest(number, shift, nearest(number, shift)),
{
    if number < grid(INFINITY as int) * pow2(shift) {
        lemma_nearest_exists_below(number, shift, INFINITY as int);
    } else {
        lemma_nearest_overflow(number, shift);
    }
}

/// Rounding keeps the order of numbers.
pub proof fn lemma_nearest_monotone(low: nat, high: nat, shift: nat)
    requires
        low <= high,
    ensures
        0 <= nearest(low, shift) <= nearest(high, shift) <= INFINITY,
{
    let a = nearest(low, shift);
    let b = nearest(high, shift);
    lemma_nearest_exists(low, shift);
    lemma_nearest_exists(high, shift);
    if b < a {
        let s = pow2(shift) as int;
        lemma_pow2_pos(shift);
        lemma_grid_step(b);
        let below = (grid(b) + grid(b + 1)) as int;
        let above = (grid(a - 1) + grid(a)) as int;
        if b + 1 < a {
            lemma_grid_increases(b, a - 1);
            lemma_grid_increases(b + 1, a);
            assert(below * s < above * s) by (nonlinear_arith)
                requires
                    s > 0,
                    below < above,
            ;
        }
    }
}

/// Rounding up or down from the cell that holds a number.
///
/// The number is `significand + remainder / scale` cells of `2^exponent` units.
proof fn lemma_nearest_in_cell(
    number: nat,
    shift: nat,
    significand: int,
    exponent: nat,
    remainder: int,
    scale: nat,
    factor: nat,
    up: bool,
)
    requires
        0 <= significand < 2 * FRACTION_RANGE,
        exponent == 0 || significand >= FRACTION_RANGE,
        exponent <= 2045,
        0 <= remainder < scale,
        factor > 0,
        pow2(exponent) * pow2(shift) == scale * factor,
        number == (significand * scale + remainder) * factor,
        up == (2 * remainder > scale || (2 * remainder == scale && significand % 2 == 1)),
    ensures
        is_nearest(
            number,
            shift,
            exponent * FRACTION_RANGE + significand + if up {
                1int
            } else {
                0
            },
        ),
{
    let base = exponent * FRACTION_RANGE + significand;
    let s = pow2(shift) as int;
    let q = significand;
    let r = remainder;
    let p = scale as int;
    let f = factor as int;
    let unit = pow2(exponent) as int;
    let n = number as int;
    lemma_pow2_pos(shift);
    lemma_pow2_pos(exponent);
    lemma_grid_of_scaled(significand, exponent);
    lemma_grid_of_scaled(significand + 1, exponent);
    assert(base + 1 <= INFINITY) by (nonlinear_arith)
        requires
            base == exponent * FRACTION_RANGE + significand,
            exponent <= 2045,
            significand < 2 * FRACTION_RANGE,
    ;
    assert(base % 2 == q % 2) by (nonlinear_arith)
        requires
            base == exponent * FRACTION_RANGE + q,
    ;
    // The number against the middle of its cell.
    assert((q * unit + (q + 1) * unit) * s == (2 * q + 1) * (p * f)) by (nonlinear_arith)
        requires
            unit * s == p * f,
    ;
    assert(2 * n - (2 * q + 1) * (p * f) == (2 * r - p) * f) by (nonlinear_arith)
        requires
            n == (q * p + r) * f,
    ;
    assert((2 * r > p ==> (2 * r - p) * f > 0) && (2 * r < p ==> (2 * r - p) * f < 0) && (2 * r
        == p ==> (2 * r - p) * f == 0)) by (nonlinear_arith)
        requires
            f > 0,
    ;
    // The number against the ends of its cell.
    assert((q * unit) * s == q * (p * f)) by (nonlinear_arith)
        requires
            unit * s == p * f,
    ;
    assert(((q + 1) * unit) * s == (q + 1) * (p * f)) by (nonlinear_arith)
        requires
            unit * s == p * f,
    ;
    assert(n >= q * (p * f) && n < (q + 1) * (p * f)) by (nonlinear_arith)
        requires
            n == (q * p + r) * f,
            0 <= r < p,
            f > 0,
    ;
    if up {
        if base + 1 < INFINITY {
            lemma_grid_step(base + 1);
            let here = grid(base + 1) as int;
            let above = grid(base + 2) as int;
            assert(2 * n < (here + above) * s) by (nonlinear_arith)
                requires
                    n < here * s,
                    here < above,
                    s > 0,
            ;
        }
    } else if base > 0 {
        lemma_grid_step(base - 1);
        let below = grid(base - 1) as int;
        let here = grid(base) as int;
        assert(2 * n > (below + here) * s) by (nonlinear_arith)
            requires
                n >= here * s,
                below < here,
                s > 0,
        ;
    }
}

/// Every number from the first magnitude beyond the finite ones on rounds to infinity.
proof fn lemma_nearest_overflow(number: nat, shift: nat)
    requires
        number >= grid(INFINITY as int) * pow2(shift),
    ensures
        is_nearest(number, shift, INFINITY as int),
{
    let below = grid(INFINITY - 1) as int;
    let here = grid(INFINITY as int) as int;
    let s = pow2(shift) as int;
    let n = number as int;
    lemma_grid_step(INFINITY - 1);
    lemma_pow2_pos(shift);
    assert(2 * n > (below + here) * s) by (nonlinear_arith)
        requires
            n >= here * s,
            below < here,
            s > 0,
    ;
}

/// A power of two that fits into 128 bits has an exponent below 128.
proof fn lemma_bounded_by_power(value: u128, power: nat, exponent: nat)
    requires
        power == pow2(exponent),
        power <= value,
    ensures
        exponent < 128,
{
    lemma2_to64();
    lemma_pow2_adds(64, 64);
    if exponent > 128 {
        lemma_pow2_strictly_increases(128, exponent);
    }
}

/// The magnitude nearest to `significand * 2^exponent / 2^shift` units.
pub fn round_to_nearest(significand: u128, exponent: u32, shift: u32) -> (pattern: u64)
    requires
        exponent <= 5000,
        shift <= 5000,
    ensures
        pattern <= INFINITY,
        is_nearest((significand * pow2(exponent as nat)) as nat, shift as nat, pattern as int),
        pattern == nearest((significand * pow2(exponent as nat)) as nat, shift as nat),
{
    let mut kept: u128 = significand;
    let mut up_by: u32 = 0;
    let mut down_by: u32 = 0;
    if exponent >= shift {
        up_by = exponent - shift;
    } else {
        down_by = shift - exponent;
    }
    let ghost first_up = up_by as nat;
    let ghost first_down = down_by as nat;
    let ghost number = (significand * pow2(first_up)) as nat;
    let ghost mut dropped: nat = 0;
    let ghost mut scale: nat = 1;
    let ghost mut remainder: int = 0;
    // What has been shifted out: its leading bit, and whether any other bit of it is set.
    let mut half: bool = false;
    let mut sticky: bool = false;
    proof {
        lemma2_to64();
    }
    while kept >= 2 * (FRACTION_RANGE as u128) || down_by > 0
        invariant
            significand == kept * scale + remainder,
            0 <= remainder < scale,
            scale == pow2(dropped),
            half == (2 * remainder >= scale),
            sticky == (remainder > 0 && 2 * remainder != scale),
            up_by + first_down == first_up + dropped + down_by,
            down_by <= first_down,
            first_down > 0 ==> first_up == 0,
            first_up <= 5000,
            down_by > 0 ==> up_by == first_up,
            up_by >= first_up,
            up_by > first_up ==> kept >= FRACTION_RANGE,
        decreases down_by, kept,
    {
        let bit: u128 = kept % 2;
        let rest: u128 = kept / 2;
        proof {
            lemma_pow2_unfold(dropped + 1);
            assert(kept * scale + remainder == rest * (2 * scale) + (bit * scale + remainder))
                by (nonlinear_arith)
                requires
                    kept == 2 * rest + bit,
            ;
            assert(bit * scale == if bit == 1 {
                scale as int
            } else {
                0
            }) by (nonlinear_arith)
                requires
                    0 <= bit < 2,
            ;
            if down_by == 0 {
                assert(scale <= significand) by (nonlinear_arith)
                    requires
                        significand == kept * scale + remainder,
                        kept >= 1,
                        remainder >= 0,
                ;
                lemma_bounded_by_power(significand, scale, dropped);
            }
            remainder = bit * scale + remainder;
            scale = 2 * scale;
            dropped = dropped + 1;
        }
        sticky = half || sticky;
        half = bit == 1;
        kept = rest;
        if down_by > 0 {
            down_by = down_by - 1;
        } else {
            up_by = up_by + 1;
        }
    }
    let ghost mut factor = pow2(first_up);
    proof {
        lemma_pow2_adds(up_by as nat, first_down);
        lemma_pow2_adds(dropped, first_up);
        lemma_pow2_pos(first_up);
    }
    if kept < FRACTION_RANGE as u128 && up_by > 0 {
        proof {
            // Nothing has been shifted out: the number is exact.
            assert(up_by == first_up && dropped == 0);
            assert(scale == 1 && remainder == 0);
            assert(kept * scale == kept) by (nonlinear_arith)
                requires
                    scale == 1,
            ;
            assert(kept * factor >= 0) by (nonlinear_arith);
        }
        while kept < FRACTION_RANGE as u128 && up_by > 0
            invariant
                kept < 2 * FRACTION_RANGE,
                number == kept * pow2(up_by as nat),
            decreases up_by,
        {
            proof {
                lemma_pow2_unfold(up_by as nat);
                let high = pow2(up_by as nat) as int;
                let low = pow2((up_by - 1) as nat) as int;
                assert(kept * high == (2 * kept) * low) by (nonlinear_arith)
                    requires
                        high == 2 * low,
                ;
            }
            kept = 2 * kept;
            up_by = up_by - 1;
        }
        proof {
            factor = pow2(up_by as nat);
            lemma_pow2_pos(up_by as nat);
        }
    }
    let round_up: bool = half && (sticky || kept % 2 == 1);
    let mut pattern: u64 = INFINITY;
    if up_by <= 2045 {
        pattern = (up_by as u64) * FRACTION_RANGE + (kept as u64);
        if round_up {
            pattern = pattern + 1;
        }
    }
    proof {
        assert(number == (kept * scale + remainder) * factor);
        if up_by <= 2045 {
            lemma_nearest_in_cell(
                number,
                first_down,
                kept as int,
                up_by as nat,
                remainder,
                scale,
                factor,
                round_up,
            );
        } else {
            lemma_beyond_finite(
                number,
                first_down,
                kept as int,
                up_by as nat,
                remainder,
                scale,
                factor,
            );
        }
        let by = if exponent >= shift {
            shift as nat
        } else {
            exponent as nat
        };
        lemma_nearest_scaled(number, first_down, by, pattern as int);
        lemma_pow2_adds(first_up, by);
        assert((significand * pow2(first_up)) * pow2(by) == significand * (pow2(first_up) * pow2(
            by,
        ))) by (nonlinear_arith);
        lemma_nearest_is(
            (significand * pow2(exponent as nat)) as nat,
            shift as nat,
            pattern as int,
        );
    }
    pattern
}

/// A significand with too large an exponent is beyond the finite magnitudes.
proof fn lemma_beyond_finite(
    number: nat,
    shift: nat,
    significand: int,
    exponent: nat,
    remainder: int,
    scale: nat,
    factor: nat,
)
    requires
        significand >= FRACTION_RANGE,
        exponent > 2045,
        0 <= remainder,
        pow2(exponent) * pow2(shift) == scale * factor,
        number == (significand * scale + remainder) * factor,
    ensures
        is_nearest(number, shift, INFINITY as int),
{
    let range = FRACTION_RANGE as int;
    let s = pow2(shift) as int;
    let unit = pow2(exponent) as int;
    let least = pow2(2046) as int;
    let p = scale as int;
    let f = factor as int;
    lemma_grid_of_scaled(range, 2046);
    if exponent > 2046 {
        lemma_pow2_strictly_increases(2046, exponent);
    }
    assert((significand * p + remainder) * f >= significand * (p * f)) by (nonlinear_arith)
        requires
            remainder >= 0,
            f >= 0,
    ;
    assert(significand * (unit * s) >= (range * least) * s) by (nonlinear_arith)
        requires
            significand >= range,
            range >= 0,
            unit >= least,
            least >= 0,
            s >= 0,
    ;
    lemma_nearest_overflow(number, shift);
}

} // verus!
