//! The arithmetic of progress values against that of the machine.

use progress_token::binary64::{NOT_A_NUMBER, ONE};
use progress_token::rounding::round_to_nearest;
use progress_token::Binary64;

fn number(value: f64) -> Binary64 {
    Binary64::from_bits(value.to_bits())
}

fn same(result: Binary64, expected: f64) -> bool {
    if expected.is_nan() {
        result.to_bits() == NOT_A_NUMBER
    } else {
        result.to_bits() == expected.to_bits()
    }
}

fn check_pair(a: f64, b: f64) {
    assert!(
        same(number(a).plus(number(b)), a + b),
        "{a:e} + {b:e} is not {:e}",
        f64::from_bits(number(a).plus(number(b)).to_bits())
    );
    assert!(
        same(number(a).times(number(b)), a * b),
        "{a:e} * {b:e} is not {:e}",
        f64::from_bits(number(a).times(number(b)).to_bits())
    );
}

fn edge_values() -> Vec<f64> {
    let magnitudes = vec![
        0.0,
        f64::from_bits(1),
        f64::from_bits(2),
        f64::from_bits(0x000f_ffff_ffff_ffff),
        f64::MIN_POSITIVE,
        f64::from_bits(0x0010_0000_0000_0001),
        f64::EPSILON,
        f64::EPSILON / 2.0,
        0.1,
        0.3,
        0.35,
        0.5,
        0.6,
        0.7,
        1.0 - f64::EPSILON / 2.0,
        1.0,
        1.0 + f64::EPSILON,
        1.5,
        2.0,
        9007199254740991.0,
        9007199254740992.0,
        9007199254740993.0,
        18014398509481984.0,
        36893488147419103232.0,
        1e-300,
        1e-160,
        1e160,
        f64::MAX / 2.0,
        f64::MAX,
        f64::INFINITY,
    ];
    let mut values: Vec<f64> = Vec::new();
    for magnitude in magnitudes {
        values.push(magnitude);
        values.push(-magnitude);
    }
    values.push(f64::NAN);
    values
}

#[test]
fn edge_values_add_and_multiply_as_on_the_machine() {
    let values = edge_values();
    for a in &values {
        for b in &values {
            check_pair(*a, *b);
        }
    }
}

struct Generator {
    state: u64,
}

impl Generator {
    fn next(&mut self) -> u64 {
        self.state ^= self.state << 13;
        self.state ^= self.state >> 7;
        self.state ^= self.state << 17;
        self.state
    }
}

#[test]
fn arbitrary_patterns_add_and_multiply_as_on_the_machine() {
    let mut generator = Generator { state: 0x9e37_79b9_7f4a_7c15 };
    for _ in 0..100_000 {
        check_pair(
            f64::from_bits(generator.next()),
            f64::from_bits(generator.next()),
        );
    }
}

#[test]
fn neighbouring_exponents_add_and_multiply_as_on_the_machine() {
    let mut generator = Generator { state: 0x1234_5678_9abc_def1 };
    for _ in 0..100_000 {
        let exponent = generator.next() % 2046;
        let distance = generator.next() % 140;
        let other = if exponent > distance { exponent - distance } else { 0 };
        let a = (generator.next() & 0x800f_ffff_ffff_ffff) | (exponent << 52);
        let b = (generator.next() & 0x800f_ffff_ffff_ffff) | (other << 52);
        check_pair(f64::from_bits(a), f64::from_bits(b));
        check_pair(f64::from_bits(b), f64::from_bits(a));
        // Few significant bits make exact halves likely.
        let mask = 0xffff_f000_0000_0001;
        check_pair(f64::from_bits(a & mask), f64::from_bits(b & mask));
    }
}

#[test]
fn small_products_round_as_on_the_machine() {
    let mut generator = Generator { state: 0x0bad_cafe_dead_beef };
    for _ in 0..100_000 {
        let left = generator.next() % 1023 + 1;
        let right = (1023 - left + generator.next() % 60) % 2046;
        let a = (generator.next() & 0x800f_ffff_ffff_ffff) | (left << 52);
        let b = (generator.next() & 0x800f_ffff_ffff_ffff) | (right << 52);
        check_pair(f64::from_bits(a), f64::from_bits(b));
        check_pair(f64::from_bits(a), f64::from_bits(b % (1 << 52)));
    }
}

#[test]
fn numbers_are_brought_into_the_unit_range() {
    for value in edge_values() {
        let expected: f64 = if value.is_nan() || value <= 0.0 {
            0.0
        } else if value > 1.0 {
            1.0
        } else {
            value
        };
        let clamped = number(value).clamp_to_unit();
        assert_eq!(clamped.to_bits(), expected.to_bits());
        assert!(clamped.to_bits() == value.max(0.0).min(1.0).to_bits() || value == 0.0);
    }
}

#[test]
fn numbers_round_to_the_nearest_and_to_even() {
    let one_ulp = 1u128 << 53;
    // One unit is two to the power of -1074.
    assert_eq!(round_to_nearest(0, 0, 0), 0);
    assert_eq!(round_to_nearest(1, 0, 0), 1);
    assert_eq!(round_to_nearest(1, 1074, 0), ONE);
    assert_eq!(round_to_nearest(1, 0, 1), 0);
    assert_eq!(round_to_nearest(3, 0, 1), 2);
    assert_eq!(round_to_nearest(5, 0, 1), 2);
    assert_eq!(round_to_nearest(one_ulp + 1, 1021, 0), ONE);
    assert_eq!(round_to_nearest(one_ulp + 3, 1021, 0), ONE + 2);
    assert_eq!(round_to_nearest(1, 2097, 0), f64::MAX.to_bits() - 0x000f_ffff_ffff_ffff);
    assert_eq!(round_to_nearest(1, 2098, 0), f64::INFINITY.to_bits());
}

#[test]
fn one_is_neutral_for_products() {
    for value in edge_values() {
        if !value.is_nan() {
            let product = number(value).times(Binary64::from_bits(ONE));
            assert_eq!(product.to_bits(), value.to_bits());
        }
    }
}

#[test]
fn the_sum_of_nothing_is_neutral_for_sums() {
    for value in edge_values() {
        if !value.is_nan() {
            assert_eq!(number(-0.0).plus(number(value)).to_bits(), value.to_bits());
        }
    }
}

#[test]
fn a_contribution_stays_within_its_weight() {
    let parts: Vec<f64> = vec![0.0, 0.1, 0.3, 0.5, 0.9999999999999999, 1.0];
    for part in &parts {
        for weight in &parts {
            let product = f64::from_bits(number(*part).times(number(*weight)).to_bits());
            assert!(product <= *weight);
        }
    }
}

#[test]
fn sums_and_products_grow_with_their_terms() {
    let parts: Vec<f64> = vec![0.0, 0.1, 0.25, 0.3, 0.7, 1.0];
    for k in 1..parts.len() {
        for other in &parts {
            let low = number(parts[k - 1]);
            let high = number(parts[k]);
            assert!(low.plus(number(*other)).to_bits() <= high.plus(number(*other)).to_bits());
            assert!(low.times(number(*other)).to_bits() <= high.times(number(*other)).to_bits());
        }
    }
}
