use spwn::float::{
    equal, from_exact, int_equals, int_less, less, less_eq, less_than_int, magnitude, nan, negate,
    FloatUnit, EXACT_LIMIT, THOUSANDTH,
};

fn bits(x: f64) -> u64 {
    x.to_bits()
}

fn samples() -> Vec<f64> {
    vec![
        0.0,
        -0.0,
        1.0,
        -1.0,
        0.5,
        -0.5,
        1268.0,
        1e300,
        -1e300,
        f64::MIN_POSITIVE,
        5e-324,
        -5e-324,
        f64::INFINITY,
        f64::NEG_INFINITY,
        f64::NAN,
        9007199254740992.0,
        9223372036854775808.0,
        -9223372036854775808.0,
        4611686018427387904.0,
        3.0,
        -7.0,
    ]
}

#[test]
fn nan_is_told_from_numbers() {
    for x in samples() {
        assert_eq!(nan(bits(x)), x.is_nan(), "{}", x);
    }
    assert!(nan(0x7FF0_0000_0000_0001));
    assert!(nan(0xFFF8_0000_0000_0000));
}

#[test]
fn float_equality_is_ieee_equality() {
    for x in samples() {
        for y in samples() {
            assert_eq!(equal(bits(x), bits(y)), x == y, "{} == {}", x, y);
        }
    }
}

#[test]
fn float_order_is_ieee_order() {
    for x in samples() {
        for y in samples() {
            assert_eq!(less(bits(x), bits(y)), x < y, "{} < {}", x, y);
            assert_eq!(less_eq(bits(x), bits(y)), x <= y, "{} <= {}", x, y);
        }
    }
}

#[test]
fn negate_flips_the_sign() {
    for x in samples() {
        assert_eq!(negate(bits(x)), bits(-x));
    }
}

#[test]
fn magnitude_clears_the_sign() {
    for x in samples() {
        assert_eq!(magnitude(bits(x)), bits(x.abs()));
    }
}

#[test]
fn thousandth_is_a_thousandth() {
    assert_eq!(THOUSANDTH, bits(0.001));
}

#[test]
fn integers_equal_the_floats_of_their_value() {
    let ints: Vec<i64> = vec![
        0,
        1,
        -1,
        2,
        3,
        -7,
        1268,
        1 << 52,
        (1 << 53) - 1,
        1 << 53,
        (1 << 53) + 1,
        -(1 << 53) - 1,
        1 << 62,
        i64::MAX,
        i64::MIN,
        i64::MIN + 1,
    ];
    for n in ints.iter() {
        for x in samples() {
            let exact = x.is_finite() && x.fract() == 0.0 && (x as i128) == (*n as i128);
            assert_eq!(int_equals(*n, bits(x)), exact, "{} == {}", n, x);
        }
        // An integer that a float holds exactly equals that float.
        let f = *n as f64;
        if (f as i128) == (*n as i128) {
            assert!(int_equals(*n, bits(f)), "{}", n);
        } else {
            assert!(!int_equals(*n, bits(f)), "{}", n);
        }
    }
}

#[test]
fn integer_and_float_are_compared_by_value_not_by_rounding() {
    // 2^53 + 1 rounds to 2^53 as a float, but is another number.
    assert!(!int_equals((1 << 53) + 1, bits(9007199254740992.0)));
    assert!(int_equals(1 << 53, bits(9007199254740992.0)));
    assert!(int_equals(0, bits(-0.0)));
    assert!(!int_equals(1, bits(1.5)));
    assert!(!int_equals(0, bits(5e-324)));
    assert!(int_equals(i64::MIN, bits(-9223372036854775808.0)));
    assert!(!int_equals(i64::MAX, bits(9223372036854775808.0)));
}

struct Ieee;

impl FloatUnit for Ieee {
    fn from_int(&self, n: i64) -> u64 {
        (n as f64).to_bits()
    }

    fn sum(&self, a: u64, b: u64) -> u64 {
        (f64::from_bits(a) + f64::from_bits(b)).to_bits()
    }

    fn difference(&self, a: u64, b: u64) -> u64 {
        (f64::from_bits(a) - f64::from_bits(b)).to_bits()
    }

    fn product(&self, a: u64, b: u64) -> u64 {
        (f64::from_bits(a) * f64::from_bits(b)).to_bits()
    }

    fn quotient(&self, a: u64, b: u64) -> u64 {
        (f64::from_bits(a) / f64::from_bits(b)).to_bits()
    }

    fn remainder(&self, a: u64, b: u64) -> u64 {
        (f64::from_bits(a) % f64::from_bits(b)).to_bits()
    }

    fn power(&self, a: u64, b: u64) -> u64 {
        f64::from_bits(a).powf(f64::from_bits(b)).to_bits()
    }

    fn round(&self, a: u64) -> u64 {
        f64::from_bits(a).round().to_bits()
    }

    fn floor_to_int(&self, a: u64) -> i64 {
        f64::from_bits(a).floor() as i64
    }

    fn to_i32(&self, a: u64) -> i32 {
        f64::from_bits(a) as i32
    }

    fn show(&self, a: u64) -> String {
        f64::from_bits(a).to_string()
    }

    fn fixed(&self, a: u64, places: usize) -> String {
        format!("{:.1$}", f64::from_bits(a), places)
    }
}

#[test]
fn a_float_unit_can_be_supplied() {
    let fl = Ieee;
    assert_eq!(fl.sum(bits(1.5), bits(2.0)), bits(3.5));
    assert_eq!(fl.from_int(1268), bits(1268.0));
    assert_eq!(fl.fixed(bits(1.5), 3), "1.500");
}

#[test]
fn an_integer_and_a_float_are_ordered_as_numbers() {
    let floats = [
        0.0, -0.0, 0.5, -0.5, 1.0, -1.0, 1.5, -1.5, 2.0, 7.25, -7.25, 1e-310, -1e-310, 4503599627370496.5,
        9007199254740992.0, -9007199254740992.0, 1e18, -1e18, 9.3e18, -9.3e18, 1e300, -1e300,
        f64::INFINITY, f64::NEG_INFINITY,
    ];
    let ints = [0i64, 1, -1, 2, -2, 7, 8, -7, -8, 1 << 52, 1 << 53, -(1 << 53), 1_000_000_000_000_000_000];
    for x in floats {
        for n in ints {
            // every integer here is a float exactly, so the floats can be compared
            let as_float = n as f64;
            assert_eq!(int_less(n, bits(x)), as_float < x, "{} < {}", n, x);
            assert_eq!(less_than_int(bits(x), n), x < as_float, "{} < {}", x, n);
        }
    }
    // beyond 2^53 an integer is told from the floats next to it
    let big = (1i64 << 53) + 1;
    assert!(less_than_int(bits(9007199254740992.0), big));
    assert!(int_less(big, bits(9007199254740994.0)));
    assert!(!int_less(big, bits(9007199254740992.0)));
    assert!(int_less(i64::MAX, bits(9223372036854775808.0)));
    assert!(!less_than_int(bits(-9223372036854775808.0), i64::MIN));
    assert!(less_than_int(bits(-9223372036854775808.0), i64::MIN + 1));
    assert!(less_than_int(bits(-9223372036854777856.0), i64::MIN));
    assert!(!int_less(3, bits(f64::NAN)));
    assert!(!less_than_int(bits(f64::NAN), 3));
}

#[test]
fn a_small_integer_becomes_the_float_that_it_is() {
    let mut ints = vec![0i64, 1, -1, 2, 3, -3, 7, 8, 1007, 1268, -1268, 65535, 1 << 31, (1 << 52) - 1];
    ints.extend([1 << 52, (1 << 52) + 1, (1 << 53) - 1, EXACT_LIMIT, -EXACT_LIMIT, -(1 << 52) - 1]);
    for k in 0..53 {
        ints.push((1i64 << k) + 1);
        ints.push(-(1i64 << k));
    }
    for n in ints {
        assert_eq!(from_exact(n), (n as f64).to_bits(), "{}", n);
        assert!(int_equals(n, from_exact(n)), "{}", n);
    }
    assert_eq!(from_exact(1007), 1007.0f64.to_bits());
    assert_eq!(from_exact(0), 0);
}
