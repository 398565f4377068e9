//! Floating-point numbers as their IEEE-754 binary64 bit patterns.
//!
//! A float is carried as a `u64`. What can be read off the bits (order,
//! equality, sign) is computed here; arithmetic, rounding and formatting are
//! asked of a [`FloatUnit`] that the caller supplies.

use vstd::prelude::*;

verus! {

/// The sign bit of a binary64 pattern.
pub const SIGN_BIT: u64 = 0x8000_0000_0000_0000;

/// The exponent bits of a binary64 pattern.
pub const EXPONENT_BITS: u64 = 0x7FF0_0000_0000_0000;

/// The fraction bits of a binary64 pattern.
pub const FRACTION_BITS: u64 = 0x000F_FFFF_FFFF_FFFF;

/// All bits but the sign.
pub const MAGNITUDE_BITS: u64 = 0x7FFF_FFFF_FFFF_FFFF;

/// The implicit leading bit of a normal number's significand.
pub const HIDDEN_BIT: u64 = 0x0010_0000_0000_0000;

/// The pattern of 0.001, rounded to nearest.
pub const THOUSANDTH: u64 = 0x3F50_624D_D2F1_A9FC;

/// Arithmetic on binary64 patterns that only a floating-point unit can do.
/// Nothing is assumed of what an implementation returns.
pub trait FloatUnit {
    /// The float nearest to `n`.
    fn from_int(&self, n: i64) -> u64;

    /// `a + b`.
    fn sum(&self, a: u64, b: u64) -> u64;

    /// `a - b`.
    fn difference(&self, a: u64, b: u64) -> u64;

    /// `a * b`.
    fn product(&self, a: u64, b: u64) -> u64;

    /// `a / b`.
    fn quotient(&self, a: u64, b: u64) -> u64;

    /// The remainder of `a / b`, with the sign of `a`.
    fn remainder(&self, a: u64, b: u64) -> u64;

    /// `a` raised to the power `b`.
    fn power(&self, a: u64, b: u64) -> u64;

    /// `a` rounded to the nearest whole number, halves away from zero.
    fn round(&self, a: u64) -> u64;

    /// The largest whole number not above `a`, saturated to 64 bits.
    fn floor_to_int(&self, a: u64) -> i64;

    /// `a` cut to a whole number toward zero, saturated to 32 bits.
    fn to_i32(&self, a: u64) -> i32;

    /// The shortest decimal text that reads back as `a`.
    fn show(&self, a: u64) -> String;

    /// `a` in decimal with exactly `places` digits after the point.
    fn fixed(&self, a: u64, places: usize) -> String;
}

/// Whether the pattern is a NaN.
pub open spec fn is_nan(x: u64) -> bool {
    x & EXPONENT_BITS == EXPONENT_BITS && x & FRACTION_BITS != 0
}

/// Whether the pattern is one of the two zeros.
pub open spec fn is_zero(x: u64) -> bool {
    x & MAGNITUDE_BITS == 0
}

/// Whether the sign bit is set.
pub open spec fn is_negative(x: u64) -> bool {
    x & SIGN_BIT != 0
}

/// IEEE equality: no NaN equals anything, the two zeros are equal, and
/// otherwise the patterns must be the same.
pub open spec fn float_eq(a: u64, b: u64) -> bool {
    !is_nan(a) && !is_nan(b) && (a == b || (is_zero(a) && is_zero(b)))
}

/// Where a pattern that is no NaN stands in the order of the numbers: its
/// magnitude bits, negated under a set sign.
pub open spec fn order_key(x: u64) -> int {
    if is_negative(x) {
        -((x & MAGNITUDE_BITS) as int)
    } else {
        (x & MAGNITUDE_BITS) as int
    }
}

/// IEEE `<`: false where either side is a NaN.
pub open spec fn float_lt(a: u64, b: u64) -> bool {
    !is_nan(a) && !is_nan(b) && order_key(a) < order_key(b)
}

/// IEEE `<=`: false where either side is a NaN.
pub open spec fn float_le(a: u64, b: u64) -> bool {
    !is_nan(a) && !is_nan(b) && order_key(a) <= order_key(b)
}

/// The pattern with its sign flipped.
pub open spec fn float_neg(x: u64) -> u64 {
    x ^ SIGN_BIT
}

/// The pattern with its sign cleared.
pub open spec fn float_abs(x: u64) -> u64 {
    x & MAGNITUDE_BITS
}

/// The biased exponent field.
pub open spec fn exponent_field(x: u64) -> u64 {
    (x & EXPONENT_BITS) >> 52
}

/// The magnitude of the whole number that a pattern denotes, where it denotes
/// one below 2^63: zero for the zeros; for a normal number with unbiased
/// exponent `e` in `0..=62` the significand shifted to `e - 52`, provided no
/// set bit is shifted out.
pub open spec fn whole_magnitude(x: u64) -> Option<u64> {
    let e = exponent_field(x);
    let sig = (x & FRACTION_BITS) | HIDDEN_BIT;
    if is_zero(x) {
        Some(0u64)
    } else if e < 1023 || e > 1085 {
        None
    } else if e >= 1075 {
        Some(sig << ((e - 1075) as u64))
    } else if sig & (((1u64 << ((1075 - e) as u64)) - 1) as u64) == 0 {
        Some(sig >> ((1075 - e) as u64))
    } else {
        None
    }
}

/// Whether the integer `n` and the float `x` are the same number.
pub open spec fn int_eq_float(n: i64, x: u64) -> bool {
    if x == 0xC3E0_0000_0000_0000 {
        n == i64::MIN
    } else {
        match whole_magnitude(x) {
            Some(m) => if is_negative(x) {
                n as int == -(m as int)
            } else {
                n as int == m as int
            },
            None => false,
        }
    }
}

/// The magnitude up to which every integer is a float: 2^53.
pub const EXACT_LIMIT: i64 = 0x0020_0000_0000_0000;

/// Whether the integer is a float, as every integer of a magnitude of at
/// most 2^53 is.
pub open spec fn is_exact(n: i64) -> bool {
    -EXACT_LIMIT <= n <= EXACT_LIMIT
}

/// The place of the highest set bit of `m`, counted from 0.
pub open spec fn top_bit(m: u64) -> u64
    decreases m,
{
    if m <= 1 {
        0
    } else {
        (1 + top_bit(m / 2)) as u64
    }
}

/// The magnitude of an integer.
pub open spec fn int_magnitude(n: i64) -> u64 {
    if n < 0 {
        (-(n as int)) as u64
    } else {
        n as u64
    }
}

/// The pattern of the float that the integer `n`, of a magnitude of at most
/// 2^53, is: the positive zero for 0; else the sign of `n`, the place of its
/// highest bit as the exponent, and its bits below that as the fraction.
pub open spec fn exact_float(n: i64) -> u64 {
    let m = int_magnitude(n);
    let p = top_bit(m);
    let sig = if p <= 52 {
        m << ((52 - p) as u64)
    } else {
        m >> ((p - 52) as u64)
    };
    if n == 0 {
        0
    } else {
        (if n < 0 {
            SIGN_BIT
        } else {
            0
        }) | (((1023 + p) as u64) << 52) | (sig & FRACTION_BITS)
    }
}

/// The highest set bit of a number that is not 0 is the last bit to be
/// shifted out.
pub proof fn lemma_top_bit(m: u64)
    requires
        m >= 1,
    ensures
        top_bit(m) <= 63,
        m >> top_bit(m) == 1,
    decreases m,
{
    if m <= 1 {
        assert(m >> 0u64 == m) by (bit_vector);
    } else {
        lemma_top_bit(m / 2);
        let q = top_bit(m / 2);
        assert(q < 63 && m >> ((q + 1) as u64) == 1) by (bit_vector)
            requires
                q <= 63,
                (m / 2) >> q == 1,
        ;
    }
}

/// The pattern that [`exact_float`] gives for an integer denotes that
/// integer, with its sign, and is no NaN.
pub proof fn lemma_exact_float(n: i64)
    requires
        is_exact(n),
    ensures
        int_eq_float(n, exact_float(n)),
        !is_nan(exact_float(n)),
        is_negative(exact_float(n)) == (n < 0),
{
    let x = exact_float(n);
    if n == 0 {
        assert(0u64 & 0x7FFF_FFFF_FFFF_FFFFu64 == 0 && 0u64 & 0x8000_0000_0000_0000u64 == 0 && !(
        0u64 & 0x7FF0_0000_0000_0000u64 == 0x7FF0_0000_0000_0000u64)) by (bit_vector);
    } else {
        let m = int_magnitude(n);
        let p = top_bit(m);
        lemma_top_bit(m);
        assert(p <= 53) by (bit_vector)
            requires
                m >> p == 1,
                m <= 0x0020_0000_0000_0000u64,
                p <= 63,
        ;
        let sig = if p <= 52 {
            m << ((52 - p) as u64)
        } else {
            m >> ((p - 52) as u64)
        };
        let s: u64 = if n < 0 {
            SIGN_BIT
        } else {
            0
        };
        let e = (1023 + p) as u64;
        if p <= 52 {
            let k = (52 - p) as u64;
            assert(sig & 0x0010_0000_0000_0000u64 == 0x0010_0000_0000_0000u64 && sig
                < 0x0020_0000_0000_0000u64 && sig >> k == m && sig & (((1u64 << k) - 1) as u64) == 0) by (bit_vector)
                requires
                    m >> p == 1,
                    p <= 52,
                    k == 52 - p,
                    sig == m << k,
            ;
            assert(sig << 0u64 == sig) by (bit_vector);
        } else {
            assert(sig & 0x0010_0000_0000_0000u64 == 0x0010_0000_0000_0000u64 && sig
                < 0x0020_0000_0000_0000u64 && sig << 1u64 == m) by (bit_vector)
                requires
                    m >> p == 1,
                    p == 53,
                    m <= 0x0020_0000_0000_0000u64,
                    sig == m >> 1u64,
            ;
        }
        assert((x & 0x7FF0_0000_0000_0000u64) >> 52 == e && (x & 0x000F_FFFF_FFFF_FFFFu64)
            | 0x0010_0000_0000_0000u64 == sig && x & 0x7FFF_FFFF_FFFF_FFFFu64 != 0 && (x
            & 0x8000_0000_0000_0000u64 != 0) == (s != 0) && x != 0xC3E0_0000_0000_0000u64 && !(x
            & 0x7FF0_0000_0000_0000u64 == 0x7FF0_0000_0000_0000u64)) by (bit_vector)
            requires
                x == s | (e << 52) | (sig & 0x000F_FFFF_FFFF_FFFFu64),
                s == 0 || s == 0x8000_0000_0000_0000u64,
                1023 <= e <= 1076,
                sig & 0x0010_0000_0000_0000u64 == 0x0010_0000_0000_0000u64,
                sig < 0x0020_0000_0000_0000u64,
        ;
        assert(exponent_field(x) == e);
        assert(!is_zero(x));
        if p == 52 {
            assert(sig >> 0u64 == sig) by (bit_vector);
        }
        assert(whole_magnitude(x) == Some(m));
    }
}

/// Computes [`exact_float`].
pub fn from_exact(n: i64) -> (r: u64)
    requires
        is_exact(n),
    ensures
        r == exact_float(n),
{
    if n == 0 {
        return 0;
    }
    let m: u64 = if n < 0 {
        (-n) as u64
    } else {
        n as u64
    };
    let mut p: u64 = 0;
    let mut rest: u64 = m;
    assert(m >> 0u64 == m) by (bit_vector);
    while rest > 1
        invariant
            p <= 63,
            rest == m >> p,
            rest >= 1,
            top_bit(m) == p + top_bit(rest),
        decreases rest,
    {
        assert(p < 63 && (m >> p) / 2 == m >> ((p + 1) as u64)) by (bit_vector)
            requires
                p <= 63,
                m >> p > 1,
        ;
        proof {
            lemma_top_bit(rest / 2);
        }
        rest = rest / 2;
        p += 1;
    }
    let sig: u64 = if p <= 52 {
        m << (52 - p)
    } else {
        m >> (p - 52)
    };
    let sign: u64 = if n < 0 {
        SIGN_BIT
    } else {
        0
    };
    sign | ((1023 + p) << 52) | (sig & FRACTION_BITS)
}

/// The whole part of the magnitude of the number that a pattern denotes,
/// where that is below 2^63: nothing for a pattern with a larger magnitude,
/// for an infinity and for a NaN.
pub open spec fn whole_part(x: u64) -> Option<u64> {
    let e = exponent_field(x);
    let sig = (x & FRACTION_BITS) | HIDDEN_BIT;
    if e > 1085 {
        None
    } else if e < 1023 {
        Some(0u64)
    } else if e >= 1075 {
        Some(sig << ((e - 1075) as u64))
    } else {
        Some(sig >> ((1075 - e) as u64))
    }
}

/// Whether the number that a pattern denotes, of a magnitude below 2^63, is
/// no whole number.
pub open spec fn has_fraction(x: u64) -> bool {
    let e = exponent_field(x);
    let sig = (x & FRACTION_BITS) | HIDDEN_BIT;
    if e < 1023 {
        !is_zero(x)
    } else if e < 1075 {
        sig & (((1u64 << ((1075 - e) as u64)) - 1) as u64) != 0
    } else {
        false
    }
}

/// Whether the integer `n` is less than the number that `x` denotes: never
/// for a NaN; for a number of a magnitude of 2^63 or more where it is
/// positive; else by the whole part and the fraction of the number.
pub open spec fn int_lt_float(n: i64, x: u64) -> bool {
    !is_nan(x) && match whole_part(x) {
        None => !is_negative(x),
        Some(t) => if is_negative(x) {
            (n as int) < -(t as int)
        } else {
            (n as int) < (t as int) || ((n as int) == (t as int) && has_fraction(x))
        },
    }
}

/// Whether the number that `x` denotes is less than the integer `n`: never
/// for a NaN; for a number of a magnitude of 2^63 or more where it is
/// negative and not `n` itself; else by the whole part and the fraction of
/// the number.
pub open spec fn float_lt_int(x: u64, n: i64) -> bool {
    !is_nan(x) && match whole_part(x) {
        None => is_negative(x) && !(x == 0xC3E0_0000_0000_0000 && n == i64::MIN),
        Some(t) => if is_negative(x) {
            (n as int) > -(t as int) || ((n as int) == -(t as int) && has_fraction(x))
        } else {
            (n as int) > (t as int)
        },
    }
}

/// The whole part and whether a fraction is left of a pattern with an
/// exponent field of at most 1085.
fn parts_of(x: u64) -> (r: (u64, bool))
    requires
        exponent_field(x) <= 1085,
    ensures
        whole_part(x) == Some(r.0),
        r.1 == has_fraction(x),
{
    let e = (x & EXPONENT_BITS) >> 52;
    let sig = (x & FRACTION_BITS) | HIDDEN_BIT;
    if e < 1023 {
        (0, x & MAGNITUDE_BITS != 0)
    } else if e >= 1075 {
        (sig << (e - 1075), false)
    } else {
        let k: u64 = 1075 - e;
        assert((1u64 << k) >= 1) by (bit_vector)
            requires
                k <= 52,
        ;
        (sig >> k, sig & ((1u64 << k) - 1) != 0)
    }
}

/// Computes [`int_lt_float`].
pub fn int_less(n: i64, x: u64) -> (r: bool)
    ensures
        r == int_lt_float(n, x),
{
    if nan(x) {
        return false;
    }
    if (x & EXPONENT_BITS) >> 52 > 1085 {
        return x & SIGN_BIT == 0;
    }
    let (t, fraction) = parts_of(x);
    let wide: i128 = n as i128;
    let whole: i128 = t as i128;
    if x & SIGN_BIT != 0 {
        wide < -whole
    } else {
        wide < whole || (wide == whole && fraction)
    }
}

/// Computes [`float_lt_int`].
pub fn less_than_int(x: u64, n: i64) -> (r: bool)
    ensures
        r == float_lt_int(x, n),
{
    if nan(x) {
        return false;
    }
    if (x & EXPONENT_BITS) >> 52 > 1085 {
        return x & SIGN_BIT != 0 && !(x == 0xC3E0_0000_0000_0000 && n == i64::MIN);
    }
    let (t, fraction) = parts_of(x);
    let wide: i128 = n as i128;
    let whole: i128 = t as i128;
    if x & SIGN_BIT != 0 {
        wide > -whole || (wide == -whole && fraction)
    } else {
        wide > whole
    }
}

/// The whole number that a pattern denotes, where it denotes one that fits
/// 32 bits; a zero of either sign denotes 0.
pub open spec fn small_whole(x: u64) -> Option<i32> {
    match whole_magnitude(x) {
        Some(m) => if is_negative(x) {
            if m <= 0x8000_0000 {
                Some((-(m as int)) as i32)
            } else {
                None
            }
        } else {
            if m <= 0x7FFF_FFFF {
                Some(m as i32)
            } else {
                None
            }
        },
        None => None,
    }
}

/// Computes [`whole_magnitude`].
pub fn whole_size(x: u64) -> (r: Option<u64>)
    ensures
        r == whole_magnitude(x),
{
    let e = (x & EXPONENT_BITS) >> 52;
    let sig = (x & FRACTION_BITS) | HIDDEN_BIT;
    if x & MAGNITUDE_BITS == 0 {
        Some(0)
    } else if e < 1023 || e > 1085 {
        None
    } else if e >= 1075 {
        Some(sig << (e - 1075))
    } else {
        let k: u64 = 1075 - e;
        assert((1u64 << k) >= 1) by (bit_vector)
            requires
                k <= 52,
        ;
        if sig & ((1u64 << k) - 1) == 0 {
            Some(sig >> k)
        } else {
            None
        }
    }
}

/// Computes [`small_whole`].
pub fn whole_of(x: u64) -> (r: Option<i32>)
    ensures
        r == small_whole(x),
{
    let e = (x & EXPONENT_BITS) >> 52;
    let sig = (x & FRACTION_BITS) | HIDDEN_BIT;
    let m: u64 = if x & MAGNITUDE_BITS == 0 {
        0
    } else if e < 1023 || e > 1085 {
        return None;
    } else if e >= 1075 {
        sig << (e - 1075)
    } else {
        let k: u64 = 1075 - e;
        assert((1u64 << k) >= 1) by (bit_vector)
            requires
                k <= 52,
        ;
        if sig & ((1u64 << k) - 1) == 0 {
            sig >> k
        } else {
            return None;
        }
    };
    if x & SIGN_BIT != 0 {
        if m <= 0x8000_0000 {
            let wide: i64 = -(m as i64);
            Some(wide as i32)
        } else {
            None
        }
    } else {
        if m <= 0x7FFF_FFFF {
            Some(m as i32)
        } else {
            None
        }
    }
}

/// Computes [`is_nan`].
pub fn nan(x: u64) -> (r: bool)
    ensures
        r == is_nan(x),
{
    x & EXPONENT_BITS == EXPONENT_BITS && x & FRACTION_BITS != 0
}

/// Computes [`float_eq`].
pub fn equal(a: u64, b: u64) -> (r: bool)
    ensures
        r == float_eq(a, b),
{
    !nan(a) && !nan(b) && (a == b || (a & MAGNITUDE_BITS == 0 && b & MAGNITUDE_BITS == 0))
}

/// Computes [`float_lt`].
pub fn less(a: u64, b: u64) -> (r: bool)
    ensures
        r == float_lt(a, b),
{
    if nan(a) || nan(b) {
        return false;
    }
    let ma = a & MAGNITUDE_BITS;
    let mb = b & MAGNITUDE_BITS;
    if a & SIGN_BIT != 0 {
        if b & SIGN_BIT != 0 {
            ma > mb
        } else {
            ma != 0 || mb != 0
        }
    } else {
        if b & SIGN_BIT != 0 {
            false
        } else {
            ma < mb
        }
    }
}

/// Computes [`float_le`].
pub fn less_eq(a: u64, b: u64) -> (r: bool)
    ensures
        r == float_le(a, b),
{
    if nan(a) || nan(b) {
        return false;
    }
    let ma = a & MAGNITUDE_BITS;
    let mb = b & MAGNITUDE_BITS;
    if a & SIGN_BIT != 0 {
        if b & SIGN_BIT != 0 {
            ma >= mb
        } else {
            true
        }
    } else {
        if b & SIGN_BIT != 0 {
            ma == 0 && mb == 0
        } else {
            ma <= mb
        }
    }
}

/// Computes [`float_neg`].
pub fn negate(x: u64) -> (r: u64)
    ensures
        r == float_neg(x),
{
    x ^ SIGN_BIT
}

/// Computes [`float_abs`].
pub fn magnitude(x: u64) -> (r: u64)
    ensures
        r == float_abs(x),
{
    x & MAGNITUDE_BITS
}

/// Computes [`int_eq_float`].
pub fn int_equals(n: i64, x: u64) -> (r: bool)
    ensures
        r == int_eq_float(n, x),
{
    if x == 0xC3E0_0000_0000_0000 {
        return n == i64::MIN;
    }
    let e = (x & EXPONENT_BITS) >> 52;
    let sig = (x & FRACTION_BITS) | HIDDEN_BIT;
    let m: u64 = if x & MAGNITUDE_BITS == 0 {
        0
    } else if e < 1023 || e > 1085 {
        return false;
    } else if e >= 1075 {
        sig << (e - 1075)
    } else {
        let k: u64 = 1075 - e;
        assert((1u64 << k) >= 1) by (bit_vector)
            requires
                k <= 52,
        ;
        if sig & ((1u64 << k) - 1) == 0 {
            sig >> k
        } else {
            return false;
        }
    };
    if x & SIGN_BIT != 0 {
        if n > 0 || n == i64::MIN {
            proof {
                lemma_whole_magnitude_bound(x);
            }
            false
        } else {
            (-n) as u64 == m
        }
    } else {
        if n < 0 {
            false
        } else {
            n as u64 == m
        }
    }
}

/// A whole magnitude read off a pattern is below 2^63.
pub proof fn lemma_whole_magnitude_bound(x: u64)
    ensures
        whole_magnitude(x) matches Some(m) ==> m < 0x8000_0000_0000_0000,
{
    let e = exponent_field(x);
    let f = x & FRACTION_BITS;
    let sig = f | HIDDEN_BIT;
    assert(sig < 0x0020_0000_0000_0000) by (bit_vector)
        requires
            sig == (x & 0x000F_FFFF_FFFF_FFFFu64) | 0x0010_0000_0000_0000u64,
    ;
    if !is_zero(x) && 1023 <= e <= 1085 {
        if e >= 1075 {
            let k = (e - 1075) as u64;
            assert(sig << k < 0x8000_0000_0000_0000) by (bit_vector)
                requires
                    sig < 0x0020_0000_0000_0000,
                    k <= 10,
            ;
        } else {
            let k = (1075 - e) as u64;
            assert(sig >> k < 0x8000_0000_0000_0000) by (bit_vector)
                requires
                    sig < 0x0020_0000_0000_0000,
            ;
        }
    }
}

/// Float equality does not depend on the order of its operands.
pub proof fn lemma_float_eq_symmetric(a: u64, b: u64)
    ensures
        float_eq(a, b) == float_eq(b, a),
{
}

} // verus!
