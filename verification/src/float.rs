//! Floats as IEEE 754 binary64 bit patterns.
//!
//! A float is a `u64` holding the sign in bit 63, the biased exponent in bits 52 to
//! 62 and the fraction below. Negation and comparison work on the bits and are
//! verified here. Rounded arithmetic, the conversion from integers and the reading of
//! decimal literals are done by the `rustc_apfloat` crate; their results are named by
//! the uninterpreted functions below and nothing more is assumed of them. In
//! particular, which of the NaN bit patterns an operation gives is that crate's
//! choice.
use rustc_apfloat::ieee::Double;
use rustc_apfloat::Float;
use rustc_apfloat::Round;
use vstd::prelude::*;

verus! {

/// Positive infinity.
pub const INFINITY: u64 = 0x7FF0_0000_0000_0000;

/// The float nearest to the circle constant.
pub const PI: u64 = 0x4009_21FB_5444_2D18;

/// The sign bit.
pub const SIGN: u64 = 0x8000_0000_0000_0000;

/// The bits of `a + b`, rounded to nearest, ties to even.
pub uninterp spec fn float_sum(a: u64, b: u64) -> u64;

/// The bits of `a - b`, rounded to nearest, ties to even.
pub uninterp spec fn float_difference(a: u64, b: u64) -> u64;

/// The bits of `a * b`, rounded to nearest, ties to even.
pub uninterp spec fn float_product(a: u64, b: u64) -> u64;

/// The bits of `a / b`, rounded to nearest, ties to even.
pub uninterp spec fn float_quotient(a: u64, b: u64) -> u64;

/// The bits of the float nearest to the integer `i`, ties to even.
pub uninterp spec fn float_of_int(i: i64) -> u64;

/// The bits of the float nearest to the decimal numeral `text`, or `None` where
/// `text` is no numeral.
pub uninterp spec fn float_of_decimal(text: Seq<char>) -> Option<u64>;

/// Calls `rustc_apfloat`'s `Add` on two `ieee::Double` values made with `from_bits`
/// and returns `to_bits` of the value it gives. Trusted: the result is the one
/// `float_sum` names, that is, it depends on the two bit patterns alone.
#[verifier::external_body]
pub(crate) fn plus(a: u64, b: u64) -> (r: u64)
    ensures
        r == float_sum(a, b),
{
    (Double::from_bits(a as u128) + Double::from_bits(b as u128)).value.to_bits() as u64
}

/// Calls `rustc_apfloat`'s `Sub` on two `ieee::Double` values made with `from_bits`
/// and returns `to_bits` of the value it gives. Trusted: the result is the one
/// `float_difference` names.
#[verifier::external_body]
pub(crate) fn minus(a: u64, b: u64) -> (r: u64)
    ensures
        r == float_difference(a, b),
{
    (Double::from_bits(a as u128) - Double::from_bits(b as u128)).value.to_bits() as u64
}

/// Calls `rustc_apfloat`'s `Mul` on two `ieee::Double` values made with `from_bits`
/// and returns `to_bits` of the value it gives. Trusted: the result is the one
/// `float_product` names.
#[verifier::external_body]
pub(crate) fn times(a: u64, b: u64) -> (r: u64)
    ensures
        r == float_product(a, b),
{
    (Double::from_bits(a as u128) * Double::from_bits(b as u128)).value.to_bits() as u64
}

/// Calls `rustc_apfloat`'s `Div` on two `ieee::Double` values made with `from_bits`
/// and returns `to_bits` of the value it gives. Trusted: the result is the one
/// `float_quotient` names.
#[verifier::external_body]
pub(crate) fn over(a: u64, b: u64) -> (r: u64)
    ensures
        r == float_quotient(a, b),
{
    (Double::from_bits(a as u128) / Double::from_bits(b as u128)).value.to_bits() as u64
}

/// Calls `rustc_apfloat`'s `Float::from_i128` for `ieee::Double` and returns
/// `to_bits` of the value it gives. Trusted: the result is the one `float_of_int`
/// names.
#[verifier::external_body]
pub(crate) fn of_int(i: i64) -> (r: u64)
    ensures
        r == float_of_int(i),
{
    Double::from_i128(i as i128).value.to_bits() as u64
}

/// Calls `rustc_apfloat`'s `Float::from_str_r` for `ieee::Double`, rounding to
/// nearest, ties to even, and returns `to_bits` of the value it gives, or `None`
/// where it reports a parse error. Trusted: the result is the one
/// `float_of_decimal` names.
#[verifier::external_body]
pub(crate) fn of_decimal(text: &str) -> (r: Option<u64>)
    ensures
        r == float_of_decimal(text@),
{
    match Double::from_str_r(text, Round::NearestTiesToEven) {
        Ok(parsed) => Some(parsed.value.to_bits() as u64),
        Err(_) => None,
    }
}

/// The bits without the sign.
pub open spec fn magnitude(bits: u64) -> u64 {
    if bits >= SIGN {
        (bits - SIGN) as u64
    } else {
        bits
    }
}

/// Not a number: the exponent is all ones and the fraction is not zero.
pub open spec fn is_nan(bits: u64) -> bool {
    magnitude(bits) > INFINITY
}

/// With the sign flipped, as IEEE 754 negation does for every float, NaN included.
pub open spec fn negated(bits: u64) -> u64 {
    if bits >= SIGN {
        (bits - SIGN) as u64
    } else {
        (bits + SIGN) as u64
    }
}

/// An integer that orders the floats other than NaN as their values are ordered.
/// Both zeros get 0.
pub open spec fn order_key(bits: u64) -> int {
    if bits >= SIGN {
        -(magnitude(bits) as int)
    } else {
        bits as int
    }
}

/// IEEE 754 equality: NaN equals nothing, the two zeros are equal.
pub open spec fn float_equal(a: u64, b: u64) -> bool {
    !is_nan(a) && !is_nan(b) && order_key(a) == order_key(b)
}

/// IEEE 754 ordering: false whenever either side is NaN.
pub open spec fn float_less(a: u64, b: u64) -> bool {
    !is_nan(a) && !is_nan(b) && order_key(a) < order_key(b)
}

/// The order key of a float.
fn key(bits: u64) -> (k: i128)
    ensures
        k == order_key(bits),
{
    if bits >= SIGN {
        -((bits - SIGN) as i128)
    } else {
        bits as i128
    }
}

/// Whether the float is a NaN.
pub fn nan(bits: u64) -> (r: bool)
    ensures
        r == is_nan(bits),
{
    if bits >= SIGN {
        bits - SIGN > INFINITY
    } else {
        bits > INFINITY
    }
}

/// The float with its sign flipped.
pub fn negate(bits: u64) -> (r: u64)
    ensures
        r == negated(bits),
{
    if bits >= SIGN {
        bits - SIGN
    } else {
        bits + SIGN
    }
}

/// Whether two floats are equal as numbers.
pub fn equal(a: u64, b: u64) -> (r: bool)
    ensures
        r == float_equal(a, b),
{
    !nan(a) && !nan(b) && key(a) == key(b)
}

/// Whether the first float is less than the second.
pub fn less(a: u64, b: u64) -> (r: bool)
    ensures
        r == float_less(a, b),
{
    !nan(a) && !nan(b) && key(a) < key(b)
}

/// Negating twice gives the float back, and negation never makes or unmakes a NaN.
pub proof fn lemma_negated_involution(bits: u64)
    ensures
        negated(negated(bits)) == bits,
        is_nan(negated(bits)) == is_nan(bits),
        !is_nan(bits) ==> order_key(negated(bits)) == -order_key(bits),
{
}

/// Equality and ordering exclude each other, and of two floats that are not NaN
/// exactly one of less, equal and greater holds.
pub proof fn lemma_order_trichotomy(a: u64, b: u64)
    ensures
        !(float_less(a, b) && float_equal(a, b)),
        !(float_less(a, b) && float_less(b, a)),
        !is_nan(a) && !is_nan(b) ==> float_less(a, b) || float_equal(a, b) || float_less(b, a),
        float_equal(a, b) == float_equal(b, a),
{
}

} // verus!
