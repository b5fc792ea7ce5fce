//! Single-precision scalars as raw words.
//!
//! A scalar is the 32-bit IEEE-754 pattern of a number: bit 31 is the sign,
//! the 31 bits below it the magnitude. Magnitudes above that of infinity are
//! not numbers. Everything here is integer arithmetic on those patterns.

use vstd::prelude::*;

verus! {

/// The pattern of `+0.0`, the word that pads a buffer.
pub const ZERO: u32 = 0;

/// The pattern of `1.0`.
pub const ONE: u32 = 0x3f80_0000;

/// The pattern of positive infinity, the largest magnitude that is a number.
pub const INFINITY: u32 = 0x7f80_0000;

/// The value of the sign bit.
pub const SIGN: u32 = 0x8000_0000;

/// The word without its sign bit.
pub open spec fn magnitude(w: u32) -> int {
    (w as int) % (SIGN as int)
}

/// Whether the sign bit is set.
pub open spec fn is_negative(w: u32) -> bool {
    w >= SIGN
}

/// Whether the word is not a number.
pub open spec fn is_nan(w: u32) -> bool {
    magnitude(w) > INFINITY as int
}

/// Whether the word is `+0.0` or `-0.0`.
pub open spec fn is_zero(w: u32) -> bool {
    magnitude(w) == 0
}

/// A number's place on the integer line: numbers compare as their keys do.
/// Both zeros have key 0.
pub open spec fn order_key(w: u32) -> int {
    if is_negative(w) {
        -magnitude(w)
    } else {
        magnitude(w)
    }
}

/// `a < b` as numbers: false as soon as one of the two is not a number.
pub open spec fn less_than(a: u32, b: u32) -> bool {
    !is_nan(a) && !is_nan(b) && order_key(a) < order_key(b)
}

/// `w > 0.0` as numbers.
pub open spec fn is_positive(w: u32) -> bool {
    !is_nan(w) && order_key(w) > 0
}

/// Tests whether a word is not a number.
pub fn word_is_nan(w: u32) -> (r: bool)
    ensures
        r == is_nan(w),
{
    w % SIGN > INFINITY
}

/// Tests whether a word is one of the two zeros.
pub fn word_is_zero(w: u32) -> (r: bool)
    ensures
        r == is_zero(w),
{
    w % SIGN == 0
}

/// Tests whether a word is a number above zero.
pub fn word_is_positive(w: u32) -> (r: bool)
    ensures
        r == is_positive(w),
{
    0 < w && w <= INFINITY
}

/// Tests `a < b` as numbers.
pub fn word_less_than(a: u32, b: u32) -> (r: bool)
    ensures
        r == less_than(a, b),
{
    if word_is_nan(a) || word_is_nan(b) {
        false
    } else if a >= SIGN {
        if b >= SIGN {
            // both negative: the larger magnitude is the smaller number
            a % SIGN > b % SIGN
        } else {
            a % SIGN > 0 || b > 0
        }
    } else {
        b < SIGN && a < b
    }
}

/// On numbers `less_than` is a strict weak order: irreflexive, transitive,
/// and so is "neither is less than the other".
pub proof fn lemma_less_than_orders_numbers(a: u32, b: u32, c: u32)
    ensures
        !less_than(a, a),
        less_than(a, b) ==> !less_than(b, a),
        less_than(a, b) && less_than(b, c) ==> less_than(a, c),
        !is_nan(a) && !is_nan(b) && !is_nan(c) && !less_than(b, a) && !less_than(c, b)
            ==> !less_than(c, a),
{
}

} // verus!
