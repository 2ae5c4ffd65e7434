//! Comparison of floating-point numbers by their bit patterns (IEEE 754, double
//! precision).

use vstd::prelude::*;

verus! {

/// The bit pattern without the sign.
pub open spec fn magnitude(bits: u64) -> int {
    bits as int % 0x8000_0000_0000_0000
}

/// The bit pattern is that of a finite number.
pub open spec fn is_finite_pattern(bits: u64) -> bool {
    magnitude(bits) < 0x7ff0_0000_0000_0000
}

/// The bit pattern is not that of a number.
pub open spec fn is_nan(bits: u64) -> bool {
    magnitude(bits) > 0x7ff0_0000_0000_0000
}

/// The bit pattern that stands for "not a number".
pub const NOT_A_NUMBER: u64 = 0x7ff8_0000_0000_0000;

/// The bit pattern, with one pattern for everything that is not a number.
pub open spec fn settled(bits: u64) -> u64 {
    if is_nan(bits) {
        NOT_A_NUMBER
    } else {
        bits
    }
}

/// An integer that is ordered as the number is; both zeros are the same.
pub open spec fn rank(bits: u64) -> int {
    if bits >= 0x8000_0000_0000_0000 {
        -magnitude(bits)
    } else {
        magnitude(bits)
    }
}

/// `a` is less than `b`.
pub open spec fn below(a: u64, b: u64) -> bool {
    !is_nan(a) && !is_nan(b) && rank(a) < rank(b)
}

/// `a` is at most `b`.
pub open spec fn at_most(a: u64, b: u64) -> bool {
    !is_nan(a) && !is_nan(b) && rank(a) <= rank(b)
}

/// `a` and `b` are the same number; both zeros are the same.
pub open spec fn equal(a: u64, b: u64) -> bool {
    !is_nan(a) && !is_nan(b) && rank(a) == rank(b)
}

/// Numbers are ordered: of two that are comparable, one is less or they are
/// equal, and "less" is transitive.
pub proof fn numbers_are_ordered(a: u64, b: u64, c: u64)
    requires
        !is_nan(a),
        !is_nan(b),
        !is_nan(c),
    ensures
        at_most(a, b) == !below(b, a),
        below(a, b) && below(b, c) ==> below(a, c),
        at_most(a, b) && at_most(b, c) ==> at_most(a, c),
{
}

/// Among numbers without a sign the greater bit pattern is the greater number, among
/// those with a sign the lesser one, and a number with a sign is below every number
/// without, but for the two zeros, which are the same.
pub proof fn patterns_order_numbers(a: u64, b: u64)
    requires
        !is_nan(a),
        !is_nan(b),
        a < b,
    ensures
        b < 0x8000_0000_0000_0000 ==> below(a, b),
        a >= 0x8000_0000_0000_0000 ==> below(b, a),
        a < 0x8000_0000_0000_0000 <= b && !(a == 0 && b == 0x8000_0000_0000_0000) ==> below(b, a),
        a == 0 && b == 0x8000_0000_0000_0000 ==> equal(a, b) && !below(a, b) && !below(b, a),
{
}

fn number_rank(bits: u64) -> (r: i64)
    ensures
        r == rank(bits),
{
    if bits >= 0x8000_0000_0000_0000 {
        -((bits - 0x8000_0000_0000_0000) as i64)
    } else {
        bits as i64
    }
}

fn not_a_number(bits: u64) -> (r: bool)
    ensures
        r == is_nan(bits),
{
    bits % 0x8000_0000_0000_0000 > 0x7ff0_0000_0000_0000
}

/// The bit pattern, with one pattern for everything that is not a number.
pub fn settle(bits: u64) -> (r: u64)
    ensures
        r == settled(bits),
{
    if not_a_number(bits) {
        NOT_A_NUMBER
    } else {
        bits
    }
}

/// Whether the bit pattern is that of a finite number.
pub fn is_finite(bits: u64) -> (r: bool)
    ensures
        r == is_finite_pattern(bits),
{
    bits % 0x8000_0000_0000_0000 < 0x7ff0_0000_0000_0000
}

/// Whether `a` is less than `b`.
pub fn less(a: u64, b: u64) -> (r: bool)
    ensures
        r == below(a, b),
{
    !not_a_number(a) && !not_a_number(b) && number_rank(a) < number_rank(b)
}

/// Whether `a` is at most `b`.
pub fn less_or_equal(a: u64, b: u64) -> (r: bool)
    ensures
        r == at_most(a, b),
{
    !not_a_number(a) && !not_a_number(b) && number_rank(a) <= number_rank(b)
}

/// Whether `a` and `b` are the same number.
pub fn same(a: u64, b: u64) -> (r: bool)
    ensures
        r == equal(a, b),
{
    !not_a_number(a) && !not_a_number(b) && number_rank(a) == number_rank(b)
}

/// A feature is dropped at a zoom level where it is smaller than `limit` both
/// ways. A point has no size and is always kept.
pub open spec fn is_noise(width: u64, height: u64, limit: u64) -> bool {
    (below(0, width) || below(0, height)) && below(width, limit) && below(height, limit)
}

/// A feature without any size is never dropped, and neither is one that reaches the
/// limit one way; one that has a size and stays below the limit both ways is. Width
/// and height count alike, and what is dropped at a limit is dropped at a greater one.
pub proof fn only_what_is_small_both_ways_is_dropped(width: u64, height: u64, limit: u64, more: u64)
    ensures
        !is_noise(0, 0, limit),
        at_most(limit, width) || at_most(limit, height) ==> !is_noise(width, height, limit),
        (below(0, width) || below(0, height)) && below(width, limit) && below(height, limit)
            ==> is_noise(width, height, limit),
        is_noise(width, height, limit) == is_noise(height, width, limit),
        is_noise(width, height, limit) && at_most(limit, more) ==> is_noise(width, height, more),
{
}

/// Whether a feature of the given size is dropped.
pub fn is_subpixel(width: u64, height: u64, limit: u64) -> (r: bool)
    ensures
        r == is_noise(width, height, limit),
{
    (less(0, width) || less(0, height)) && less(width, limit) && less(height, limit)
}

/// What is no number has one pattern, and every number keeps its own.
pub proof fn numbers_keep_their_pattern(bits: u64)
    ensures
        is_nan(settled(bits)) <==> is_nan(bits),
        is_nan(bits) ==> settled(bits) == 0x7ff8_0000_0000_0000u64,
        !is_nan(bits) ==> settled(bits) == bits,
{
}

} // verus!
