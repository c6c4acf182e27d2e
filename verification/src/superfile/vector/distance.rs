//! Metrics, and the stored forms of the numbers that they are computed of.
//!
//! A number is handled here as its 32 bits: a sign, eight bits of exponent
//! and the mantissa. Its narrow form keeps the upper half of them.

use vstd::prelude::*;
use crate::numbers::{le_value, lemma_byte_spans, read_le};

verus! {

/// How the distance of two vectors is measured. Smaller is closer.
#[derive(Debug, Clone, Copy, PartialEq, Eq, Structural)]
pub enum Metric {
    /// One minus the dot product, for vectors of length one.
    Cosine,
    /// The square of the Euclidean distance.
    L2Sq,
    /// The dot product, negated.
    NegDot,
}

/// The bits of the exponent, all set.
pub const EXPONENT_BITS: u32 = 0x7F80_0000;

/// The bit of the sign.
pub const SIGN_BIT: u32 = 0x8000_0000;

/// The bit that keeps a narrowed NaN a NaN.
pub const NARROW_QUIET_BIT: u32 = 0x40;

/// How many values the dropped half of a number has.
pub const NARROW_UNIT: u32 = 0x1_0000;

/// The number without its sign.
pub open spec fn magnitude(bits: u32) -> int {
    bits as int % (SIGN_BIT as int)
}

/// Has the number a sign?
pub open spec fn is_negative(bits: u32) -> bool {
    bits >= SIGN_BIT
}

/// Is it no number at all?
pub open spec fn is_nan(bits: u32) -> bool {
    magnitude(bits) > EXPONENT_BITS
}

/// The number with the lower half of its bits zero.
pub open spec fn widened(narrow: u16) -> u32 {
    (narrow as int * NARROW_UNIT) as u32
}

/// The narrow form that is nearest to a number; of two that are equally near,
/// the even one.
pub open spec fn nearest_even(bits: u32) -> int {
    let below = bits as int / (NARROW_UNIT as int);
    let rest = bits as int % (NARROW_UNIT as int);
    if 2 * rest < NARROW_UNIT || (2 * rest == NARROW_UNIT && below % 2 == 0) {
        below
    } else {
        below + 1
    }
}

/// The narrow form of a number: the nearest one, and a NaN for a NaN.
pub open spec fn narrowed(bits: u32) -> u16 {
    if is_nan(bits) {
        ((bits >> 16) | NARROW_QUIET_BIT) as u16
    } else {
        nearest_even(bits) as u16
    }
}

/// The narrow form of a number.
pub fn fp32_to_bf16(bits: u32) -> (narrow: u16)
    ensures
        narrow == narrowed(bits),
        !is_nan(bits) ==> narrow == nearest_even(bits),
{
    assert(bits & 0x7FFF_FFFF == bits % 0x8000_0000) by (bit_vector);
    if bits & 0x7FFF_FFFF > EXPONENT_BITS {
        ((bits >> 16) | NARROW_QUIET_BIT) as u16
    } else {
        assert((bits >> 16) == bits / 0x1_0000 && (bits >> 16) & 1 == (bits / 0x1_0000) % 2)
            by (bit_vector);
        let bias: u32 = 0x7FFF + ((bits >> 16) & 1);
        let sum = bits + bias;
        assert((sum >> 16) == sum / 0x1_0000) by (bit_vector);
        (sum >> 16) as u16
    }
}

/// The number that a narrow form stands for.
pub fn bf16_to_f32(narrow: u16) -> (bits: u32)
    ensures
        bits == widened(narrow),
        bits == narrow * NARROW_UNIT,
{
    narrow as u32 * NARROW_UNIT
}

/// Widening is exact: narrowing what was widened gives the narrow form back,
/// if it stands for a number.
pub proof fn lemma_widened_narrows_back(narrow: u16)
    requires
        !is_nan(widened(narrow)),
    ensures
        narrowed(widened(narrow)) == narrow,
{
}

/// A number whose lower half is zero comes through its narrow form unchanged.
pub proof fn lemma_short_numbers_survive(bits: u32)
    requires
        !is_nan(bits),
        bits as int % (NARROW_UNIT as int) == 0,
    ensures
        widened(narrowed(bits)) == bits,
{
    lemma_narrow_fits(bits);
}

/// Narrowing moves a number by at most half the distance of two narrow ones,
/// and no other narrow form is nearer.
pub proof fn lemma_narrowed_is_nearest(bits: u32, other: u16)
    requires
        !is_nan(bits),
    ensures
        -(NARROW_UNIT as int) <= 2 * (widened(narrowed(bits)) - bits) <= NARROW_UNIT,
        ({
            let ours = widened(narrowed(bits)) - bits;
            let theirs = widened(other) - bits;
            (if ours < 0 {
                -ours
            } else {
                ours
            }) <= (if theirs < 0 {
                -theirs
            } else {
                theirs
            })
        }),
{
    lemma_narrow_fits(bits);
    let below = bits as int / (NARROW_UNIT as int);
    let rest = bits as int % (NARROW_UNIT as int);
    assert(bits == below * NARROW_UNIT + rest);
    if other <= below {
        assert(widened(other) <= below * NARROW_UNIT);
    } else {
        assert(widened(other) >= (below + 1) * NARROW_UNIT);
    }
}

/// A number that is no NaN has a narrow form.
proof fn lemma_narrow_fits(bits: u32)
    requires
        !is_nan(bits),
    ensures
        0 <= nearest_even(bits) <= 0xFF80,
{
}

/// Narrowing keeps a NaN a NaN, and keeps its sign.
pub proof fn lemma_nan_stays_nan(bits: u32)
    requires
        is_nan(bits),
    ensures
        is_nan(widened(narrowed(bits))),
        is_negative(widened(narrowed(bits))) == is_negative(bits),
{
    let high: u32 = bits >> 16;
    let quiet: u32 = high | 0x40;
    assert(high == bits / 0x1_0000) by (bit_vector)
        requires
            high == bits >> 16,
    ;
    assert(quiet < 0x1_0000 && quiet % 0x8000 >= 0x7FC0 && (quiet >= 0x8000) == (high >= 0x8000))
        by (bit_vector)
        requires
            high < 0x1_0000,
            high % 0x8000 >= 0x7F80,
            quiet == high | 0x40,
    ;
}

/// The key that numbers are ordered by: the number without its sign, negated
/// if it has one. Both zeros have the key 0; that of a NaN is beyond the
/// infinities.
pub open spec fn order_key(bits: u32) -> int {
    if is_negative(bits) {
        -magnitude(bits)
    } else {
        magnitude(bits)
    }
}

/// [`order_key`] as a number that is not negative.
pub open spec fn sort_key(bits: u32) -> u64 {
    (order_key(bits) + SIGN_BIT) as u64
}

/// The key that a number is sorted by.
pub fn score_key(bits: u32) -> (key: u64)
    ensures
        key == sort_key(bits),
        key == order_key(bits) + SIGN_BIT,
{
    if bits >= SIGN_BIT {
        (SIGN_BIT - (bits - SIGN_BIT)) as u64
    } else {
        (bits as u64) + SIGN_BIT as u64
    }
}

/// Is the first number less than the second? Beside a NaN nothing is less.
pub open spec fn is_less(a: u32, b: u32) -> bool {
    !is_nan(a) && !is_nan(b) && order_key(a) < order_key(b)
}

/// Is the number a NaN?
pub(crate) fn has_nan_bits(bits: u32) -> (res: bool)
    ensures
        res == is_nan(bits),
{
    bits % SIGN_BIT > EXPONENT_BITS
}

/// Is the first number less than the second?
pub(crate) fn less(a: u32, b: u32) -> (res: bool)
    ensures
        res == is_less(a, b),
{
    !has_nan_bits(a) && !has_nan_bits(b) && score_key(a) < score_key(b)
}

/// Number `i` of a vector stored as little-endian numbers of 32 bits.
pub fn fp32_lane(bytes: &[u8], i: usize) -> (bits: u32)
    requires
        4 * i + 4 <= bytes@.len(),
    ensures
        bits == le_value(bytes@.subrange(4 * i, 4 * i + 4)),
{
    assert(bytes.len() == bytes@.len());
    let value = read_le(bytes, 4 * i, 4);
    proof {
        lemma_byte_spans();
    }
    value as u32
}

/// Number `i` of a vector stored as little-endian narrow forms.
pub fn bf16_lane(bytes: &[u8], i: usize) -> (bits: u32)
    requires
        2 * i + 2 <= bytes@.len(),
    ensures
        bits == widened(le_value(bytes@.subrange(2 * i, 2 * i + 2)) as u16),
{
    assert(bytes.len() == bytes@.len());
    let value = read_le(bytes, 2 * i, 2);
    proof {
        lemma_byte_spans();
    }
    bf16_to_f32(value as u16)
}

/// Numbers are ordered as their bits are if they have no sign, as their bits are
/// the other way round if both have one, and one with a sign is not above one
/// without. The two zeros are equal.
pub proof fn lemma_order_of_numbers(a: u32, b: u32)
    ensures
        a < 0x8000_0000 && b < 0x8000_0000 ==> (order_key(a) < order_key(b) <==> a < b),
        a >= 0x8000_0000 && b >= 0x8000_0000 ==> (order_key(a) < order_key(b) <==> a > b),
        a >= 0x8000_0000 && b < 0x8000_0000 ==> (order_key(a) < order_key(b) <==> !(a
            == 0x8000_0000 && b == 0)),
        a < 0x8000_0000 && b >= 0x8000_0000 ==> !(order_key(a) < order_key(b)),
        sort_key(a) < sort_key(b) <==> order_key(a) < order_key(b),
{
}

/// A NaN has all bits of the exponent set, and a mantissa that is not zero.
pub proof fn lemma_what_a_nan_is(bits: u32)
    ensures
        is_nan(bits) <==> 0x7F80_0000 < bits < 0x8000_0000 || bits > 0xFF80_0000,
{
}

/// One number is less than another if it comes before it; beside a NaN nothing is
/// less.
pub proof fn lemma_less(a: u32, b: u32, res: bool)
    requires
        res == is_less(a, b),
    ensures
        is_nan(a) || is_nan(b) ==> !res,
        !is_nan(a) && !is_nan(b) ==> (res <==> order_key(a) < order_key(b)),
        !is_nan(a) && !is_nan(b) ==> res || is_less(b, a) || order_key(a) == order_key(b),
{
}

} // verus!
