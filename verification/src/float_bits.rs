//! Single-precision numbers by their bit patterns.
//!
//! Retained-output signatures hold floating-point facts as bits. The few questions that
//! validity asks of them are answered on the bits alone.

use vstd::prelude::*;

verus! {

/// The bit pattern without its sign.
pub open spec fn magnitude(bits: u32) -> int {
    bits as int % 0x8000_0000
}

/// Whether the sign bit is set.
pub open spec fn is_negative(bits: u32) -> bool {
    bits >= 0x8000_0000
}

/// Whether the bits stand for no number.
pub open spec fn is_nan(bits: u32) -> bool {
    magnitude(bits) > 0x7f80_0000
}

/// Whether the bits stand for a number that is neither infinite nor missing.
pub open spec fn is_finite(bits: u32) -> bool {
    magnitude(bits) < 0x7f80_0000
}

/// Whether the bits stand for a zero of either sign.
pub open spec fn is_zero(bits: u32) -> bool {
    magnitude(bits) == 0
}

/// Numeric equality: zeroes of either sign are equal, and what is no number equals
/// nothing.
pub open spec fn numerically_equal(a: u32, b: u32) -> bool {
    !is_nan(a) && !is_nan(b) && (a == b || (is_zero(a) && is_zero(b)))
}

/// Returns whether two bit patterns stand for equal numbers.
pub fn equal_numbers(a: u32, b: u32) -> (equal: bool)
    ensures
        equal == numerically_equal(a, b),
{
    let magnitude_a: u32 = a % 0x8000_0000;
    let magnitude_b: u32 = b % 0x8000_0000;
    magnitude_a <= 0x7f80_0000 && magnitude_b <= 0x7f80_0000 && (a == b || (magnitude_a == 0
        && magnitude_b == 0))
}

/// The bit pattern of a double-precision number without its sign.
pub open spec fn wide_magnitude(bits: u64) -> int {
    bits as int % 0x8000_0000_0000_0000
}

/// Numeric equality of double-precision numbers: zeroes of either sign are equal, and what is
/// no number equals nothing.
pub open spec fn numerically_equal_wide(a: u64, b: u64) -> bool {
    &&& wide_magnitude(a) <= 0x7ff0_0000_0000_0000
    &&& wide_magnitude(b) <= 0x7ff0_0000_0000_0000
    &&& a == b || (wide_magnitude(a) == 0 && wide_magnitude(b) == 0)
}

/// Returns whether two bit patterns stand for equal double-precision numbers.
pub fn equal_wide_numbers(a: u64, b: u64) -> (equal: bool)
    ensures
        equal == numerically_equal_wide(a, b),
{
    let magnitude_a: u64 = a % 0x8000_0000_0000_0000;
    let magnitude_b: u64 = b % 0x8000_0000_0000_0000;
    magnitude_a <= 0x7ff0_0000_0000_0000 && magnitude_b <= 0x7ff0_0000_0000_0000 && (a == b || (
    magnitude_a == 0 && magnitude_b == 0))
}

/// The bits with a negative zero replaced by the positive one.
pub open spec fn canonical(bits: u32) -> u32 {
    if is_zero(bits) {
        0
    } else {
        bits
    }
}

/// Returns the bits with a negative zero replaced by the positive one.
pub fn canonical_bits(bits: u32) -> (canonical: u32)
    ensures
        canonical == self::canonical(bits),
{
    if bits % 0x8000_0000 == 0 {
        0
    } else {
        bits
    }
}

/// Numbers have equal canonical bits exactly when they are equal.
pub proof fn canonical_bits_decide_equality(a: u32, b: u32)
    requires
        !is_nan(a),
        !is_nan(b),
    ensures
        canonical(a) == canonical(b) <==> numerically_equal(a, b),
        canonical(canonical(a)) == canonical(a),
{
}

/// The bits of a rectangle's coordinates and extent.
#[derive(Debug, Clone, Copy, PartialEq, Eq, Structural)]
pub struct RectangleBits {
    pub x: u32,
    pub y: u32,
    pub width: u32,
    pub height: u32,
}

/// Numeric equality of every coordinate and both extents.
pub open spec fn numerically_equal_rectangles(a: RectangleBits, b: RectangleBits) -> bool {
    &&& numerically_equal(a.x, b.x)
    &&& numerically_equal(a.y, b.y)
    &&& numerically_equal(a.width, b.width)
    &&& numerically_equal(a.height, b.height)
}

/// Returns whether two rectangles are equal as numbers.
pub fn equal_rectangles(a: RectangleBits, b: RectangleBits) -> (equal: bool)
    ensures
        equal == numerically_equal_rectangles(a, b),
{
    equal_numbers(a.x, b.x) && equal_numbers(a.y, b.y) && equal_numbers(a.width, b.width)
        && equal_numbers(a.height, b.height)
}

/// Returns a rectangle's bits with every negative zero replaced.
pub fn rectangle_bits(rectangle: RectangleBits) -> (bits: RectangleBits)
    ensures
        bits == (RectangleBits {
            x: canonical(rectangle.x),
            y: canonical(rectangle.y),
            width: canonical(rectangle.width),
            height: canonical(rectangle.height),
        }),
{
    RectangleBits {
        x: canonical_bits(rectangle.x),
        y: canonical_bits(rectangle.y),
        width: canonical_bits(rectangle.width),
        height: canonical_bits(rectangle.height),
    }
}

/// The bits of the four sides by which a capture is expanded.
#[derive(Debug, Clone, Copy, PartialEq, Eq, Structural)]
pub struct ExpansionBits {
    pub top: u32,
    pub right: u32,
    pub bottom: u32,
    pub left: u32,
}

/// Whether a side is finite and not below zero.
pub open spec fn is_valid_side(bits: u32) -> bool {
    is_finite(bits) && (!is_negative(bits) || is_zero(bits))
}

/// Returns a valid side with a negative zero replaced, and nothing for an invalid one.
pub fn canonical_expansion_side(bits: u32) -> (side: Option<u32>)
    ensures
        side == (if is_valid_side(bits) {
            Some(canonical(bits))
        } else {
            None
        }),
{
    if bits == 0x8000_0000 {
        Some(0)
    } else if bits < 0x7f80_0000 {
        Some(bits)
    } else {
        None
    }
}

impl ExpansionBits {
    /// Whether every side is finite and not below zero.
    pub open spec fn valid(self) -> bool {
        is_valid_side(self.top) && is_valid_side(self.right) && is_valid_side(self.bottom)
            && is_valid_side(self.left)
    }

    /// Every side with a negative zero replaced.
    pub open spec fn canonical(self) -> ExpansionBits {
        ExpansionBits {
            top: canonical(self.top),
            right: canonical(self.right),
            bottom: canonical(self.bottom),
            left: canonical(self.left),
        }
    }
}

/// Returns a valid expansion with every negative zero replaced, and nothing for an
/// expansion with an invalid side.
pub fn canonical_expansion(expansion: ExpansionBits) -> (canonical: Option<ExpansionBits>)
    ensures
        canonical == (if expansion.valid() {
            Some(expansion.canonical())
        } else {
            None
        }),
{
    let top: u32 = match canonical_expansion_side(expansion.top) {
        Some(side) => side,
        None => return None,
    };
    let right: u32 = match canonical_expansion_side(expansion.right) {
        Some(side) => side,
        None => return None,
    };
    let bottom: u32 = match canonical_expansion_side(expansion.bottom) {
        Some(side) => side,
        None => return None,
    };
    let left: u32 = match canonical_expansion_side(expansion.left) {
        Some(side) => side,
        None => return None,
    };
    Some(ExpansionBits { top, right, bottom, left })
}

/// Orders the bits of numbers as the numbers: zeroes of either sign rank alike.
pub open spec fn rank(bits: u32) -> int {
    if is_negative(bits) {
        -magnitude(bits)
    } else {
        magnitude(bits)
    }
}

/// Returns whether one number lies below another. What is no number lies below nothing.
pub fn is_below(a: u32, b: u32) -> (below: bool)
    ensures
        below == (!is_nan(a) && !is_nan(b) && rank(a) < rank(b)),
{
    let magnitude_a: u32 = a % 0x8000_0000;
    let magnitude_b: u32 = b % 0x8000_0000;
    if magnitude_a > 0x7f80_0000 || magnitude_b > 0x7f80_0000 {
        return false;
    }
    match (a >= 0x8000_0000, b >= 0x8000_0000) {
        (false, false) => magnitude_a < magnitude_b,
        (false, true) => false,
        (true, false) => magnitude_a > 0 || magnitude_b > 0,
        (true, true) => magnitude_a > magnitude_b,
    }
}

/// The bits of a number brought between zero and `maximum`, with a negative zero replaced.
/// What is no number becomes zero.
pub open spec fn limited(bits: u32, maximum: u32) -> u32 {
    if is_nan(bits) || is_negative(bits) {
        0
    } else if bits > maximum {
        maximum
    } else {
        bits
    }
}

/// Returns the bits of a number brought between zero and `maximum`.
pub fn limit(bits: u32, maximum: u32) -> (limited: u32)
    ensures
        limited == self::limited(bits, maximum),
{
    if bits > 0x7f80_0000 {
        0
    } else if bits > maximum {
        maximum
    } else {
        bits
    }
}

/// Limiting gives a number between zero and the maximum, and limiting twice changes
/// nothing more.
pub proof fn limiting_is_idempotent(bits: u32, maximum: u32)
    requires
        maximum < 0x7f80_0000,
    ensures
        limited(limited(bits, maximum), maximum) == limited(bits, maximum),
        0 <= rank(limited(bits, maximum)) <= rank(maximum),
        is_valid_side(limited(bits, maximum)),
{
}

/// Numbers are equal exactly if their bits are, but for the sign of zero. What is no number is
/// not even equal to itself.
pub proof fn equality_is_numeric(a: u32, b: u32)
    ensures
        numerically_equal(a, b) ==> a == b || (a % 0x8000_0000 == 0 && b % 0x8000_0000 == 0),
        a % 0x8000_0000 <= 0x7f80_0000 ==> numerically_equal(a, a),
        a % 0x8000_0000 > 0x7f80_0000 ==> !numerically_equal(a, b) && !numerically_equal(b, a),
        numerically_equal(0, 0x8000_0000),
{
}

/// Double-precision numbers are equal exactly if their bits are, but for the sign of zero. What
/// is no number is not even equal to itself.
pub proof fn wide_equality_is_numeric(a: u64, b: u64)
    ensures
        numerically_equal_wide(a, b) ==> a == b || (a % 0x8000_0000_0000_0000 == 0 && b
            % 0x8000_0000_0000_0000 == 0),
        a % 0x8000_0000_0000_0000 <= 0x7ff0_0000_0000_0000 ==> numerically_equal_wide(a, a),
        a % 0x8000_0000_0000_0000 > 0x7ff0_0000_0000_0000 ==> !numerically_equal_wide(a, b)
            && !numerically_equal_wide(b, a),
        numerically_equal_wide(0, 0x8000_0000_0000_0000),
{
}

/// Rectangles are equal exactly if each of their four numbers is.
pub proof fn rectangles_are_equal_side_by_side(a: RectangleBits, b: RectangleBits)
    ensures
        numerically_equal_rectangles(a, b) <==> numerically_equal(a.x, b.x) && numerically_equal(
            a.y,
            b.y,
        ) && numerically_equal(a.width, b.width) && numerically_equal(a.height, b.height),
{
}

/// Canonical bits stand for the same number, and never for a negative zero.
pub proof fn canonical_bits_keep_the_number(bits: u32)
    ensures
        canonical(bits) != 0x8000_0000,
        bits % 0x8000_0000 != 0 ==> canonical(bits) == bits,
        bits % 0x8000_0000 == 0 ==> canonical(bits) == 0,
{
}

/// Sides are valid exactly if they are finite numbers that are not below zero.
pub proof fn valid_sides_are_finite_and_not_negative(bits: u32)
    ensures
        is_valid_side(bits) <==> bits < 0x7f80_0000 || bits == 0x8000_0000,
{
}

/// An expansion is valid exactly if all four sides are, and each side keeps its number.
pub proof fn expansions_are_valid_side_by_side(expansion: ExpansionBits)
    ensures
        expansion.valid() <==> is_valid_side(expansion.top) && is_valid_side(expansion.right)
            && is_valid_side(expansion.bottom) && is_valid_side(expansion.left),
        expansion.valid() ==> {
            &&& numerically_equal(expansion.canonical().top, expansion.top)
            &&& numerically_equal(expansion.canonical().right, expansion.right)
            &&& numerically_equal(expansion.canonical().bottom, expansion.bottom)
            &&& numerically_equal(expansion.canonical().left, expansion.left)
        },
{
}

} // verus!
