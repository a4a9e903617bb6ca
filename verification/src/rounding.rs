//! Exact integers near single-precision numbers, from their bits.

use crate::float_bits::{is_finite, is_negative, magnitude, rank};
use vstd::arithmetic::power2::{lemma_pow2_adds, lemma_pow2_pos, lemma_pow2_unfold, pow2};
use vstd::prelude::*;

verus! {

/// The stored exponent.
pub open spec fn exponent(bits: u32) -> int {
    magnitude(bits) / 0x80_0000
}

/// The significand with its implicit bit.
pub open spec fn significand(bits: u32) -> int {
    if exponent(bits) == 0 {
        magnitude(bits) % 0x80_0000
    } else {
        magnitude(bits) % 0x80_0000 + 0x80_0000
    }
}

/// The exponent above that of the smallest positive number.
pub open spec fn elevation(bits: u32) -> int {
    if exponent(bits) == 0 {
        0
    } else {
        exponent(bits) - 1
    }
}

/// How many of the smallest positive number make up one.
pub open spec fn one() -> int {
    pow2(149) as int
}

/// How many of the smallest positive number make up the absolute value.
pub open spec fn absolute_units(bits: u32) -> int {
    significand(bits) * pow2(elevation(bits) as nat)
}

/// How many of the smallest positive number make up the value.
pub open spec fn units(bits: u32) -> int {
    if is_negative(bits) {
        -absolute_units(bits)
    } else {
        absolute_units(bits)
    }
}

/// The greatest integer that is not above the value.
pub open spec fn floor(bits: u32) -> int {
    units(bits) / one()
}

/// The least integer that is not below the value.
pub open spec fn ceil(bits: u32) -> int {
    -((-units(bits)) / one())
}

/// The integer nearest to the value, away from zero if two are.
pub open spec fn round(bits: u32) -> int {
    let nearest = (2 * absolute_units(bits) + one()) / (2 * one());
    if is_negative(bits) {
        -nearest
    } else {
        nearest
    }
}

/// An integer that a machine word holds.
pub open spec fn held(value: int) -> Option<i64> {
    if i64::MIN <= value <= i64::MAX {
        Some(value as i64)
    } else {
        None
    }
}

proof fn lemma_large_power()
    ensures
        pow2(40) == 0x100_0000_0000,
        pow2(41) == 0x200_0000_0000,
{
    vstd::arithmetic::power2::lemma2_to64();
    lemma_pow2_adds(32, 8);
    lemma_pow2_unfold(41);
}

fn power_of_two(n: u32) -> (power: u64)
    requires
        n <= 40,
    ensures
        power == pow2(n as nat),
        power <= 0x100_0000_0000,
{
    let mut power: u64 = 1;
    let mut count: u32 = 0;
    proof {
        vstd::arithmetic::power2::lemma2_to64();
        lemma_large_power();
    }
    while count < n
        invariant
            count <= n <= 40,
            power == pow2(count as nat),
            pow2(40) == 0x100_0000_0000,
            power <= 0x100_0000_0000,
        decreases n - count,
    {
        proof {
            lemma_pow2_unfold((count + 1) as nat);
            lemma_pow2_order((count + 1) as nat, 40);
        }
        power = power * 2;
        count = count + 1;
    }
    power
}

proof fn lemma_pow2_order(a: nat, b: nat)
    requires
        a <= b,
    ensures
        pow2(a) <= pow2(b),
    decreases b,
{
    if a < b {
        lemma_pow2_unfold(b);
        lemma_pow2_order(a, (b - 1) as nat);
    }
}

/// The absolute value taken apart into whole ones and a rest.
struct Parts {
    whole: u64,
    rest: Ghost<int>,
    rest_is_zero: bool,
    rest_is_half: bool,
}

impl Parts {
    spec fn of(self, bits: u32) -> bool {
        &&& absolute_units(bits) == one() * self.whole + self.rest@
        &&& 0 <= self.rest@ < one()
        &&& self.rest_is_zero == (self.rest@ == 0)
        &&& self.rest_is_half == (2 * self.rest@ >= one())
    }
}

fn take_apart(bits: u32) -> (parts: Option<Parts>)
    requires
        is_finite(bits),
    ensures
        match parts {
            Some(parts) => parts.of(bits),
            None => absolute_units(bits) >= one() * 0x1_0000_0000_0000_0000,
        },
{
    let unsigned: u32 = bits % 0x8000_0000;
    let stored: u32 = unsigned / 0x80_0000;
    let fraction: u32 = unsigned % 0x80_0000;
    let value: u32 = if stored == 0 {
        fraction
    } else {
        fraction + 0x80_0000
    };
    let raised: u32 = if stored == 0 {
        0
    } else {
        stored - 1
    };
    proof {
        assert(value == significand(bits));
        assert(raised == elevation(bits));
    }
    if raised >= 149 {
        let shift: u32 = raised - 149;
        proof {
            lemma_pow2_adds(149, shift as nat);
            assert(absolute_units(bits) == value * (pow2(149) * pow2(shift as nat)));
            assert(value * (pow2(149) * pow2(shift as nat)) == pow2(149) * (value * pow2(
                shift as nat,
            ))) by (nonlinear_arith);
        }
        if shift > 40 {
            proof {
                lemma_large_power();
                lemma_pow2_order(41, shift as nat);
                lemma_pow2_pos(149);
                assert(value * pow2(shift as nat) >= 0x80_0000 * 0x200_0000_0000)
                    by (nonlinear_arith)
                    requires
                        value >= 0x80_0000,
                        pow2(shift as nat) >= 0x200_0000_0000,
                ;
                let product = value * pow2(shift as nat);
                let unit = one();
                assert(unit * product >= unit * 0x1_0000_0000_0000_0000) by (nonlinear_arith)
                    requires
                        product >= 0x1_0000_0000_0000_0000,
                        unit > 0,
                ;
            }
            return None;
        }
        let power: u64 = power_of_two(shift);
        proof {
            lemma_pow2_pos(149);
            assert(value * power <= 0xff_ffff * 0x100_0000_0000) by (nonlinear_arith)
                requires
                    0 <= value <= 0xff_ffff,
                    0 <= power <= 0x100_0000_0000,
            ;
        }
        return Some(
            Parts {
                whole: value as u64 * power,
                rest: Ghost(0),
                rest_is_zero: true,
                rest_is_half: false,
            },
        );
    }
    let shift: u32 = 149 - raised;
    let ghost low = pow2(raised as nat) as int;
    let ghost high = pow2(shift as nat) as int;
    proof {
        lemma_pow2_adds(raised as nat, shift as nat);
        lemma_pow2_pos(raised as nat);
        lemma_pow2_pos(shift as nat);
        assert(one() == low * high);
        assert(absolute_units(bits) == value * low);
    }
    if shift > 25 {
        proof {
            vstd::arithmetic::power2::lemma2_to64();
            lemma_pow2_order(26, shift as nat);
            assert(2 * (value * low) < low * high) by (nonlinear_arith)
                requires
                    0 <= 2 * value < high,
                    low > 0,
            ;
            assert((value * low == 0) == (value == 0)) by (nonlinear_arith)
                requires
                    value >= 0,
                    low > 0,
            ;
            assert(value * low >= 0) by (nonlinear_arith)
                requires
                    value >= 0,
                    low > 0,
            ;
        }
        return Some(
            Parts {
                whole: 0,
                rest: Ghost(value * low),
                rest_is_zero: value == 0,
                rest_is_half: false,
            },
        );
    }
    let power: u64 = power_of_two(shift);
    let whole: u64 = value as u64 / power;
    let rest: u64 = value as u64 % power;
    proof {
        vstd::arithmetic::power2::lemma2_to64();
        lemma_pow2_order(shift as nat, 25);
        vstd::arithmetic::div_mod::lemma_fundamental_div_mod(value as int, power as int);
        let w = whole as int;
        let r = rest as int;
        let v = value as int;
        assert(v * low == (low * high) * w + r * low) by (nonlinear_arith)
            requires
                v == high * w + r,
        ;
        assert(0 <= r * low < low * high) by (nonlinear_arith)
            requires
                0 <= r < high,
                low > 0,
        ;
        assert((r * low == 0) == (r == 0)) by (nonlinear_arith)
            requires
                r >= 0,
                low > 0,
        ;
        assert((2 * (r * low) >= low * high) == (2 * r >= high)) by (nonlinear_arith)
            requires
                r >= 0,
                low > 0,
                high > 0,
        ;
    }
    Some(
        Parts {
            whole,
            rest: Ghost(rest * low),
            rest_is_zero: rest == 0,
            rest_is_half: rest >= power - rest,
        },
    )
}

proof fn lemma_quotient(value: int, divisor: int, quotient: int, rest: int)
    requires
        divisor > 0,
        value == divisor * quotient + rest,
        0 <= rest < divisor,
    ensures
        value / divisor == quotient,
{
    assert(divisor * quotient == quotient * divisor) by (nonlinear_arith);
    vstd::arithmetic::div_mod::lemma_fundamental_div_mod_converse(value, divisor, quotient, rest);
}

proof fn lemma_parts(bits: u32, parts: Parts)
    requires
        parts.of(bits),
    ensures
        floor(bits) == (if is_negative(bits) {
            -(parts.whole + (if parts.rest_is_zero {
                0int
            } else {
                1int
            }))
        } else {
            parts.whole as int
        }),
        ceil(bits) == (if is_negative(bits) {
            -(parts.whole as int)
        } else {
            parts.whole + (if parts.rest_is_zero {
                0int
            } else {
                1int
            })
        }),
        round(bits) == (if is_negative(bits) {
            -(parts.whole + (if parts.rest_is_half {
                1int
            } else {
                0int
            }))
        } else {
            parts.whole + (if parts.rest_is_half {
                1int
            } else {
                0int
            })
        }),
{
    let unit = one();
    let whole = parts.whole as int;
    let rest = parts.rest@;
    let value = absolute_units(bits);
    lemma_pow2_pos(149);
    lemma_quotient(value, unit, whole, rest);
    if rest == 0 {
        assert(-value == unit * (-whole) + 0) by (nonlinear_arith)
            requires
                value == unit * whole + rest,
                rest == 0,
        ;
        lemma_quotient(-value, unit, -whole, 0);
    } else {
        assert(-value == unit * (-whole - 1) + (unit - rest)) by (nonlinear_arith)
            requires
                value == unit * whole + rest,
        ;
        lemma_quotient(-value, unit, -whole - 1, unit - rest);
    }
    if 2 * rest >= unit {
        assert(2 * value + unit == (2 * unit) * (whole + 1) + (2 * rest - unit))
            by (nonlinear_arith)
            requires
                value == unit * whole + rest,
        ;
        lemma_quotient(2 * value + unit, 2 * unit, whole + 1, 2 * rest - unit);
    } else {
        assert(2 * value + unit == (2 * unit) * whole + (2 * rest + unit)) by (nonlinear_arith)
            requires
                value == unit * whole + rest,
        ;
        lemma_quotient(2 * value + unit, 2 * unit, whole, 2 * rest + unit);
    }
}

proof fn lemma_beyond(bits: u32)
    requires
        absolute_units(bits) >= one() * 0x1_0000_0000_0000_0000,
    ensures
        held(floor(bits)) is None,
        held(ceil(bits)) is None,
        held(round(bits)) is None,
{
    let unit = one();
    let value = absolute_units(bits);
    lemma_pow2_pos(149);
    vstd::arithmetic::div_mod::lemma_fundamental_div_mod(value, unit);
    let whole = value / unit;
    let rest = value % unit;
    assert(0 <= rest < unit);
    assert(whole >= 0x1_0000_0000_0000_0000) by (nonlinear_arith)
        requires
            value == unit * whole + rest,
            value >= unit * 0x1_0000_0000_0000_0000,
            0 <= rest < unit,
    ;
    let nearest = (2 * value + unit) / (2 * unit);
    if 2 * rest >= unit {
        assert(2 * value + unit == (2 * unit) * (whole + 1) + (2 * rest - unit))
            by (nonlinear_arith)
            requires
                value == unit * whole + rest,
        ;
        lemma_quotient(2 * value + unit, 2 * unit, whole + 1, 2 * rest - unit);
    } else {
        assert(2 * value + unit == (2 * unit) * whole + (2 * rest + unit)) by (nonlinear_arith)
            requires
                value == unit * whole + rest,
        ;
        lemma_quotient(2 * value + unit, 2 * unit, whole, 2 * rest + unit);
    }
    if rest == 0 {
        assert(-value == unit * (-whole) + 0) by (nonlinear_arith)
            requires
                value == unit * whole + rest,
                rest == 0,
        ;
        lemma_quotient(-value, unit, -whole, 0);
    } else {
        assert(-value == unit * (-whole - 1) + (unit - rest)) by (nonlinear_arith)
            requires
                value == unit * whole + rest,
        ;
        lemma_quotient(-value, unit, -whole - 1, unit - rest);
    }
}

fn signed(negative: bool, value: u64) -> (number: Option<i64>)
    ensures
        number == held(if negative {
            -(value as int)
        } else {
            value as int
        }),
{
    if negative {
        if value <= 0x7fff_ffff_ffff_ffff {
            Some(-(value as i64))
        } else if value == 0x8000_0000_0000_0000 {
            Some(i64::MIN)
        } else {
            None
        }
    } else if value <= 0x7fff_ffff_ffff_ffff {
        Some(value as i64)
    } else {
        None
    }
}

/// Returns the greatest integer that is not above a number, if a machine word holds it.
pub fn checked_floor(bits: u32) -> (integer: Option<i64>)
    ensures
        integer == (if is_finite(bits) {
            held(floor(bits))
        } else {
            None
        }),
{
    if bits % 0x8000_0000 >= 0x7f80_0000 {
        return None;
    }
    let negative = bits >= 0x8000_0000;
    match take_apart(bits) {
        Some(parts) => {
            proof {
                lemma_parts(bits, parts);
            }
            signed_up(negative, parts.whole, negative && !parts.rest_is_zero)
        },
        None => {
            proof {
                lemma_beyond(bits);
            }
            None
        },
    }
}

/// Returns the least integer that is not below a number, if a machine word holds it.
pub fn checked_ceil(bits: u32) -> (integer: Option<i64>)
    ensures
        integer == (if is_finite(bits) {
            held(ceil(bits))
        } else {
            None
        }),
{
    if bits % 0x8000_0000 >= 0x7f80_0000 {
        return None;
    }
    let negative = bits >= 0x8000_0000;
    match take_apart(bits) {
        Some(parts) => {
            proof {
                lemma_parts(bits, parts);
            }
            signed_up(negative, parts.whole, !negative && !parts.rest_is_zero)
        },
        None => {
            proof {
                lemma_beyond(bits);
            }
            None
        },
    }
}

/// Returns the integer nearest to a number, away from zero if two are, if a machine word
/// holds it.
pub fn checked_round(bits: u32) -> (integer: Option<i64>)
    ensures
        integer == (if is_finite(bits) {
            held(round(bits))
        } else {
            None
        }),
{
    if bits % 0x8000_0000 >= 0x7f80_0000 {
        return None;
    }
    let negative = bits >= 0x8000_0000;
    match take_apart(bits) {
        Some(parts) => {
            proof {
                lemma_parts(bits, parts);
            }
            signed_up(negative, parts.whole, parts.rest_is_half)
        },
        None => {
            proof {
                lemma_beyond(bits);
            }
            None
        },
    }
}

fn signed_up(negative: bool, whole: u64, up: bool) -> (number: Option<i64>)
    ensures
        ({
            let value = whole + (if up {
                1int
            } else {
                0int
            });
            number == held(if negative {
                -value
            } else {
                value
            })
        }),
{
    if !up {
        signed(negative, whole)
    } else if whole < 0xffff_ffff_ffff_ffff {
        signed(negative, whole + 1)
    } else {
        None
    }
}

/// The distance between the whole numbers of this size that single precision holds.
pub open spec fn spacing(value: u32) -> int {
    if value < 0x100_0000 {
        1
    } else if value < 0x200_0000 {
        2
    } else if value < 0x400_0000 {
        4
    } else if value < 0x800_0000 {
        8
    } else if value < 0x1000_0000 {
        16
    } else if value < 0x2000_0000 {
        32
    } else if value < 0x4000_0000 {
        64
    } else if value < 0x8000_0000 {
        128
    } else {
        256
    }
}

/// The whole number nearest to a given one that single precision holds, an even multiple of
/// the spacing if two are.
pub open spec fn nearest_whole(value: u32) -> int {
    let step = spacing(value);
    let below = value as int / step;
    let rest = value as int % step;
    if 2 * rest < step || (2 * rest == step && below % 2 == 0) {
        below * step
    } else {
        (below + 1) * step
    }
}

/// Whether the bits stand for a whole number, as nearly as they can.
pub open spec fn is_whole(bits: u32, value: u32) -> bool {
    &&& is_finite(bits)
    &&& !is_negative(bits)
    &&& units(bits) == nearest_whole(value) * one()
}

/// Numbers that need no more than the significand are held exactly.
pub proof fn small_wholes_are_exact(bits: u32, value: u32)
    requires
        is_whole(bits, value),
        value <= 0x100_0000,
    ensures
        units(bits) == value * one(),
{
}

/// Returns the bits of a whole number, rounded to the nearest one that single precision holds.
pub fn whole_bits(value: u32) -> (bits: u32)
    ensures
        is_whole(bits, value),
        value == 0 ==> bits == 0,
{
    if value < 0x100_0000 {
        return small_whole_bits(value);
    }
    let (shift, step): (u32, u32) = if value < 0x200_0000 {
        (1, 2)
    } else if value < 0x400_0000 {
        (2, 4)
    } else if value < 0x800_0000 {
        (3, 8)
    } else if value < 0x1000_0000 {
        (4, 16)
    } else if value < 0x2000_0000 {
        (5, 32)
    } else if value < 0x4000_0000 {
        (6, 64)
    } else if value < 0x8000_0000 {
        (7, 128)
    } else {
        (8, 256)
    };
    let below: u32 = value / step;
    let rest: u32 = value % step;
    assert(0x80_0000 <= below < 0x100_0000);
    assert(step == pow2(shift as nat)) by {
        vstd::arithmetic::power2::lemma2_to64();
    }
    let whole: u32 = if 2 * rest < step || (2 * rest == step && below % 2 == 0) {
        below
    } else {
        below + 1
    };
    assert(nearest_whole(value) == whole * step);
    if whole == 0x100_0000 {
        proof {
            lemma_pow2_unfold((shift + 1) as nat);
        }
        raised_bits(0x80_0000, shift + 1)
    } else {
        raised_bits(whole, shift)
    }
}

fn raised_bits(significand: u32, shift: u32) -> (bits: u32)
    requires
        0x80_0000 <= significand < 0x100_0000,
        shift <= 9,
    ensures
        is_finite(bits),
        !is_negative(bits),
        units(bits) == (significand * pow2(shift as nat)) * one(),
{
    let bits: u32 = (150 + shift) * 0x80_0000 + (significand - 0x80_0000);
    proof {
        assert(exponent(bits) == 150 + shift);
        assert(self::significand(bits) == significand);
        let low = pow2(shift as nat) as int;
        let unit = one();
        let value = significand as int;
        lemma_pow2_adds(shift as nat, 149);
        assert(value * (low * unit) == (value * low) * unit) by (nonlinear_arith);
    }
    bits
}

fn small_whole_bits(value: u32) -> (bits: u32)
    requires
        value < 0x100_0000,
    ensures
        is_finite(bits),
        !is_negative(bits),
        units(bits) == value * one(),
        value == 0 ==> bits == 0,
{
    if value == 0 {
        proof {
            lemma_zero_units();
            let unit = one();
            assert(0 * unit == 0) by (nonlinear_arith);
        }
        return 0;
    }
    let mut scaled: u32 = value;
    let mut shift: u32 = 0;
    proof {
        vstd::arithmetic::power2::lemma2_to64();
        let v = value as int;
        assert(v == v * 1) by (nonlinear_arith);
    }
    while scaled < 0x80_0000
        invariant
            0 < value < 0x100_0000,
            value <= scaled < 0x100_0000,
            scaled == value * pow2(shift as nat),
            shift <= 23,
            pow2(shift as nat) <= scaled,
            pow2(23) == 0x80_0000,
            pow2(24) == 0x100_0000,
        decreases 24 - shift,
    {
        proof {
            lemma_pow2_unfold((shift + 1) as nat);
            let s = shift as nat;
            assert(value * pow2((s + 1) as nat) == 2 * (value * pow2(s))) by (nonlinear_arith)
                requires
                    pow2((s + 1) as nat) == 2 * pow2(s),
            ;
            if shift == 23 {
                assert(false);
            }
        }
        scaled = scaled * 2;
        shift = shift + 1;
    }
    let bits: u32 = (150 - shift) * 0x80_0000 + (scaled - 0x80_0000);
    proof {
        assert(exponent(bits) == 150 - shift);
        assert(significand(bits) == scaled);
        let up = pow2((149 - shift) as nat) as int;
        let low = pow2(shift as nat) as int;
        let v = value as int;
        lemma_pow2_adds(shift as nat, (149 - shift) as nat);
        assert((v * low) * up == v * (low * up)) by (nonlinear_arith);
    }
    bits
}

/// Returns the bits of the least whole number that is not below a number of at least zero.
///
/// What is infinite or no number is returned as it is.
pub fn ceil_bits(bits: u32) -> (whole: u32)
    requires
        !is_negative(bits),
    ensures
        !is_finite(bits) ==> whole == bits,
        is_finite(bits) ==> is_finite(whole) && !is_negative(whole) && units(whole) == ceil(bits)
            * one(),
{
    if bits >= 0x4b00_0000 {
        proof {
            if is_finite(bits) {
                lemma_whole_numbers(bits);
            }
        }
        return bits;
    }
    proof {
        lemma_small_ceil(bits);
    }
    match checked_ceil(bits) {
        Some(whole) => whole_bits(whole as u32),
        None => bits,
    }
}

proof fn lemma_whole_numbers(bits: u32)
    requires
        is_finite(bits),
        !is_negative(bits),
        bits >= 0x4b00_0000,
    ensures
        units(bits) == ceil(bits) * one(),
{
    let raised = elevation(bits) as nat;
    let shift = (raised - 149) as nat;
    lemma_pow2_pos(149);
    lemma_pow2_adds(149, shift);
    let value = significand(bits);
    let whole = value * pow2(shift);
    let unit = one();
    assert(units(bits) == whole * unit) by (nonlinear_arith)
        requires
            units(bits) == value * (pow2(149) * pow2(shift)),
            whole == value * pow2(shift),
            unit == pow2(149),
    ;
    assert(-units(bits) == unit * (-whole) + 0) by (nonlinear_arith)
        requires
            units(bits) == whole * unit,
    ;
    lemma_quotient(-units(bits), unit, -whole, 0);
}

proof fn lemma_small_ceil(bits: u32)
    requires
        is_finite(bits),
        !is_negative(bits),
        bits < 0x4b00_0000,
    ensures
        0 <= ceil(bits) <= 0x80_0000,
{
    let raised = elevation(bits) as nat;
    let value = significand(bits);
    let unit = one();
    let total = absolute_units(bits);
    lemma_pow2_pos(149);
    lemma_pow2_pos(raised);
    lemma_pow2_order(raised, 148);
    lemma_pow2_unfold(149);
    let low = pow2(raised) as int;
    assert(0 <= total && 2 * total <= 0x100_0000 * unit) by (nonlinear_arith)
        requires
            total == value * low,
            0 <= value <= 0x100_0000,
            0 < low,
            2 * low <= unit,
    ;
    vstd::arithmetic::div_mod::lemma_fundamental_div_mod(-total, unit);
    let quotient = (-total) / unit;
    let rest = (-total) % unit;
    assert(-0x80_0000 <= quotient <= 0) by (nonlinear_arith)
        requires
            -total == unit * quotient + rest,
            0 <= rest < unit,
            0 <= total,
            2 * total <= 0x100_0000 * unit,
            unit > 0,
    ;
}

/// The order of ranks is the order of the numbers.
pub proof fn ranks_order_values(a: u32, b: u32)
    requires
        is_finite(a),
        is_finite(b),
    ensures
        rank(a) < rank(b) <==> units(a) < units(b),
        rank(a) == rank(b) <==> units(a) == units(b),
{
    lemma_magnitudes(a, b);
    lemma_magnitudes(b, a);
    lemma_magnitudes(a, 0);
    lemma_magnitudes(0, a);
    lemma_magnitudes(b, 0);
    lemma_magnitudes(0, b);
    lemma_zero_units();
}

proof fn lemma_zero_units()
    ensures
        absolute_units(0) == 0,
{
    let power = pow2(0) as int;
    assert(0 * power == 0) by (nonlinear_arith);
}

proof fn lemma_magnitudes(a: u32, b: u32)
    ensures
        magnitude(a) < magnitude(b) ==> absolute_units(a) < absolute_units(b),
        magnitude(a) == magnitude(b) ==> absolute_units(a) == absolute_units(b),
{
    let below = elevation(a) as nat;
    let above = elevation(b) as nat;
    let small = significand(a);
    let large = significand(b);
    lemma_pow2_pos(below);
    if magnitude(a) < magnitude(b) {
        if below == above {
            let power = pow2(below) as int;
            assert(small * power < large * power) by (nonlinear_arith)
                requires
                    small < large,
                    power > 0,
            ;
        } else {
            let power = pow2(below) as int;
            let greater = pow2(above) as int;
            lemma_pow2_unfold((below + 1) as nat);
            lemma_pow2_order((below + 1) as nat, above);
            assert(small * power < large * greater) by (nonlinear_arith)
                requires
                    0 <= small < 0x100_0000,
                    large >= 0x80_0000,
                    power > 0,
                    greater >= 2 * power,
            ;
        }
    }
}

/// Rounding down and rounding up enclose a number within one.
pub proof fn rounding_encloses(bits: u32)
    ensures
        floor(bits) * one() <= units(bits) < (floor(bits) + 1) * one(),
        (ceil(bits) - 1) * one() < units(bits) <= ceil(bits) * one(),
{
    let unit = one();
    let value = units(bits);
    lemma_pow2_pos(149);
    vstd::arithmetic::div_mod::lemma_fundamental_div_mod(value, unit);
    vstd::arithmetic::div_mod::lemma_fundamental_div_mod(-value, unit);
    let down = value / unit;
    let up = (-value) / unit;
    assert(down * unit <= value < (down + 1) * unit) by (nonlinear_arith)
        requires
            value == unit * down + value % unit,
            0 <= value % unit < unit,
    ;
    assert((-up - 1) * unit < value <= (-up) * unit) by (nonlinear_arith)
        requires
            -value == unit * up + (-value) % unit,
            0 <= (-value) % unit < unit,
    ;
}

/// A number lies at most one half from the integer that it rounds to.
pub proof fn rounding_stays_within_half(bits: u32)
    ensures
        -one() <= 2 * (units(bits) - round(bits) * one()) <= one(),
{
    let unit = one();
    let total = absolute_units(bits);
    lemma_pow2_pos(149);
    let nearest = (2 * total + unit) / (2 * unit);
    vstd::arithmetic::div_mod::lemma_fundamental_div_mod(2 * total + unit, 2 * unit);
    let rest = (2 * total + unit) % (2 * unit);
    assert(2 * (total - nearest * unit) == rest - unit) by (nonlinear_arith)
        requires
            2 * total + unit == (2 * unit) * nearest + rest,
    ;
    assert((-nearest) * unit == -(nearest * unit)) by (nonlinear_arith);
}

/// What a number rounds to is held exactly: a number that is too large to have every integer
/// around it in single precision is an integer itself.
pub proof fn rounded_numbers_are_held_exactly(bits: u32, value: u32)
    requires
        round(bits) == value || round(bits) == -value,
    ensures
        nearest_whole(value) == value,
{
    let unit = one();
    let sig = significand(bits);
    let total = absolute_units(bits);
    lemma_pow2_pos(149);
    if value >= 0x100_0000 {
        if elevation(bits) <= 149 {
            let low = pow2(elevation(bits) as nat) as int;
            lemma_pow2_order(elevation(bits) as nat, 149);
            assert(2 * (sig * low) + unit < (2 * unit) * 0x100_0000) by (nonlinear_arith)
                requires
                    0 <= sig <= 0xff_ffff,
                    0 <= low <= unit,
                    unit > 0,
            ;
            let nearest = (2 * total + unit) / (2 * unit);
            vstd::arithmetic::div_mod::lemma_fundamental_div_mod(2 * total + unit, 2 * unit);
            assert(nearest < 0x100_0000) by (nonlinear_arith)
                requires
                    2 * total + unit == (2 * unit) * nearest + (2 * total + unit) % (2 * unit),
                    (2 * total + unit) % (2 * unit) >= 0,
                    2 * total + unit < (2 * unit) * 0x100_0000,
                    unit > 0,
            ;
        } else {
            let shift = (elevation(bits) - 149) as nat;
            let high = pow2(shift) as int;
            lemma_pow2_adds(149, shift);
            assert(sig * (unit * high) == unit * (sig * high)) by (nonlinear_arith);
            assert(2 * (unit * (sig * high)) + unit == (2 * unit) * (sig * high) + unit)
                by (nonlinear_arith);
            lemma_quotient(2 * total + unit, 2 * unit, sig * high, unit);
            assert(sig * high == value) by {
                assert(sig * high >= 0) by (nonlinear_arith)
                    requires
                        sig >= 0,
                        high >= 0,
                ;
            }
            vstd::arithmetic::power2::lemma2_to64();
            if shift >= 9 {
                lemma_pow2_order(9, shift);
                assert(sig * high >= 0x80_0000 * 512) by (nonlinear_arith)
                    requires
                        sig >= 0x80_0000,
                        high >= 512,
                ;
            }
            assert(shift == 1 || shift == 2 || shift == 3 || shift == 4 || shift == 5 || shift == 6
                || shift == 7 || shift == 8);
            assert(0x80_0000 <= sig < 0x100_0000);
            assert(0x80_0000 * high <= sig * high < 0x100_0000 * high) by (nonlinear_arith)
                requires
                    0x80_0000 <= sig < 0x100_0000,
                    high > 0,
            ;
            assert(spacing(value) == high);
            assert(value as int / high == sig && value as int % high == 0) by {
                assert(sig * high == high * sig) by (nonlinear_arith);
                vstd::arithmetic::div_mod::lemma_fundamental_div_mod_converse(
                    value as int,
                    high,
                    sig,
                    0,
                );
            }
        }
    }
}

/// Small powers of two are the numbers that their bits stand for.
pub proof fn powers_of_two_are_exact(bits: u32, power: nat)
    requires
        power <= 100,
        bits == (127 + power) * 0x80_0000,
    ensures
        units(bits) == pow2(power) * one(),
        is_finite(bits),
        !is_negative(bits),
{
    vstd::arithmetic::power2::lemma2_to64();
    assert(magnitude(bits) == bits);
    assert(exponent(bits) == 127 + power);
    assert(significand(bits) == 0x80_0000);
    lemma_pow2_adds(23, (126 + power) as nat);
    lemma_pow2_adds(power, 149);
    assert(0x80_0000 == pow2(23));
}

/// Limiting a number leaves it as it is between zero and the maximum, and else gives the end
/// that it lies beyond. What is no number becomes zero.
pub proof fn limiting_clamps_values(bits: u32, maximum: u32)
    requires
        is_finite(maximum),
        !is_negative(maximum),
    ensures
        ({
            let value = crate::float_bits::limited(bits, maximum);
            &&& magnitude(bits) > 0x7f80_0000 ==> units(value) == 0
            &&& magnitude(bits) <= 0x7f80_0000 && units(bits) <= 0 ==> units(value) == 0
            &&& magnitude(bits) <= 0x7f80_0000 && 0 <= units(bits) <= units(maximum) ==> units(
                value,
            ) == units(bits)
            &&& magnitude(bits) <= 0x7f80_0000 && units(bits) >= units(maximum) ==> units(value)
                == units(maximum)
            &&& !is_negative(value)
        }),
{
    let value = crate::float_bits::limited(bits, maximum);
    lemma_zero_units();
    lemma_magnitudes(bits, maximum);
    lemma_magnitudes(maximum, bits);
    lemma_magnitudes(0, bits);
    lemma_magnitudes(0, maximum);
    lemma_magnitudes(bits, 0);
}

/// Both zeroes are no units at all, and nothing else is.
pub proof fn zeroes_are_no_units(bits: u32)
    ensures
        units(bits) == 0 <==> bits % 0x8000_0000 == 0,
{
    lemma_zero_units();
    lemma_magnitudes(0, bits);
    lemma_magnitudes(bits, 0);
}

/// Numbers of a size are spaced so that the significand holds which one it is, and no wider than
/// it must.
pub proof fn numbers_are_spaced_by_their_significand(value: u32)
    ensures
        spacing(value) >= 1,
        value < 0x100_0000 * spacing(value),
        spacing(value) > 1 ==> value >= 0x80_0000 * spacing(value),
        spacing(value) == 1 || spacing(value) == 2 || spacing(value) == 4 || spacing(value) == 8
            || spacing(value) == 16 || spacing(value) == 32 || spacing(value) == 64
            || spacing(value) == 128 || spacing(value) == 256,
{
}

/// A whole number is held as the nearest one that can be, and as the even one of two that are
/// equally near.
pub proof fn wholes_are_held_as_the_nearest(value: u32)
    ensures
        nearest_whole(value) % spacing(value) == 0,
        -spacing(value) <= 2 * (nearest_whole(value) - value) <= spacing(value),
        2 * (nearest_whole(value) - value) == spacing(value) || 2 * (nearest_whole(value) - value)
            == -spacing(value) ==> (nearest_whole(value) / spacing(value)) % 2 == 0,
{
    let step = spacing(value);
    let below = value as int / step;
    numbers_are_spaced_by_their_significand(value);
    vstd::arithmetic::div_mod::lemma_fundamental_div_mod(value as int, step);
    vstd::arithmetic::div_mod::lemma_mod_multiples_basic(below, step);
    vstd::arithmetic::div_mod::lemma_mod_multiples_basic(below + 1, step);
    vstd::arithmetic::div_mod::lemma_div_by_multiple(below, step);
    vstd::arithmetic::div_mod::lemma_div_by_multiple(below + 1, step);
    assert((below + 1) * step == below * step + step) by (nonlinear_arith);
    assert(step * below == below * step) by (nonlinear_arith);
}

/// A machine word holds exactly the integers of sixty-four bits with a sign, as they are.
pub proof fn words_hold_their_range(value: int)
    ensures
        held(value) is Some <==> -0x8000_0000_0000_0000 <= value < 0x8000_0000_0000_0000,
        held(value) matches Some(word) ==> word == value,
{
}

} // verus!
