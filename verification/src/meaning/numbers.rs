//! Constants, floating-point numbers and the arithmetic of the host.

use vstd::prelude::*;
use super::guest::holds;
use crate::abi::HostAbi;
use crate::analysis::access::fp_vector_reads;
use crate::analysis::StateItem;
use crate::decode::{
    FloatAddOperation, FloatConversion, FloatFusedMultiplyOperation, FloatMultiplyOperation,
    FloatRoundOperation, FpSimdInstruction, FpSimdKind,
};
use crate::fp_env::host_rounding;
use crate::simd::cold::{helper_of, shape_bytes};
use crate::simd::conditions::{lane_finite, lane_zero, takes_host_path};
use crate::simd::emit::plan_fits;
use crate::simd::guards::{
    exponent_field, fraction_field, host_operation, in_format, is_negative, is_scalar_arithmetic,
    names_operation, power_bits, rounding_of, HostOperation, HostRounding, EQUAL_FLAGS,
    GREATER_FLAGS, LESS_FLAGS,
};
use crate::simd::immediates::{modified_byte, packed_float, word_of, FloatFormat};
use crate::simd::plan::{immediate_combine, scalar_sign, sign_bits, FpSimdPlan, VectorPlan};

verus! {

// ---- constants ----
/// Four bytes of a modified immediate, as a number.
pub open spec fn modified_word(cmode: u8, immediate: u8, invert: bool, k: int) -> int {
    modified_byte(cmode, immediate, invert, k) + 0x100 * modified_byte(
        cmode,
        immediate,
        invert,
        k + 1,
    ) + 0x1_0000 * modified_byte(cmode, immediate, invert, k + 2) + 0x100_0000 * modified_byte(
        cmode,
        immediate,
        invert,
        k + 3,
    )
}

/// The number that every word holds before it is inverted: the immediate shifted by
/// bytes, the same in each half of the word, or shifted with ones behind it.
pub open spec fn unmodified_word(cmode: u8, immediate: u8) -> int {
    if cmode / 2 == 0 {
        immediate as int
    } else if cmode / 2 == 1 {
        immediate * 0x100
    } else if cmode / 2 == 2 {
        immediate * 0x1_0000
    } else if cmode / 2 == 3 {
        immediate * 0x100_0000
    } else if cmode / 2 == 4 {
        immediate * 0x1_0001
    } else if cmode / 2 == 5 {
        immediate * 0x100_0100
    } else if cmode == 12 {
        immediate * 0x100 + 0xff
    } else {
        immediate * 0x1_0000 + 0xffff
    }
}

/// Both words of a modified immediate hold its number, or what is left of all ones
/// without it where it is inverted. The last mode repeats the immediate in every byte,
/// or spreads its bits over the bytes.
pub proof fn law_modified_immediates(cmode: u8, immediate: u8, invert: bool, word: int, byte: int)
    requires
        cmode <= 14,
        word == 0 || word == 4,
        0 <= byte < 8,
    ensures
        cmode <= 13 && !invert ==> modified_word(cmode, immediate, invert, word)
            == unmodified_word(cmode, immediate),
        cmode <= 13 && invert ==> modified_word(cmode, immediate, invert, word) == 0xffff_ffff
            - unmodified_word(cmode, immediate),
        cmode == 14 && !invert ==> modified_byte(cmode, immediate, invert, byte) == immediate,
        cmode == 14 && invert ==> modified_byte(cmode, immediate, invert, byte) == if (immediate >> (
        byte as u8)) & 1 == 1 {
            0xffu8
        } else {
            0u8
        },
{
}

/// An immediate meets the old value of its register exactly in the modes that set or
/// clear bits of it. The constant of a mode that clears has the bits of the number
/// missing, so that those go and all others stay.
pub proof fn law_immediates_meet_the_old_value(i: FpSimdInstruction)
    requires
        i.kind is ModifiedImmediate,
    ensures
        immediate_combine(i.operands) is Replace <==> !fp_vector_reads(i).contains(
            StateItem::Vector(i.operands.rd),
        ),
        immediate_combine(i.operands) is And ==> i.operands.operation_bit,
        immediate_combine(i.operands) is Or ==> !i.operands.operation_bit,
{
    let c = immediate_combine(i.operands);
    assert(c is Replace || c is And || c is Or);
}

/// Two to the number of fraction bits, and two to the number of exponent bits.
pub open spec fn fraction_size(format: FloatFormat) -> int {
    match format {
        FloatFormat::Half => 0x400,
        FloatFormat::Single => 0x80_0000,
        FloatFormat::Double => 0x10_0000_0000_0000,
    }
}

pub open spec fn exponent_size(format: FloatFormat) -> int {
    match format {
        FloatFormat::Half => 0x20,
        FloatFormat::Single => 0x100,
        FloatFormat::Double => 0x800,
    }
}

/// A packed immediate is spread over the fields of a number: its top bit is the sign, its
/// next bit the opposite of the top of the exponent and then every further bit of it but
/// the last two, which are the next two bits, and its last four bits are the top of the
/// fraction.
pub proof fn law_packed_numbers(immediate: u8, format: FloatFormat)
    ensures
        ({
            let value = packed_float(immediate, format);
            let (fraction, exponent) = (fraction_size(format), exponent_size(format));
            let field = value / fraction % exponent;
            &&& value % fraction == (immediate % 16) * (fraction / 16)
            &&& value / fraction / exponent == immediate / 128
            &&& field % 4 == immediate / 16 % 4
            &&& field >= exponent / 2 <==> immediate / 64 % 2 == 0
            &&& immediate / 64 % 2 == 0 ==> field - exponent / 2 < 4
            &&& immediate / 64 % 2 == 1 ==> field >= exponent / 2 - 4
        }),
{
    let value = packed_float(immediate, format);
    let tail = (immediate / 16) % 4;
    let fraction = immediate % 16;
    let sign = immediate / 128;
    match format {
        FloatFormat::Half => {
            assert(value == sign * 0x8000 + (if (immediate / 64) % 2 == 1 {
                12 + tail
            } else {
                16 + tail
            }) * 0x400 + fraction * 0x40);
        },
        FloatFormat::Single => {
            assert(value == sign * 0x8000_0000 + (if (immediate / 64) % 2 == 1 {
                124 + tail
            } else {
                128 + tail
            }) * 0x80_0000 + fraction * 0x8_0000);
        },
        FloatFormat::Double => {
            assert(value == sign * 0x8000_0000_0000_0000 + (if (immediate / 64) % 2 == 1 {
                1020 + tail
            } else {
                1024 + tail
            }) * 0x10_0000_0000_0000 + fraction * 0x1_0000_0000_0000);
        },
    }
}

/// The sign bits that a plan clears or turns are the highest bits of the lanes, and of the
/// lanes that the instruction works on alone.
pub proof fn law_signs_are_the_highest_bits(wide: bool, full: bool, bit: u32)
    requires
        bit < 128,
    ensures
        ((sign_bits(wide, full) as u128) >> bit) & 1 == 1 <==> (full || bit < 64) && if wide {
            bit % 64 == 63
        } else {
            bit % 32 == 31
        },
        ((scalar_sign(16) as u128) >> bit) & 1 == 1 <==> bit == 15,
        ((scalar_sign(32) as u128) >> bit) & 1 == 1 <==> bit == 31,
        ((scalar_sign(64) as u128) >> bit) & 1 == 1 <==> bit == 63,
{
    assert(bit < 128 ==> {
        &&& (0x8000u128 >> bit) & 1 == 1 <==> bit == 15
        &&& (0x8000_0000u128 >> bit) & 1 == 1 <==> bit == 31
        &&& (0x8000_0000_0000_0000u128 >> bit) & 1 == 1 <==> bit == 63
        &&& (0x8000_0000_8000_0000u128 >> bit) & 1 == 1 <==> bit == 63 || bit == 31
        &&& (0x8000_0000_0000_0000_8000_0000_0000_0000u128 >> bit) & 1 == 1 <==> bit == 63 || bit
            == 127
        &&& (0x8000_0000_8000_0000_8000_0000_8000_0000u128 >> bit) & 1 == 1 <==> bit == 63 || bit
            == 31 || bit == 95 || bit == 127
    }) by (bit_vector);
}

// ---- arithmetic ----
/// What the guest asks for, on numbers without rounding. The quotient and the root are
/// given.
pub open spec fn guest_value(i: FpSimdInstruction, n: int, m: int, a: int, other: int) -> int {
    match i.kind {
        FpSimdKind::ScalarFloatAdd => match i.operands.float_add_operation->0 {
            FloatAddOperation::Add => n + m,
            FloatAddOperation::Subtract => n - m,
        },
        FpSimdKind::ScalarFloatMultiply => match i.operands.float_multiply_operation->0 {
            FloatMultiplyOperation::Multiply => n * m,
            FloatMultiplyOperation::NegatedMultiply => -(n * m),
        },
        FpSimdKind::ScalarFloatFusedMultiplyAdd => match i.operands.float_fused_multiply_operation->0 {
            FloatFusedMultiplyOperation::MultiplyAdd => a + n * m,
            FloatFusedMultiplyOperation::MultiplySubtract => a - n * m,
            FloatFusedMultiplyOperation::NegatedMultiplyAdd => -a - n * m,
            FloatFusedMultiplyOperation::NegatedMultiplySubtract => n * m - a,
        },
        _ => other,
    }
}

/// What the host computes.
pub open spec fn host_value(operation: HostOperation, n: int, m: int, a: int, other: int) -> int {
    match operation {
        HostOperation::Add => n + m,
        HostOperation::Subtract => n - m,
        HostOperation::Multiply => n * m,
        HostOperation::NegatedMultiply => -(n * m),
        HostOperation::Fused { negate_first, negate_addend } => (if negate_first {
            -n
        } else {
            n
        }) * m + (if negate_addend {
            -a
        } else {
            a
        }),
        HostOperation::Divide => other,
        HostOperation::SquareRoot => other,
    }
}

/// The host computes what the guest asks for, and divides or takes a root exactly where
/// the guest does.
pub proof fn law_the_host_computes_the_value(i: FpSimdInstruction, n: int, m: int, a: int, other: int)
    requires
        is_scalar_arithmetic(i.kind),
        names_operation(i),
    ensures
        host_value(host_operation(i), n, m, a, other) == guest_value(i, n, m, a, other),
        host_operation(i) is Divide <==> i.kind is ScalarFloatDivide,
        host_operation(i) is SquareRoot <==> i.kind is ScalarFloatSquareRoot,
{
    assert((-n) * m == -(n * m)) by (nonlinear_arith);
}

/// The integer that the fraction `p / q` rounds to.
pub open spec fn guest_rounds(operation: FloatRoundOperation, p: int, q: int) -> Option<int> {
    let below = p / q;
    let rest = p % q;
    match operation {
        FloatRoundOperation::TowardNegative => Some(below),
        FloatRoundOperation::TowardPositive => Some(
            if rest == 0 {
                below
            } else {
                below + 1
            },
        ),
        FloatRoundOperation::TowardZero => Some(
            if rest != 0 && p < 0 {
                below + 1
            } else {
                below
            },
        ),
        FloatRoundOperation::NearestEven => Some(
            if 2 * rest < q || (2 * rest == q && below % 2 == 0) {
                below
            } else {
                below + 1
            },
        ),
        _ => None,
    }
}

pub open spec fn host_rounds(rounding: HostRounding, p: int, q: int) -> int {
    let below = p / q;
    let rest = p % q;
    let up = match rounding {
        HostRounding::Floor => false,
        HostRounding::Ceiling => rest != 0,
        HostRounding::Truncate => rest != 0 && p < 0,
        HostRounding::Nearest => 2 * rest > q || (2 * rest == q && below % 2 == 1),
    };
    if up {
        below + 1
    } else {
        below
    }
}

/// The host rounds as the guest asks, and has a rounding exactly for the four directions
/// that do not depend on the mode of the guest and do not break ties away from zero.
pub proof fn law_the_host_rounds_alike(operation: FloatRoundOperation, p: int, q: int)
    requires
        q > 0,
    ensures
        match rounding_of(operation) {
            Some(rounding) => guest_rounds(operation, p, q) == Some(host_rounds(rounding, p, q)),
            None => guest_rounds(operation, p, q) is None,
        },
{
}

/// A positive number lies below a power of two exactly where its bits do, and a negative
/// one is no smaller than the opposite of the power exactly where its bits are no larger.
pub proof fn law_bounds_order_numbers(bits: u64, power: int, wide: bool)
    requires
        in_format(bits, wide),
        0 <= power <= 64,
    ensures
        ({
            let bias: int = if wide {
                1023
            } else {
                127
            };
            let exponent = exponent_field(bits, wide) - bias;
            &&& !is_negative(bits, wide) ==> (bits < power_bits(false, power, wide) <==> exponent
                < power)
            &&& is_negative(bits, wide) ==> (bits <= power_bits(true, power, wide) <==> exponent
                < power || (exponent == power && fraction_field(bits, wide) == 0))
        }),
{
}

/// A word of flags after a comparison of numbers holds what the guest tests: equal where
/// they are, less by the sign, greater and greater or equal by the signed conditions.
pub proof fn law_comparisons_leave_their_flags(first: int, second: int)
    ensures
        ({
            let word = if first == second {
                EQUAL_FLAGS
            } else if first < second {
                LESS_FLAGS
            } else {
                GREATER_FLAGS
            };
            let (n, z, c, v) = (
                word / 0x8000_0000 % 2 == 1,
                word / 0x4000_0000 % 2 == 1,
                word / 0x2000_0000 % 2 == 1,
                word / 0x1000_0000 % 2 == 1,
            );
            &&& holds(0, n, z, c, v) == (first == second)
            &&& holds(4, n, z, c, v) == (first < second)
            &&& holds(3, n, z, c, v) == (first < second)
            &&& holds(12, n, z, c, v) == (first > second)
            &&& holds(8, n, z, c, v) == (first > second)
            &&& holds(10, n, z, c, v) == (first >= second)
            &&& holds(9, n, z, c, v) == (first <= second)
            &&& holds(13, n, z, c, v) == (first <= second)
            &&& !holds(6, n, z, c, v)
        }),
{
}

/// The host path of scalar arithmetic is taken exactly where the host is enabled and every
/// register that the instruction reads holds zero or a normal number, but for a divisor
/// that is zero and the root of a negative number.
pub proof fn law_host_operands_are_ordinary(
    i: FpSimdInstruction,
    wide: bool,
    native: bool,
    bits: Seq<Seq<u64>>,
)
    requires
        is_scalar_arithmetic(i.kind),
    ensures
        takes_host_path(i, wide, native, bits) <==> {
            &&& native
            &&& forall|register: u8| #[trigger]
                fp_vector_reads(i).contains(StateItem::Vector(register)) ==> lane_finite(
                    bits,
                    register,
                    0,
                    wide,
                )
            &&& i.kind is ScalarFloatDivide ==> !lane_zero(bits, i.operands.rm, 0, wide)
            &&& i.kind is ScalarFloatSquareRoot && is_negative(bits[i.operands.rn as int][0], wide)
                ==> lane_zero(bits, i.operands.rn, 0, wide)
        },
{
    let fields = i.operands;
    assert(fp_vector_reads(i).contains(StateItem::Vector(fields.rn)));
    if !(i.kind is ScalarFloatSquareRoot) {
        assert(fp_vector_reads(i).contains(StateItem::Vector(fields.rm)));
    }
    if i.kind is ScalarFloatFusedMultiplyAdd {
        assert(fp_vector_reads(i).contains(StateItem::Vector(fields.ra)));
    }
}

/// Two exact calls of one helper with the same shape ask for the same computation: the
/// shape tells the kind of instruction and its operation.
pub proof fn law_shapes_tell_the_operation(i: FpSimdInstruction, j: FpSimdInstruction)
    requires
        helper_of(i.kind) is Some,
        helper_of(i.kind) == helper_of(j.kind),
        names_operation(i),
        names_operation(j),
        shape_bytes(i) == shape_bytes(j),
    ensures
        i.kind == j.kind,
        i.operands.opc == j.operands.opc,
        i.kind is ScalarFloatAdd ==> i.operands.float_add_operation
            == j.operands.float_add_operation,
        i.kind is ScalarFloatMultiply ==> i.operands.float_multiply_operation
            == j.operands.float_multiply_operation,
        i.kind is ScalarFloatFusedMultiplyAdd ==> i.operands.float_fused_multiply_operation
            == j.operands.float_fused_multiply_operation,
        i.kind is ScalarFloatRound ==> i.operands.float_round_operation
            == j.operands.float_round_operation,
        i.kind is ScalarFloatConvert ==> i.operands.float_conversion == j.operands.float_conversion,
        i.kind is FloatToSignedInt || i.kind is FloatToUnsignedInt
            ==> i.operands.float_to_integer_rounding == j.operands.float_to_integer_rounding,
        i.kind is VectorFloatDivide ==> i.operands.vector_128 == j.operands.vector_128,
        i.kind is VectorFloatMultiplyElement ==> i.operands.fp_element_lane
            == j.operands.fp_element_lane,
        i.kind is ConditionalCompare ==> i.operands.condition == j.operands.condition
            && i.operands.nzcv_immediate == j.operands.nzcv_immediate,
{
    let (a, b) = (shape_bytes(i), shape_bytes(j));
    assert(a[0] == b[0] && a[1] == b[1] && a[2] == b[2] && a[3] == b[3] && a[4] == b[4]);
}

/// The integer that a fraction rounds to under the rounding mode of the guest: nearest,
/// up, down, or toward zero.
pub open spec fn guest_mode_rounds(mode: u32, p: int, q: int) -> Option<int> {
    if mode == 0 {
        guest_rounds(FloatRoundOperation::NearestEven, p, q)
    } else if mode == 1 {
        guest_rounds(FloatRoundOperation::TowardPositive, p, q)
    } else if mode == 2 {
        guest_rounds(FloatRoundOperation::TowardNegative, p, q)
    } else {
        guest_rounds(FloatRoundOperation::TowardZero, p, q)
    }
}

/// The same under the rounding control of the host, whose up and down are the other way
/// around.
pub open spec fn host_mode_rounds(control: u32, p: int, q: int) -> int {
    if control == 0 {
        host_rounds(HostRounding::Nearest, p, q)
    } else if control == 1 {
        host_rounds(HostRounding::Floor, p, q)
    } else if control == 2 {
        host_rounds(HostRounding::Ceiling, p, q)
    } else {
        host_rounds(HostRounding::Truncate, p, q)
    }
}

/// Under the control that stands for the mode of the guest, the host rounds as the guest
/// does.
pub proof fn law_rounding_modes_agree(mode: u32, p: int, q: int)
    requires
        mode < 4,
        q > 0,
    ensures
        guest_mode_rounds(mode, p, q) == Some(host_mode_rounds(host_rounding(mode), p, q)),
        host_rounding(mode) < 4,
        host_rounding(host_rounding(mode)) == mode,
{
}

// ---- signs ----
/// Bit `bit` of what a plan on signs leaves of a register.
pub open spec fn planned_bit(signs: u128, flip: bool, width: u32, bit: u32, old: bool) -> bool {
    if bit >= width {
        false
    } else if (signs >> bit) & 1 == 1 {
        flip && !old
    } else {
        old
    }
}

/// Bit `bit` of an absolute value or a negation: the highest bit of a number is cleared
/// or turned, the others stay, and nothing is left above the numbers.
pub open spec fn meant_bit(i: FpSimdInstruction, bit: u32, old: bool) -> bool {
    let scalar = i.kind is ScalarAbsolute || i.kind is ScalarNegate;
    let size: int = if scalar {
        if i.operands.opc == 0 {
            32
        } else if i.operands.opc == 1 {
            64
        } else {
            16
        }
    } else if i.operands.opc % 2 == 1 {
        64
    } else {
        32
    };
    let whole: int = if scalar {
        size
    } else if i.operands.vector_128 {
        128
    } else {
        64
    };
    if bit >= whole {
        false
    } else if (bit + 1) % size == 0 {
        (i.kind is ScalarNegate || i.kind is VectorFloatNegate) && !old
    } else {
        old
    }
}

/// Plans of absolute values and negations change the signs of the numbers, and of those
/// alone.
pub proof fn law_signs_are_changed(
    i: FpSimdInstruction,
    host: HostAbi,
    plan: FpSimdPlan,
    bit: u32,
    old: bool,
)
    requires
        plan_fits(i, host, plan),
        i.kind is ScalarAbsolute || i.kind is ScalarNegate || i.kind is VectorFloatAbsolute
            || i.kind is VectorFloatNegate,
        i.kind is ScalarAbsolute || i.kind is ScalarNegate ==> i.operands.opc == 0
            || i.operands.opc == 1 || i.operands.opc == 3,
        bit < 128,
    ensures
        match plan.native {
            VectorPlan::Signs { signs, flip, width } => planned_bit(signs, flip, width, bit, old)
                == meant_bit(i, bit, old),
            _ => false,
        },
{
    law_signs_are_the_highest_bits(i.operands.opc % 2 == 1, i.operands.vector_128, bit);
}

// ---- plans of constants and conversions ----
/// Word `k` of a vector.
pub open spec fn word_in(value: u128, k: int) -> int {
    if k == 0 {
        value as int % 0x1_0000_0000
    } else if k == 1 {
        value as int / 0x1_0000_0000 % 0x1_0000_0000
    } else if k == 2 {
        value as int / 0x1_0000_0000_0000_0000 % 0x1_0000_0000
    } else {
        value as int / 0x1_0000_0000_0000_0000_0000_0000 % 0x1_0000_0000
    }
}

proof fn lemma_words(value: u128, half: int)
    requires
        0 <= half < 0x1_0000_0000_0000_0000,
        value == half + 0x1_0000_0000_0000_0000 * half,
    ensures
        word_in(value, 0) == half % 0x1_0000_0000,
        word_in(value, 1) == half / 0x1_0000_0000,
        word_in(value, 2) == half % 0x1_0000_0000,
        word_in(value, 3) == half / 0x1_0000_0000,
{
    let (low, high) = (half % 0x1_0000_0000, half / 0x1_0000_0000);
    assert(value == low + 0x1_0000_0000 * high + 0x1_0000_0000_0000_0000 * low
        + 0x1_0000_0000_0000_0000_0000_0000 * high);
}

spec fn modified_half(cmode: u8, immediate: u8, invert: bool) -> int {
    word_of(Seq::new(8, |k: int| modified_byte(cmode, immediate, invert, k)))
}

proof fn lemma_modified_half(cmode: u8, immediate: u8, invert: bool)
    ensures
        0 <= modified_half(cmode, immediate, invert) < 0x1_0000_0000_0000_0000,
        modified_half(cmode, immediate, invert) % 0x1_0000_0000 == modified_word(
            cmode,
            immediate,
            invert,
            0,
        ),
        modified_half(cmode, immediate, invert) / 0x1_0000_0000 == modified_word(
            cmode,
            immediate,
            invert,
            4,
        ),
{
    let half = modified_half(cmode, immediate, invert);
    let (low, high) = (
        modified_word(cmode, immediate, invert, 0),
        modified_word(cmode, immediate, invert, 4),
    );
    assert(half == low + 0x1_0000_0000 * high);
    assert(0 <= low < 0x1_0000_0000 && 0 <= high < 0x1_0000_0000);
}

proof fn lemma_packed_bounds(immediate: u8)
    ensures
        0 <= packed_float(immediate, FloatFormat::Single) < 0x1_0000_0000,
        0 <= packed_float(immediate, FloatFormat::Double) < 0x1_0000_0000_0000_0000,
{
    let (tail, fraction, sign) = ((immediate / 16) % 4, immediate % 16, immediate / 128);
    let near = (immediate / 64) % 2 == 1;
    let single: int = if near {
        124 + tail
    } else {
        128 + tail
    };
    let double: int = if near {
        1020 + tail
    } else {
        1024 + tail
    };
    assert(packed_float(immediate, FloatFormat::Single) == sign * 0x8000_0000 + single * 0x80_0000
        + fraction * 0x8_0000);
    assert(packed_float(immediate, FloatFormat::Double) == sign * 0x8000_0000_0000_0000 + double
        * 0x10_0000_0000_0000 + fraction * 0x1_0000_0000_0000);
}

/// A vector constant holds its number in every lane: the words of a modified immediate,
/// or a floating-point number in single or double precision. It fills what the
/// instruction fills.
pub proof fn law_constants_fill_their_lanes(
    i: FpSimdInstruction,
    host: HostAbi,
    plan: FpSimdPlan,
    k: int,
)
    requires
        plan_fits(i, host, plan),
        i.kind is ModifiedImmediate || i.kind is VectorFloatImmediate,
        0 <= k < 4,
    ensures
        match plan.native {
            VectorPlan::Constant { value, full, .. } => {
                let fields = i.operands;
                &&& full == fields.vector_128
                &&& i.kind is ModifiedImmediate ==> word_in(value, k) == modified_word(
                    fields.cmode,
                    fields.immediate_8,
                    fields.operation_bit,
                    if k % 2 == 0 {
                        0
                    } else {
                        4
                    },
                )
                &&& i.kind is VectorFloatImmediate && !fields.operation_bit ==> word_in(value, k)
                    == packed_float(fields.immediate_8, FloatFormat::Single)
                &&& i.kind is VectorFloatImmediate && fields.operation_bit ==> word_in(value, k)
                    == if k % 2 == 0 {
                    packed_float(fields.immediate_8, FloatFormat::Double) % 0x1_0000_0000
                } else {
                    packed_float(fields.immediate_8, FloatFormat::Double) / 0x1_0000_0000
                }
            },
            _ => false,
        },
{
    if let VectorPlan::Constant { value, .. } = plan.native {
        let fields = i.operands;
        if i.kind is ModifiedImmediate {
            let half = modified_half(fields.cmode, fields.immediate_8, fields.operation_bit);
            lemma_modified_half(fields.cmode, fields.immediate_8, fields.operation_bit);
            lemma_words(value, half);
        } else if fields.operation_bit {
            lemma_packed_bounds(fields.immediate_8);
            lemma_words(value, packed_float(fields.immediate_8, FloatFormat::Double));
        } else {
            let single = packed_float(fields.immediate_8, FloatFormat::Single);
            lemma_packed_bounds(fields.immediate_8);
            lemma_words(value, single + 0x1_0000_0000 * single);
        }
    }
}

/// A plan that converts or rounds names the formats of the instruction: double where its
/// format is, a whole general register where the instruction has one, and a sign where
/// its integers have one. Vector arithmetic works on all lanes of its operands, and pads
/// where these fill less than a register and would be divided by nothing.
pub proof fn law_plans_name_their_formats(i: FpSimdInstruction, host: HostAbi, plan: FpSimdPlan)
    requires
        plan_fits(i, host, plan),
        names_operation(i),
        i.operands.opc < 2,
    ensures
        match plan.native {
            VectorPlan::Round { wide, .. } => wide <==> i.operands.opc == 1,
            VectorPlan::Convert { from_wide, to_wide } => {
                &&& from_wide != to_wide
                &&& from_wide <==> i.operands.float_conversion == Some(
                    FloatConversion::DoubleToSingle,
                )
            },
            VectorPlan::FromInteger { signed, integer_64, wide } => {
                &&& signed <==> i.kind is SignedIntToFloat
                &&& integer_64 <==> i.operands.size / 2 % 2 == 1
                &&& wide <==> i.operands.opc == 1
            },
            VectorPlan::ToInteger { unsigned, integer_64, wide, .. } => {
                &&& unsigned <==> i.kind is FloatToUnsignedInt
                &&& integer_64 <==> i.operands.size / 2 % 2 == 1
                &&& wide <==> i.operands.opc == 1
            },
            VectorPlan::LanesFromInteger { signed, wide, width } => {
                let lane = if wide {
                    64int
                } else {
                    32int
                };
                &&& signed <==> i.kind is VectorSignedIntToFloat
                    || i.kind is ScalarVectorSignedIntToFloat
                &&& wide <==> i.operands.opc == 1
                &&& width == if i.kind is VectorSignedIntToFloat
                    || i.kind is VectorUnsignedIntToFloat {
                    if i.operands.vector_128 {
                        128
                    } else {
                        64
                    }
                } else {
                    lane
                }
            },
            VectorPlan::ScalarArithmetic(own) => own.wide <==> i.operands.opc == 1,
            VectorPlan::Compare(own) => own.wide <==> i.operands.opc == 1,
            VectorPlan::VectorArithmetic(own) => {
                &&& own.wide <==> i.operands.opc == 1
                &&& i.operands.opc == 0 || i.operands.vector_128 ==> own.lanes * (if own.wide {
                    8int
                } else {
                    4int
                }) == if i.operands.vector_128 {
                    16int
                } else {
                    8int
                }
                &&& own.pad ==> own.element is None && own.lanes * 4 < 16
                &&& own.element is None <==> i.kind is VectorFloatDivide
                &&& own.element is None && own.lanes * (if own.wide {
                    8int
                } else {
                    4int
                }) < 16 ==> own.pad
            },
            _ => true,
        },
{
}

} // verus!
