//! When floating-point instructions may run on the host, and as what.
//!
//! The host and the guest differ on the payload of NaNs and on the status that
//! infinities and subnormal operands leave. Such operands take the exact path.

use vstd::prelude::*;
use super::lanes::{scalar_bits, scalar_width};
use crate::decode::{
    FloatAddOperation, FloatConversion, FloatFusedMultiplyOperation, FloatMultiplyOperation,
    FloatRoundOperation, FpSimdInstruction, FpSimdKind,
};
use crate::direct::error::{DirectJitError, DirectJitErrorKind};

verus! {

/// Masks of the fields of a number: single where `wide` is not set, else double.
#[derive(Clone, Copy, Debug, PartialEq, Eq, Structural)]
pub struct FloatMasks {
    pub sign: u64,
    pub exponent: u64,
    pub fraction: u64,
    pub magnitude: u64,
}

pub fn float_masks(wide: bool) -> (r: FloatMasks)
    ensures
        r == masks_of(wide),
{
    if wide {
        FloatMasks {
            sign: 0x8000_0000_0000_0000,
            exponent: 0x7ff0_0000_0000_0000,
            fraction: 0x000f_ffff_ffff_ffff,
            magnitude: 0x7fff_ffff_ffff_ffff,
        }
    } else {
        FloatMasks {
            sign: 0x8000_0000,
            exponent: 0x7f80_0000,
            fraction: 0x007f_ffff,
            magnitude: 0x7fff_ffff,
        }
    }
}

pub open spec fn masks_of(wide: bool) -> FloatMasks {
    if wide {
        FloatMasks {
            sign: 0x8000_0000_0000_0000,
            exponent: 0x7ff0_0000_0000_0000,
            fraction: 0x000f_ffff_ffff_ffff,
            magnitude: 0x7fff_ffff_ffff_ffff,
        }
    } else {
        FloatMasks {
            sign: 0x8000_0000,
            exponent: 0x7f80_0000,
            fraction: 0x007f_ffff,
            magnitude: 0x7fff_ffff,
        }
    }
}

/// The exponent field of a number.
pub open spec fn exponent_field(bits: u64, wide: bool) -> int {
    if wide {
        (bits as int / 0x10_0000_0000_0000) % 0x800
    } else {
        (bits as int / 0x80_0000) % 0x100
    }
}

pub open spec fn fraction_field(bits: u64, wide: bool) -> int {
    if wide {
        bits as int % 0x10_0000_0000_0000
    } else {
        bits as int % 0x80_0000
    }
}

pub open spec fn top_exponent(wide: bool) -> int {
    if wide {
        0x7ff
    } else {
        0xff
    }
}

pub open spec fn is_zero(bits: u64, wide: bool) -> bool {
    exponent_field(bits, wide) == 0 && fraction_field(bits, wide) == 0
}

/// Zero, or a normal number.
pub open spec fn finite_or_zero(bits: u64, wide: bool) -> bool {
    is_zero(bits, wide) || 0 < exponent_field(bits, wide) < top_exponent(wide)
}

pub open spec fn is_negative(bits: u64, wide: bool) -> bool {
    if wide {
        bits >= 0x8000_0000_0000_0000
    } else {
        bits >= 0x8000_0000
    }
}

/// A word that holds a number of the format.
pub open spec fn in_format(bits: u64, wide: bool) -> bool {
    wide || bits < 0x1_0000_0000
}

/// The masks find the fields: a number is finite or zero exactly where its masked
/// exponent is neither all zeros nor all ones, or its masked magnitude is zero.
pub proof fn law_masks_find_fields(bits: u64, wide: bool)
    requires
        in_format(bits, wide),
    ensures
        ({
            let masks = masks_of(wide);
            &&& finite_or_zero(bits, wide) == (bits & masks.magnitude == 0 || (bits
                & masks.exponent != 0 && bits & masks.exponent != masks.exponent))
            &&& finite_or_zero(bits, wide) == !(bits & masks.exponent == masks.exponent || (bits
                & masks.exponent == 0 && bits & masks.fraction != 0))
            &&& is_zero(bits, wide) == (bits & masks.magnitude == 0)
            &&& is_negative(bits, wide) == (bits & masks.sign != 0)
        }),
{
    if wide {
        assert(bits & 0x7ff0_0000_0000_0000 == ((bits / 0x10_0000_0000_0000) % 0x800)
            * 0x10_0000_0000_0000 && bits & 0x000f_ffff_ffff_ffff == bits % 0x10_0000_0000_0000
            && (bits & 0x7fff_ffff_ffff_ffff == 0) == (bits % 0x8000_0000_0000_0000 == 0) && (bits
            & 0x8000_0000_0000_0000 != 0) == (bits >= 0x8000_0000_0000_0000)) by (bit_vector);
    } else {
        assert(bits < 0x1_0000_0000 ==> bits & 0x7f80_0000 == ((bits / 0x80_0000) % 0x100)
            * 0x80_0000 && bits & 0x007f_ffff == bits % 0x80_0000 && (bits & 0x7fff_ffff == 0) == (
        bits % 0x8000_0000 == 0) && (bits & 0x8000_0000 != 0) == (bits >= 0x8000_0000))
            by (bit_vector);
    }
}

/// What the host computes.
#[derive(Clone, Copy, Debug, PartialEq, Eq, Structural)]
pub enum HostOperation {
    Add,
    Subtract,
    Multiply,
    NegatedMultiply,
    /// The product plus the addend, with the first factor or the addend negated.
    Fused { negate_first: bool, negate_addend: bool },
    Divide,
    SquareRoot,
}

/// Scalar arithmetic on the host.
#[derive(Clone, Copy, Debug, PartialEq, Eq, Structural)]
pub struct ScalarArithmetic {
    pub wide: bool,
    pub operation: HostOperation,
    pub first: u8,
    /// Not read by a square root.
    pub second: u8,
    /// Only read by a fused operation.
    pub third: u8,
    pub destination: u8,
}

pub open spec fn is_scalar_arithmetic(kind: FpSimdKind) -> bool {
    kind is ScalarFloatAdd || kind is ScalarFloatMultiply || kind is ScalarFloatFusedMultiplyAdd
        || kind is ScalarFloatDivide || kind is ScalarFloatSquareRoot
}

/// The instruction names its operation.
pub open spec fn names_operation(instruction: FpSimdInstruction) -> bool {
    &&& instruction.kind is ScalarFloatAdd ==> instruction.operands.float_add_operation is Some
    &&& instruction.kind is ScalarFloatMultiply
        ==> instruction.operands.float_multiply_operation is Some
    &&& instruction.kind is ScalarFloatFusedMultiplyAdd
        ==> instruction.operands.float_fused_multiply_operation is Some
    &&& instruction.kind is ScalarFloatRound ==> instruction.operands.float_round_operation is Some
    &&& instruction.kind is ScalarFloatConvert ==> instruction.operands.float_conversion is Some
    &&& instruction.kind is FloatToSignedInt || instruction.kind is FloatToUnsignedInt
        ==> instruction.operands.float_to_integer_rounding is Some
}

pub open spec fn host_operation(instruction: FpSimdInstruction) -> HostOperation {
    match instruction.kind {
        FpSimdKind::ScalarFloatAdd => match instruction.operands.float_add_operation->0 {
            FloatAddOperation::Add => HostOperation::Add,
            FloatAddOperation::Subtract => HostOperation::Subtract,
        },
        FpSimdKind::ScalarFloatMultiply => match instruction.operands.float_multiply_operation->0 {
            FloatMultiplyOperation::Multiply => HostOperation::Multiply,
            FloatMultiplyOperation::NegatedMultiply => HostOperation::NegatedMultiply,
        },
        FpSimdKind::ScalarFloatFusedMultiplyAdd => {
            let operation = instruction.operands.float_fused_multiply_operation->0;
            HostOperation::Fused {
                negate_first: operation is MultiplySubtract || operation is NegatedMultiplyAdd,
                negate_addend: operation is NegatedMultiplyAdd
                    || operation is NegatedMultiplySubtract,
            }
        },
        FpSimdKind::ScalarFloatDivide => HostOperation::Divide,
        _ => HostOperation::SquareRoot,
    }
}

fn scalar_operation(instruction: FpSimdInstruction) -> (r: HostOperation)
    requires
        is_scalar_arithmetic(instruction.kind),
        names_operation(instruction),
    ensures
        r == host_operation(instruction),
{
    match instruction.kind {
        FpSimdKind::ScalarFloatAdd => match instruction.operands.float_add_operation.unwrap() {
            FloatAddOperation::Add => HostOperation::Add,
            FloatAddOperation::Subtract => HostOperation::Subtract,
        },
        FpSimdKind::ScalarFloatMultiply => match instruction.operands.float_multiply_operation.unwrap() {
            FloatMultiplyOperation::Multiply => HostOperation::Multiply,
            FloatMultiplyOperation::NegatedMultiply => HostOperation::NegatedMultiply,
        },
        FpSimdKind::ScalarFloatFusedMultiplyAdd => match instruction.operands.float_fused_multiply_operation.unwrap() {
            FloatFusedMultiplyOperation::MultiplyAdd => HostOperation::Fused {
                negate_first: false,
                negate_addend: false,
            },
            FloatFusedMultiplyOperation::MultiplySubtract => HostOperation::Fused {
                negate_first: true,
                negate_addend: false,
            },
            FloatFusedMultiplyOperation::NegatedMultiplyAdd => HostOperation::Fused {
                negate_first: true,
                negate_addend: true,
            },
            FloatFusedMultiplyOperation::NegatedMultiplySubtract => HostOperation::Fused {
                negate_first: false,
                negate_addend: true,
            },
        },
        FpSimdKind::ScalarFloatDivide => HostOperation::Divide,
        _ => HostOperation::SquareRoot,
    }
}

/// The host path of scalar arithmetic.
pub fn emit_common_scalar_arithmetic(instruction: FpSimdInstruction) -> (r: Result<
    ScalarArithmetic,
    DirectJitError,
>)
    requires
        is_scalar_arithmetic(instruction.kind),
        names_operation(instruction),
    ensures
        match r {
            Ok(plan) => {
                &&& scalar_bits(instruction.operands.opc) != 0
                &&& plan.wide == (scalar_bits(instruction.operands.opc) != 32)
                &&& plan.operation == host_operation(instruction)
                &&& plan.first == instruction.operands.rn
                &&& plan.second == instruction.operands.rm
                &&& plan.third == instruction.operands.ra
                &&& plan.destination == instruction.operands.rd
            },
            Err(error) => scalar_bits(instruction.operands.opc) == 0 && error.is(
                DirectJitErrorKind::InvalidGuestCode,
                "invalid scalar FP width"@,
            ),
        },
{
    let fields = instruction.operands;
    let width: u32 = match scalar_width(fields.opc) {
        Ok(width) => width,
        Err(error) => {
            return Err(error);
        },
    };
    let wide: bool = width != 32;
    Ok(
        ScalarArithmetic {
            wide,
            operation: scalar_operation(instruction),
            first: fields.rn,
            second: fields.rm,
            third: fields.ra,
            destination: fields.rd,
        },
    )
}

/// Lane arithmetic on the host: a division by lanes, or a product with one lane.
#[derive(Clone, Copy, Debug, PartialEq, Eq, Structural)]
pub struct VectorArithmetic {
    pub wide: bool,
    pub lanes: u8,
    pub vector_128: bool,
    /// The lane that every lane is multiplied by. A division has none.
    pub element: Option<u8>,
    /// The lanes that do not belong to the operands are set to one, so that
    /// dividing them leaves no status.
    pub pad: bool,
    pub first: u8,
    pub second: u8,
    pub destination: u8,
}

pub fn emit_common_vector_arithmetic(instruction: FpSimdInstruction) -> (r: VectorArithmetic)
    requires
        instruction.kind is VectorFloatDivide || instruction.kind is VectorFloatMultiplyElement,
    ensures
        r.wide == (instruction.operands.opc != 0),
        r.lanes == if !r.wide && instruction.operands.vector_128 {
            4u8
        } else {
            2u8
        },
        r.vector_128 == instruction.operands.vector_128,
        r.element == if instruction.kind is VectorFloatDivide {
            None
        } else {
            Some(instruction.operands.fp_element_lane)
        },
        r.pad == (instruction.kind is VectorFloatDivide && !r.wide
            && !instruction.operands.vector_128),
        r.first == instruction.operands.rn,
        r.second == instruction.operands.rm,
        r.destination == instruction.operands.rd,
{
    let fields = instruction.operands;
    let divides: bool = matches!(instruction.kind, FpSimdKind::VectorFloatDivide);
    let wide: bool = fields.opc != 0;
    VectorArithmetic {
        wide,
        lanes: if !wide && fields.vector_128 {
            4
        } else {
            2
        },
        vector_128: fields.vector_128,
        element: if divides {
            None
        } else {
            Some(fields.fp_element_lane)
        },
        pad: divides && !wide && !fields.vector_128,
        first: fields.rn,
        second: fields.rm,
        destination: fields.rd,
    }
}

/// A lane value in every lane.
pub fn lane_constant(wide: bool, lane: u64) -> (r: u128)
    requires
        in_format(lane, wide),
    ensures
        wide ==> r == lane + 0x1_0000_0000_0000_0000 * lane,
        !wide ==> r == (lane + 0x1_0000_0000 * lane) + 0x1_0000_0000_0000_0000 * (lane
            + 0x1_0000_0000 * lane),
{
    let half: u64 = if wide {
        lane
    } else {
        lane + 0x1_0000_0000 * lane
    };
    half as u128 + 0x1_0000_0000_0000_0000 * half as u128
}

/// Ones in the lanes above the low half of a vector of singles.
pub const INACTIVE_ONES: u128 = 0x3f80_0000_3f80_0000_0000_0000_0000_0000;

/// The lanes that the operands fill, as bits.
pub fn active_mask(wide: bool, lanes: u8) -> (r: u128)
    requires
        lanes == 2 || lanes == 4,
        wide ==> lanes == 2,
    ensures
        r + 1 == if !wide && lanes == 2 {
            0x1_0000_0000_0000_0000int
        } else {
            0x1_0000_0000_0000_0000 * 0x1_0000_0000_0000_0000int
        },
{
    if !wide && lanes == 2 {
        0xffff_ffff_ffff_ffff
    } else {
        u128::MAX
    }
}

/// A comparison of two numbers that are ordered.
#[derive(Clone, Copy, Debug, PartialEq, Eq, Structural)]
pub struct ScalarCompare {
    pub wide: bool,
    pub first: u8,
    /// Zero where there is none.
    pub second: Option<u8>,
}

/// The flag words of a comparison: equal, less and greater.
pub const EQUAL_FLAGS: u32 = 0x6000_0000;

pub const LESS_FLAGS: u32 = 0x8000_0000;

pub const GREATER_FLAGS: u32 = 0x2000_0000;

pub fn emit_common_scalar_compare(instruction: FpSimdInstruction) -> (r: Result<ScalarCompare, DirectJitError>)
    requires
        instruction.kind is CompareRegister || instruction.kind is CompareZero,
    ensures
        match r {
            Ok(plan) => {
                &&& scalar_bits(instruction.operands.opc) != 0
                &&& plan.wide == (scalar_bits(instruction.operands.opc) != 32)
                &&& plan.first == instruction.operands.rn
                &&& plan.second == if instruction.kind is CompareZero {
                    None
                } else {
                    Some(instruction.operands.rm)
                }
            },
            Err(error) => scalar_bits(instruction.operands.opc) == 0 && error.is(
                DirectJitErrorKind::InvalidGuestCode,
                "invalid scalar FP width"@,
            ),
        },
{
    let fields = instruction.operands;
    match scalar_width(fields.opc) {
        Ok(width) => Ok(
            ScalarCompare {
                wide: width != 32,
                first: fields.rn,
                second: if matches!(instruction.kind, FpSimdKind::CompareZero) {
                    None
                } else {
                    Some(fields.rm)
                },
            },
        ),
        Err(error) => Err(error),
    }
}

/// A rounding that the host has an instruction for.
#[derive(Clone, Copy, Debug, PartialEq, Eq, Structural)]
pub enum HostRounding {
    Nearest,
    Ceiling,
    Floor,
    Truncate,
}

pub open spec fn rounding_of(operation: FloatRoundOperation) -> Option<HostRounding> {
    match operation {
        FloatRoundOperation::NearestEven => Some(HostRounding::Nearest),
        FloatRoundOperation::TowardPositive => Some(HostRounding::Ceiling),
        FloatRoundOperation::TowardNegative => Some(HostRounding::Floor),
        FloatRoundOperation::TowardZero => Some(HostRounding::Truncate),
        _ => None,
    }
}

/// The rounding of an instruction that the host may round.
pub fn scalar_rounding(operation: FloatRoundOperation) -> (r: HostRounding)
    requires
        rounding_of(operation) is Some,
    ensures
        Some(r) == rounding_of(operation),
{
    match operation {
        FloatRoundOperation::NearestEven => HostRounding::Nearest,
        FloatRoundOperation::TowardPositive => HostRounding::Ceiling,
        FloatRoundOperation::TowardNegative => HostRounding::Floor,
        _ => HostRounding::Truncate,
    }
}

/// The bits of a power of two, of either sign.
pub open spec fn power_bits(negative: bool, power: int, wide: bool) -> int {
    if wide {
        (1023 + power) * 0x10_0000_0000_0000 + if negative {
            0x8000_0000_0000_0000int
        } else {
            0int
        }
    } else {
        (127 + power) * 0x80_0000 + if negative {
            0x8000_0000int
        } else {
            0int
        }
    }
}

/// The power of the highest bit of an integer.
pub open spec fn highest_power(integer_64: bool) -> int {
    if integer_64 {
        63
    } else {
        31
    }
}

/// The bounds of the numbers that fit an integer, as floating-point bits: the
/// smallest that does, and the smallest above it that does not.
pub fn integer_bounds(unsigned: bool, integer_64: bool, wide: bool) -> (r: (u64, u64))
    ensures
        r.0 == (if unsigned {
            0int
        } else {
            power_bits(true, highest_power(integer_64), wide)
        }),
        r.1 == power_bits(
            false,
            if unsigned {
                highest_power(integer_64) + 1
            } else {
                highest_power(integer_64)
            },
            wide,
        ),
{
    if wide {
        let lower: u64 = if unsigned {
            0
        } else if integer_64 {
            0xc3e0_0000_0000_0000
        } else {
            0xc1e0_0000_0000_0000
        };
        let upper: u64 = if integer_64 {
            if unsigned {
                0x43f0_0000_0000_0000
            } else {
                0x43e0_0000_0000_0000
            }
        } else if unsigned {
            0x41f0_0000_0000_0000
        } else {
            0x41e0_0000_0000_0000
        };
        (lower, upper)
    } else {
        let lower: u64 = if unsigned {
            0
        } else if integer_64 {
            0xdf00_0000
        } else {
            0xcf00_0000
        };
        let upper: u64 = if integer_64 {
            if unsigned {
                0x5f80_0000
            } else {
                0x5f00_0000
            }
        } else if unsigned {
            0x4f80_0000
        } else {
            0x4f00_0000
        };
        (lower, upper)
    }
}

/// The formats of a conversion between floating-point formats: the source and the
/// result are double.
pub fn conversion_widths(conversion: FloatConversion) -> (r: (bool, bool))
    ensures
        r == (conversion is DoubleToSingle, conversion is SingleToDouble),
{
    match conversion {
        FloatConversion::SingleToDouble => (false, true),
        FloatConversion::DoubleToSingle => (true, false),
    }
}

} // verus!
