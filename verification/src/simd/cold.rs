//! Calls of the exact floating-point helpers.

use vstd::prelude::*;
use super::guards::names_operation;
use super::immediates::{word, word_of};
use crate::decode::{
    FloatAddOperation, FloatConversion, FloatFusedMultiplyOperation, FloatMultiplyOperation,
    FloatRoundOperation, FloatToIntegerRounding, FpSimdInstruction, FpSimdKind,
};
use crate::direct::error::{DirectJitError, DirectJitErrorKind};

verus! {

#[derive(Clone, Copy, Debug, PartialEq, Eq, Structural)]
pub enum ColdHelper {
    IntegerToFloat,
    FloatToInteger,
    Unary,
    Binary,
    Fused,
    Compare,
}

/// An argument of a helper.
#[derive(Clone, Copy, Debug, PartialEq, Eq, Structural)]
pub enum ColdOperand {
    General { register: u8 },
    /// The low half of a vector register.
    Low { register: u8 },
    High { register: u8 },
    Zero,
}

/// Where the result of a helper goes.
#[derive(Clone, Copy, Debug, PartialEq, Eq, Structural)]
pub enum ColdOutput {
    Vector { register: u8 },
    /// Register 31 takes no result.
    General { destination: Option<u8> },
    Flags,
}

#[derive(Debug, PartialEq, Eq)]
pub struct ColdCall {
    pub helper: ColdHelper,
    pub operands: Vec<ColdOperand>,
    /// The flags are passed after the operands.
    pub passes_flags: bool,
    /// What the helper computes, in which format.
    pub shape: u64,
    pub output: ColdOutput,
}

pub open spec fn helper_of(kind: FpSimdKind) -> Option<ColdHelper> {
    match kind {
        FpSimdKind::SignedIntToFloat | FpSimdKind::UnsignedIntToFloat => Some(
            ColdHelper::IntegerToFloat,
        ),
        FpSimdKind::FloatToSignedInt | FpSimdKind::FloatToUnsignedInt => Some(
            ColdHelper::FloatToInteger,
        ),
        FpSimdKind::VectorSignedIntToFloat
        | FpSimdKind::VectorUnsignedIntToFloat
        | FpSimdKind::ScalarVectorSignedIntToFloat
        | FpSimdKind::ScalarVectorUnsignedIntToFloat
        | FpSimdKind::ScalarFloatConvert
        | FpSimdKind::ScalarFloatRound
        | FpSimdKind::ScalarFloatSquareRoot => Some(ColdHelper::Unary),
        FpSimdKind::VectorFloatDivide
        | FpSimdKind::VectorFloatMultiplyElement
        | FpSimdKind::ScalarFloatDivide
        | FpSimdKind::ScalarFloatAdd
        | FpSimdKind::ScalarFloatMultiply => Some(ColdHelper::Binary),
        FpSimdKind::ScalarFloatFusedMultiplyAdd => Some(ColdHelper::Fused),
        FpSimdKind::CompareRegister
        | FpSimdKind::CompareZero
        | FpSimdKind::ConditionalCompare => Some(ColdHelper::Compare),
        _ => None,
    }
}

pub open spec fn cold_operands(instruction: FpSimdInstruction) -> Seq<ColdOperand> {
    let fields = instruction.operands;
    match helper_of(instruction.kind) {
        Some(ColdHelper::IntegerToFloat) => seq![ColdOperand::General { register: fields.rn }],
        Some(ColdHelper::FloatToInteger) => seq![ColdOperand::Low { register: fields.rn }],
        Some(ColdHelper::Unary) => seq![
            ColdOperand::Low { register: fields.rn },
            ColdOperand::High { register: fields.rn },
        ],
        Some(ColdHelper::Binary) => seq![
            ColdOperand::Low { register: fields.rn },
            ColdOperand::High { register: fields.rn },
            ColdOperand::Low { register: fields.rm },
            ColdOperand::High { register: fields.rm },
        ],
        Some(ColdHelper::Fused) => seq![
            ColdOperand::Low { register: fields.rn },
            ColdOperand::Low { register: fields.rm },
            ColdOperand::Low { register: fields.ra },
        ],
        Some(ColdHelper::Compare) => seq![
            ColdOperand::Low { register: fields.rn },
            if instruction.kind is CompareZero {
                ColdOperand::Zero
            } else {
                ColdOperand::Low { register: fields.rm }
            },
        ],
        None => Seq::empty(),
    }
}

/// The operation of a helper, as a number.
pub open spec fn operation_code(instruction: FpSimdInstruction) -> u8 {
    let fields = instruction.operands;
    match instruction.kind {
        FpSimdKind::UnsignedIntToFloat => 1,
        FpSimdKind::FloatToUnsignedInt => 1,
        FpSimdKind::VectorSignedIntToFloat => 0,
        FpSimdKind::VectorUnsignedIntToFloat => 1,
        FpSimdKind::ScalarVectorSignedIntToFloat => 2,
        FpSimdKind::ScalarVectorUnsignedIntToFloat => 3,
        FpSimdKind::ScalarFloatConvert => match fields.float_conversion->0 {
            FloatConversion::SingleToDouble => 4,
            FloatConversion::DoubleToSingle => 5,
        },
        FpSimdKind::ScalarFloatRound => match fields.float_round_operation->0 {
            FloatRoundOperation::NearestEven => 6,
            FloatRoundOperation::TowardPositive => 7,
            FloatRoundOperation::TowardNegative => 8,
            FloatRoundOperation::TowardZero => 9,
            FloatRoundOperation::NearestAway => 10,
            FloatRoundOperation::Exact => 11,
            FloatRoundOperation::CurrentMode => 12,
        },
        FpSimdKind::ScalarFloatSquareRoot => 13,
        FpSimdKind::VectorFloatDivide => 0,
        FpSimdKind::VectorFloatMultiplyElement => 1,
        FpSimdKind::ScalarFloatDivide => 2,
        FpSimdKind::ScalarFloatAdd => match fields.float_add_operation->0 {
            FloatAddOperation::Add => 3,
            FloatAddOperation::Subtract => 4,
        },
        FpSimdKind::ScalarFloatMultiply => match fields.float_multiply_operation->0 {
            FloatMultiplyOperation::Multiply => 5,
            FloatMultiplyOperation::NegatedMultiply => 6,
        },
        FpSimdKind::ScalarFloatFusedMultiplyAdd => match fields.float_fused_multiply_operation->0 {
            FloatFusedMultiplyOperation::MultiplyAdd => 0,
            FloatFusedMultiplyOperation::MultiplySubtract => 1,
            FloatFusedMultiplyOperation::NegatedMultiplyAdd => 2,
            FloatFusedMultiplyOperation::NegatedMultiplySubtract => 3,
        },
        FpSimdKind::CompareZero => 1,
        FpSimdKind::ConditionalCompare => 2,
        _ => 0,
    }
}

pub open spec fn rounding_code(rounding: FloatToIntegerRounding) -> u8 {
    match rounding {
        FloatToIntegerRounding::NearestEven => 0,
        FloatToIntegerRounding::NearestAway => 1,
        FloatToIntegerRounding::TowardPositive => 2,
        FloatToIntegerRounding::TowardNegative => 3,
        FloatToIntegerRounding::TowardZero => 4,
    }
}

pub open spec fn flag_byte(flag: bool) -> u8 {
    if flag {
        1
    } else {
        0
    }
}

/// The bytes of the shape, lowest first: the operation, the format and what else
/// the helper depends on.
pub open spec fn shape_bytes(instruction: FpSimdInstruction) -> Seq<u8> {
    let fields = instruction.operands;
    let code = operation_code(instruction);
    match helper_of(instruction.kind) {
        Some(ColdHelper::IntegerToFloat) => seq![code, fields.opc, fields.size, 0, 0, 0, 0, 0],
        Some(ColdHelper::FloatToInteger) => seq![
            code,
            fields.opc,
            fields.size,
            rounding_code(fields.float_to_integer_rounding->0),
            match fields.fixed_point_fraction_bits {
                Some(bits) => bits,
                None => u8::MAX,
            },
            0,
            0,
            0,
        ],
        Some(ColdHelper::Unary) => seq![
            code,
            fields.opc,
            flag_byte(fields.vector_128),
            0,
            0,
            0,
            0,
            0,
        ],
        Some(ColdHelper::Binary) => seq![
            code,
            fields.opc,
            flag_byte(fields.vector_128),
            fields.fp_element_lane,
            0,
            0,
            0,
            0,
        ],
        Some(ColdHelper::Fused) => seq![code, fields.opc, 0, 0, 0, 0, 0, 0],
        Some(ColdHelper::Compare) => seq![
            code,
            fields.opc,
            flag_byte(fields.signaling_compare),
            fields.condition,
            fields.nzcv_immediate,
            0,
            0,
            0,
        ],
        None => seq![0, 0, 0, 0, 0, 0, 0, 0],
    }
}

pub open spec fn cold_output(instruction: FpSimdInstruction) -> ColdOutput {
    let rd = instruction.operands.rd;
    match helper_of(instruction.kind) {
        Some(ColdHelper::FloatToInteger) => ColdOutput::General {
            destination: if rd == 31 {
                None
            } else {
                Some(rd)
            },
        },
        Some(ColdHelper::Compare) => ColdOutput::Flags,
        _ => ColdOutput::Vector { register: rd },
    }
}

/// What the bytes from `k` on stand for.
spec fn tail_of(bytes: Seq<u8>, k: int) -> int
    decreases 8 - k,
{
    if k >= 8 {
        0
    } else {
        bytes[k] + 0x100 * tail_of(bytes, k + 1)
    }
}

proof fn lemma_lowest_byte(x: u8, y: u8, above_x: int, above_y: int)
    requires
        x + 0x100 * above_x == y + 0x100 * above_y,
    ensures
        x == y,
        above_x == above_y,
{
}

/// Different shapes ask for different computations: the word tells every byte.
pub proof fn law_shapes_are_unambiguous(a: Seq<u8>, b: Seq<u8>)
    requires
        a.len() == 8,
        b.len() == 8,
        word_of(a) == word_of(b),
    ensures
        a == b,
{
    reveal_with_fuel(tail_of, 9);
    assert(word_of(a) == tail_of(a, 0));
    assert(word_of(b) == tail_of(b, 0));
    lemma_lowest_byte(a[0], b[0], tail_of(a, 1), tail_of(b, 1));
    lemma_lowest_byte(a[1], b[1], tail_of(a, 2), tail_of(b, 2));
    lemma_lowest_byte(a[2], b[2], tail_of(a, 3), tail_of(b, 3));
    lemma_lowest_byte(a[3], b[3], tail_of(a, 4), tail_of(b, 4));
    lemma_lowest_byte(a[4], b[4], tail_of(a, 5), tail_of(b, 5));
    lemma_lowest_byte(a[5], b[5], tail_of(a, 6), tail_of(b, 6));
    lemma_lowest_byte(a[6], b[6], a[7] as int, b[7] as int);
    assert(a =~= b);
}

fn unary_code(instruction: FpSimdInstruction) -> (r: u8)
    requires
        helper_of(instruction.kind) == Some(ColdHelper::Unary),
        names_operation(instruction),
    ensures
        r == operation_code(instruction),
{
    let fields = instruction.operands;
    match instruction.kind {
        FpSimdKind::VectorSignedIntToFloat => 0,
        FpSimdKind::VectorUnsignedIntToFloat => 1,
        FpSimdKind::ScalarVectorSignedIntToFloat => 2,
        FpSimdKind::ScalarVectorUnsignedIntToFloat => 3,
        FpSimdKind::ScalarFloatConvert => match fields.float_conversion.unwrap() {
            FloatConversion::SingleToDouble => 4,
            FloatConversion::DoubleToSingle => 5,
        },
        FpSimdKind::ScalarFloatRound => match fields.float_round_operation.unwrap() {
            FloatRoundOperation::NearestEven => 6,
            FloatRoundOperation::TowardPositive => 7,
            FloatRoundOperation::TowardNegative => 8,
            FloatRoundOperation::TowardZero => 9,
            FloatRoundOperation::NearestAway => 10,
            FloatRoundOperation::Exact => 11,
            FloatRoundOperation::CurrentMode => 12,
        },
        _ => 13,
    }
}

fn binary_code(instruction: FpSimdInstruction) -> (r: u8)
    requires
        helper_of(instruction.kind) == Some(ColdHelper::Binary),
        names_operation(instruction),
    ensures
        r == operation_code(instruction),
{
    let fields = instruction.operands;
    match instruction.kind {
        FpSimdKind::VectorFloatDivide => 0,
        FpSimdKind::VectorFloatMultiplyElement => 1,
        FpSimdKind::ScalarFloatDivide => 2,
        FpSimdKind::ScalarFloatAdd => match fields.float_add_operation.unwrap() {
            FloatAddOperation::Add => 3,
            FloatAddOperation::Subtract => 4,
        },
        _ => match fields.float_multiply_operation.unwrap() {
            FloatMultiplyOperation::Multiply => 5,
            FloatMultiplyOperation::NegatedMultiply => 6,
        },
    }
}

fn fused_code(operation: FloatFusedMultiplyOperation) -> (r: u8)
    ensures
        r == (match operation {
            FloatFusedMultiplyOperation::MultiplyAdd => 0u8,
            FloatFusedMultiplyOperation::MultiplySubtract => 1,
            FloatFusedMultiplyOperation::NegatedMultiplyAdd => 2,
            FloatFusedMultiplyOperation::NegatedMultiplySubtract => 3,
        }),
{
    match operation {
        FloatFusedMultiplyOperation::MultiplyAdd => 0,
        FloatFusedMultiplyOperation::MultiplySubtract => 1,
        FloatFusedMultiplyOperation::NegatedMultiplyAdd => 2,
        FloatFusedMultiplyOperation::NegatedMultiplySubtract => 3,
    }
}

fn rounding_number(rounding: FloatToIntegerRounding) -> (r: u8)
    ensures
        r == rounding_code(rounding),
{
    match rounding {
        FloatToIntegerRounding::NearestEven => 0,
        FloatToIntegerRounding::NearestAway => 1,
        FloatToIntegerRounding::TowardPositive => 2,
        FloatToIntegerRounding::TowardNegative => 3,
        FloatToIntegerRounding::TowardZero => 4,
    }
}

fn byte(flag: bool) -> (r: u8)
    ensures
        r == flag_byte(flag),
{
    if flag {
        1
    } else {
        0
    }
}

/// Five bytes of a shape.
fn shape(code: u8, format: u8, third: u8, fourth: u8, fifth: u8) -> (r: u64)
    ensures
        r == word_of(seq![code, format, third, fourth, fifth, 0, 0, 0]),
{
    let mut bytes: Vec<u8> = Vec::new();
    bytes.push(code);
    bytes.push(format);
    bytes.push(third);
    bytes.push(fourth);
    bytes.push(fifth);
    bytes.push(0);
    bytes.push(0);
    bytes.push(0);
    proof {
        assert(bytes@ =~= seq![code, format, third, fourth, fifth, 0, 0, 0]);
    }
    word(&bytes)
}

/// The call of the exact helper for an instruction.
pub fn emit_typed_fp_cold(instruction: FpSimdInstruction) -> (r: Result<ColdCall, DirectJitError>)
    requires
        names_operation(instruction),
    ensures
        match r {
            Ok(call) => {
                &&& helper_of(instruction.kind) == Some(call.helper)
                &&& call.operands@ == cold_operands(instruction)
                &&& call.passes_flags == (call.helper is Compare)
                &&& call.shape == word_of(shape_bytes(instruction))
                &&& call.output == cold_output(instruction)
            },
            Err(error) => helper_of(instruction.kind) is None && error.is(
                DirectJitErrorKind::Unsupported,
                "A64 FP instruction lacks an exact typed boundary"@,
            ),
        },
{
    let fields = instruction.operands;
    let mut operands: Vec<ColdOperand> = Vec::new();
    match instruction.kind {
        FpSimdKind::SignedIntToFloat | FpSimdKind::UnsignedIntToFloat => {
            operands.push(ColdOperand::General { register: fields.rn });
            let unsigned: bool = matches!(instruction.kind, FpSimdKind::UnsignedIntToFloat);
            proof {
                assert(operands@ =~= cold_operands(instruction));
            }
            Ok(
                ColdCall {
                    helper: ColdHelper::IntegerToFloat,
                    operands,
                    passes_flags: false,
                    shape: shape(byte(unsigned), fields.opc, fields.size, 0, 0),
                    output: ColdOutput::Vector { register: fields.rd },
                },
            )
        },
        FpSimdKind::FloatToSignedInt | FpSimdKind::FloatToUnsignedInt => {
            operands.push(ColdOperand::Low { register: fields.rn });
            let unsigned: bool = matches!(instruction.kind, FpSimdKind::FloatToUnsignedInt);
            let rounding: u8 = rounding_number(fields.float_to_integer_rounding.unwrap());
            let fraction: u8 = match fields.fixed_point_fraction_bits {
                Some(bits) => bits,
                None => u8::MAX,
            };
            proof {
                assert(operands@ =~= cold_operands(instruction));
            }
            Ok(
                ColdCall {
                    helper: ColdHelper::FloatToInteger,
                    operands,
                    passes_flags: false,
                    shape: shape(byte(unsigned), fields.opc, fields.size, rounding, fraction),
                    output: ColdOutput::General {
                        destination: if fields.rd == 31 {
                            None
                        } else {
                            Some(fields.rd)
                        },
                    },
                },
            )
        },
        FpSimdKind::VectorSignedIntToFloat
        | FpSimdKind::VectorUnsignedIntToFloat
        | FpSimdKind::ScalarVectorSignedIntToFloat
        | FpSimdKind::ScalarVectorUnsignedIntToFloat
        | FpSimdKind::ScalarFloatConvert
        | FpSimdKind::ScalarFloatRound
        | FpSimdKind::ScalarFloatSquareRoot => {
            operands.push(ColdOperand::Low { register: fields.rn });
            operands.push(ColdOperand::High { register: fields.rn });
            proof {
                assert(operands@ =~= cold_operands(instruction));
            }
            Ok(
                ColdCall {
                    helper: ColdHelper::Unary,
                    operands,
                    passes_flags: false,
                    shape: shape(
                        unary_code(instruction),
                        fields.opc,
                        byte(fields.vector_128),
                        0,
                        0,
                    ),
                    output: ColdOutput::Vector { register: fields.rd },
                },
            )
        },
        FpSimdKind::VectorFloatDivide
        | FpSimdKind::VectorFloatMultiplyElement
        | FpSimdKind::ScalarFloatDivide
        | FpSimdKind::ScalarFloatAdd
        | FpSimdKind::ScalarFloatMultiply => {
            operands.push(ColdOperand::Low { register: fields.rn });
            operands.push(ColdOperand::High { register: fields.rn });
            operands.push(ColdOperand::Low { register: fields.rm });
            operands.push(ColdOperand::High { register: fields.rm });
            proof {
                assert(operands@ =~= cold_operands(instruction));
            }
            Ok(
                ColdCall {
                    helper: ColdHelper::Binary,
                    operands,
                    passes_flags: false,
                    shape: shape(
                        binary_code(instruction),
                        fields.opc,
                        byte(fields.vector_128),
                        fields.fp_element_lane,
                        0,
                    ),
                    output: ColdOutput::Vector { register: fields.rd },
                },
            )
        },
        FpSimdKind::ScalarFloatFusedMultiplyAdd => {
            operands.push(ColdOperand::Low { register: fields.rn });
            operands.push(ColdOperand::Low { register: fields.rm });
            operands.push(ColdOperand::Low { register: fields.ra });
            proof {
                assert(operands@ =~= cold_operands(instruction));
            }
            Ok(
                ColdCall {
                    helper: ColdHelper::Fused,
                    operands,
                    passes_flags: false,
                    shape: shape(
                        fused_code(fields.float_fused_multiply_operation.unwrap()),
                        fields.opc,
                        0,
                        0,
                        0,
                    ),
                    output: ColdOutput::Vector { register: fields.rd },
                },
            )
        },
        FpSimdKind::CompareRegister | FpSimdKind::CompareZero | FpSimdKind::ConditionalCompare => {
            let zero: bool = matches!(instruction.kind, FpSimdKind::CompareZero);
            operands.push(ColdOperand::Low { register: fields.rn });
            if zero {
                operands.push(ColdOperand::Zero);
            } else {
                operands.push(ColdOperand::Low { register: fields.rm });
            }
            let code: u8 = match instruction.kind {
                FpSimdKind::CompareRegister => 0,
                FpSimdKind::CompareZero => 1,
                _ => 2,
            };
            proof {
                assert(operands@ =~= cold_operands(instruction));
            }
            Ok(
                ColdCall {
                    helper: ColdHelper::Compare,
                    operands,
                    passes_flags: true,
                    shape: shape(
                        code,
                        fields.opc,
                        byte(fields.signaling_compare),
                        fields.condition,
                        fields.nzcv_immediate,
                    ),
                    output: ColdOutput::Flags,
                },
            )
        },
        _ => Err(
            DirectJitError::unsupported("A64 FP instruction lacks an exact typed boundary"),
        ),
    }
}

/// The entry points through which native code calls out, by their parameters.
#[derive(Clone, Copy, Debug, PartialEq, Eq, Structural)]
pub struct ColdCallBoundaries {
    pub general_0: usize,
    pub general_1: usize,
    pub general_2: usize,
    pub general_3: usize,
    pub general_5: usize,
    pub fp_scalar: usize,
    pub fp_unary: usize,
    pub fp_binary: usize,
    pub fp_fused: usize,
    pub fp_compare: usize,
    pub materialize_fp: usize,
}

impl ColdCallBoundaries {
    pub open spec fn general_of(self, arguments: int) -> Option<usize> {
        if arguments == 0 {
            Some(self.general_0)
        } else if arguments == 1 {
            Some(self.general_1)
        } else if arguments == 2 {
            Some(self.general_2)
        } else if arguments == 3 {
            Some(self.general_3)
        } else if arguments == 5 {
            Some(self.general_5)
        } else {
            None
        }
    }

    pub fn general(self, arguments: usize) -> (r: Result<usize, DirectJitError>)
        ensures
            match r {
                Ok(entry) => self.general_of(arguments as int) == Some(entry),
                Err(error) => self.general_of(arguments as int) is None && error.is(
                    DirectJitErrorKind::Internal,
                    "direct JIT slow call has no typed cold boundary"@,
                ),
            },
    {
        match arguments {
            0 => Ok(self.general_0),
            1 => Ok(self.general_1),
            2 => Ok(self.general_2),
            3 => Ok(self.general_3),
            5 => Ok(self.general_5),
            _ => Err(
                DirectJitError::internal("direct JIT slow call has no typed cold boundary"),
            ),
        }
    }

    pub open spec fn fp_of(self, operands: int, extra: int) -> Option<usize> {
        if operands == 1 && extra == 0 {
            Some(self.fp_scalar)
        } else if operands == 2 && extra == 0 {
            Some(self.fp_unary)
        } else if operands == 4 && extra == 0 {
            Some(self.fp_binary)
        } else if operands == 3 && extra == 0 {
            Some(self.fp_fused)
        } else if operands == 2 && extra == 1 {
            Some(self.fp_compare)
        } else {
            None
        }
    }

    pub fn fp(self, operands: usize, extra: usize) -> (r: Result<usize, DirectJitError>)
        ensures
            match r {
                Ok(entry) => self.fp_of(operands as int, extra as int) == Some(entry),
                Err(error) => self.fp_of(operands as int, extra as int) is None && error.is(
                    DirectJitErrorKind::Internal,
                    "direct JIT exact FP call has no typed cold boundary"@,
                ),
            },
    {
        match (operands, extra) {
            (1, 0) => Ok(self.fp_scalar),
            (2, 0) => Ok(self.fp_unary),
            (4, 0) => Ok(self.fp_binary),
            (3, 0) => Ok(self.fp_fused),
            (2, 1) => Ok(self.fp_compare),
            _ => Err(
                DirectJitError::internal("direct JIT exact FP call has no typed cold boundary"),
            ),
        }
    }
}

/// Every call of an exact helper has a boundary to go through.
pub proof fn law_every_cold_call_has_a_boundary(
    boundaries: ColdCallBoundaries,
    instruction: FpSimdInstruction,
)
    requires
        helper_of(instruction.kind) is Some,
    ensures
        boundaries.fp_of(
            cold_operands(instruction).len() as int,
            if helper_of(instruction.kind) == Some(ColdHelper::Compare) {
                1
            } else {
                0
            },
        ) is Some,
{
}

} // verus!
