//! The plan of any vector or floating-point instruction.

use vstd::prelude::*;
use super::cold::emit_typed_fp_cold;
use super::conditions::{checks_guard, host_checks};
use super::guards::{
    conversion_widths, host_operation, integer_bounds, is_scalar_arithmetic,
    names_operation, power_bits, highest_power, rounding_of, emit_common_scalar_arithmetic,
    emit_common_scalar_compare, scalar_rounding, emit_common_vector_arithmetic,
};
use super::immediates::signed_field;
use super::lanes::{scalar_bits, scalar_width};
use super::memory::{
    is_single_access, multiple_elements, emit_multiple_structures, single_access, single_address,
    single_elements, emit_single_structure, step_of, structure_registers, emit_vector_pair,
};
use super::plan::{
    is_exact_call, is_fault, is_guarded, is_move, move_fault, move_fits, plan_move,
    plan_registers, plannable, registers_of, vector_bits, FpSimdPlan, IntegerRange, VectorPlan,
};
use super::vector::{
    is_lane_computation, lane_computation_fault, lane_computation_fits, plan_lane_computation,
};
use crate::abi::HostAbi;
use crate::decode::{FpSimdInstruction, FpSimdKind};
use crate::direct::error::{DirectJitError, DirectJitErrorKind};
use crate::fp_policy::{disposition, fp_lowering_disposition};

verus! {

/// The host path of a floating-point instruction.
pub open spec fn float_fits(instruction: FpSimdInstruction, plan: VectorPlan) -> bool {
    let fields = instruction.operands;
    let wide_scalar = scalar_bits(fields.opc) != 32;
    let integer_64 = (fields.size / 2) % 2 == 1;
    match plan {
        VectorPlan::ScalarArithmetic(plan) => {
            &&& is_scalar_arithmetic(instruction.kind)
            &&& plan.wide == wide_scalar
            &&& plan.operation == host_operation(instruction)
            &&& plan.first == fields.rn
            &&& plan.second == fields.rm
            &&& plan.third == fields.ra
            &&& plan.destination == fields.rd
        },
        VectorPlan::VectorArithmetic(plan) => {
            let divides = instruction.kind is VectorFloatDivide;
            &&& divides || instruction.kind is VectorFloatMultiplyElement
            &&& plan.wide == (fields.opc != 0)
            &&& plan.lanes == if !plan.wide && fields.vector_128 {
                4u8
            } else {
                2u8
            }
            &&& plan.vector_128 == fields.vector_128
            &&& plan.element == if divides {
                None
            } else {
                Some(fields.fp_element_lane)
            }
            &&& plan.pad == (divides && !plan.wide && !fields.vector_128)
            &&& plan.first == fields.rn
            &&& plan.second == fields.rm
            &&& plan.destination == fields.rd
        },
        VectorPlan::Compare(plan) => {
            &&& instruction.kind is CompareRegister || instruction.kind is CompareZero
            &&& plan.wide == wide_scalar
            &&& plan.first == fields.rn
            &&& plan.second == if instruction.kind is CompareZero {
                None
            } else {
                Some(fields.rm)
            }
        },
        VectorPlan::Round { wide, rounding } => {
            &&& instruction.kind is ScalarFloatRound
            &&& wide == wide_scalar
            &&& Some(rounding) == rounding_of(fields.float_round_operation->0)
        },
        VectorPlan::Convert { from_wide, to_wide } => {
            &&& instruction.kind is ScalarFloatConvert
            &&& from_wide == (fields.float_conversion->0 is DoubleToSingle)
            &&& to_wide == !from_wide
        },
        VectorPlan::FromInteger { signed, integer_64: from_64, wide } => {
            &&& instruction.kind is SignedIntToFloat || instruction.kind is UnsignedIntToFloat
            &&& signed == (instruction.kind is SignedIntToFloat)
            &&& from_64 == integer_64
            &&& wide == (fields.opc != 0)
        },
        VectorPlan::LanesFromInteger { signed, wide, width } => {
            let scalar = instruction.kind is ScalarVectorSignedIntToFloat
                || instruction.kind is ScalarVectorUnsignedIntToFloat;
            &&& scalar || instruction.kind is VectorSignedIntToFloat
                || instruction.kind is VectorUnsignedIntToFloat
            &&& signed == (instruction.kind is VectorSignedIntToFloat
                || instruction.kind is ScalarVectorSignedIntToFloat)
            &&& wide == (fields.opc != 0)
            &&& width == if !scalar {
                vector_bits(fields)
            } else if wide {
                64
            } else {
                32
            }
        },
        VectorPlan::ToInteger { unsigned, integer_64: to_64, wide, range } => {
            &&& instruction.kind is FloatToSignedInt || instruction.kind is FloatToUnsignedInt
            &&& unsigned == (instruction.kind is FloatToUnsignedInt)
            &&& to_64 == integer_64
            &&& wide == (fields.opc != 0)
            &&& range.lower == if unsigned {
                0
            } else {
                power_bits(true, highest_power(to_64), wide)
            }
            &&& range.upper == power_bits(
                false,
                if unsigned {
                    highest_power(to_64) + 1
                } else {
                    highest_power(to_64)
                },
                wide,
            )
        },
        _ => false,
    }
}

/// Why a host path has no plan.
pub open spec fn float_fault(instruction: FpSimdInstruction) -> Option<
    (DirectJitErrorKind, Seq<char>),
> {
    let sized = is_scalar_arithmetic(instruction.kind) || instruction.kind is CompareRegister
        || instruction.kind is CompareZero || instruction.kind is ScalarFloatRound;
    if sized && scalar_bits(instruction.operands.opc) == 0 {
        Some((DirectJitErrorKind::InvalidGuestCode, "invalid scalar FP width"@))
    } else {
        None
    }
}

/// The plan of the host path of a floating-point instruction.
pub fn plan_float(instruction: FpSimdInstruction) -> (r: Result<VectorPlan, DirectJitError>)
    requires
        is_guarded(instruction.kind),
        names_operation(instruction),
        instruction.kind is ScalarFloatRound ==> rounding_of(
            instruction.operands.float_round_operation->0,
        ) is Some,
    ensures
        match r {
            Ok(plan) => float_fault(instruction) is None && float_fits(instruction, plan),
            Err(error) => is_fault(error, float_fault(instruction)),
        },
{
    let fields = instruction.operands;
    let wide: bool = fields.opc != 0;
    let integer_64: bool = (fields.size / 2) % 2 == 1;
    match instruction.kind {
        FpSimdKind::ScalarFloatAdd
        | FpSimdKind::ScalarFloatMultiply
        | FpSimdKind::ScalarFloatFusedMultiplyAdd
        | FpSimdKind::ScalarFloatDivide
        | FpSimdKind::ScalarFloatSquareRoot => match emit_common_scalar_arithmetic(instruction) {
            Ok(plan) => Ok(VectorPlan::ScalarArithmetic(plan)),
            Err(error) => Err(error),
        },
        FpSimdKind::VectorFloatDivide | FpSimdKind::VectorFloatMultiplyElement => Ok(
            VectorPlan::VectorArithmetic(emit_common_vector_arithmetic(instruction)),
        ),
        FpSimdKind::CompareRegister | FpSimdKind::CompareZero => match emit_common_scalar_compare(
            instruction,
        ) {
            Ok(plan) => Ok(VectorPlan::Compare(plan)),
            Err(error) => Err(error),
        },
        FpSimdKind::ScalarFloatRound => match scalar_width(fields.opc) {
            Ok(width) => Ok(
                VectorPlan::Round {
                    wide: width != 32,
                    rounding: scalar_rounding(fields.float_round_operation.unwrap()),
                },
            ),
            Err(error) => Err(error),
        },
        FpSimdKind::ScalarFloatConvert => {
            let (from_wide, to_wide) = conversion_widths(fields.float_conversion.unwrap());
            Ok(VectorPlan::Convert { from_wide, to_wide })
        },
        FpSimdKind::SignedIntToFloat | FpSimdKind::UnsignedIntToFloat => Ok(
            VectorPlan::FromInteger {
                signed: matches!(instruction.kind, FpSimdKind::SignedIntToFloat),
                integer_64,
                wide,
            },
        ),
        FpSimdKind::VectorSignedIntToFloat
        | FpSimdKind::VectorUnsignedIntToFloat
        | FpSimdKind::ScalarVectorSignedIntToFloat
        | FpSimdKind::ScalarVectorUnsignedIntToFloat => {
            let signed: bool = matches!(
                instruction.kind,
                FpSimdKind::VectorSignedIntToFloat | FpSimdKind::ScalarVectorSignedIntToFloat
            );
            let scalar: bool = matches!(
                instruction.kind,
                FpSimdKind::ScalarVectorSignedIntToFloat
                | FpSimdKind::ScalarVectorUnsignedIntToFloat
            );
            let width: u32 = if scalar {
                if wide {
                    64
                } else {
                    32
                }
            } else if fields.vector_128 {
                128
            } else {
                64
            };
            Ok(VectorPlan::LanesFromInteger { signed, wide, width })
        },
        _ => {
            let unsigned: bool = matches!(instruction.kind, FpSimdKind::FloatToUnsignedInt);
            let (lower, upper) = integer_bounds(unsigned, integer_64, wide);
            Ok(
                VectorPlan::ToInteger {
                    unsigned,
                    integer_64,
                    wide,
                    range: IntegerRange { lower, upper },
                },
            )
        },
    }
}

pub open spec fn is_memory(kind: FpSimdKind) -> bool {
    is_single_access(kind) || kind is MemoryPair || kind is MemoryMultipleStructures
        || kind is MemoryMultipleStructuresPostIndex || kind is MemorySingleStructure
        || kind is MemorySingleStructurePostIndex
}

pub open spec fn memory_fits(instruction: FpSimdInstruction, plan: VectorPlan) -> bool {
    let fields = instruction.operands;
    match plan {
        VectorPlan::Access(access) => {
            &&& is_single_access(instruction.kind)
            &&& fields.access_size == Some(access.size)
            &&& single_address(instruction, access.size) == Some(access.address)
            &&& access.register == fields.rd
            &&& access.base == fields.rn
            &&& access.load == fields.load
            &&& access.writeback == if instruction.kind is MemoryPostIndex
                || instruction.kind is MemoryPreIndex {
                Some(signed_field(fields.immediate_9 as int, 9) as i64)
            } else {
                None
            }
        },
        VectorPlan::Pair(pair) => {
            let offset = signed_field(fields.immediate_7 as int, 7) * pair.size.byte_count();
            &&& instruction.kind is MemoryPair
            &&& fields.access_size == Some(pair.size)
            &&& pair.first == fields.rd
            &&& pair.second == fields.rt2
            &&& pair.base == fields.rn
            &&& pair.load == fields.load
            &&& pair.first_offset == if fields.mode == 2 || fields.mode == 3 {
                offset
            } else {
                0
            }
            &&& pair.second_offset == pair.first_offset + pair.size.byte_count()
            &&& pair.writeback == if fields.mode == 1 || fields.mode == 3 {
                Some(offset as i64)
            } else {
                None
            }
        },
        VectorPlan::Structure(access) => {
            let shape = fields.structure->0;
            let several = instruction.kind is MemoryMultipleStructures
                || instruction.kind is MemoryMultipleStructuresPostIndex;
            let single = instruction.kind is MemorySingleStructure
                || instruction.kind is MemorySingleStructurePostIndex;
            &&& several || single
            &&& fields.structure is Some
            &&& access.base == fields.rn
            &&& access.load == (fields.load || (single && shape.mode is Replicate))
            &&& access.elements@ == if several {
                multiple_elements(shape, fields.rd)
            } else {
                single_elements(shape, fields.rd)
            }
            &&& access.cleared@ == if !fields.vector_128 && if several {
                shape.structure_registers != 1 && fields.load
            } else {
                shape.mode is Replicate
            } {
                structure_registers(shape, fields.rd)
            } else {
                Seq::empty()
            }
            &&& access.step == step_of(
                shape,
                fields.rm,
                instruction.kind is MemoryMultipleStructuresPostIndex
                    || instruction.kind is MemorySingleStructurePostIndex,
            )
        },
        _ => false,
    }
}

/// Why a load or store has no plan.
pub open spec fn memory_fault(instruction: FpSimdInstruction) -> Option<
    (DirectJitErrorKind, Seq<char>),
> {
    let fields = instruction.operands;
    match instruction.kind {
        FpSimdKind::MemoryPair => if fields.access_size is None {
            Some((DirectJitErrorKind::InvalidGuestCode, "invalid SIMD pair size"@))
        } else {
            None
        },
        FpSimdKind::MemoryMultipleStructures | FpSimdKind::MemoryMultipleStructuresPostIndex => if fields.structure is None {
            Some((DirectJitErrorKind::InvalidGuestCode, "invalid SIMD multiple-structure shape"@))
        } else {
            None
        },
        FpSimdKind::MemorySingleStructure | FpSimdKind::MemorySingleStructurePostIndex => match fields.structure {
            None => Some(
                (DirectJitErrorKind::InvalidGuestCode, "invalid SIMD single-structure shape"@),
            ),
            Some(shape) => if shape.mode is Multiple {
                Some(
                    (DirectJitErrorKind::Internal, "single-structure shape selected multiple mode"@),
                )
            } else {
                None
            },
        },
        _ => if fields.access_size is None {
            Some((DirectJitErrorKind::InvalidGuestCode, "invalid SIMD transfer size"@))
        } else if single_address(instruction, fields.access_size->0) is None {
            Some((DirectJitErrorKind::InvalidGuestCode, "invalid SIMD register-offset extension"@))
        } else {
            None
        },
    }
}

/// The plan of a load or store of vector registers.
pub fn emit_vector_memory(instruction: FpSimdInstruction) -> (r: Result<
    VectorPlan,
    DirectJitError,
>)
    requires
        is_memory(instruction.kind),
        instruction.normalized(),
        instruction.operands.immediate_7 < 0x80,
        instruction.operands.immediate_9 < 0x200,
    ensures
        match r {
            Ok(plan) => memory_fault(instruction) is None && memory_fits(instruction, plan),
            Err(error) => is_fault(error, memory_fault(instruction)),
        },
{
    match instruction.kind {
        FpSimdKind::MemoryPair => match emit_vector_pair(instruction) {
            Ok(pair) => Ok(VectorPlan::Pair(pair)),
            Err(error) => Err(error),
        },
        FpSimdKind::MemoryMultipleStructures | FpSimdKind::MemoryMultipleStructuresPostIndex => {
            match emit_multiple_structures(instruction) {
                Ok(access) => Ok(VectorPlan::Structure(access)),
                Err(error) => Err(error),
            }
        },
        FpSimdKind::MemorySingleStructure | FpSimdKind::MemorySingleStructurePostIndex => {
            match emit_single_structure(instruction) {
                Ok(access) => Ok(VectorPlan::Structure(access)),
                Err(error) => Err(error),
            }
        },
        _ => match single_access(instruction) {
            Ok(access) => Ok(VectorPlan::Access(access)),
            Err(error) => Err(error),
        },
    }
}

/// The plan computes the instruction.
pub open spec fn plan_fits(instruction: FpSimdInstruction, host: HostAbi, plan: FpSimdPlan) -> bool {
    let kind = instruction.kind;
    &&& plan.registers == plan_registers(instruction.operands, plan.native)
    &&& if disposition(instruction, host) is Exact {
        &&& plan.native is Exact
        &&& plan.checks@.len() == 0
        &&& plan.exact is Some
        &&& is_exact_call(instruction, plan.exact->0)
    } else if is_guarded(kind) {
        &&& float_fits(instruction, plan.native)
        &&& checks_guard(instruction, plan.checks@)
        &&& plan.exact is Some
        &&& is_exact_call(instruction, plan.exact->0)
    } else {
        &&& plan.exact is None
        &&& plan.checks@.len() == 0
        &&& if is_move(kind) {
            move_fits(instruction, plan.native)
        } else if is_lane_computation(kind) {
            lane_computation_fits(instruction, plan.native)
        } else {
            memory_fits(instruction, plan.native)
        }
    }
}

/// Why an instruction has no plan.
pub open spec fn plan_fault(instruction: FpSimdInstruction, host: HostAbi) -> Option<
    (DirectJitErrorKind, Seq<char>),
> {
    let kind = instruction.kind;
    if disposition(instruction, host) is Exact {
        None
    } else if is_guarded(kind) {
        float_fault(instruction)
    } else if is_move(kind) {
        move_fault(instruction)
    } else if is_lane_computation(kind) {
        lane_computation_fault(instruction)
    } else {
        memory_fault(instruction)
    }
}

/// The plan of a vector or floating-point instruction. What only the guest's exact
/// arithmetic gives goes to a helper; what the host gives for most operands has the
/// helper to fall back on.
pub fn emit_fp_simd(instruction: FpSimdInstruction, host: HostAbi) -> (r: Result<
    FpSimdPlan,
    DirectJitError,
>)
    requires
        plannable(instruction),
    ensures
        match r {
            Ok(plan) => plan_fault(instruction, host) is None && plan_fits(
                instruction,
                host,
                plan,
            ),
            Err(error) => is_fault(error, plan_fault(instruction, host)),
        },
{
    if fp_lowering_disposition(instruction, host).is_exact() {
        return match emit_typed_fp_cold(instruction) {
            Ok(call) => {
                let native = VectorPlan::Exact;
                let registers = registers_of(instruction.operands, &native);
                Ok(FpSimdPlan { native, registers, checks: Vec::new(), exact: Some(call) })
            },
            Err(error) => Err(error),
        };
    }
    match instruction.kind {
        FpSimdKind::DuplicateGeneral
        | FpSimdKind::DuplicateElement
        | FpSimdKind::ModifiedImmediate
        | FpSimdKind::UnsignedMoveToGeneral
        | FpSimdKind::InsertElement
        | FpSimdKind::InsertGeneral
        | FpSimdKind::MoveToGeneral
        | FpSimdKind::MoveFromGeneral
        | FpSimdKind::ScalarMove
        | FpSimdKind::ScalarAbsolute
        | FpSimdKind::ScalarNegate
        | FpSimdKind::VectorFloatAbsolute
        | FpSimdKind::VectorFloatNegate
        | FpSimdKind::ScalarFloatImmediate
        | FpSimdKind::VectorFloatImmediate
        | FpSimdKind::ScalarFloatConditionalSelect => match plan_move(instruction) {
            Ok(native) => {
                let registers = registers_of(instruction.operands, &native);
                Ok(FpSimdPlan { native, registers, checks: Vec::new(), exact: None })
            },
            Err(error) => Err(error),
        },
        FpSimdKind::Integer
        | FpSimdKind::Bitwise
        | FpSimdKind::IntegerCompare
        | FpSimdKind::IntegerPairwise
        | FpSimdKind::IntegerMinMax
        | FpSimdKind::PermuteTwoSource
        | FpSimdKind::Extract
        | FpSimdKind::ShiftRightNarrow
        | FpSimdKind::ExtractNarrow
        | FpSimdKind::ScalarShiftRightImmediate
        | FpSimdKind::VectorShiftRightImmediate
        | FpSimdKind::ScalarShiftLeftImmediate
        | FpSimdKind::VectorShiftLeftImmediate
        | FpSimdKind::ShiftLeftLong
        | FpSimdKind::VectorSignedShiftRegister
        | FpSimdKind::VectorUnsignedShiftRegister
        | FpSimdKind::CountBits
        | FpSimdKind::AddAcrossVector => match plan_lane_computation(instruction) {
            Ok(native) => {
                let registers = registers_of(instruction.operands, &native);
                Ok(FpSimdPlan { native, registers, checks: Vec::new(), exact: None })
            },
            Err(error) => Err(error),
        },
        FpSimdKind::MemoryUnsigned
        | FpSimdKind::MemoryUnscaled
        | FpSimdKind::MemoryPostIndex
        | FpSimdKind::MemoryPreIndex
        | FpSimdKind::MemoryRegister
        | FpSimdKind::MemoryPair
        | FpSimdKind::MemoryMultipleStructures
        | FpSimdKind::MemoryMultipleStructuresPostIndex
        | FpSimdKind::MemorySingleStructure
        | FpSimdKind::MemorySingleStructurePostIndex => match emit_vector_memory(instruction) {
            Ok(native) => {
                let registers = registers_of(instruction.operands, &native);
                Ok(FpSimdPlan { native, registers, checks: Vec::new(), exact: None })
            },
            Err(error) => Err(error),
        },
        _ => {
            let native = match plan_float(instruction) {
                Ok(native) => native,
                Err(error) => {
                    return Err(error);
                },
            };
            match emit_typed_fp_cold(instruction) {
                Ok(call) => {
                    let registers = registers_of(instruction.operands, &native);
                    let checks = host_checks(instruction);
                    Ok(FpSimdPlan { native, registers, checks, exact: Some(call) })
                },
                Err(error) => Err(error),
            }
        },
    }
}

} // verus!
