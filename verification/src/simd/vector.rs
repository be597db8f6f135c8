//! Plans of the instructions that compute on integer lanes.

use vstd::prelude::*;
use super::lanes::{
    lane_bits, lane_count, lane_width, left_shift, right_shift, shift_width, LaneShift,
};
use super::plan::{
    is_fault, lane_fault, right_action, shifts_by_immediate, vector_bits, LaneOperation,
    ShiftAction, VectorPlan,
};
use super::shifts::{are_stages, shift_stages};
use super::shuffles::{
    across_masks, distance_of, extract_mask, folded, halvings, moves_lanes, narrow_mask,
    pairwise_masks, permute_mask, permuted, unzipped, upper_mask, window, LaneOf,
};
use crate::decode::{FpSimdInstruction, FpSimdKind};
use crate::direct::error::{DirectJitError, DirectJitErrorKind};

verus! {

/// The instruction computes on integer lanes.
pub open spec fn is_lane_computation(kind: FpSimdKind) -> bool {
    kind is Integer || kind is Bitwise || kind is IntegerCompare || kind is IntegerPairwise
        || kind is IntegerMinMax || kind is PermuteTwoSource || kind is Extract
        || kind is ExtractNarrow || kind is VectorSignedShiftRegister
        || kind is VectorUnsignedShiftRegister || kind is CountBits || kind is AddAcrossVector
        || shifts_by_immediate(kind)
}

/// The width of the lanes that an instruction narrows to.
pub open spec fn narrow_width(instruction: FpSimdInstruction) -> int {
    if instruction.kind is ShiftRightNarrow {
        shift_width(instruction.operands.shift_immediate)
    } else {
        lane_width(instruction.operands.opc as int)
    }
}

pub open spec fn lane_computation_fits(instruction: FpSimdInstruction, plan: VectorPlan) -> bool {
    let fields = instruction.operands;
    let width = lane_width(fields.opc as int);
    let lanes = vector_bits(fields) / width;
    match (instruction.kind, plan) {
        (FpSimdKind::Integer, VectorPlan::Lanes { operation, bits, with_zero, full }) => {
            &&& operation == if fields.subtract {
                LaneOperation::Subtract
            } else {
                LaneOperation::Add
            }
            &&& bits == width
            &&& !with_zero
            &&& full == fields.vector_128
        },
        (FpSimdKind::Bitwise, VectorPlan::Bitwise { function, full }) => Some(function)
            == fields.bitwise_operation && full == fields.vector_128,
        (FpSimdKind::IntegerCompare, VectorPlan::Lanes { operation, bits, with_zero, full }) => {
            &&& operation == LaneOperation::Compare(fields.integer_comparison->0)
            &&& bits == width
            &&& with_zero == fields.compare_with_zero
            &&& full == fields.vector_128
        },
        (FpSimdKind::IntegerPairwise, VectorPlan::Pairwise { choice, bits, left, right, full })
            => {
            &&& Some(choice) == fields.pairwise_operation
            &&& bits == width
            &&& moves_lanes(left@, lanes, width / 8, |lane: int| unzipped(lanes / 2, lane, 0))
            &&& moves_lanes(right@, lanes, width / 8, |lane: int| unzipped(lanes / 2, lane, 1))
            &&& full == fields.vector_128
        },
        (FpSimdKind::IntegerMinMax, VectorPlan::Lanes { operation, bits, with_zero, full }) => {
            &&& operation == LaneOperation::Choose(fields.pairwise_operation->0)
            &&& bits == width
            &&& !with_zero
            &&& full == fields.vector_128
        },
        (FpSimdKind::PermuteTwoSource, VectorPlan::Shuffle { mask, full }) => {
            &&& moves_lanes(
                mask@,
                lanes,
                width / 8,
                |lane: int| permuted(fields.permute_operation->0, lanes, lane),
            )
            &&& full == fields.vector_128
        },
        (FpSimdKind::Extract, VectorPlan::Shuffle { mask, full }) => {
            let count = vector_bits(fields) / 8;
            &&& moves_lanes(
                mask@,
                count,
                1,
                |byte: int| window(count, fields.immediate_4 as int, byte),
            )
            &&& full == fields.vector_128
        },
        (_, VectorPlan::Narrow { bits, shift, packed, above }) => {
            let narrow = narrow_width(instruction);
            &&& instruction.kind is ShiftRightNarrow || instruction.kind is ExtractNarrow
            &&& bits == 2 * narrow
            &&& shift == if instruction.kind is ShiftRightNarrow {
                2 * narrow - fields.shift_immediate
            } else {
                0
            }
            &&& moves_lanes(
                packed@,
                64int / narrow,
                narrow / 8,
                |lane: int| LaneOf { second: false, lane: 2 * lane },
            )
            &&& above is Some == fields.vector_128
            &&& above is Some ==> moves_lanes(
                above->0@,
                2,
                8,
                |lane: int| LaneOf { second: lane == 1, lane: 0 },
            )
        },
        (_, VectorPlan::Shift { bits, action, full }) => {
            let right = instruction.kind is ScalarShiftRightImmediate
                || instruction.kind is VectorShiftRightImmediate;
            let left = instruction.kind is ScalarShiftLeftImmediate
                || instruction.kind is VectorShiftLeftImmediate;
            let vector = instruction.kind is VectorShiftRightImmediate
                || instruction.kind is VectorShiftLeftImmediate;
            &&& right || left
            &&& bits == shift_width(fields.shift_immediate)
            &&& action == if right {
                right_action(fields.shift_immediate, !fields.operation_bit)
            } else {
                ShiftAction::Left {
                    distance: (fields.shift_immediate - shift_width(
                        fields.shift_immediate,
                    )) as u32,
                }
            }
            &&& full == (vector && fields.vector_128)
        },
        (FpSimdKind::ShiftLeftLong, VectorPlan::Lengthen { bits, shift, unsigned, first, count })
            => {
            &&& bits == shift_width(fields.shift_immediate)
            &&& shift == fields.shift_immediate - bits
            &&& unsigned == fields.operation_bit
            &&& count * bits == 64
            &&& first == if fields.vector_128 {
                count
            } else {
                0
            }
        },
        (
            FpSimdKind::VectorSignedShiftRegister,
            VectorPlan::ShiftByRegister { bits, stages, signed, full },
        ) => bits == width && are_stages(stages@, bits) && signed && full == fields.vector_128,
        (
            FpSimdKind::VectorUnsignedShiftRegister,
            VectorPlan::ShiftByRegister { bits, stages, signed, full },
        ) => bits == width && are_stages(stages@, bits) && !signed && full == fields.vector_128,
        (FpSimdKind::CountBits, VectorPlan::CountBits { full }) => full == fields.vector_128,
        (FpSimdKind::AddAcrossVector, VectorPlan::AddAcross { bits, masks }) => {
            &&& bits == width
            &&& masks@.len() == halvings(lanes)
            &&& forall|k: int|
                0 <= k < masks@.len() ==> moves_lanes(
                    #[trigger] masks@[k]@,
                    lanes,
                    width / 8,
                    |lane: int| LaneOf { second: false, lane: folded(distance_of(lanes, k), lane) },
                )
        },
        _ => false,
    }
}

/// Why a computation on lanes has no plan: there are no lanes of the width.
pub open spec fn lane_computation_fault(instruction: FpSimdInstruction) -> Option<
    (DirectJitErrorKind, Seq<char>),
> {
    let fields = instruction.operands;
    let refused = match instruction.kind {
        FpSimdKind::Bitwise | FpSimdKind::Extract | FpSimdKind::CountBits => false,
        FpSimdKind::ShiftRightNarrow | FpSimdKind::ShiftLeftLong => fields.shift_immediate >= 64,
        FpSimdKind::ScalarShiftRightImmediate
        | FpSimdKind::VectorShiftRightImmediate
        | FpSimdKind::ScalarShiftLeftImmediate
        | FpSimdKind::VectorShiftLeftImmediate => fields.shift_immediate >= 128,
        FpSimdKind::ExtractNarrow => fields.opc >= 3,
        _ => fields.opc > 3,
    };
    if refused {
        Some(lane_fault())
    } else {
        None
    }
}

fn plan_narrow(instruction: FpSimdInstruction) -> (r: Result<VectorPlan, DirectJitError>)
    requires
        instruction.kind is ShiftRightNarrow || instruction.kind is ExtractNarrow,
        instruction.kind is ShiftRightNarrow ==> instruction.operands.shift_immediate >= 8,
    ensures
        match r {
            Ok(plan) => lane_computation_fault(instruction) is None && lane_computation_fits(
                instruction,
                plan,
            ),
            Err(error) => is_fault(error, lane_computation_fault(instruction)),
        },
{
    let fields = instruction.operands;
    let narrow = if matches!(instruction.kind, FpSimdKind::ShiftRightNarrow) {
        match right_shift(fields.shift_immediate) {
            Ok(shift) => shift,
            Err(error) => {
                return Err(error);
            },
        }
    } else {
        match lane_bits(fields.opc) {
            Ok(bits) => LaneShift { bits, shift: 0 },
            Err(error) => {
                return Err(error);
            },
        }
    };
    if narrow.bits == 64 {
        return Err(DirectJitError::invalid("invalid SIMD lane width"));
    }
    let packed = narrow_mask(narrow.bits);
    let above = if fields.vector_128 {
        Some(upper_mask())
    } else {
        None
    };
    Ok(VectorPlan::Narrow { bits: 2 * narrow.bits, shift: narrow.shift, packed, above })
}

fn plan_immediate_shift(instruction: FpSimdInstruction) -> (r: Result<VectorPlan, DirectJitError>)
    requires
        instruction.kind is ScalarShiftRightImmediate
            || instruction.kind is VectorShiftRightImmediate
            || instruction.kind is ScalarShiftLeftImmediate
            || instruction.kind is VectorShiftLeftImmediate,
        instruction.operands.shift_immediate >= 8,
    ensures
        match r {
            Ok(plan) => lane_computation_fault(instruction) is None && lane_computation_fits(
                instruction,
                plan,
            ),
            Err(error) => is_fault(error, lane_computation_fault(instruction)),
        },
{
    let fields = instruction.operands;
    let right: bool = matches!(
        instruction.kind,
        FpSimdKind::ScalarShiftRightImmediate | FpSimdKind::VectorShiftRightImmediate
    );
    let vector: bool = matches!(
        instruction.kind,
        FpSimdKind::VectorShiftRightImmediate | FpSimdKind::VectorShiftLeftImmediate
    );
    let full: bool = vector && fields.vector_128;
    if right {
        match right_shift(fields.shift_immediate) {
            Ok(shift) => {
                let action = if !fields.operation_bit {
                    ShiftAction::Arithmetic {
                        distance: if shift.shift == shift.bits {
                            shift.bits - 1
                        } else {
                            shift.shift
                        },
                    }
                } else if shift.shift == shift.bits {
                    ShiftAction::Zero
                } else {
                    ShiftAction::Logical { distance: shift.shift }
                };
                Ok(VectorPlan::Shift { bits: shift.bits, action, full })
            },
            Err(error) => Err(error),
        }
    } else {
        match left_shift(fields.shift_immediate) {
            Ok(shift) => Ok(
                VectorPlan::Shift {
                    bits: shift.bits,
                    action: ShiftAction::Left { distance: shift.shift },
                    full,
                },
            ),
            Err(error) => Err(error),
        }
    }
}

fn plan_lengthen(instruction: FpSimdInstruction) -> (r: Result<VectorPlan, DirectJitError>)
    requires
        instruction.kind is ShiftLeftLong,
        instruction.operands.shift_immediate >= 8,
    ensures
        match r {
            Ok(plan) => lane_computation_fault(instruction) is None && lane_computation_fits(
                instruction,
                plan,
            ),
            Err(error) => is_fault(error, lane_computation_fault(instruction)),
        },
{
    let fields = instruction.operands;
    let shift = match left_shift(fields.shift_immediate) {
        Ok(shift) => shift,
        Err(error) => {
            return Err(error);
        },
    };
    if shift.bits == 64 {
        return Err(DirectJitError::invalid("invalid SIMD lane width"));
    }
    let count: u32 = lane_count(shift.bits, false);
    Ok(
        VectorPlan::Lengthen {
            bits: shift.bits,
            shift: shift.shift,
            unsigned: fields.operation_bit,
            first: if fields.vector_128 {
                count
            } else {
                0
            },
            count,
        },
    )
}

/// The plan of a computation on integer lanes.
pub fn plan_lane_computation(instruction: FpSimdInstruction) -> (r: Result<
    VectorPlan,
    DirectJitError,
>)
    requires
        is_lane_computation(instruction.kind),
        instruction.operands.immediate_4 < 16,
        shifts_by_immediate(instruction.kind) ==> instruction.operands.shift_immediate >= 8,
        instruction.kind is Bitwise ==> instruction.operands.bitwise_operation is Some,
        instruction.kind is IntegerCompare ==> instruction.operands.integer_comparison is Some,
        instruction.kind is IntegerPairwise || instruction.kind is IntegerMinMax
            ==> instruction.operands.pairwise_operation is Some,
        instruction.kind is PermuteTwoSource ==> instruction.operands.permute_operation is Some,
    ensures
        match r {
            Ok(plan) => lane_computation_fault(instruction) is None && lane_computation_fits(
                instruction,
                plan,
            ),
            Err(error) => is_fault(error, lane_computation_fault(instruction)),
        },
{
    let fields = instruction.operands;
    let full: bool = fields.vector_128;
    match instruction.kind {
        FpSimdKind::Bitwise => Ok(
            VectorPlan::Bitwise { function: fields.bitwise_operation.unwrap(), full },
        ),
        FpSimdKind::Extract => Ok(
            VectorPlan::Shuffle { mask: extract_mask(fields.immediate_4, full), full },
        ),
        FpSimdKind::CountBits => Ok(VectorPlan::CountBits { full }),
        FpSimdKind::ShiftRightNarrow | FpSimdKind::ExtractNarrow => plan_narrow(instruction),
        FpSimdKind::ScalarShiftRightImmediate
        | FpSimdKind::VectorShiftRightImmediate
        | FpSimdKind::ScalarShiftLeftImmediate
        | FpSimdKind::VectorShiftLeftImmediate => plan_immediate_shift(instruction),
        FpSimdKind::ShiftLeftLong => plan_lengthen(instruction),
        _ => {
            let bits: u32 = match lane_bits(fields.opc) {
                Ok(bits) => bits,
                Err(error) => {
                    return Err(error);
                },
            };
            match instruction.kind {
                FpSimdKind::Integer => Ok(
                    VectorPlan::Lanes {
                        operation: if fields.subtract {
                            LaneOperation::Subtract
                        } else {
                            LaneOperation::Add
                        },
                        bits,
                        with_zero: false,
                        full,
                    },
                ),
                FpSimdKind::IntegerCompare => Ok(
                    VectorPlan::Lanes {
                        operation: LaneOperation::Compare(fields.integer_comparison.unwrap()),
                        bits,
                        with_zero: fields.compare_with_zero,
                        full,
                    },
                ),
                FpSimdKind::IntegerMinMax => Ok(
                    VectorPlan::Lanes {
                        operation: LaneOperation::Choose(fields.pairwise_operation.unwrap()),
                        bits,
                        with_zero: false,
                        full,
                    },
                ),
                FpSimdKind::IntegerPairwise => {
                    let (left, right) = pairwise_masks(bits, full);
                    Ok(
                        VectorPlan::Pairwise {
                            choice: fields.pairwise_operation.unwrap(),
                            bits,
                            left,
                            right,
                            full,
                        },
                    )
                },
                FpSimdKind::PermuteTwoSource => Ok(
                    VectorPlan::Shuffle {
                        mask: permute_mask(fields.permute_operation.unwrap(), bits, full),
                        full,
                    },
                ),
                FpSimdKind::VectorSignedShiftRegister => Ok(
                    VectorPlan::ShiftByRegister {
                        bits,
                        stages: shift_stages(bits),
                        signed: true,
                        full,
                    },
                ),
                FpSimdKind::VectorUnsignedShiftRegister => Ok(
                    VectorPlan::ShiftByRegister {
                        bits,
                        stages: shift_stages(bits),
                        signed: false,
                        full,
                    },
                ),
                _ => Ok(VectorPlan::AddAcross { bits, masks: across_masks(bits, full) }),
            }
        },
    }
}

} // verus!
