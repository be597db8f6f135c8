//! The native code of each vector and floating-point instruction, as a plan that
//! the emitter follows.

use vstd::prelude::*;
use super::cold::{cold_operands, cold_output, helper_of, shape_bytes, ColdCall};
use super::conditions::FpCheck;
use super::guards::{
    is_scalar_arithmetic, names_operation, HostRounding, ScalarArithmetic, ScalarCompare,
    VectorArithmetic,
};
use super::immediates::{
    both_halves, expand_modified_immediate, expand_vfp_immediate, format_of, modified_byte,
    packed_float, scalar_format, vector_float_immediate, word_of, FloatFormat,
};
use super::lanes::{
    lane_width, scalar_bits, scalar_width, select_lane, selector_index, selector_power, shift_width,
    source_lane, Lane,
};
use super::memory::{StructureAccess, VectorAccess, VectorPair};
use crate::decode::{
    BitwiseOperation, FpSimdInstruction, FpSimdKind, FpSimdOperands, IntegerComparison,
    PairwiseOperation,
};
use crate::direct::error::{DirectJitError, DirectJitErrorKind};

verus! {

/// How a constant meets the old value of its register.
#[derive(Clone, Copy, Debug, PartialEq, Eq, Structural)]
pub enum Combine {
    Replace,
    And,
    Or,
}

/// The part of a vector register that a general register is moved to or from.
#[derive(Clone, Copy, Debug, PartialEq, Eq, Structural)]
pub enum GeneralPart {
    Low16,
    Low32,
    Low64,
    High64,
}

/// What happens to each lane, or to each pair of lanes.
#[derive(Clone, Copy, Debug, PartialEq, Eq, Structural)]
pub enum LaneOperation {
    Add,
    Subtract,
    Compare(IntegerComparison),
    Choose(PairwiseOperation),
}

#[derive(Clone, Copy, Debug, PartialEq, Eq, Structural)]
pub enum ShiftAction {
    Left { distance: u32 },
    Logical { distance: u32 },
    Arithmetic { distance: u32 },
    /// Everything is shifted out.
    Zero,
}

/// What a host conversion from floating point may convert: from `lower` to below
/// `upper`, as bits.
#[derive(Clone, Copy, Debug, PartialEq, Eq, Structural)]
pub struct IntegerRange {
    pub lower: u64,
    pub upper: u64,
}

/// The computation of an instruction. `full` is set where the result fills the
/// register; otherwise the upper half is cleared.
#[derive(Debug, PartialEq, Eq)]
pub enum VectorPlan {
    SplatGeneral { bits: u32, full: bool },
    SplatLane { lane: Lane, full: bool },
    Constant { value: u128, combine: Combine, full: bool },
    LaneToGeneral { lane: Lane, wide: bool },
    InsertLane { lane: Lane, from: u8 },
    InsertGeneral { lane: Lane },
    ToGeneral { part: GeneralPart },
    FromGeneral { part: GeneralPart },
    KeepLow { width: u32 },
    /// The low `width` bits with the sign bits cleared, or flipped.
    Signs { signs: u128, flip: bool, width: u32 },
    Lanes { operation: LaneOperation, bits: u32, with_zero: bool, full: bool },
    Bitwise { function: BitwiseOperation, full: bool },
    Pairwise { choice: PairwiseOperation, bits: u32, left: Vec<u8>, right: Vec<u8>, full: bool },
    Shuffle { mask: Vec<u8>, full: bool },
    /// Lanes of `bits` are shifted right and their low halves packed, below zeros or
    /// above the old low half.
    Narrow { bits: u32, shift: u32, packed: Vec<u8>, above: Option<Vec<u8>> },
    Shift { bits: u32, action: ShiftAction, full: bool },
    /// Lanes of `bits` from `first` on become twice as wide and are shifted left.
    Lengthen { bits: u32, shift: u32, unsigned: bool, first: u32, count: u32 },
    ShiftByRegister { bits: u32, stages: Vec<u32>, signed: bool, full: bool },
    CountBits { full: bool },
    AddAcross { bits: u32, masks: Vec<Vec<u8>> },
    Select { condition: u8, width: u32 },
    ScalarArithmetic(ScalarArithmetic),
    VectorArithmetic(VectorArithmetic),
    Compare(ScalarCompare),
    Round { wide: bool, rounding: HostRounding },
    Convert { from_wide: bool, to_wide: bool },
    FromInteger { signed: bool, integer_64: bool, wide: bool },
    LanesFromInteger { signed: bool, wide: bool, width: u32 },
    ToInteger { unsigned: bool, integer_64: bool, wide: bool, range: IntegerRange },
    Access(VectorAccess),
    Pair(VectorPair),
    Structure(StructureAccess),
    /// Only the exact helper computes it.
    Exact,
}

/// A register of the guest, by its number.
#[derive(Clone, Copy, Debug, PartialEq, Eq, Structural)]
pub enum PlanRegister {
    General(u8),
    Vector(u8),
}

/// The registers that a computation takes its values from and puts its result in.
/// Arithmetic, comparisons and accesses name their own.
#[derive(Clone, Copy, Debug, PartialEq, Eq, Structural)]
pub struct PlanRegisters {
    pub first: Option<PlanRegister>,
    pub second: Option<PlanRegister>,
    /// Whose old value goes into the result.
    pub previous: Option<PlanRegister>,
    pub destination: Option<PlanRegister>,
}

pub open spec fn names_own(native: VectorPlan) -> bool {
    match native {
        VectorPlan::ScalarArithmetic(_)
        | VectorPlan::VectorArithmetic(_)
        | VectorPlan::Compare(_)
        | VectorPlan::Access(_)
        | VectorPlan::Pair(_)
        | VectorPlan::Structure(_)
        | VectorPlan::Exact => true,
        _ => false,
    }
}

pub open spec fn first_source(fields: FpSimdOperands, native: VectorPlan) -> Option<PlanRegister> {
    match native {
        VectorPlan::SplatGeneral { .. }
        | VectorPlan::InsertGeneral { .. }
        | VectorPlan::FromGeneral { .. }
        | VectorPlan::FromInteger { .. } => Some(PlanRegister::General(fields.rn)),
        VectorPlan::Constant { .. } => None,
        _ => if names_own(native) {
            None
        } else {
            Some(PlanRegister::Vector(fields.rn))
        },
    }
}

pub open spec fn second_source(fields: FpSimdOperands, native: VectorPlan) -> Option<PlanRegister> {
    match native {
        VectorPlan::Lanes { with_zero, .. } => if with_zero {
            None
        } else {
            Some(PlanRegister::Vector(fields.rm))
        },
        VectorPlan::Bitwise { .. }
        | VectorPlan::Pairwise { .. }
        | VectorPlan::Shuffle { .. }
        | VectorPlan::ShiftByRegister { .. }
        | VectorPlan::Select { .. } => Some(PlanRegister::Vector(fields.rm)),
        _ => None,
    }
}

pub open spec fn previous_source(fields: FpSimdOperands, native: VectorPlan) -> Option<
    PlanRegister,
> {
    let keeps = match native {
        VectorPlan::Constant { combine, .. } => !(combine is Replace),
        VectorPlan::InsertLane { .. } | VectorPlan::InsertGeneral { .. } => true,
        VectorPlan::FromGeneral { part } => part is High64,
        VectorPlan::Narrow { above, .. } => above is Some,
        VectorPlan::Bitwise { function, .. } => function is Select || function is InsertIfTrue
            || function is InsertIfFalse,
        _ => false,
    };
    if keeps {
        Some(PlanRegister::Vector(fields.rd))
    } else {
        None
    }
}

pub open spec fn result_place(fields: FpSimdOperands, native: VectorPlan) -> Option<PlanRegister> {
    match native {
        VectorPlan::LaneToGeneral { .. }
        | VectorPlan::ToGeneral { .. }
        | VectorPlan::ToInteger { .. } => Some(PlanRegister::General(fields.rd)),
        _ => if names_own(native) {
            None
        } else {
            Some(PlanRegister::Vector(fields.rd))
        },
    }
}

pub open spec fn plan_registers(fields: FpSimdOperands, native: VectorPlan) -> PlanRegisters {
    PlanRegisters {
        first: first_source(fields, native),
        second: second_source(fields, native),
        previous: previous_source(fields, native),
        destination: result_place(fields, native),
    }
}

/// The registers of a computation, from the fields of its instruction.
pub fn registers_of(fields: FpSimdOperands, native: &VectorPlan) -> (r: PlanRegisters)
    ensures
        r == plan_registers(fields, *native),
{
    let own: bool = matches!(
        native,
        VectorPlan::ScalarArithmetic(_)
        | VectorPlan::VectorArithmetic(_)
        | VectorPlan::Compare(_)
        | VectorPlan::Access(_)
        | VectorPlan::Pair(_)
        | VectorPlan::Structure(_)
        | VectorPlan::Exact
    );
    if own {
        return PlanRegisters { first: None, second: None, previous: None, destination: None };
    }
    let general: bool = matches!(
        native,
        VectorPlan::SplatGeneral { .. }
        | VectorPlan::InsertGeneral { .. }
        | VectorPlan::FromGeneral { .. }
        | VectorPlan::FromInteger { .. }
    );
    let first = if general {
        Some(PlanRegister::General(fields.rn))
    } else {
        match native {
            VectorPlan::Constant { .. } => None,
            _ => Some(PlanRegister::Vector(fields.rn)),
        }
    };
    let second = match native {
        VectorPlan::Lanes { with_zero, .. } => if *with_zero {
            None
        } else {
            Some(PlanRegister::Vector(fields.rm))
        },
        VectorPlan::Bitwise { .. }
        | VectorPlan::Pairwise { .. }
        | VectorPlan::Shuffle { .. }
        | VectorPlan::ShiftByRegister { .. }
        | VectorPlan::Select { .. } => Some(PlanRegister::Vector(fields.rm)),
        _ => None,
    };
    let keeps: bool = match native {
        VectorPlan::Constant { combine, .. } => !matches!(combine, Combine::Replace),
        VectorPlan::InsertLane { .. } | VectorPlan::InsertGeneral { .. } => true,
        VectorPlan::FromGeneral { part } => matches!(part, GeneralPart::High64),
        VectorPlan::Narrow { above, .. } => above.is_some(),
        VectorPlan::Bitwise { function, .. } => matches!(
            function,
            BitwiseOperation::Select
            | BitwiseOperation::InsertIfTrue
            | BitwiseOperation::InsertIfFalse
        ),
        _ => false,
    };
    let previous = if keeps {
        Some(PlanRegister::Vector(fields.rd))
    } else {
        None
    };
    let destination = match native {
        VectorPlan::LaneToGeneral { .. }
        | VectorPlan::ToGeneral { .. }
        | VectorPlan::ToInteger { .. } => Some(PlanRegister::General(fields.rd)),
        _ => Some(PlanRegister::Vector(fields.rd)),
    };
    PlanRegisters { first, second, previous, destination }
}

/// The plan of an instruction, and the exact call that it falls back on where a
/// condition of the native path fails.
#[derive(Debug, PartialEq, Eq)]
pub struct FpSimdPlan {
    pub native: VectorPlan,
    pub registers: PlanRegisters,
    pub checks: Vec<FpCheck>,
    pub exact: Option<ColdCall>,
}

/// What the decoder guarantees of an instruction.
pub open spec fn plannable(instruction: FpSimdInstruction) -> bool {
    let fields = instruction.operands;
    &&& instruction.normalized()
    &&& names_operation(instruction)
    &&& fields.immediate_4 < 16
    &&& fields.immediate_5 < 32
    &&& fields.immediate_7 < 0x80
    &&& fields.immediate_9 < 0x200
    &&& shifts_by_immediate(instruction.kind) ==> fields.shift_immediate >= 8
    &&& instruction.kind is Bitwise ==> fields.bitwise_operation is Some
    &&& instruction.kind is IntegerCompare ==> fields.integer_comparison is Some
    &&& instruction.kind is IntegerPairwise || instruction.kind is IntegerMinMax
        ==> fields.pairwise_operation is Some
    &&& instruction.kind is PermuteTwoSource ==> fields.permute_operation is Some && fields.opc < 4
}

pub open spec fn shifts_by_immediate(kind: FpSimdKind) -> bool {
    kind is ShiftRightNarrow || kind is ScalarShiftRightImmediate
        || kind is VectorShiftRightImmediate || kind is ScalarShiftLeftImmediate
        || kind is VectorShiftLeftImmediate || kind is ShiftLeftLong
}

/// The instruction has a native path that some operands do not take.
pub open spec fn is_guarded(kind: FpSimdKind) -> bool {
    is_scalar_arithmetic(kind) || kind is VectorFloatDivide || kind is VectorFloatMultiplyElement
        || kind is CompareRegister || kind is CompareZero || kind is ScalarFloatRound
        || kind is ScalarFloatConvert || kind is SignedIntToFloat || kind is UnsignedIntToFloat
        || kind is VectorSignedIntToFloat || kind is VectorUnsignedIntToFloat
        || kind is ScalarVectorSignedIntToFloat || kind is ScalarVectorUnsignedIntToFloat
        || kind is FloatToSignedInt || kind is FloatToUnsignedInt
}

/// This is the exact call of the instruction.
pub open spec fn is_exact_call(instruction: FpSimdInstruction, call: ColdCall) -> bool {
    &&& helper_of(instruction.kind) == Some(call.helper)
    &&& call.operands@ == cold_operands(instruction)
    &&& call.passes_flags == (call.helper is Compare)
    &&& call.shape == word_of(shape_bytes(instruction))
    &&& call.output == cold_output(instruction)
}

pub open spec fn vector_bits(fields: FpSimdOperands) -> int {
    if fields.vector_128 {
        128
    } else {
        64
    }
}

pub open spec fn general_part(fields: FpSimdOperands) -> Option<GeneralPart> {
    let wide = (fields.size / 2) % 2 == 1;
    if !wide && fields.opc == 0 {
        Some(GeneralPart::Low32)
    } else if !wide && fields.opc == 3 {
        Some(GeneralPart::Low16)
    } else if wide && fields.opc == 1 {
        Some(GeneralPart::Low64)
    } else if wide && fields.opc == 2 {
        Some(GeneralPart::High64)
    } else {
        None
    }
}

fn part_of(fields: FpSimdOperands) -> (r: Result<GeneralPart, DirectJitError>)
    ensures
        match r {
            Ok(part) => general_part(fields) == Some(part),
            Err(error) => general_part(fields) is None && error.is(
                DirectJitErrorKind::InvalidGuestCode,
                "invalid FMOV general width"@,
            ),
        },
{
    let wide: bool = (fields.size / 2) % 2 == 1;
    match (wide, fields.opc) {
        (false, 0) => Ok(GeneralPart::Low32),
        (false, 3) => Ok(GeneralPart::Low16),
        (true, 1) => Ok(GeneralPart::Low64),
        (true, 2) => Ok(GeneralPart::High64),
        _ => Err(DirectJitError::invalid("invalid FMOV general width")),
    }
}

/// The selector names this lane.
pub open spec fn is_lane(lane: Lane, selector: u8) -> bool {
    lane.bits == lane_width(selector_power(selector)) && lane.index == selector_index(selector)
}

/// How a modified immediate meets the old value: the odd modes up to eleven change
/// bits of it.
pub open spec fn immediate_combine(fields: FpSimdOperands) -> Combine {
    if fields.cmode <= 11 && fields.cmode % 2 == 1 {
        if fields.operation_bit {
            Combine::And
        } else {
            Combine::Or
        }
    } else {
        Combine::Replace
    }
}

/// One in every lane's sign bit.
pub open spec fn sign_bits(wide: bool, full: bool) -> int {
    let half = if wide {
        0x8000_0000_0000_0000int
    } else {
        0x8000_0000_8000_0000int
    };
    if full {
        half + 0x1_0000_0000_0000_0000 * half
    } else {
        half
    }
}

/// One in the sign bit of a scalar.
pub open spec fn scalar_sign(width: int) -> int {
    if width == 16 {
        0x8000
    } else if width == 32 {
        0x8000_0000
    } else {
        0x8000_0000_0000_0000
    }
}

pub open spec fn right_action(immediate: u8, arithmetic: bool) -> ShiftAction {
    let bits = shift_width(immediate);
    let distance = 2 * bits - immediate;
    if arithmetic {
        ShiftAction::Arithmetic {
            distance: (if distance == bits {
                bits - 1
            } else {
                distance
            }) as u32,
        }
    } else if distance == bits {
        ShiftAction::Zero
    } else {
        ShiftAction::Logical { distance: distance as u32 }
    }
}

/// The moves and constants of an instruction that does not compute on lanes.
pub open spec fn move_fits(instruction: FpSimdInstruction, plan: VectorPlan) -> bool {
    let fields = instruction.operands;
    match (instruction.kind, plan) {
        (FpSimdKind::DuplicateGeneral, VectorPlan::SplatGeneral { bits, full }) => bits
            == lane_width(selector_power(fields.immediate_5)) && full == fields.vector_128,
        (FpSimdKind::DuplicateElement, VectorPlan::SplatLane { lane, full }) => is_lane(
            lane,
            fields.immediate_5,
        ) && full == fields.vector_128,
        (FpSimdKind::ModifiedImmediate, VectorPlan::Constant { value, combine, full }) => {
            let half = word_of(
                Seq::new(
                    8,
                    |k: int|
                        modified_byte(fields.cmode, fields.immediate_8, fields.operation_bit, k),
                ),
            );
            &&& value == half + 0x1_0000_0000_0000_0000 * half
            &&& combine == immediate_combine(fields)
            &&& full == fields.vector_128
        },
        (FpSimdKind::UnsignedMoveToGeneral, VectorPlan::LaneToGeneral { lane, wide }) => is_lane(
            lane,
            fields.immediate_5,
        ) && wide == fields.vector_128,
        (FpSimdKind::InsertElement, VectorPlan::InsertLane { lane, from }) => is_lane(
            lane,
            fields.immediate_5,
        ) && from == fields.immediate_4 * 8 / lane_width(selector_power(fields.immediate_5)),
        (FpSimdKind::InsertGeneral, VectorPlan::InsertGeneral { lane }) => is_lane(
            lane,
            fields.immediate_5,
        ),
        (FpSimdKind::MoveToGeneral, VectorPlan::ToGeneral { part }) => general_part(fields) == Some(
            part,
        ),
        (FpSimdKind::MoveFromGeneral, VectorPlan::FromGeneral { part }) => general_part(fields)
            == Some(part),
        (FpSimdKind::ScalarMove, VectorPlan::KeepLow { width }) => width == scalar_bits(
            fields.opc,
        ),
        (FpSimdKind::ScalarAbsolute, VectorPlan::Signs { signs, flip, width }) => !flip && width
            == scalar_bits(fields.opc) && signs == scalar_sign(width as int),
        (FpSimdKind::ScalarNegate, VectorPlan::Signs { signs, flip, width }) => flip && width
            == scalar_bits(fields.opc) && signs == scalar_sign(width as int),
        (FpSimdKind::VectorFloatAbsolute, VectorPlan::Signs { signs, flip, width }) => !flip
            && width == vector_bits(fields) && signs == sign_bits(
            fields.opc % 2 == 1,
            fields.vector_128,
        ),
        (FpSimdKind::VectorFloatNegate, VectorPlan::Signs { signs, flip, width }) => flip && width
            == vector_bits(fields) && signs == sign_bits(fields.opc % 2 == 1, fields.vector_128),
        (FpSimdKind::ScalarFloatImmediate, VectorPlan::Constant { value, combine, full }) => {
            &&& format_of(fields.opc) is Some
            &&& value == packed_float(fields.fp_immediate_8, format_of(fields.opc)->0)
            &&& combine is Replace
            &&& full
        },
        (FpSimdKind::VectorFloatImmediate, VectorPlan::Constant { value, combine, full }) => {
            let single = packed_float(fields.immediate_8, FloatFormat::Single);
            let half = if fields.operation_bit {
                packed_float(fields.immediate_8, FloatFormat::Double)
            } else {
                single + 0x1_0000_0000 * single
            };
            &&& value == half + 0x1_0000_0000_0000_0000 * half
            &&& combine is Replace
            &&& full == fields.vector_128
        },
        (FpSimdKind::ScalarFloatConditionalSelect, VectorPlan::Select { condition, width }) =>
            condition == fields.condition && width == (if fields.opc == 0 {
                32u32
            } else {
                64u32
            }),
        _ => false,
    }
}

pub open spec fn is_move(kind: FpSimdKind) -> bool {
    kind is DuplicateGeneral || kind is DuplicateElement || kind is ModifiedImmediate
        || kind is UnsignedMoveToGeneral || kind is InsertElement || kind is InsertGeneral
        || kind is MoveToGeneral || kind is MoveFromGeneral || kind is ScalarMove
        || kind is ScalarAbsolute || kind is ScalarNegate || kind is VectorFloatAbsolute
        || kind is VectorFloatNegate || kind is ScalarFloatImmediate || kind is VectorFloatImmediate
        || kind is ScalarFloatConditionalSelect
}

pub open spec fn lane_fault() -> (DirectJitErrorKind, Seq<char>) {
    (DirectJitErrorKind::InvalidGuestCode, "invalid SIMD lane width"@)
}

/// Why a move has no plan.
pub open spec fn move_fault(instruction: FpSimdInstruction) -> Option<
    (DirectJitErrorKind, Seq<char>),
> {
    let fields = instruction.operands;
    match instruction.kind {
        FpSimdKind::DuplicateGeneral
        | FpSimdKind::DuplicateElement
        | FpSimdKind::UnsignedMoveToGeneral
        | FpSimdKind::InsertElement
        | FpSimdKind::InsertGeneral => if selector_power(fields.immediate_5) > 3 {
            Some(lane_fault())
        } else {
            None
        },
        FpSimdKind::ModifiedImmediate => if fields.cmode > 14 {
            Some((DirectJitErrorKind::InvalidGuestCode, "invalid SIMD modified immediate"@))
        } else {
            None
        },
        FpSimdKind::MoveToGeneral | FpSimdKind::MoveFromGeneral => if general_part(fields) is None {
            Some((DirectJitErrorKind::InvalidGuestCode, "invalid FMOV general width"@))
        } else {
            None
        },
        FpSimdKind::ScalarMove | FpSimdKind::ScalarAbsolute | FpSimdKind::ScalarNegate =>
            if scalar_bits(fields.opc) == 0 {
                Some((DirectJitErrorKind::InvalidGuestCode, "invalid scalar FP width"@))
            } else {
                None
            },
        FpSimdKind::ScalarFloatImmediate => if format_of(fields.opc) is None {
            Some((DirectJitErrorKind::InvalidGuestCode, "invalid scalar FP immediate width"@))
        } else {
            None
        },
        _ => None,
    }
}

pub open spec fn is_fault(error: DirectJitError, fault: Option<(DirectJitErrorKind, Seq<char>)>) -> bool {
    fault is Some && error.is((fault->0).0, (fault->0).1)
}

fn vector_signs(wide: bool, full: bool) -> (r: u128)
    ensures
        r == sign_bits(wide, full),
{
    let half: u128 = if wide {
        0x8000_0000_0000_0000
    } else {
        0x8000_0000_8000_0000
    };
    if full {
        half + 0x1_0000_0000_0000_0000 * half
    } else {
        half
    }
}

fn scalar_signs(width: u32) -> (r: u128)
    ensures
        r == scalar_sign(width as int),
{
    if width == 16 {
        0x8000
    } else if width == 32 {
        0x8000_0000
    } else {
        0x8000_0000_0000_0000
    }
}

fn modified_constant(fields: FpSimdOperands) -> (r: Result<VectorPlan, DirectJitError>)
    ensures
        match r {
            Ok(plan) => fields.cmode <= 14 && (plan matches VectorPlan::Constant {
                value,
                combine,
                full,
            } && ({
                let half = word_of(
                    Seq::new(
                        8,
                        |k: int|
                            modified_byte(
                                fields.cmode,
                                fields.immediate_8,
                                fields.operation_bit,
                                k,
                            ),
                    ),
                );
                &&& value == half + 0x1_0000_0000_0000_0000 * half
                &&& combine == immediate_combine(fields)
                &&& full == fields.vector_128
            })),
            Err(error) => fields.cmode > 14 && error.is(
                DirectJitErrorKind::InvalidGuestCode,
                "invalid SIMD modified immediate"@,
            ),
        },
{
    match expand_modified_immediate(fields.cmode, fields.immediate_8, fields.operation_bit) {
        Ok(half) => Ok(
            VectorPlan::Constant {
                value: both_halves(half),
                combine: if fields.cmode <= 11 && fields.cmode % 2 == 1 {
                    if fields.operation_bit {
                        Combine::And
                    } else {
                        Combine::Or
                    }
                } else {
                    Combine::Replace
                },
                full: fields.vector_128,
            },
        ),
        Err(error) => Err(error),
    }
}

/// The plan of a move or a constant.
pub fn plan_move(instruction: FpSimdInstruction) -> (r: Result<VectorPlan, DirectJitError>)
    requires
        is_move(instruction.kind),
        instruction.operands.immediate_5 < 32,
    ensures
        match r {
            Ok(plan) => move_fault(instruction) is None && move_fits(instruction, plan),
            Err(error) => is_fault(error, move_fault(instruction)),
        },
{
    let fields = instruction.operands;
    match instruction.kind {
        FpSimdKind::DuplicateGeneral => match select_lane(fields.immediate_5) {
            Ok(lane) => Ok(
                VectorPlan::SplatGeneral { bits: lane.bits, full: fields.vector_128 },
            ),
            Err(error) => Err(error),
        },
        FpSimdKind::DuplicateElement => match select_lane(fields.immediate_5) {
            Ok(lane) => Ok(VectorPlan::SplatLane { lane, full: fields.vector_128 }),
            Err(error) => Err(error),
        },
        FpSimdKind::ModifiedImmediate => modified_constant(fields),
        FpSimdKind::UnsignedMoveToGeneral => match select_lane(fields.immediate_5) {
            Ok(lane) => Ok(VectorPlan::LaneToGeneral { lane, wide: fields.vector_128 }),
            Err(error) => Err(error),
        },
        FpSimdKind::InsertElement => match select_lane(fields.immediate_5) {
            Ok(lane) => Ok(
                VectorPlan::InsertLane {
                    lane,
                    from: source_lane(fields.immediate_4, fields.immediate_5),
                },
            ),
            Err(error) => Err(error),
        },
        FpSimdKind::InsertGeneral => match select_lane(fields.immediate_5) {
            Ok(lane) => Ok(VectorPlan::InsertGeneral { lane }),
            Err(error) => Err(error),
        },
        FpSimdKind::MoveToGeneral => match part_of(fields) {
            Ok(part) => Ok(VectorPlan::ToGeneral { part }),
            Err(error) => Err(error),
        },
        FpSimdKind::MoveFromGeneral => match part_of(fields) {
            Ok(part) => Ok(VectorPlan::FromGeneral { part }),
            Err(error) => Err(error),
        },
        FpSimdKind::ScalarMove => match scalar_width(fields.opc) {
            Ok(width) => Ok(VectorPlan::KeepLow { width }),
            Err(error) => Err(error),
        },
        FpSimdKind::ScalarAbsolute | FpSimdKind::ScalarNegate => match scalar_width(fields.opc) {
            Ok(width) => Ok(
                VectorPlan::Signs {
                    signs: scalar_signs(width),
                    flip: matches!(instruction.kind, FpSimdKind::ScalarNegate),
                    width,
                },
            ),
            Err(error) => Err(error),
        },
        FpSimdKind::VectorFloatAbsolute | FpSimdKind::VectorFloatNegate => Ok(
            VectorPlan::Signs {
                signs: vector_signs(fields.opc % 2 == 1, fields.vector_128),
                flip: matches!(instruction.kind, FpSimdKind::VectorFloatNegate),
                width: if fields.vector_128 {
                    128
                } else {
                    64
                },
            },
        ),
        FpSimdKind::ScalarFloatImmediate => match scalar_format(fields.opc) {
            Ok(format) => Ok(
                VectorPlan::Constant {
                    value: expand_vfp_immediate(fields.fp_immediate_8, format) as u128,
                    combine: Combine::Replace,
                    full: true,
                },
            ),
            Err(error) => Err(error),
        },
        FpSimdKind::VectorFloatImmediate => Ok(
            VectorPlan::Constant {
                value: vector_float_immediate(fields.immediate_8, fields.operation_bit),
                combine: Combine::Replace,
                full: fields.vector_128,
            },
        ),
        _ => Ok(
            VectorPlan::Select {
                condition: fields.condition,
                width: if fields.opc == 0 {
                    32
                } else {
                    64
                },
            },
        ),
    }
}

} // verus!
