//! Floating-point lowering and status policy shared by both tiers.

use vstd::prelude::*;
use crate::abi::HostAbi;
use crate::decode::{FloatRoundOperation, FloatToIntegerRounding, FpSimdInstruction, FpSimdKind};

verus! {

/// The controls that native single and double arithmetic supports: rounding mode,
/// flush-to-zero and default NaN. Other modes, guest exception enables among
/// them, need exact semantics.
pub const NATIVE_FPCR_MASK: u32 = 0x03c0_0000;

pub fn native_fpcr_supported(fpcr: u32) -> (r: bool)
    ensures
        r == (fpcr & !NATIVE_FPCR_MASK == 0),
{
    fpcr & !NATIVE_FPCR_MASK == 0
}

#[derive(Clone, Copy, Debug, PartialEq, Eq, Structural)]
pub enum FpLoweringDisposition {
    /// No floating-point status is involved.
    Direct,
    /// Inputs whose result and host flags match use the host; others do not.
    GuardedNative,
    /// A result-only domain is emitted directly; exceptional values are not.
    GuardedExact,
    /// Always the exact typed boundary.
    Exact,
}

impl FpLoweringDisposition {
    pub fn accesses_status(self) -> (r: bool)
        ensures
            r == (self != FpLoweringDisposition::Direct),
    {
        !matches!(self, FpLoweringDisposition::Direct)
    }

    pub fn uses_native_status(self) -> (r: bool)
        ensures
            r == (self == FpLoweringDisposition::GuardedNative),
    {
        matches!(self, FpLoweringDisposition::GuardedNative)
    }

    pub fn is_exact(self) -> (r: bool)
        ensures
            r == (self == FpLoweringDisposition::Exact),
    {
        matches!(self, FpLoweringDisposition::Exact)
    }
}

/// Conversion of a float to an integer.
pub open spec fn converts_to_integer(kind: FpSimdKind) -> bool {
    kind is FloatToSignedInt || kind is FloatToUnsignedInt
}

/// Arithmetic and conversions whose host result and flags can match.
pub open spec fn is_native_arithmetic(kind: FpSimdKind) -> bool {
    ||| kind is SignedIntToFloat
    ||| kind is UnsignedIntToFloat
    ||| kind is VectorSignedIntToFloat
    ||| kind is VectorUnsignedIntToFloat
    ||| kind is ScalarVectorSignedIntToFloat
    ||| kind is ScalarVectorUnsignedIntToFloat
    ||| kind is VectorFloatDivide
    ||| kind is VectorFloatMultiplyElement
    ||| kind is ScalarFloatConvert
    ||| kind is ScalarFloatDivide
    ||| kind is ScalarFloatAdd
    ||| kind is ScalarFloatMultiply
    ||| kind is ScalarFloatFusedMultiplyAdd
    ||| kind is ScalarFloatSquareRoot
}

/// Truncating conversions to plain integers match the host; fixed-point and
/// directional ones do not.
pub open spec fn truncates_to_integer(instruction: FpSimdInstruction) -> bool {
    &&& converts_to_integer(instruction.kind)
    &&& instruction.operands.fixed_point_fraction_bits is None
    &&& instruction.operands.float_to_integer_rounding == Some(FloatToIntegerRounding::TowardZero)
}

/// Rounding to integral that one host instruction expresses without touching host
/// status. On x86-64 none does.
pub open spec fn rounds_on_host(instruction: FpSimdInstruction, host: HostAbi) -> bool {
    &&& instruction.kind is ScalarFloatRound
    &&& host != HostAbi::X86_64
    &&& instruction.operands.float_round_operation != Some(FloatRoundOperation::NearestAway)
    &&& instruction.operands.float_round_operation != Some(FloatRoundOperation::Exact)
    &&& instruction.operands.float_round_operation != Some(FloatRoundOperation::CurrentMode)
}

/// The lowering policy.
pub open spec fn disposition(instruction: FpSimdInstruction, host: HostAbi) -> FpLoweringDisposition {
    let kind = instruction.kind;
    if is_native_arithmetic(kind) || truncates_to_integer(instruction) {
        FpLoweringDisposition::GuardedNative
    } else if kind is CompareRegister || kind is CompareZero || rounds_on_host(instruction, host) {
        FpLoweringDisposition::GuardedExact
    } else if converts_to_integer(kind) || kind is ConditionalCompare || kind is ScalarFloatRound {
        FpLoweringDisposition::Exact
    } else {
        FpLoweringDisposition::Direct
    }
}

/// Single authority for lowering and for status analysis. Every family is named,
/// so that a new one needs a deliberate decision.
pub fn fp_lowering_disposition(instruction: FpSimdInstruction, host: HostAbi) -> (r:
    FpLoweringDisposition)
    ensures
        r == disposition(instruction, host),
{
    match instruction.kind {
        FpSimdKind::SignedIntToFloat
        | FpSimdKind::UnsignedIntToFloat
        | FpSimdKind::VectorSignedIntToFloat
        | FpSimdKind::VectorUnsignedIntToFloat
        | FpSimdKind::ScalarVectorSignedIntToFloat
        | FpSimdKind::ScalarVectorUnsignedIntToFloat
        | FpSimdKind::VectorFloatDivide
        | FpSimdKind::VectorFloatMultiplyElement
        | FpSimdKind::ScalarFloatConvert
        | FpSimdKind::ScalarFloatDivide
        | FpSimdKind::ScalarFloatAdd
        | FpSimdKind::ScalarFloatMultiply
        | FpSimdKind::ScalarFloatFusedMultiplyAdd
        | FpSimdKind::ScalarFloatSquareRoot => FpLoweringDisposition::GuardedNative,
        FpSimdKind::FloatToSignedInt | FpSimdKind::FloatToUnsignedInt => {
            if instruction.operands.fixed_point_fraction_bits.is_none() && matches!(
                instruction.operands.float_to_integer_rounding,
                Some(FloatToIntegerRounding::TowardZero)
            ) {
                FpLoweringDisposition::GuardedNative
            } else {
                FpLoweringDisposition::Exact
            }
        },
        FpSimdKind::CompareRegister | FpSimdKind::CompareZero => FpLoweringDisposition::GuardedExact,
        FpSimdKind::ScalarFloatRound => {
            if !matches!(host, HostAbi::X86_64) && !matches!(
                instruction.operands.float_round_operation,
                Some(
                    FloatRoundOperation::NearestAway
                        | FloatRoundOperation::Exact
                        | FloatRoundOperation::CurrentMode,
                )
            ) {
                FpLoweringDisposition::GuardedExact
            } else {
                FpLoweringDisposition::Exact
            }
        },
        FpSimdKind::ConditionalCompare => FpLoweringDisposition::Exact,
        FpSimdKind::DuplicateGeneral
        | FpSimdKind::DuplicateElement
        | FpSimdKind::ModifiedImmediate
        | FpSimdKind::UnsignedMoveToGeneral
        | FpSimdKind::InsertElement
        | FpSimdKind::InsertGeneral
        | FpSimdKind::MoveToGeneral
        | FpSimdKind::MoveFromGeneral
        | FpSimdKind::ScalarMove
        | FpSimdKind::ScalarAbsolute
        | FpSimdKind::ScalarNegate
        | FpSimdKind::VectorFloatAbsolute
        | FpSimdKind::VectorFloatNegate
        | FpSimdKind::Integer
        | FpSimdKind::Bitwise
        | FpSimdKind::IntegerCompare
        | FpSimdKind::IntegerPairwise
        | FpSimdKind::IntegerMinMax
        | FpSimdKind::PermuteTwoSource
        | FpSimdKind::Extract
        | FpSimdKind::ShiftRightNarrow
        | FpSimdKind::ExtractNarrow
        | FpSimdKind::ScalarShiftRightImmediate
        | FpSimdKind::VectorShiftRightImmediate
        | FpSimdKind::ScalarShiftLeftImmediate
        | FpSimdKind::VectorShiftLeftImmediate
        | FpSimdKind::ShiftLeftLong
        | FpSimdKind::VectorSignedShiftRegister
        | FpSimdKind::VectorUnsignedShiftRegister
        | FpSimdKind::CountBits
        | FpSimdKind::AddAcrossVector
        | FpSimdKind::ScalarFloatImmediate
        | FpSimdKind::VectorFloatImmediate
        | FpSimdKind::ScalarFloatConditionalSelect
        | FpSimdKind::MemoryUnsigned
        | FpSimdKind::MemoryUnscaled
        | FpSimdKind::MemoryPostIndex
        | FpSimdKind::MemoryPreIndex
        | FpSimdKind::MemoryRegister
        | FpSimdKind::MemoryPair
        | FpSimdKind::MemoryMultipleStructures
        | FpSimdKind::MemoryMultipleStructuresPostIndex
        | FpSimdKind::MemorySingleStructure
        | FpSimdKind::MemorySingleStructurePostIndex => FpLoweringDisposition::Direct,
    }
}

} // verus!
