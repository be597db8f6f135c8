//! Normalized A64 instructions, as plain values.
//!
//! The application decodes guest words and fills these values. Operand fields
//! that an instruction family does not use are ignored.

use vstd::prelude::*;

verus! {

/// Advanced SIMD and floating-point families.
#[derive(Clone, Copy, Debug, PartialEq, Eq, Structural)]
pub enum FpSimdKind {
    DuplicateGeneral,
    DuplicateElement,
    ModifiedImmediate,
    UnsignedMoveToGeneral,
    InsertElement,
    InsertGeneral,
    MoveToGeneral,
    MoveFromGeneral,
    ScalarMove,
    ScalarAbsolute,
    ScalarNegate,
    VectorFloatAbsolute,
    VectorFloatNegate,
    Integer,
    Bitwise,
    IntegerCompare,
    IntegerPairwise,
    IntegerMinMax,
    PermuteTwoSource,
    Extract,
    ShiftRightNarrow,
    ExtractNarrow,
    ScalarShiftRightImmediate,
    VectorShiftRightImmediate,
    ScalarShiftLeftImmediate,
    VectorShiftLeftImmediate,
    ShiftLeftLong,
    VectorSignedShiftRegister,
    VectorUnsignedShiftRegister,
    CountBits,
    AddAcrossVector,
    ScalarFloatImmediate,
    VectorFloatImmediate,
    ScalarFloatConditionalSelect,
    ScalarFloatAdd,
    ScalarFloatMultiply,
    ScalarFloatFusedMultiplyAdd,
    ScalarFloatDivide,
    ScalarFloatSquareRoot,
    VectorFloatDivide,
    VectorFloatMultiplyElement,
    CompareRegister,
    CompareZero,
    ConditionalCompare,
    ScalarFloatRound,
    ScalarFloatConvert,
    SignedIntToFloat,
    UnsignedIntToFloat,
    VectorSignedIntToFloat,
    VectorUnsignedIntToFloat,
    ScalarVectorSignedIntToFloat,
    ScalarVectorUnsignedIntToFloat,
    FloatToSignedInt,
    FloatToUnsignedInt,
    MemoryUnsigned,
    MemoryUnscaled,
    MemoryPostIndex,
    MemoryPreIndex,
    MemoryRegister,
    MemoryPair,
    MemoryMultipleStructures,
    MemoryMultipleStructuresPostIndex,
    MemorySingleStructure,
    MemorySingleStructurePostIndex,
}

#[derive(Clone, Copy, Debug, PartialEq, Eq, Structural)]
pub enum FloatAddOperation {
    Add,
    Subtract,
}

#[derive(Clone, Copy, Debug, PartialEq, Eq, Structural)]
pub enum FloatMultiplyOperation {
    Multiply,
    NegatedMultiply,
}

#[derive(Clone, Copy, Debug, PartialEq, Eq, Structural)]
pub enum FloatFusedMultiplyOperation {
    MultiplyAdd,
    MultiplySubtract,
    NegatedMultiplyAdd,
    NegatedMultiplySubtract,
}

#[derive(Clone, Copy, Debug, PartialEq, Eq, Structural)]
pub enum FloatRoundOperation {
    NearestEven,
    TowardPositive,
    TowardNegative,
    TowardZero,
    NearestAway,
    Exact,
    CurrentMode,
}

#[derive(Clone, Copy, Debug, PartialEq, Eq, Structural)]
pub enum FloatToIntegerRounding {
    NearestEven,
    NearestAway,
    TowardPositive,
    TowardNegative,
    TowardZero,
}

#[derive(Clone, Copy, Debug, PartialEq, Eq, Structural)]
pub enum FloatConversion {
    SingleToDouble,
    DoubleToSingle,
}

#[derive(Clone, Copy, Debug, PartialEq, Eq, Structural)]
pub enum BitwiseOperation {
    And,
    BitClear,
    Or,
    OrNot,
    ExclusiveOr,
    Select,
    InsertIfTrue,
    InsertIfFalse,
}

#[derive(Clone, Copy, Debug, PartialEq, Eq, Structural)]
pub enum IntegerComparison {
    SignedGreaterThan,
    UnsignedGreaterThan,
    SignedGreaterThanOrEqual,
    UnsignedGreaterThanOrEqual,
    SignedLessThan,
    SignedLessThanOrEqual,
    Equal,
    NonzeroBitTest,
}

#[derive(Clone, Copy, Debug, PartialEq, Eq, Structural)]
pub enum PairwiseOperation {
    Add,
    SignedMaximum,
    SignedMinimum,
    UnsignedMaximum,
    UnsignedMinimum,
}

#[derive(Clone, Copy, Debug, PartialEq, Eq, Structural)]
pub enum PermuteOperation {
    UnzipPrimary,
    UnzipSecondary,
    TransposePrimary,
    TransposeSecondary,
    ZipPrimary,
    ZipSecondary,
}

#[derive(Clone, Copy, Debug, PartialEq, Eq, Structural)]
pub enum MemoryAccessSize {
    Byte,
    Halfword,
    Word,
    Doubleword,
    Quadword,
}

impl MemoryAccessSize {
    pub open spec fn byte_count(self) -> int {
        match self {
            MemoryAccessSize::Byte => 1,
            MemoryAccessSize::Halfword => 2,
            MemoryAccessSize::Word => 4,
            MemoryAccessSize::Doubleword => 8,
            MemoryAccessSize::Quadword => 16,
        }
    }

    pub fn bytes(self) -> (r: u8)
        ensures
            r == self.byte_count(),
    {
        match self {
            MemoryAccessSize::Byte => 1,
            MemoryAccessSize::Halfword => 2,
            MemoryAccessSize::Word => 4,
            MemoryAccessSize::Doubleword => 8,
            MemoryAccessSize::Quadword => 16,
        }
    }
}

/// How a structure transfer touches each register.
#[derive(Clone, Copy, Debug, PartialEq, Eq, Structural)]
pub enum SimdMemoryMode {
    Multiple,
    Lane(u8),
    Replicate,
}

/// Shape of a structure load or store. A valid shape transfers one to four
/// registers and at most 64 bytes.
#[derive(Clone, Copy, Debug, PartialEq, Eq, Structural)]
pub struct StructureShape {
    pub element_size: MemoryAccessSize,
    pub vector_bytes: u8,
    pub structure_registers: u8,
    pub repetitions: u8,
    pub elements_per_register: u8,
    pub immediate_post_index: u8,
    pub mode: SimdMemoryMode,
}

impl StructureShape {
    pub open spec fn valid(self) -> bool {
        &&& 1 <= self.structure_registers <= 4
        &&& 1 <= self.repetitions <= 4
        &&& self.structure_registers * self.repetitions <= 4
        &&& self.vector_bytes == 8 || self.vector_bytes == 16
        &&& self.element_size != MemoryAccessSize::Quadword
        &&& self.elements_per_register * self.element_size.byte_count() == self.vector_bytes
        &&& self.mode matches SimdMemoryMode::Lane(lane) ==> lane * self.element_size.byte_count()
            < 16
    }

    /// Registers transferred.
    pub fn register_count(self) -> (r: u8)
        requires
            self.valid(),
        ensures
            r == self.structure_registers * self.repetitions,
    {
        self.structure_registers * self.repetitions
    }
}

#[derive(Clone, Copy, Debug, PartialEq, Eq, Structural)]
pub struct FpSimdOperands {
    pub rd: u8,
    pub rn: u8,
    pub rm: u8,
    pub ra: u8,
    pub rt2: u8,
    pub opc: u8,
    pub size: u8,
    pub cmode: u8,
    pub mode: u8,
    pub option: u8,
    pub condition: u8,
    pub nzcv_immediate: u8,
    pub immediate_4: u8,
    pub immediate_5: u8,
    pub immediate_7: u8,
    pub immediate_8: u8,
    pub immediate_9: u16,
    pub immediate_12: u16,
    pub fp_immediate_8: u8,
    pub shift_immediate: u8,
    pub fp_element_lane: u8,
    pub operation_bit: bool,
    pub vector_128: bool,
    pub load: bool,
    pub scaled: bool,
    pub subtract: bool,
    pub compare_with_zero: bool,
    pub signaling_compare: bool,
    pub fixed_point_fraction_bits: Option<u8>,
    pub float_add_operation: Option<FloatAddOperation>,
    pub float_multiply_operation: Option<FloatMultiplyOperation>,
    pub float_fused_multiply_operation: Option<FloatFusedMultiplyOperation>,
    pub float_round_operation: Option<FloatRoundOperation>,
    pub float_to_integer_rounding: Option<FloatToIntegerRounding>,
    pub float_conversion: Option<FloatConversion>,
    pub bitwise_operation: Option<BitwiseOperation>,
    pub integer_comparison: Option<IntegerComparison>,
    pub pairwise_operation: Option<PairwiseOperation>,
    pub permute_operation: Option<PermuteOperation>,
    /// Transfer size of a scalar or pair access, where the encoding has one.
    pub access_size: Option<MemoryAccessSize>,
    /// Shape of a structure access, where the encoding has one.
    pub structure: Option<StructureShape>,
}

#[derive(Clone, Copy, Debug, PartialEq, Eq, Structural)]
pub struct FpSimdInstruction {
    pub kind: FpSimdKind,
    pub operands: FpSimdOperands,
}

impl FpSimdInstruction {
    pub open spec fn is_structure(self) -> bool {
        self.kind is MemoryMultipleStructures || self.kind is MemoryMultipleStructuresPostIndex
            || self.kind is MemorySingleStructure || self.kind is MemorySingleStructurePostIndex
    }

    /// Register numbers are five bits wide, and a structure access has a shape.
    pub open spec fn normalized(self) -> bool {
        &&& self.operands.rd < 32
        &&& self.operands.rn < 32
        &&& self.operands.rm < 32
        &&& self.operands.ra < 32
        &&& self.operands.rt2 < 32
        &&& self.is_structure() ==> self.operands.structure is Some
            && self.operands.structure->0.valid()
    }
}

/// Integer data-processing families.
#[derive(Clone, Copy, Debug, PartialEq, Eq, Structural)]
pub enum IntegerKind {
    MoveWide,
    AddSubImmediate,
    AddSubExtended,
    AddSubShifted,
    AddSubCarry,
    LogicalImmediate,
    LogicalShifted,
    Extract,
    TwoSource,
    ConditionalSelect,
    Bitfield,
    ConditionalCompareRegister,
    ConditionalCompareImmediate,
    ThreeSource,
    OneSource,
    Adr,
    Adrp,
}

#[derive(Clone, Copy, Debug, PartialEq, Eq, Structural)]
pub struct IntegerInstruction {
    pub kind: IntegerKind,
    pub rd: u8,
    pub rn: u8,
    pub rm: u8,
    pub ra: u8,
    pub opcode_3: u8,
    pub condition: u8,
    pub set_flags: bool,
    pub subtract: bool,
}

/// Integer load and store families.
#[derive(Clone, Copy, Debug, PartialEq, Eq, Structural)]
pub enum MemoryKind {
    Literal,
    Unsigned,
    Unscaled,
    PostIndex,
    PreIndex,
    Register,
    Pair,
    LoadAcquire,
    LoadExclusive,
    LoadExclusivePair,
    StoreRelease,
    StoreExclusive,
    StoreExclusivePair,
    AtomicReadModifyWrite,
    CompareAndSwap,
    CompareAndSwapPair,
}

#[derive(Clone, Copy, Debug, PartialEq, Eq, Structural)]
pub enum ScalarTransfer {
    Store,
    Load,
}

#[derive(Clone, Copy, Debug, PartialEq, Eq, Structural)]
pub struct MemoryInstruction {
    pub kind: MemoryKind,
    pub rt: u8,
    pub rt2: u8,
    pub rn: u8,
    pub rm: u8,
    pub mode: u8,
    pub load: bool,
    /// Direction of a single-register access, where the encoding has one.
    pub transfer: Option<ScalarTransfer>,
    /// Whether the pair encoding is allocated.
    pub pair_allocated: bool,
}

#[derive(Clone, Copy, Debug, PartialEq, Eq, Structural)]
pub enum SystemKind {
    ReadRegister,
    WriteRegister,
    Hint,
    System,
    Barrier,
    ClearExclusive,
}

#[derive(Clone, Copy, Debug, PartialEq, Eq, Structural)]
pub struct SystemInstruction {
    pub kind: SystemKind,
    pub rt: u8,
    pub hint: u8,
    pub system_key: u32,
}

#[derive(Clone, Copy, Debug, PartialEq, Eq, Structural)]
pub enum ControlKind {
    BranchImmediate,
    BranchLinkImmediate,
    BranchRegister,
    CompareBranch,
    TestBranch,
    ConditionalBranch,
    SupervisorCall,
    Breakpoint,
    Nop,
}

#[derive(Clone, Copy, Debug, PartialEq, Eq, Structural)]
pub struct ControlInstruction {
    pub kind: ControlKind,
    pub rd: u8,
    pub rn: u8,
    pub condition: u8,
    pub bit_index: u8,
    pub width_64: bool,
    pub nonzero: bool,
    pub branch_register_key: u32,
}

#[derive(Clone, Copy, Debug, PartialEq, Eq, Structural)]
pub enum A64Instruction {
    Integer(IntegerInstruction),
    Memory(MemoryInstruction),
    FpSimd(FpSimdInstruction),
    System(SystemInstruction),
    Control(ControlInstruction),
    RecognizedUnsupported,
}

impl A64Instruction {
    /// Every register number is five bits wide. A compare-and-swap of a pair
    /// names the lower register of each pair, so not register 31.
    pub open spec fn normalized(self) -> bool {
        match self {
            A64Instruction::Integer(inst) => inst.rd < 32 && inst.rn < 32 && inst.rm < 32 && inst.ra
                < 32,
            A64Instruction::Memory(inst) => {
                &&& inst.rt < 32
                &&& inst.rt2 < 32
                &&& inst.rn < 32
                &&& inst.rm < 32
                &&& inst.kind is CompareAndSwapPair ==> inst.rt < 31 && inst.rm < 31
            },
            A64Instruction::FpSimd(inst) => inst.normalized(),
            A64Instruction::System(inst) => inst.rt < 32,
            A64Instruction::Control(inst) => inst.rd < 32 && inst.rn < 32,
            A64Instruction::RecognizedUnsupported => true,
        }
    }
}

} // verus!
