//! Which guest state each instruction reads, writes and lets be observed.

use vstd::prelude::*;
use super::{condition_flags, consumed_flags, InstructionEffects, IntegerRegisterSet, StateItem};
use super::{flag_bit, StateSet, C, NZCV};
use crate::abi::HostAbi;
use crate::decode::{A64Instruction, ControlInstruction, ControlKind, FpSimdInstruction};
use crate::decode::{BitwiseOperation, FpSimdKind, IntegerInstruction, IntegerKind};
use crate::decode::{MemoryInstruction, MemoryKind, ScalarTransfer, SimdMemoryMode};
use crate::decode::{SystemInstruction, SystemKind};
use crate::fp_policy::{disposition, fp_lowering_disposition, FpLoweringDisposition};

verus! {

pub const READ_NZCV: u32 = 0xd53b_4200;

pub const READ_FPCR: u32 = 0xd53b_4400;

pub const READ_FPSR: u32 = 0xd53b_4420;

pub const READ_TPIDR_EL0: u32 = 0xd53b_d040;

pub const READ_TPIDRRO_EL0: u32 = 0xd53b_d060;

pub const WRITE_NZCV: u32 = 0xd51b_4200;

pub const WRITE_FPCR: u32 = 0xd51b_4400;

pub const WRITE_FPSR: u32 = 0xd51b_4420;

pub const WRITE_TPIDR_EL0: u32 = 0xd51b_d040;

/// Instruction cache maintenance that names no address register.
pub const INVALIDATE_ALL: u32 = 0xd508_7500;

pub const BRANCH_LINK_REGISTER: u32 = 0xd63f_0000;

pub open spec fn only(condition: bool, items: Set<StateItem>) -> Set<StateItem> {
    if condition {
        items
    } else {
        Set::empty()
    }
}

/// What a general register number names: register 31 is SP or no state at all.
pub open spec fn general(index: u8, register31_is_sp: bool) -> Set<StateItem> {
    if index == 31 {
        only(register31_is_sp, set![StateItem::Sp])
    } else {
        set![StateItem::X(index)]
    }
}

pub open spec fn vector(index: u8) -> Set<StateItem> {
    set![StateItem::Vector(index)]
}

/// The vector registers of a transfer of `count` registers, wrapping after V31.
pub open spec fn vector_run(first: u8, count: int) -> Set<StateItem> {
    Set::new(
        |item: StateItem|
            item matches StateItem::Vector(index) && exists|offset: int|
                0 <= offset < count && index == #[trigger] wrapped_register(first, offset),
    )
}

pub open spec fn wrapped_register(first: u8, offset: int) -> int {
    (first + offset) % 32
}

pub open spec fn flags(mask: u8) -> Set<StateItem> {
    Set::new(|item: StateItem| item matches StateItem::Flag(bit) && bit < 8 && flag_bit(mask, bit))
}

impl IntegerRegisterSet {
    pub open spec fn items(&self) -> Set<StateItem> {
        Set::new(
            |item: StateItem|
                match item {
                    StateItem::X(index) => self.has_x(index as int),
                    StateItem::Sp => self.sp,
                    _ => false,
                },
        )
    }
}

pub open spec fn vector_items(registers: [bool; 32]) -> Set<StateItem> {
    Set::new(
        |item: StateItem|
            item matches StateItem::Vector(index) && index < 32 && registers@[index as int],
    )
}

// ---- integer data processing ----
pub open spec fn integer_reads(i: IntegerInstruction) -> Set<StateItem> {
    let reads_rn = !(i.kind is MoveWide || i.kind is Adr || i.kind is Adrp);
    let rn_may_be_sp = i.kind is AddSubImmediate || i.kind is AddSubExtended;
    let reads_rm = i.kind is AddSubExtended || i.kind is AddSubShifted || i.kind is AddSubCarry
        || i.kind is LogicalShifted || i.kind is Extract || i.kind is TwoSource
        || i.kind is ConditionalSelect || i.kind is ConditionalCompareRegister
        || i.kind is ThreeSource;
    let reads_ra = i.kind is ThreeSource && i.opcode_3 != 2 && i.opcode_3 != 6;
    // Keeping part of the destination: MOVK and BFM.
    let keeps_rd = (i.kind is MoveWide && i.subtract && i.set_flags) || (i.kind is Bitfield
        && !i.subtract && i.set_flags);
    only(reads_rn, general(i.rn, rn_may_be_sp)).union(only(reads_rm, general(i.rm, false))).union(
        only(reads_ra, general(i.ra, false)),
    ).union(only(keeps_rd, general(i.rd, false)))
}

pub open spec fn integer_writes(i: IntegerInstruction) -> Set<StateItem> {
    let rd_may_be_sp = (i.kind is AddSubImmediate || i.kind is AddSubExtended) && !i.set_flags;
    only(
        !(i.kind is ConditionalCompareRegister || i.kind is ConditionalCompareImmediate),
        general(i.rd, rd_may_be_sp),
    )
}

pub open spec fn integer_flags_read(i: IntegerInstruction) -> u8 {
    if i.kind is AddSubCarry {
        C
    } else if i.kind is ConditionalCompareImmediate || i.kind is ConditionalCompareRegister
        || i.kind is ConditionalSelect {
        consumed_flags(i.condition)
    } else {
        0
    }
}

pub open spec fn integer_sets_flags(i: IntegerInstruction) -> bool {
    ||| i.set_flags && (i.kind is AddSubImmediate || i.kind is AddSubExtended
        || i.kind is AddSubShifted || i.kind is AddSubCarry)
    ||| i.subtract && i.set_flags && (i.kind is LogicalImmediate || i.kind is LogicalShifted)
    ||| i.kind is ConditionalCompareImmediate || i.kind is ConditionalCompareRegister
}

// ---- integer loads and stores ----
/// Single-register accesses whose direction is encoded.
pub open spec fn is_scalar_access(kind: MemoryKind) -> bool {
    kind is Unsigned || kind is Unscaled || kind is PostIndex || kind is PreIndex
        || kind is Register
}

pub open spec fn memory_reads(i: MemoryInstruction) -> Set<StateItem> {
    let pair_store = i.kind is Pair && i.pair_allocated && !i.load;
    let swap = i.kind is CompareAndSwap || i.kind is CompareAndSwapPair;
    let reads_rm = i.kind is Register || i.kind is AtomicReadModifyWrite || swap;
    let reads_rt = (is_scalar_access(i.kind) && i.transfer == Some(ScalarTransfer::Store))
        || pair_store || i.kind is StoreRelease || i.kind is StoreExclusive
        || i.kind is StoreExclusivePair || swap;
    let reads_rt2 = pair_store || i.kind is StoreExclusivePair;
    only(!(i.kind is Literal), general(i.rn, true)).union(only(reads_rm, general(i.rm, false))).union(
        only(reads_rt, general(i.rt, false)),
    ).union(only(reads_rt2, general(i.rt2, false))).union(
        only(
            i.kind is CompareAndSwapPair,
            general((i.rm + 1) as u8, false).union(general((i.rt + 1) as u8, false)),
        ),
    )
}

pub open spec fn memory_writes(i: MemoryInstruction) -> Set<StateItem> {
    let pair_load = i.kind is Pair && i.pair_allocated && i.load;
    let writes_rt = i.kind is Literal || (is_scalar_access(i.kind) && i.transfer == Some(
        ScalarTransfer::Load,
    )) || pair_load || i.kind is LoadAcquire || i.kind is LoadExclusive
        || i.kind is LoadExclusivePair || i.kind is AtomicReadModifyWrite;
    let writes_rt2 = pair_load || i.kind is LoadExclusivePair;
    // The status result of an exclusive store, and the old value of a swap.
    let writes_rm = i.kind is StoreExclusive || i.kind is StoreExclusivePair
        || i.kind is CompareAndSwap || i.kind is CompareAndSwapPair;
    let writes_back = i.kind is PostIndex || i.kind is PreIndex || (i.kind is Pair
        && i.pair_allocated && (i.mode == 1 || i.mode == 3));
    only(writes_rt, general(i.rt, false)).union(only(writes_rt2, general(i.rt2, false))).union(
        only(writes_rm, general(i.rm, false)),
    ).union(only(i.kind is CompareAndSwapPair, general((i.rm + 1) as u8, false))).union(
        only(writes_back, general(i.rn, true)),
    )
}

// ---- system ----
pub open spec fn system_reads(i: SystemInstruction) -> Set<StateItem> {
    only(
        i.kind is WriteRegister || (i.kind is System && i.system_key != INVALIDATE_ALL),
        general(i.rt, false),
    ).union(
        only(
            i.kind is ReadRegister,
            only(i.system_key == READ_NZCV, flags(NZCV)).union(
                only(i.system_key == READ_FPCR, set![StateItem::Fpcr]),
            ).union(only(i.system_key == READ_FPSR, set![StateItem::Fpsr])).union(
                only(i.system_key == READ_TPIDR_EL0, set![StateItem::TpidrEl0]),
            ).union(only(i.system_key == READ_TPIDRRO_EL0, set![StateItem::TpidrroEl0])),
        ),
    )
}

pub open spec fn system_writes(i: SystemInstruction) -> Set<StateItem> {
    only(i.kind is ReadRegister, general(i.rt, false)).union(
        only(
            i.kind is WriteRegister,
            only(i.system_key == WRITE_NZCV, flags(NZCV)).union(
                only(i.system_key == WRITE_FPCR, set![StateItem::Fpcr]),
            ).union(only(i.system_key == WRITE_FPSR, set![StateItem::Fpsr])).union(
                only(i.system_key == WRITE_TPIDR_EL0, set![StateItem::TpidrEl0]),
            ),
        ),
    )
}

/// System operations that may leave the unit with the state before them.
pub open spec fn system_observes_before(i: SystemInstruction) -> bool {
    match i.kind {
        SystemKind::ReadRegister => !(i.system_key == READ_NZCV || i.system_key == READ_FPCR
            || i.system_key == READ_FPSR || i.system_key == READ_TPIDR_EL0 || i.system_key
            == READ_TPIDRRO_EL0),
        SystemKind::WriteRegister => !(i.system_key == WRITE_NZCV || i.system_key == WRITE_FPCR
            || i.system_key == WRITE_FPSR || i.system_key == WRITE_TPIDR_EL0),
        SystemKind::Hint => !(i.hint == 0 || i.hint == 32 || i.hint == 34 || i.hint == 36 || i.hint
            == 38),
        SystemKind::System | SystemKind::Barrier | SystemKind::ClearExclusive => true,
    }
}

/// Replacing FPCR ends the unit: the state after it is observed.
pub open spec fn system_observes_after(i: SystemInstruction) -> bool {
    i.kind is WriteRegister && i.system_key == WRITE_FPCR
}

// ---- control ----
pub open spec fn control_reads(i: ControlInstruction) -> Set<StateItem> {
    only(i.kind is BranchRegister, general(i.rn, false)).union(
        only(i.kind is CompareBranch || i.kind is TestBranch, general(i.rd, false)),
    ).union(only(i.kind is ConditionalBranch, flags(consumed_flags(i.condition))))
}

/// Calls write the link register.
pub open spec fn control_writes(i: ControlInstruction) -> Set<StateItem> {
    only(
        i.kind is BranchLinkImmediate || (i.kind is BranchRegister && i.branch_register_key
            == BRANCH_LINK_REGISTER),
        set![StateItem::X(30)],
    )
}

// ---- Advanced SIMD and floating point ----
pub open spec fn is_fp_memory(kind: FpSimdKind) -> bool {
    ||| is_fp_single_memory(kind)
    ||| kind is MemoryPair
    ||| is_multiple_structures(kind)
    ||| is_single_structure(kind)
}

pub open spec fn is_fp_single_memory(kind: FpSimdKind) -> bool {
    ||| kind is MemoryUnsigned
    ||| kind is MemoryUnscaled
    ||| kind is MemoryPostIndex
    ||| kind is MemoryPreIndex
    ||| kind is MemoryRegister
}

pub open spec fn is_multiple_structures(kind: FpSimdKind) -> bool {
    kind is MemoryMultipleStructures || kind is MemoryMultipleStructuresPostIndex
}

pub open spec fn is_single_structure(kind: FpSimdKind) -> bool {
    kind is MemorySingleStructure || kind is MemorySingleStructurePostIndex
}

pub open spec fn is_structure_post_index(kind: FpSimdKind) -> bool {
    kind is MemoryMultipleStructuresPostIndex || kind is MemorySingleStructurePostIndex
}

pub open spec fn fp_general_reads(i: FpSimdInstruction) -> Set<StateItem> {
    let from_general = i.kind is DuplicateGeneral || i.kind is InsertGeneral
        || i.kind is MoveFromGeneral || i.kind is SignedIntToFloat || i.kind is UnsignedIntToFloat;
    only(from_general, general(i.operands.rn, false)).union(
        only(is_fp_memory(i.kind), general(i.operands.rn, true)),
    ).union(
        only(
            i.kind is MemoryRegister || (is_structure_post_index(i.kind) && i.operands.rm != 31),
            general(i.operands.rm, false),
        ),
    )
}

pub open spec fn fp_general_writes(i: FpSimdInstruction) -> Set<StateItem> {
    let to_general = i.kind is UnsignedMoveToGeneral || i.kind is MoveToGeneral
        || i.kind is FloatToSignedInt || i.kind is FloatToUnsignedInt;
    let writes_back = i.kind is MemoryPostIndex || i.kind is MemoryPreIndex
        || is_structure_post_index(i.kind) || (i.kind is MemoryPair && (i.operands.mode == 1
        || i.operands.mode == 3));
    only(to_general, general(i.operands.rd, false)).union(
        only(writes_back, general(i.operands.rn, true)),
    )
}

/// Families without a vector source in Rn: they take a general register, an
/// immediate, or a memory operand.
pub open spec fn has_no_vector_rn(kind: FpSimdKind) -> bool {
    ||| is_fp_memory(kind)
    ||| kind is MoveFromGeneral
    ||| kind is DuplicateGeneral
    ||| kind is InsertGeneral
    ||| kind is ModifiedImmediate
    ||| kind is ScalarFloatImmediate
    ||| kind is VectorFloatImmediate
    ||| kind is SignedIntToFloat
    ||| kind is UnsignedIntToFloat
}

pub open spec fn has_vector_rm(kind: FpSimdKind) -> bool {
    ||| kind is CompareRegister
    ||| kind is ConditionalCompare
    ||| kind is Bitwise
    ||| kind is Integer
    ||| kind is IntegerCompare
    ||| kind is IntegerPairwise
    ||| kind is IntegerMinMax
    ||| kind is PermuteTwoSource
    ||| kind is Extract
    ||| kind is VectorSignedShiftRegister
    ||| kind is VectorUnsignedShiftRegister
    ||| kind is VectorFloatDivide
    ||| kind is VectorFloatMultiplyElement
    ||| kind is ScalarFloatDivide
    ||| kind is ScalarFloatAdd
    ||| kind is ScalarFloatMultiply
    ||| kind is ScalarFloatConditionalSelect
    ||| kind is ScalarFloatFusedMultiplyAdd
}

/// Part of the old destination survives the instruction.
pub open spec fn keeps_vector_rd(i: FpSimdInstruction) -> bool {
    let o = i.operands;
    ||| i.kind is ModifiedImmediate && o.cmode <= 11 && o.cmode % 2 == 1
    ||| i.kind is MoveFromGeneral && (o.size / 2) % 2 == 1 && o.opc == 2
    ||| i.kind is InsertElement
    ||| i.kind is InsertGeneral
    ||| (i.kind is ShiftRightNarrow || i.kind is ExtractNarrow) && o.vector_128
    ||| i.kind is Bitwise && (o.bitwise_operation == Some(BitwiseOperation::Select)
        || o.bitwise_operation == Some(BitwiseOperation::InsertIfTrue) || o.bitwise_operation
        == Some(BitwiseOperation::InsertIfFalse))
}

/// Families whose result is not a vector register.
pub open spec fn has_no_vector_rd(kind: FpSimdKind) -> bool {
    ||| kind is UnsignedMoveToGeneral
    ||| kind is MoveToGeneral
    ||| kind is FloatToSignedInt
    ||| kind is FloatToUnsignedInt
    ||| kind is CompareZero
    ||| kind is CompareRegister
    ||| kind is ConditionalCompare
}

/// The registers that a memory family transfers.
pub open spec fn transferred(i: FpSimdInstruction) -> Set<StateItem> {
    let o = i.operands;
    if is_fp_single_memory(i.kind) {
        vector(o.rd)
    } else if i.kind is MemoryPair {
        vector(o.rd).union(vector(o.rt2))
    } else {
        match o.structure {
            Some(shape) => vector_run(o.rd, shape.structure_registers * shape.repetitions),
            None => Set::empty(),
        }
    }
}

/// A structure load that fills single lanes keeps the other lanes.
pub open spec fn load_keeps_lanes(i: FpSimdInstruction) -> bool {
    match i.operands.structure {
        Some(shape) => (is_multiple_structures(i.kind) && shape.structure_registers > 1) || (
        is_single_structure(i.kind) && shape.mode is Lane),
        None => false,
    }
}

pub open spec fn fp_vector_reads(i: FpSimdInstruction) -> Set<StateItem> {
    let o = i.operands;
    only(!has_no_vector_rn(i.kind), vector(o.rn)).union(only(has_vector_rm(i.kind), vector(o.rm))).union(
        only(i.kind is ScalarFloatFusedMultiplyAdd, vector(o.ra)),
    ).union(only(keeps_vector_rd(i), vector(o.rd))).union(
        only(is_fp_memory(i.kind) && (!o.load || load_keeps_lanes(i)), transferred(i)),
    )
}

pub open spec fn fp_vector_writes(i: FpSimdInstruction) -> Set<StateItem> {
    only(!is_fp_memory(i.kind) && !has_no_vector_rd(i.kind), vector(i.operands.rd)).union(
        only(is_fp_memory(i.kind) && i.operands.load, transferred(i)),
    )
}

pub open spec fn fp_flags_read(i: FpSimdInstruction) -> u8 {
    if i.kind is ConditionalCompare || i.kind is ScalarFloatConditionalSelect {
        consumed_flags(i.operands.condition)
    } else {
        0
    }
}

pub open spec fn fp_sets_flags(i: FpSimdInstruction) -> bool {
    i.kind is CompareRegister || i.kind is CompareZero || i.kind is ConditionalCompare
}

pub open spec fn fp_uses_status(i: FpSimdInstruction, host: HostAbi) -> bool {
    disposition(i, host) != FpLoweringDisposition::Direct
}

// ---- all instructions ----
/// Everything the instruction consumes.
pub open spec fn reads_of(instruction: A64Instruction, host: HostAbi) -> Set<StateItem> {
    match instruction {
        A64Instruction::Integer(i) => integer_reads(i).union(flags(integer_flags_read(i))),
        A64Instruction::Memory(i) => memory_reads(i),
        A64Instruction::FpSimd(i) => fp_general_reads(i).union(fp_vector_reads(i)).union(
            flags(fp_flags_read(i)),
        ).union(only(fp_uses_status(i, host), set![StateItem::Fpcr, StateItem::Fpsr])),
        A64Instruction::System(i) => system_reads(i),
        A64Instruction::Control(i) => control_reads(i),
        A64Instruction::RecognizedUnsupported => Set::empty(),
    }
}

/// Everything the instruction defines.
pub open spec fn writes_of(instruction: A64Instruction, host: HostAbi) -> Set<StateItem> {
    match instruction {
        A64Instruction::Integer(i) => integer_writes(i).union(
            only(integer_sets_flags(i), flags(NZCV)),
        ),
        A64Instruction::Memory(i) => memory_writes(i),
        A64Instruction::FpSimd(i) => fp_general_writes(i).union(fp_vector_writes(i)).union(
            only(fp_sets_flags(i), flags(NZCV)),
        ).union(only(fp_uses_status(i, host), set![StateItem::Fpsr])),
        A64Instruction::System(i) => system_writes(i),
        A64Instruction::Control(i) => control_writes(i),
        A64Instruction::RecognizedUnsupported => Set::empty(),
    }
}

/// Instructions that may fault, trap or call out before their first write.
pub open spec fn observes_before(instruction: A64Instruction, host: HostAbi) -> bool {
    match instruction {
        A64Instruction::Integer(_) => false,
        A64Instruction::Memory(_) => true,
        A64Instruction::FpSimd(i) => fp_uses_status(i, host) || is_fp_memory(i.kind),
        A64Instruction::System(i) => system_observes_before(i),
        A64Instruction::Control(i) => i.kind is SupervisorCall || i.kind is Breakpoint,
        A64Instruction::RecognizedUnsupported => true,
    }
}

pub open spec fn observes_after(instruction: A64Instruction) -> bool {
    instruction matches A64Instruction::System(i) && system_observes_after(i)
}

// ---- marking ----
fn mark(registers: &mut IntegerRegisterSet, index: u8, register31_is_sp: bool)
    requires
        index < 32,
    ensures
        final(registers).items() == old(registers).items().union(general(index, register31_is_sp)),
{
    if index == 31 {
        registers.sp = registers.sp || register31_is_sp;
    } else {
        registers.x[index as usize] = true;
    }
    proof {
        assert(registers.items() =~= old(registers).items().union(general(index, register31_is_sp)));
    }
}

fn mark_vector(registers: &mut [bool; 32], index: u8)
    requires
        index < 32,
    ensures
        vector_items(*final(registers)) == vector_items(*old(registers)).union(vector(index)),
{
    registers[index as usize] = true;
    proof {
        assert(vector_items(*registers) =~= vector_items(*old(registers)).union(vector(index)));
    }
}

fn mark_vector_run(registers: &mut [bool; 32], first: u8, count: u8)
    requires
        first < 32,
        count <= 4,
    ensures
        vector_items(*final(registers)) == vector_items(*old(registers)).union(
            vector_run(first, count as int),
        ),
{
    let mut offset: u8 = 0;
    proof {
        assert(vector_items(*registers) =~= vector_items(*old(registers)).union(
            vector_run(first, 0),
        ));
    }
    while offset < count
        invariant
            first < 32,
            offset <= count <= 4,
            vector_items(*registers) == vector_items(*old(registers)).union(
                vector_run(first, offset as int),
            ),
        decreases count - offset,
    {
        let register: u8 = first.wrapping_add(offset) & 31;
        proof {
            let sum: u8 = (first + offset) as u8;
            assert(sum & 31 == sum % 32) by (bit_vector);
            assert(sum & 31 < 32) by (bit_vector);
        }
        mark_vector(registers, register);
        proof {
            assert(register == wrapped_register(first, offset as int));
            assert forall|item: StateItem|
                vector_run(first, offset as int).union(vector(register)).contains(item)
                    == vector_run(first, offset + 1).contains(item) by {
                if item == StateItem::Vector(register) {
                    assert(register == wrapped_register(first, offset as int));
                }
            }
            assert(vector_items(*registers) =~= vector_items(*old(registers)).union(
                vector_run(first, offset + 1),
            ));
        }
        offset = offset + 1;
    }
}

fn register_access_integer(
    i: IntegerInstruction,
    accessed: &mut IntegerRegisterSet,
    dirty: &mut IntegerRegisterSet,
)
    requires
        A64Instruction::Integer(i).normalized(),
    ensures
        final(accessed).items() == old(accessed).items().union(integer_reads(i)),
        final(dirty).items() == old(dirty).items().union(integer_writes(i)),
{
    match i.kind {
        IntegerKind::MoveWide => {
            if i.subtract && i.set_flags {
                mark(accessed, i.rd, false);
            }
            mark(dirty, i.rd, false);
        },
        IntegerKind::AddSubImmediate => {
            mark(accessed, i.rn, true);
            mark(dirty, i.rd, !i.set_flags);
        },
        IntegerKind::AddSubExtended => {
            mark(accessed, i.rn, true);
            mark(accessed, i.rm, false);
            mark(dirty, i.rd, !i.set_flags);
        },
        IntegerKind::AddSubShifted
        | IntegerKind::AddSubCarry
        | IntegerKind::LogicalShifted
        | IntegerKind::Extract
        | IntegerKind::TwoSource
        | IntegerKind::ConditionalSelect => {
            mark(accessed, i.rn, false);
            mark(accessed, i.rm, false);
            mark(dirty, i.rd, false);
        },
        IntegerKind::LogicalImmediate | IntegerKind::OneSource => {
            mark(accessed, i.rn, false);
            mark(dirty, i.rd, false);
        },
        IntegerKind::Bitfield => {
            mark(accessed, i.rn, false);
            if !i.subtract && i.set_flags {
                mark(accessed, i.rd, false);
            }
            mark(dirty, i.rd, false);
        },
        IntegerKind::ConditionalCompareRegister => {
            mark(accessed, i.rn, false);
            mark(accessed, i.rm, false);
        },
        IntegerKind::ConditionalCompareImmediate => {
            mark(accessed, i.rn, false);
        },
        IntegerKind::ThreeSource => {
            mark(accessed, i.rn, false);
            mark(accessed, i.rm, false);
            if i.opcode_3 != 2 && i.opcode_3 != 6 {
                mark(accessed, i.ra, false);
            }
            mark(dirty, i.rd, false);
        },
        IntegerKind::Adr | IntegerKind::Adrp => {
            mark(dirty, i.rd, false);
        },
    }
    proof {
        assert(accessed.items() =~= old(accessed).items().union(integer_reads(i)));
        assert(dirty.items() =~= old(dirty).items().union(integer_writes(i)));
    }
}

fn register_access_memory(
    i: MemoryInstruction,
    accessed: &mut IntegerRegisterSet,
    dirty: &mut IntegerRegisterSet,
)
    requires
        A64Instruction::Memory(i).normalized(),
    ensures
        final(accessed).items() == old(accessed).items().union(memory_reads(i)),
        final(dirty).items() == old(dirty).items().union(memory_writes(i)),
{
    if !matches!(i.kind, MemoryKind::Literal) {
        mark(accessed, i.rn, true);
    }
    if matches!(i.kind, MemoryKind::Register) {
        mark(accessed, i.rm, false);
    }
    match i.kind {
        MemoryKind::Literal => {
            mark(dirty, i.rt, false);
        },
        MemoryKind::Unsigned
        | MemoryKind::Unscaled
        | MemoryKind::PostIndex
        | MemoryKind::PreIndex
        | MemoryKind::Register => {
            match i.transfer {
                Some(ScalarTransfer::Store) => {
                    mark(accessed, i.rt, false);
                },
                Some(ScalarTransfer::Load) => {
                    mark(dirty, i.rt, false);
                },
                None => {},
            }
            if matches!(i.kind, MemoryKind::PostIndex | MemoryKind::PreIndex) {
                mark(dirty, i.rn, true);
            }
        },
        MemoryKind::Pair => {
            if i.pair_allocated {
                if i.load {
                    mark(dirty, i.rt, false);
                    mark(dirty, i.rt2, false);
                } else {
                    mark(accessed, i.rt, false);
                    mark(accessed, i.rt2, false);
                }
                if i.mode == 1 || i.mode == 3 {
                    mark(dirty, i.rn, true);
                }
            }
        },
        MemoryKind::LoadAcquire | MemoryKind::LoadExclusive => {
            mark(dirty, i.rt, false);
        },
        MemoryKind::LoadExclusivePair => {
            mark(dirty, i.rt, false);
            mark(dirty, i.rt2, false);
        },
        MemoryKind::StoreRelease => {
            mark(accessed, i.rt, false);
        },
        MemoryKind::StoreExclusive => {
            mark(accessed, i.rt, false);
            mark(dirty, i.rm, false);
        },
        MemoryKind::StoreExclusivePair => {
            mark(accessed, i.rt, false);
            mark(accessed, i.rt2, false);
            mark(dirty, i.rm, false);
        },
        MemoryKind::AtomicReadModifyWrite => {
            mark(accessed, i.rm, false);
            mark(dirty, i.rt, false);
        },
        MemoryKind::CompareAndSwap => {
            mark(accessed, i.rm, false);
            mark(accessed, i.rt, false);
            mark(dirty, i.rm, false);
        },
        MemoryKind::CompareAndSwapPair => {
            mark(accessed, i.rm, false);
            mark(accessed, i.rm + 1, false);
            mark(accessed, i.rt, false);
            mark(accessed, i.rt + 1, false);
            mark(dirty, i.rm, false);
            mark(dirty, i.rm + 1, false);
        },
    }
    proof {
        assert(accessed.items() =~= old(accessed).items().union(memory_reads(i)));
        assert(dirty.items() =~= old(dirty).items().union(memory_writes(i)));
    }
}

fn register_access_fp_simd_general(
    i: FpSimdInstruction,
    accessed: &mut IntegerRegisterSet,
    dirty: &mut IntegerRegisterSet,
)
    requires
        i.normalized(),
    ensures
        final(accessed).items() == old(accessed).items().union(fp_general_reads(i)),
        final(dirty).items() == old(dirty).items().union(fp_general_writes(i)),
{
    let fields = i.operands;
    match i.kind {
        FpSimdKind::DuplicateGeneral
        | FpSimdKind::InsertGeneral
        | FpSimdKind::MoveFromGeneral
        | FpSimdKind::SignedIntToFloat
        | FpSimdKind::UnsignedIntToFloat => {
            mark(accessed, fields.rn, false);
        },
        FpSimdKind::UnsignedMoveToGeneral
        | FpSimdKind::MoveToGeneral
        | FpSimdKind::FloatToSignedInt
        | FpSimdKind::FloatToUnsignedInt => {
            mark(dirty, fields.rd, false);
        },
        FpSimdKind::MemoryUnsigned
        | FpSimdKind::MemoryUnscaled
        | FpSimdKind::MemoryPostIndex
        | FpSimdKind::MemoryPreIndex
        | FpSimdKind::MemoryRegister
        | FpSimdKind::MemoryPair
        | FpSimdKind::MemoryMultipleStructures
        | FpSimdKind::MemoryMultipleStructuresPostIndex
        | FpSimdKind::MemorySingleStructure
        | FpSimdKind::MemorySingleStructurePostIndex => {
            mark(accessed, fields.rn, true);
            let post_index = matches!(
                i.kind,
                FpSimdKind::MemoryMultipleStructuresPostIndex
                    | FpSimdKind::MemorySingleStructurePostIndex
            );
            if matches!(i.kind, FpSimdKind::MemoryRegister) || (post_index && fields.rm != 31) {
                mark(accessed, fields.rm, false);
            }
            if post_index || matches!(
                i.kind,
                FpSimdKind::MemoryPostIndex | FpSimdKind::MemoryPreIndex
            ) || (matches!(i.kind, FpSimdKind::MemoryPair) && (fields.mode == 1 || fields.mode
                == 3)) {
                mark(dirty, fields.rn, true);
            }
        },
        _ => {},
    }
    proof {
        assert(accessed.items() =~= old(accessed).items().union(fp_general_reads(i)));
        assert(dirty.items() =~= old(dirty).items().union(fp_general_writes(i)));
    }
}

fn register_access_fp_simd_vector(
    i: FpSimdInstruction,
    accessed: &mut [bool; 32],
    dirty: &mut [bool; 32],
)
    requires
        i.normalized(),
    ensures
        vector_items(*final(accessed)) == vector_items(*old(accessed)).union(fp_vector_reads(i)),
        vector_items(*final(dirty)) == vector_items(*old(dirty)).union(fp_vector_writes(i)),
{
    let fields = i.operands;
    match i.kind {
        FpSimdKind::UnsignedMoveToGeneral
        | FpSimdKind::MoveToGeneral
        | FpSimdKind::FloatToSignedInt
        | FpSimdKind::FloatToUnsignedInt
        | FpSimdKind::CompareZero => {
            mark_vector(accessed, fields.rn);
        },
        FpSimdKind::CompareRegister | FpSimdKind::ConditionalCompare => {
            mark_vector(accessed, fields.rn);
            mark_vector(accessed, fields.rm);
        },
        FpSimdKind::MemoryUnsigned
        | FpSimdKind::MemoryUnscaled
        | FpSimdKind::MemoryPostIndex
        | FpSimdKind::MemoryPreIndex
        | FpSimdKind::MemoryRegister => {
            if fields.load {
                mark_vector(dirty, fields.rd);
            } else {
                mark_vector(accessed, fields.rd);
            }
        },
        FpSimdKind::MemoryPair => {
            if fields.load {
                mark_vector(dirty, fields.rd);
                mark_vector(dirty, fields.rt2);
            } else {
                mark_vector(accessed, fields.rd);
                mark_vector(accessed, fields.rt2);
            }
        },
        FpSimdKind::MemoryMultipleStructures | FpSimdKind::MemoryMultipleStructuresPostIndex => {
            if let Some(shape) = fields.structure {
                let count: u8 = shape.register_count();
                if !fields.load || shape.structure_registers > 1 {
                    mark_vector_run(accessed, fields.rd, count);
                }
                if fields.load {
                    mark_vector_run(dirty, fields.rd, count);
                }
            }
        },
        FpSimdKind::MemorySingleStructure | FpSimdKind::MemorySingleStructurePostIndex => {
            if let Some(shape) = fields.structure {
                let count: u8 = shape.register_count();
                if !fields.load || matches!(shape.mode, SimdMemoryMode::Lane(_)) {
                    mark_vector_run(accessed, fields.rd, count);
                }
                if fields.load {
                    mark_vector_run(dirty, fields.rd, count);
                }
            }
        },
        FpSimdKind::MoveFromGeneral
        | FpSimdKind::DuplicateGeneral
        | FpSimdKind::ModifiedImmediate
        | FpSimdKind::ScalarFloatImmediate
        | FpSimdKind::VectorFloatImmediate => {
            let (cmode, size) = (fields.cmode, fields.size);
            proof {
                assert((cmode & 1 != 0) == (cmode % 2 == 1)) by (bit_vector);
                assert((size & 2 != 0) == ((size / 2) % 2 == 1)) by (bit_vector);
            }
            if (matches!(i.kind, FpSimdKind::ModifiedImmediate) && cmode <= 11 && cmode & 1 != 0)
                || (matches!(i.kind, FpSimdKind::MoveFromGeneral) && size & 2 != 0 && fields.opc
                == 2) {
                mark_vector(accessed, fields.rd);
            }
            mark_vector(dirty, fields.rd);
        },
        FpSimdKind::InsertElement => {
            mark_vector(accessed, fields.rn);
            mark_vector(accessed, fields.rd);
            mark_vector(dirty, fields.rd);
        },
        FpSimdKind::InsertGeneral => {
            mark_vector(accessed, fields.rd);
            mark_vector(dirty, fields.rd);
        },
        FpSimdKind::ShiftRightNarrow | FpSimdKind::ExtractNarrow => {
            mark_vector(accessed, fields.rn);
            if fields.vector_128 {
                mark_vector(accessed, fields.rd);
            }
            mark_vector(dirty, fields.rd);
        },
        FpSimdKind::Bitwise => {
            mark_vector(accessed, fields.rn);
            mark_vector(accessed, fields.rm);
            if matches!(
                fields.bitwise_operation,
                Some(
                    BitwiseOperation::Select
                        | BitwiseOperation::InsertIfTrue
                        | BitwiseOperation::InsertIfFalse,
                )
            ) {
                mark_vector(accessed, fields.rd);
            }
            mark_vector(dirty, fields.rd);
        },
        FpSimdKind::Integer
        | FpSimdKind::IntegerCompare
        | FpSimdKind::IntegerPairwise
        | FpSimdKind::IntegerMinMax
        | FpSimdKind::PermuteTwoSource
        | FpSimdKind::Extract
        | FpSimdKind::VectorSignedShiftRegister
        | FpSimdKind::VectorUnsignedShiftRegister
        | FpSimdKind::VectorFloatDivide
        | FpSimdKind::VectorFloatMultiplyElement
        | FpSimdKind::ScalarFloatDivide
        | FpSimdKind::ScalarFloatAdd
        | FpSimdKind::ScalarFloatMultiply
        | FpSimdKind::ScalarFloatConditionalSelect => {
            mark_vector(accessed, fields.rn);
            mark_vector(accessed, fields.rm);
            mark_vector(dirty, fields.rd);
        },
        FpSimdKind::ScalarFloatFusedMultiplyAdd => {
            mark_vector(accessed, fields.rn);
            mark_vector(accessed, fields.rm);
            mark_vector(accessed, fields.ra);
            mark_vector(dirty, fields.rd);
        },
        FpSimdKind::ScalarMove
        | FpSimdKind::ScalarAbsolute
        | FpSimdKind::ScalarNegate
        | FpSimdKind::VectorFloatAbsolute
        | FpSimdKind::VectorFloatNegate
        | FpSimdKind::DuplicateElement
        | FpSimdKind::ScalarShiftRightImmediate
        | FpSimdKind::VectorShiftRightImmediate
        | FpSimdKind::ScalarShiftLeftImmediate
        | FpSimdKind::VectorShiftLeftImmediate
        | FpSimdKind::ShiftLeftLong
        | FpSimdKind::CountBits
        | FpSimdKind::AddAcrossVector
        | FpSimdKind::VectorSignedIntToFloat
        | FpSimdKind::VectorUnsignedIntToFloat
        | FpSimdKind::ScalarVectorSignedIntToFloat
        | FpSimdKind::ScalarVectorUnsignedIntToFloat
        | FpSimdKind::ScalarFloatConvert
        | FpSimdKind::ScalarFloatRound
        | FpSimdKind::ScalarFloatSquareRoot => {
            mark_vector(accessed, fields.rn);
            mark_vector(dirty, fields.rd);
        },
        FpSimdKind::SignedIntToFloat | FpSimdKind::UnsignedIntToFloat => {
            mark_vector(dirty, fields.rd);
        },
    }
    proof {
        assert(vector_items(*accessed) =~= vector_items(*old(accessed)).union(fp_vector_reads(i)));
        assert(vector_items(*dirty) =~= vector_items(*old(dirty)).union(fp_vector_writes(i)));
    }
}

/// A state set is its parts.
proof fn lemma_parts(state: StateSet)
    ensures
        state@ == state.integer.items().union(vector_items(state.vector)).union(
            flags(state.nzcv),
        ).union(only(state.fpcr, set![StateItem::Fpcr])).union(
            only(state.fpsr, set![StateItem::Fpsr]),
        ).union(only(state.tpidr_el0, set![StateItem::TpidrEl0])).union(
            only(state.tpidrro_el0, set![StateItem::TpidrroEl0]),
        ),
{
    assert(state@ =~= state.integer.items().union(vector_items(state.vector)).union(
        flags(state.nzcv),
    ).union(only(state.fpcr, set![StateItem::Fpcr])).union(
        only(state.fpsr, set![StateItem::Fpsr]),
    ).union(only(state.tpidr_el0, set![StateItem::TpidrEl0])).union(
        only(state.tpidrro_el0, set![StateItem::TpidrroEl0]),
    ));
}

spec fn no_general(state: StateSet) -> bool {
    state.integer.items() == Set::<StateItem>::empty()
}

proof fn lemma_empty_parts(state: StateSet)
    requires
        state@ == Set::<StateItem>::empty(),
    ensures
        no_general(state),
        vector_items(state.vector) == Set::<StateItem>::empty(),
        flags(state.nzcv) == Set::<StateItem>::empty(),
        !state.fpcr,
        !state.fpsr,
        !state.tpidr_el0,
        !state.tpidrro_el0,
{
    lemma_parts(state);
    assert(!state@.contains(StateItem::Fpcr));
    assert(!state@.contains(StateItem::Fpsr));
    assert(!state@.contains(StateItem::TpidrEl0));
    assert(!state@.contains(StateItem::TpidrroEl0));
    assert forall|item: StateItem| !state.integer.items().contains(item) by {
        assert(!state@.contains(item));
    }
    assert forall|item: StateItem| !vector_items(state.vector).contains(item) by {
        assert(!state@.contains(item));
    }
    assert forall|item: StateItem| !flags(state.nzcv).contains(item) by {
        assert(!state@.contains(item));
    }
    assert(state.integer.items() =~= Set::<StateItem>::empty());
    assert(vector_items(state.vector) =~= Set::<StateItem>::empty());
    assert(flags(state.nzcv) =~= Set::<StateItem>::empty());
}

proof fn lemma_no_flags()
    ensures
        flags(0) == Set::<StateItem>::empty(),
{
    assert forall|bit: u8| bit < 8 implies !flag_bit(0, bit) by {
        assert(!((0u8 >> bit) & 1 == 1)) by (bit_vector);
    }
    assert(flags(0) =~= Set::<StateItem>::empty());
}

fn integer_effects(i: IntegerInstruction, effect: &mut InstructionEffects)
    requires
        A64Instruction::Integer(i).normalized(),
        old(effect).reads@ == Set::<StateItem>::empty(),
        old(effect).writes@ == Set::<StateItem>::empty(),
        old(effect).reads.nzcv == 0,
        old(effect).writes.nzcv == 0,
    ensures
        final(effect).reads@ == integer_reads(i).union(flags(integer_flags_read(i))),
        final(effect).writes@ == integer_writes(i).union(
            only(integer_sets_flags(i), flags(NZCV)),
        ),
        final(effect).observe_before == old(effect).observe_before,
        final(effect).observe_after == old(effect).observe_after,
{
    proof {
        lemma_empty_parts(effect.reads);
        lemma_empty_parts(effect.writes);
        lemma_no_flags();
    }
    register_access_integer(i, &mut effect.reads.integer, &mut effect.writes.integer);
    match i.kind {
        IntegerKind::AddSubImmediate
        | IntegerKind::AddSubExtended
        | IntegerKind::AddSubShifted
        | IntegerKind::AddSubCarry => {
            if i.set_flags {
                effect.writes.nzcv = NZCV;
            }
            if matches!(i.kind, IntegerKind::AddSubCarry) {
                effect.reads.nzcv = C;
            }
        },
        IntegerKind::LogicalImmediate | IntegerKind::LogicalShifted => {
            if i.subtract && i.set_flags {
                effect.writes.nzcv = NZCV;
            }
        },
        IntegerKind::ConditionalCompareImmediate | IntegerKind::ConditionalCompareRegister => {
            effect.reads.nzcv = condition_flags(i.condition);
            effect.writes.nzcv = NZCV;
        },
        IntegerKind::ConditionalSelect => {
            effect.reads.nzcv = condition_flags(i.condition);
        },
        _ => {},
    }
    proof {
        lemma_parts(effect.reads);
        lemma_parts(effect.writes);
        assert(effect.reads@ =~= integer_reads(i).union(flags(integer_flags_read(i))));
        assert(effect.writes@ =~= integer_writes(i).union(
            only(integer_sets_flags(i), flags(NZCV)),
        ));
    }
}

fn fp_effects(i: FpSimdInstruction, host: HostAbi, effect: &mut InstructionEffects)
    requires
        i.normalized(),
        old(effect).reads@ == Set::<StateItem>::empty(),
        old(effect).writes@ == Set::<StateItem>::empty(),
        old(effect).observe_before@ == Set::<StateItem>::empty(),
        old(effect).reads.nzcv == 0,
        old(effect).writes.nzcv == 0,
    ensures
        final(effect).reads@ == reads_of(A64Instruction::FpSimd(i), host),
        final(effect).writes@ == writes_of(A64Instruction::FpSimd(i), host),
        final(effect).observe_before@ == only(
            observes_before(A64Instruction::FpSimd(i), host),
            StateSet::everything(),
        ),
        final(effect).observe_after == old(effect).observe_after,
{
    proof {
        lemma_empty_parts(effect.reads);
        lemma_empty_parts(effect.writes);
        lemma_no_flags();
    }
    register_access_fp_simd_general(i, &mut effect.reads.integer, &mut effect.writes.integer);
    register_access_fp_simd_vector(i, &mut effect.reads.vector, &mut effect.writes.vector);
    if fp_lowering_disposition(i, host).accesses_status() {
        effect.reads.fpcr = true;
        effect.reads.fpsr = true;
        effect.writes.fpsr = true;
        // A trapped exact helper must reconstruct the state before the fault.
        effect.observe_before = StateSet::all();
    }
    match i.kind {
        FpSimdKind::CompareRegister | FpSimdKind::CompareZero => {
            effect.writes.nzcv = NZCV;
        },
        FpSimdKind::ConditionalCompare => {
            effect.reads.nzcv = condition_flags(i.operands.condition);
            effect.writes.nzcv = NZCV;
        },
        FpSimdKind::ScalarFloatConditionalSelect => {
            effect.reads.nzcv = condition_flags(i.operands.condition);
        },
        FpSimdKind::MemoryUnsigned
        | FpSimdKind::MemoryUnscaled
        | FpSimdKind::MemoryPostIndex
        | FpSimdKind::MemoryPreIndex
        | FpSimdKind::MemoryRegister
        | FpSimdKind::MemoryPair
        | FpSimdKind::MemoryMultipleStructures
        | FpSimdKind::MemoryMultipleStructuresPostIndex
        | FpSimdKind::MemorySingleStructure
        | FpSimdKind::MemorySingleStructurePostIndex => {
            effect.observe_before = StateSet::all();
        },
        _ => {},
    }
    proof {
        lemma_parts(effect.reads);
        lemma_parts(effect.writes);
        assert(effect.reads@ =~= reads_of(A64Instruction::FpSimd(i), host));
        assert(effect.writes@ =~= writes_of(A64Instruction::FpSimd(i), host));
    }
}

fn system_effects(i: SystemInstruction, effect: &mut InstructionEffects)
    requires
        i.rt < 32,
        old(effect).reads@ == Set::<StateItem>::empty(),
        old(effect).writes@ == Set::<StateItem>::empty(),
        old(effect).observe_before@ == Set::<StateItem>::empty(),
        old(effect).observe_after@ == Set::<StateItem>::empty(),
        old(effect).reads.nzcv == 0,
        old(effect).writes.nzcv == 0,
    ensures
        final(effect).reads@ == system_reads(i),
        final(effect).writes@ == system_writes(i),
        final(effect).observe_before@ == only(system_observes_before(i), StateSet::everything()),
        final(effect).observe_after@ == only(system_observes_after(i), StateSet::everything()),
{
    proof {
        lemma_empty_parts(effect.reads);
        lemma_empty_parts(effect.writes);
        lemma_no_flags();
    }
    match i.kind {
        SystemKind::ReadRegister => {
            mark(&mut effect.writes.integer, i.rt, false);
            if i.system_key == READ_NZCV {
                effect.reads.nzcv = NZCV;
            } else if i.system_key == READ_FPCR {
                effect.reads.fpcr = true;
            } else if i.system_key == READ_FPSR {
                effect.reads.fpsr = true;
            } else if i.system_key == READ_TPIDR_EL0 {
                effect.reads.tpidr_el0 = true;
            } else if i.system_key == READ_TPIDRRO_EL0 {
                effect.reads.tpidrro_el0 = true;
            } else {
                // Runtime registers use a canonical failure exit.
                effect.observe_before = StateSet::all();
            }
        },
        SystemKind::WriteRegister => {
            mark(&mut effect.reads.integer, i.rt, false);
            if i.system_key == WRITE_NZCV {
                effect.writes.nzcv = NZCV;
            } else if i.system_key == WRITE_FPCR {
                effect.writes.fpcr = true;
                effect.observe_after = StateSet::all();
            } else if i.system_key == WRITE_FPSR {
                effect.writes.fpsr = true;
            } else if i.system_key == WRITE_TPIDR_EL0 {
                effect.writes.tpidr_el0 = true;
            } else {
                effect.observe_before = StateSet::all();
            }
        },
        SystemKind::Hint => {
            // Runtime hints may schedule; the others are no-ops here.
            if !matches!(i.hint, 0 | 32 | 34 | 36 | 38) {
                effect.observe_before = StateSet::all();
            }
        },
        SystemKind::System => {
            if i.system_key != INVALIDATE_ALL {
                mark(&mut effect.reads.integer, i.rt, false);
            }
            effect.observe_before = StateSet::all();
        },
        SystemKind::Barrier | SystemKind::ClearExclusive => {
            effect.observe_before = StateSet::all();
        },
    }
    proof {
        lemma_parts(effect.reads);
        lemma_parts(effect.writes);
        assert(effect.reads@ =~= system_reads(i));
        assert(effect.writes@ =~= system_writes(i));
    }
}

fn control_effects(i: ControlInstruction, effect: &mut InstructionEffects)
    requires
        i.rd < 32,
        i.rn < 32,
        old(effect).reads@ == Set::<StateItem>::empty(),
        old(effect).writes@ == Set::<StateItem>::empty(),
        old(effect).observe_before@ == Set::<StateItem>::empty(),
        old(effect).reads.nzcv == 0,
        old(effect).writes.nzcv == 0,
    ensures
        final(effect).reads@ == control_reads(i),
        final(effect).writes@ == control_writes(i),
        final(effect).observe_before@ == only(
            i.kind is SupervisorCall || i.kind is Breakpoint,
            StateSet::everything(),
        ),
        final(effect).observe_after == old(effect).observe_after,
{
    proof {
        lemma_empty_parts(effect.reads);
        lemma_empty_parts(effect.writes);
        lemma_no_flags();
    }
    match i.kind {
        ControlKind::BranchLinkImmediate => {
            mark(&mut effect.writes.integer, 30, false);
        },
        ControlKind::BranchRegister => {
            mark(&mut effect.reads.integer, i.rn, false);
            if i.branch_register_key == BRANCH_LINK_REGISTER {
                mark(&mut effect.writes.integer, 30, false);
            }
        },
        ControlKind::CompareBranch | ControlKind::TestBranch => {
            mark(&mut effect.reads.integer, i.rd, false);
        },
        ControlKind::ConditionalBranch => {
            effect.reads.nzcv = condition_flags(i.condition);
        },
        ControlKind::SupervisorCall | ControlKind::Breakpoint => {
            effect.observe_before = StateSet::all();
        },
        ControlKind::Nop | ControlKind::BranchImmediate => {},
    }
    proof {
        lemma_parts(effect.reads);
        lemma_parts(effect.writes);
        assert(effect.reads@ =~= control_reads(i));
        assert(effect.writes@ =~= control_writes(i));
    }
}

/// What one instruction reads, writes and lets be observed. A typed helper's
/// arguments and results are the same reads and writes.
pub fn instruction_effects(instruction: A64Instruction, host: HostAbi) -> (effect:
    InstructionEffects)
    requires
        instruction.normalized(),
    ensures
        effect.reads@ == reads_of(instruction, host),
        effect.writes@ == writes_of(instruction, host),
        effect.observe_before@ == only(
            observes_before(instruction, host),
            StateSet::everything(),
        ),
        effect.observe_after@ == only(observes_after(instruction), StateSet::everything()),
{
    let mut effect = InstructionEffects::default();
    match instruction {
        A64Instruction::Integer(i) => {
            integer_effects(i, &mut effect);
        },
        A64Instruction::Memory(i) => {
            proof {
                lemma_empty_parts(effect.reads);
                lemma_empty_parts(effect.writes);
                lemma_no_flags();
            }
            register_access_memory(i, &mut effect.reads.integer, &mut effect.writes.integer);
            effect.observe_before = StateSet::all();
            proof {
                lemma_parts(effect.reads);
                lemma_parts(effect.writes);
                assert(effect.reads@ =~= memory_reads(i));
                assert(effect.writes@ =~= memory_writes(i));
            }
        },
        A64Instruction::FpSimd(i) => {
            fp_effects(i, host, &mut effect);
        },
        A64Instruction::System(i) => {
            system_effects(i, &mut effect);
        },
        A64Instruction::Control(i) => {
            control_effects(i, &mut effect);
        },
        A64Instruction::RecognizedUnsupported => {
            effect.observe_before = StateSet::all();
        },
    }
    effect
}

/// The effects of a straight run of instructions.
pub fn block_effects(instructions: &[A64Instruction], host: HostAbi) -> (effects: super::BlockEffects)
    requires
        forall|k: int| 0 <= k < instructions@.len() ==> (#[trigger] instructions@[k]).normalized(),
    ensures
        effects.reads@ == block_reads(instructions@, host),
        effects.writes@ == block_writes(instructions@, host),
        forall|live: Set<StateItem>| #[trigger]
            effects.live_before_set(live) == live_before_block(instructions@, host, live),
{
    let mut effects = super::BlockEffects::default();
    let mut k: usize = 0;
    proof {
        assert(instructions@.take(0) =~= Seq::<A64Instruction>::empty());
        assert forall|live: Set<StateItem>| #[trigger]
            effects.live_before_set(live) == live_before_block(instructions@.take(0), host, live) by {
            assert(effects.live_before_set(live) =~= live);
        }
    }
    while k < instructions.len()
        invariant
            k <= instructions@.len(),
            forall|j: int| 0 <= j < instructions@.len() ==> (#[trigger] instructions@[j]).normalized(),
            effects.reads@ == block_reads(instructions@.take(k as int), host),
            effects.writes@ == block_writes(instructions@.take(k as int), host),
            forall|live: Set<StateItem>| #[trigger]
                effects.live_before_set(live) == live_before_block(
                    instructions@.take(k as int),
                    host,
                    live,
                ),
        decreases instructions@.len() - k,
    {
        let ghost before = effects;
        let step = instruction_effects(instructions[k], host);
        effects.push(step);
        proof {
            let longer = instructions@.take(k + 1);
            assert(longer.drop_last() =~= instructions@.take(k as int));
            assert(longer.last() == instructions@[k as int]);
            assert forall|live: Set<StateItem>| #[trigger]
                effects.live_before_set(live) == live_before_block(longer, host, live) by {
                let inner = step.live_before_set(live);
                assert(inner == live_before(instructions@[k as int], host, live));
                assert(before.live_before_set(inner) == live_before_block(
                    instructions@.take(k as int),
                    host,
                    inner,
                ));
            }
        }
        k = k + 1;
    }
    proof {
        assert(instructions@.take(instructions@.len() as int) =~= instructions@);
    }
    effects
}

/// Everything some instruction of the run reads.
pub open spec fn block_reads(instructions: Seq<A64Instruction>, host: HostAbi) -> Set<StateItem>
    decreases instructions.len(),
{
    if instructions.len() == 0 {
        Set::empty()
    } else {
        block_reads(instructions.drop_last(), host).union(reads_of(instructions.last(), host))
    }
}

/// Everything some instruction of the run writes.
pub open spec fn block_writes(instructions: Seq<A64Instruction>, host: HostAbi) -> Set<StateItem>
    decreases instructions.len(),
{
    if instructions.len() == 0 {
        Set::empty()
    } else {
        block_writes(instructions.drop_last(), host).union(writes_of(instructions.last(), host))
    }
}

/// Live before one instruction: what it or a side exit consumes, and what
/// outlives its writes.
pub open spec fn live_before(
    instruction: A64Instruction,
    host: HostAbi,
    live: Set<StateItem>,
) -> Set<StateItem> {
    live.union(only(observes_after(instruction), StateSet::everything())).difference(
        writes_of(instruction, host),
    ).union(reads_of(instruction, host)).union(
        only(observes_before(instruction, host), StateSet::everything()),
    )
}

/// Live before a run of instructions, taken backward one by one.
pub open spec fn live_before_block(
    instructions: Seq<A64Instruction>,
    host: HostAbi,
    live: Set<StateItem>,
) -> Set<StateItem>
    decreases instructions.len(),
{
    if instructions.len() == 0 {
        live
    } else {
        live_before_block(
            instructions.drop_last(),
            host,
            live_before(instructions.last(), host, live),
        )
    }
}

} // verus!
