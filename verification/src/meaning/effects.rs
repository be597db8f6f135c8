//! The effects that the analysis finds are those that instructions have.

use vstd::prelude::*;
use super::execution::{
    add_sub, borrow, computes, extended, integer_written, inverted, logical, low, nothing,
    run_control, run_integer, run_memory, run_system, shifted, Outcome, Setting,
};
use super::floats::{
    after, arithmetic_written, float_operands, is_arithmetic, run_float, run_structure,
    structure_loaded, vreg,
};
use super::guest::{met, x, x_or_sp, Guest};
use super::moves::moves_whole;
use super::vectors::{bytes_of, lane_result, move_result};
use crate::abi::HostAbi;
use crate::analysis::access::{
    control_reads, control_writes, flags, fp_general_reads, fp_general_writes, fp_vector_reads,
    fp_vector_writes, general, has_no_vector_rn, has_vector_rm, integer_flags_read, integer_reads,
    integer_sets_flags, integer_writes, is_fp_memory, is_structure_post_index, keeps_vector_rd,
    load_keeps_lanes, memory_reads, memory_writes, only, reads_of, system_reads, system_writes,
    vector, vector_run, wrapped_register, writes_of,
};
use crate::analysis::{consumed_flags, flag_bit, StateItem, C, NZCV};
use crate::decode::{
    A64Instruction, ControlInstruction, FpSimdInstruction, IntegerInstruction, IntegerKind,
    MemoryInstruction, MemoryKind, SystemInstruction,
};
use crate::simd::vector::is_lane_computation;

verus! {

/// The two states hold the same in these items.
pub open spec fn agree(a: Guest, b: Guest, items: Set<StateItem>) -> bool {
    forall|item: StateItem| #[trigger] items.contains(item) ==> a(item) == b(item)
}

pub open spec fn outcome_of(instruction: A64Instruction, s: Setting, g: Guest) -> Outcome {
    match instruction {
        A64Instruction::Integer(i) => run_integer(i, s, g),
        A64Instruction::Memory(i) => run_memory(i, s, g),
        A64Instruction::System(i) => run_system(i, s, g),
        A64Instruction::Control(i) => run_control(i, s, g),
        A64Instruction::FpSimd(i) => run_float(i, s, g),
        A64Instruction::RecognizedUnsupported => computes(nothing(), s),
    }
}

/// The instruction is one whose register 31 the analysis takes for what it is. A logical
/// operation with an immediate that sets no flags has the stack pointer for it. A
/// bitwise operation has a function, and only a wide move goes to an upper half.
pub open spec fn names_registers(instruction: A64Instruction) -> bool {
    match instruction {
        A64Instruction::Integer(i) => i.kind is LogicalImmediate && i.rd == 31 ==> i.subtract
            && i.set_flags,
        A64Instruction::FpSimd(i) => {
            &&& i.kind is Bitwise ==> i.operands.bitwise_operation is Some
            &&& i.kind is MoveFromGeneral && i.operands.opc == 2 ==> (i.operands.size / 2) % 2 == 1
        },
        _ => true,
    }
}

pub proof fn lemma_flag_masks()
    ensures
        forall|bit: u8| bit < 8 ==> (#[trigger] flag_bit(NZCV, bit) <==> bit < 4),
        forall|bit: u8| bit < 8 ==> (#[trigger] flag_bit(C, bit) <==> bit == 1),
        flag_bit(4, 2),
        flag_bit(2, 1),
        flag_bit(8, 3),
        flag_bit(1, 0),
        flag_bit(6, 1),
        flag_bit(6, 2),
        flag_bit(9, 3),
        flag_bit(9, 0),
        flag_bit(13, 3),
        flag_bit(13, 2),
        flag_bit(13, 0),
{
    assert forall|bit: u8| bit < 8 implies ((#[trigger] flag_bit(NZCV, bit) <==> bit < 4) && (flag_bit(
        C,
        bit,
    ) <==> bit == 1)) by {
        assert(bit < 8 ==> ((15u8 >> bit) & 1 == 1 <==> bit < 4) && ((2u8 >> bit) & 1 == 1 <==> bit
            == 1)) by (bit_vector);
    }
    assert forall|bit: u8| bit < 8 implies (#[trigger] flag_bit(C, bit) <==> bit == 1) by {
        assert(flag_bit(NZCV, bit) <==> bit < 4);
    }
    assert({
        &&& (4u8 >> 2u8) & 1 == 1
        &&& (2u8 >> 1u8) & 1 == 1
        &&& (8u8 >> 3u8) & 1 == 1
        &&& (1u8 >> 0u8) & 1 == 1
        &&& (6u8 >> 1u8) & 1 == 1
        &&& (6u8 >> 2u8) & 1 == 1
        &&& (9u8 >> 3u8) & 1 == 1
        &&& (9u8 >> 0u8) & 1 == 1
        &&& (13u8 >> 3u8) & 1 == 1
        &&& (13u8 >> 2u8) & 1 == 1
        &&& (13u8 >> 0u8) & 1 == 1
    }) by (bit_vector);
}

proof fn lemma_reads_x(a: Guest, b: Guest, items: Set<StateItem>, index: u8)
    requires
        agree(a, b, items),
        general(index, false).subset_of(items),
    ensures
        x(a, index) == x(b, index),
{
    if index != 31 {
        assert(general(index, false).contains(StateItem::X(index)));
        assert(items.contains(StateItem::X(index)));
    }
}

proof fn lemma_reads_x_or_sp(a: Guest, b: Guest, items: Set<StateItem>, index: u8)
    requires
        agree(a, b, items),
        general(index, true).subset_of(items),
    ensures
        x_or_sp(a, index) == x_or_sp(b, index),
{
    if index != 31 {
        assert(general(index, true).contains(StateItem::X(index)));
        assert(items.contains(StateItem::X(index)));
    } else {
        assert(general(index, true).contains(StateItem::Sp));
        assert(items.contains(StateItem::Sp));
    }
}

proof fn lemma_reads_condition(a: Guest, b: Guest, items: Set<StateItem>, condition: u8)
    requires
        agree(a, b, items),
        flags(consumed_flags(condition)).subset_of(items),
    ensures
        met(condition, a) == met(condition, b),
{
    lemma_flag_masks();
    let consumed = consumed_flags(condition);
    assert forall|bit: u8| bit < 4 && #[trigger] flag_bit(consumed, bit) implies a(
        StateItem::Flag(bit),
    ) == b(StateItem::Flag(bit)) by {
        assert(flags(consumed).contains(StateItem::Flag(bit)));
        assert(items.contains(StateItem::Flag(bit)));
    }
    let pair = (condition % 16) / 2;
    if pair == 0 {
        assert(flag_bit(consumed, 2));
    } else if pair == 1 {
        assert(flag_bit(consumed, 1));
    } else if pair == 2 {
        assert(flag_bit(consumed, 3));
    } else if pair == 3 {
        assert(flag_bit(consumed, 0));
    } else if pair == 4 {
        assert(flag_bit(consumed, 1) && flag_bit(consumed, 2));
    } else if pair == 5 {
        assert(flag_bit(consumed, 3) && flag_bit(consumed, 0));
    } else if pair == 6 {
        assert(flag_bit(consumed, 3) && flag_bit(consumed, 2) && flag_bit(consumed, 0));
    }
}

proof fn lemma_all_flags()
    ensures
        forall|item: StateItem| #[trigger]
            flags(NZCV).contains(item) <==> item == StateItem::Flag(0) || item == StateItem::Flag(1)
                || item == StateItem::Flag(2) || item == StateItem::Flag(3),
        forall|item: StateItem| #[trigger] flags(C).contains(item) <==> item == StateItem::Flag(1),
{
    lemma_flag_masks();
    assert forall|item: StateItem| #[trigger]
        flags(NZCV).contains(item) <==> item == StateItem::Flag(0) || item == StateItem::Flag(1)
            || item == StateItem::Flag(2) || item == StateItem::Flag(3) by {
        if let StateItem::Flag(bit) = item {
            if bit < 8 {
                assert(flag_bit(NZCV, bit) <==> bit < 4);
            }
        }
    }
    assert forall|item: StateItem| #[trigger]
        flags(C).contains(item) <==> item == StateItem::Flag(1) by {
        if let StateItem::Flag(bit) = item {
            if bit < 8 {
                assert(flag_bit(C, bit) <==> bit == 1);
            }
        }
    }
}

proof fn lemma_add_sub_writes(
    i: IntegerInstruction,
    s: Setting,
    a: int,
    b: int,
    carry: int,
    to_sp: bool,
)
    ensures
        add_sub(i, s, a, b, carry, to_sp).dom() == general(i.rd, to_sp && !i.set_flags).union(
            only(i.set_flags, flags(NZCV)),
        ),
{
    lemma_all_flags();
    assert(add_sub(i, s, a, b, carry, to_sp).dom() =~= general(
        i.rd,
        to_sp && !i.set_flags,
    ).union(only(i.set_flags, flags(NZCV))));
}

proof fn lemma_logical_writes(i: IntegerInstruction, s: Setting, a: int, b: int, to_sp: bool)
    ensures
        logical(i, s, a, b, to_sp).dom() == general(
            i.rd,
            to_sp && !(i.subtract && i.set_flags),
        ).union(only(i.subtract && i.set_flags, flags(NZCV))),
{
    lemma_all_flags();
    assert(logical(i, s, a, b, to_sp).dom() =~= general(
        i.rd,
        to_sp && !(i.subtract && i.set_flags),
    ).union(only(i.subtract && i.set_flags, flags(NZCV))));
}

/// The items that an integer instruction gives new values are those it is said to write.
proof fn lemma_integer_writes(i: IntegerInstruction, s: Setting, g: Guest)
    requires
        names_registers(A64Instruction::Integer(i)),
    ensures
        integer_written(i, s, g).dom() == integer_writes(i).union(
            only(integer_sets_flags(i), flags(NZCV)),
        ),
{
    let (a, b) = (x(g, i.rn), x(g, i.rm));
    let written = integer_written(i, s, g);
    match i.kind {
        IntegerKind::AddSubImmediate => {
            lemma_add_sub_writes(
                i,
                s,
                low(s, x_or_sp(g, i.rn)),
                low(s, s.immediate),
                borrow(i),
                true,
            );
        },
        IntegerKind::AddSubExtended => {
            lemma_add_sub_writes(i, s, low(s, x_or_sp(g, i.rn)), extended(s, b), borrow(i), true);
        },
        IntegerKind::AddSubShifted => {
            lemma_add_sub_writes(i, s, low(s, a), shifted(s, low(s, b)), borrow(i), false);
        },
        IntegerKind::AddSubCarry => {
            lemma_add_sub_writes(i, s, low(s, a), low(s, b), 0, false);
            lemma_add_sub_writes(i, s, low(s, a), low(s, b), 1, false);
        },
        IntegerKind::LogicalImmediate => {
            lemma_logical_writes(i, s, low(s, a), low(s, s.immediate), true);
        },
        IntegerKind::LogicalShifted => {
            lemma_logical_writes(
                i,
                s,
                low(s, a),
                inverted(s, shifted(s, low(s, b))),
                false,
            );
            lemma_logical_writes(i, s, low(s, a), shifted(s, low(s, b)), false);
        },
        IntegerKind::ConditionalCompareRegister | IntegerKind::ConditionalCompareImmediate => {
            lemma_all_flags();
        },
        _ => {},
    }
    assert(written.dom() =~= integer_writes(i).union(
        only(integer_sets_flags(i), flags(NZCV)),
    ));
}

proof fn lemma_integer_reads(i: IntegerInstruction, s: Setting, a: Guest, b: Guest)
    requires
        agree(a, b, integer_reads(i).union(flags(integer_flags_read(i)))),
    ensures
        integer_written(i, s, a) == integer_written(i, s, b),
{
    let items = integer_reads(i).union(flags(integer_flags_read(i)));
    if !(i.kind is MoveWide || i.kind is Adr || i.kind is Adrp) {
        if i.kind is AddSubImmediate || i.kind is AddSubExtended {
            lemma_reads_x_or_sp(a, b, items, i.rn);
        } else {
            lemma_reads_x(a, b, items, i.rn);
        }
    }
    match i.kind {
        IntegerKind::MoveWide => {
            if i.subtract && i.set_flags {
                lemma_reads_x(a, b, items, i.rd);
            }
        },
        IntegerKind::Bitfield => {
            if !i.subtract && i.set_flags {
                lemma_reads_x(a, b, items, i.rd);
            }
        },
        IntegerKind::AddSubExtended
        | IntegerKind::AddSubShifted
        | IntegerKind::LogicalShifted
        | IntegerKind::Extract
        | IntegerKind::TwoSource => {
            lemma_reads_x(a, b, items, i.rm);
        },
        IntegerKind::AddSubCarry => {
            lemma_reads_x(a, b, items, i.rm);
            lemma_all_flags();
            assert(items.contains(StateItem::Flag(1)));
        },
        IntegerKind::ConditionalSelect | IntegerKind::ConditionalCompareRegister => {
            lemma_reads_x(a, b, items, i.rm);
            lemma_reads_condition(a, b, items, i.condition);
        },
        IntegerKind::ConditionalCompareImmediate => {
            lemma_reads_condition(a, b, items, i.condition);
        },
        IntegerKind::ThreeSource => {
            lemma_reads_x(a, b, items, i.rm);
            if i.opcode_3 != 2 && i.opcode_3 != 6 {
                lemma_reads_x(a, b, items, i.ra);
            }
        },
        _ => {},
    }
}

proof fn lemma_memory_writes(i: MemoryInstruction, s: Setting, g: Guest)
    ensures
        run_memory(i, s, g).written.dom() == memory_writes(i),
{
    assert(run_memory(i, s, g).written.dom() =~= memory_writes(i));
}

proof fn lemma_memory_reads(i: MemoryInstruction, s: Setting, a: Guest, b: Guest)
    requires
        agree(a, b, memory_reads(i)),
    ensures
        run_memory(i, s, a) == run_memory(i, s, b),
{
    let items = memory_reads(i);
    if !(i.kind is Literal) {
        lemma_reads_x_or_sp(a, b, items, i.rn);
    }
    match i.kind {
        MemoryKind::Literal => {},
        MemoryKind::Unsigned
        | MemoryKind::Unscaled
        | MemoryKind::PostIndex
        | MemoryKind::PreIndex
        | MemoryKind::Register => {
            if i.kind is Register {
                lemma_reads_x(a, b, items, i.rm);
            }
            if i.transfer is Some && i.transfer->0 is Store {
                lemma_reads_x(a, b, items, i.rt);
            }
        },
        MemoryKind::Pair => {
            if i.pair_allocated && !i.load {
                lemma_reads_x(a, b, items, i.rt);
                lemma_reads_x(a, b, items, i.rt2);
            }
        },
        MemoryKind::StoreRelease | MemoryKind::StoreExclusive => {
            lemma_reads_x(a, b, items, i.rt);
        },
        MemoryKind::StoreExclusivePair => {
            lemma_reads_x(a, b, items, i.rt);
            lemma_reads_x(a, b, items, i.rt2);
        },
        MemoryKind::AtomicReadModifyWrite => {
            lemma_reads_x(a, b, items, i.rm);
        },
        MemoryKind::CompareAndSwap => {
            lemma_reads_x(a, b, items, i.rm);
            lemma_reads_x(a, b, items, i.rt);
        },
        MemoryKind::CompareAndSwapPair => {
            lemma_reads_x(a, b, items, i.rm);
            lemma_reads_x(a, b, items, i.rt);
            lemma_reads_x(a, b, items, (i.rm + 1) as u8);
            lemma_reads_x(a, b, items, (i.rt + 1) as u8);
        },
        _ => {},
    }
}

proof fn lemma_system(i: SystemInstruction, s: Setting, a: Guest, b: Guest)
    ensures
        run_system(i, s, a).written.dom() == system_writes(i),
        agree(a, b, system_reads(i)) ==> run_system(i, s, a) == run_system(i, s, b),
{
    lemma_all_flags();
    assert(run_system(i, s, a).written.dom() =~= system_writes(i));
    let items = system_reads(i);
    if agree(a, b, items) {
        if general(i.rt, false).subset_of(items) {
            lemma_reads_x(a, b, items, i.rt);
        }
        if i.kind is ReadRegister {
            if i.system_key == 0xd53b_4200 {
                assert(items.contains(StateItem::Flag(0)));
                assert(items.contains(StateItem::Flag(1)));
                assert(items.contains(StateItem::Flag(2)));
                assert(items.contains(StateItem::Flag(3)));
            } else if i.system_key == 0xd53b_4400 {
                assert(items.contains(StateItem::Fpcr));
            } else if i.system_key == 0xd53b_4420 {
                assert(items.contains(StateItem::Fpsr));
            } else if i.system_key == 0xd53b_d040 {
                assert(items.contains(StateItem::TpidrEl0));
            } else if i.system_key == 0xd53b_d060 {
                assert(items.contains(StateItem::TpidrroEl0));
            }
        }
    }
}

proof fn lemma_control(i: ControlInstruction, s: Setting, a: Guest, b: Guest)
    ensures
        run_control(i, s, a).written.dom() == control_writes(i),
        agree(a, b, control_reads(i)) ==> run_control(i, s, a) == run_control(i, s, b),
{
    assert(run_control(i, s, a).written.dom() =~= control_writes(i));
    let items = control_reads(i);
    if agree(a, b, items) {
        if i.kind is BranchRegister {
            lemma_reads_x(a, b, items, i.rn);
        } else if i.kind is CompareBranch || i.kind is TestBranch {
            lemma_reads_x(a, b, items, i.rd);
        } else if i.kind is ConditionalBranch {
            lemma_reads_condition(a, b, items, i.condition);
        }
    }
}

proof fn lemma_reads_vec(a: Guest, b: Guest, items: Set<StateItem>, index: u8)
    requires
        agree(a, b, items),
        vector(index).subset_of(items),
    ensures
        vreg(a, index) == vreg(b, index),
{
    assert(vector(index).contains(StateItem::Vector(index)));
    assert(items.contains(StateItem::Vector(index)));
}

proof fn lemma_run(first: u8, count: int)
    requires
        first < 32,
        count <= 32,
    ensures
        forall|item: StateItem| #[trigger]
            vector_run(first, count).contains(item) <==> (item matches StateItem::Vector(index)
                && index < 32 && (index + 32 - first) % 32 < count),
        forall|k: int|
            0 <= k < count ==> vector_run(first, count).contains(
                StateItem::Vector(#[trigger] after(first, k)),
            ),
{
    assert forall|item: StateItem| #[trigger]
        vector_run(first, count).contains(item) <==> (item matches StateItem::Vector(index) && index
            < 32 && (index + 32 - first) % 32 < count) by {
        if let StateItem::Vector(index) = item {
            let place = (index + 32 - first) % 32;
            if index < 32 && place < count {
                assert(index == wrapped_register(first, place));
            }
        }
    }
    assert forall|k: int| 0 <= k < count implies vector_run(first, count).contains(
        StateItem::Vector(#[trigger] after(first, k)),
    ) by {
        assert(after(first, k) == wrapped_register(first, k));
    }
}

proof fn lemma_structure_effects(i: FpSimdInstruction, s: Setting, a: Guest, b: Guest)
    requires
        i.normalized(),
        i.is_structure(),
    ensures
        run_structure(i, s, a).written.dom() == fp_general_writes(i).union(fp_vector_writes(i)),
        agree(a, b, fp_general_reads(i).union(fp_vector_reads(i))) ==> run_structure(i, s, a)
            == run_structure(i, s, b),
{
    let fields = i.operands;
    let shape = fields.structure->0;
    let count = shape.structure_registers * shape.repetitions;
    lemma_run(fields.rd, count);
    assert(run_structure(i, s, a).written.dom() =~= fp_general_writes(i).union(
        fp_vector_writes(i),
    ));
    let items = fp_general_reads(i).union(fp_vector_reads(i));
    if agree(a, b, items) {
        lemma_reads_x_or_sp(a, b, items, fields.rn);
        if is_structure_post_index(i.kind) && fields.rm != 31 {
            lemma_reads_x(a, b, items, fields.rm);
        }
        let base = x_or_sp(a, fields.rn);
        if fields.load {
            let keeps = load_keeps_lanes(i);
            let (p, q) = (
                structure_loaded(i, s, a, base, count, keeps),
                structure_loaded(i, s, b, base, count, keeps),
            );
            assert forall|item: StateItem| #[trigger] p.dom().contains(item) implies p[item]
                == q[item] by {
                if keeps {
                    assert(items.contains(item));
                }
            }
            assert(p =~= q);
        } else {
            assert(run_structure(i, s, a).told =~= run_structure(i, s, b).told) by {
                assert forall|k: int| 0 <= k < count implies vreg(a, #[trigger] after(fields.rd, k))
                    == vreg(b, after(fields.rd, k)) by {
                    assert(items.contains(StateItem::Vector(after(fields.rd, k))));
                }
            }
        }
    }
}

proof fn lemma_float_writes(i: FpSimdInstruction, host: HostAbi, s: Setting, g: Guest)
    requires
        i.normalized(),
    ensures
        run_float(i, s, g).written.dom() == writes_of(A64Instruction::FpSimd(i), host),
{
    lemma_all_flags();
    if i.is_structure() {
        lemma_structure_effects(i, s, g, g);
    }
    assert(run_float(i, s, g).written.dom() =~= writes_of(A64Instruction::FpSimd(i), host));
}

proof fn lemma_float_arithmetic_reads(
    i: FpSimdInstruction,
    host: HostAbi,
    s: Setting,
    a: Guest,
    b: Guest,
)
    requires
        is_arithmetic(i.kind),
        agree(a, b, reads_of(A64Instruction::FpSimd(i), host)),
    ensures
        arithmetic_written(i, s, a) == arithmetic_written(i, s, b),
{
    let fields = i.operands;
    let items = reads_of(A64Instruction::FpSimd(i), host);
    assert(items.contains(StateItem::Fpcr));
    assert(items.contains(StateItem::Fpsr));
    if i.kind is SignedIntToFloat || i.kind is UnsignedIntToFloat {
        lemma_reads_x(a, b, items, fields.rn);
    } else {
        lemma_reads_vec(a, b, items, fields.rn);
        if has_vector_rm(i.kind) {
            lemma_reads_vec(a, b, items, fields.rm);
        }
        if i.kind is ScalarFloatFusedMultiplyAdd {
            lemma_reads_vec(a, b, items, fields.ra);
        }
        if i.kind is ConditionalCompare {
            lemma_reads_condition(a, b, items, fields.condition);
        }
    }
    assert(float_operands(i, a) =~= float_operands(i, b));
}

proof fn lemma_float_reads(i: FpSimdInstruction, host: HostAbi, s: Setting, a: Guest, b: Guest)
    requires
        i.normalized(),
        names_registers(A64Instruction::FpSimd(i)),
        agree(a, b, reads_of(A64Instruction::FpSimd(i), host)),
    ensures
        run_float(i, s, a) == run_float(i, s, b),
{
    let fields = i.operands;
    let items = reads_of(A64Instruction::FpSimd(i), host);
    if i.is_structure() {
        let transferred = fp_general_reads(i).union(fp_vector_reads(i));
        assert forall|item: StateItem| #[trigger] transferred.contains(item) implies a(item) == b(
            item,
        ) by {
            assert(items.contains(item));
        }
        lemma_structure_effects(i, s, a, b);
    } else if is_fp_memory(i.kind) {
        lemma_reads_x_or_sp(a, b, items, fields.rn);
        if i.kind is MemoryRegister {
            lemma_reads_x(a, b, items, fields.rm);
        }
        if !fields.load {
            lemma_reads_vec(a, b, items, fields.rd);
            if i.kind is MemoryPair {
                lemma_reads_vec(a, b, items, fields.rt2);
            }
        }
    } else if is_arithmetic(i.kind) {
        lemma_float_arithmetic_reads(i, host, s, a, b);
    } else {
        if has_no_vector_rn(i.kind) {
            if !(i.kind is ModifiedImmediate || i.kind is ScalarFloatImmediate
                || i.kind is VectorFloatImmediate) {
                lemma_reads_x(a, b, items, fields.rn);
            }
        } else {
            lemma_reads_vec(a, b, items, fields.rn);
        }
        if has_vector_rm(i.kind) {
            lemma_reads_vec(a, b, items, fields.rm);
        }
        if keeps_vector_rd(i) {
            lemma_reads_vec(a, b, items, fields.rd);
        }
        if i.kind is ScalarFloatConditionalSelect {
            lemma_reads_condition(a, b, items, fields.condition);
        }
        let (an, bn) = (bytes_of(vreg(a, fields.rn)), bytes_of(vreg(b, fields.rn)));
        let (am, bm) = (bytes_of(vreg(a, fields.rm)), bytes_of(vreg(b, fields.rm)));
        let (ad, bd) = (bytes_of(vreg(a, fields.rd)), bytes_of(vreg(b, fields.rd)));
        if is_lane_computation(i.kind) {
            assert(lane_result(i, an, am, ad) =~= lane_result(i, bn, bm, bd));
        } else if moves_whole(i.kind) {
            let (ax, bx) = (x(a, fields.rn), x(b, fields.rn));
            let (ac, bc) = (met(fields.condition, a), met(fields.condition, b));
            assert(move_result(i, ax, an, am, ad, ac) =~= move_result(i, bx, bn, bm, bd, bc));
        }
    }
}

/// An instruction gives new values to exactly the items that the analysis says it writes.
pub proof fn law_written_items_are_known(
    instruction: A64Instruction,
    host: HostAbi,
    s: Setting,
    g: Guest,
)
    requires
        instruction.normalized(),
        names_registers(instruction),
    ensures
        outcome_of(instruction, s, g).written.dom() == writes_of(instruction, host),
{
    match instruction {
        A64Instruction::Integer(i) => lemma_integer_writes(i, s, g),
        A64Instruction::Memory(i) => lemma_memory_writes(i, s, g),
        A64Instruction::System(i) => lemma_system(i, s, g, g),
        A64Instruction::Control(i) => lemma_control(i, s, g, g),
        A64Instruction::FpSimd(i) => lemma_float_writes(i, host, s, g),
        A64Instruction::RecognizedUnsupported => {
            assert(nothing().dom() =~= Set::<StateItem>::empty());
        },
    }
}

/// An instruction does the same in two states that agree on what the analysis says it
/// reads: the same values are written, the same stores and addresses reach memory, and
/// the guest goes on at the same place.
pub proof fn law_outcomes_depend_on_reads_alone(
    instruction: A64Instruction,
    host: HostAbi,
    s: Setting,
    a: Guest,
    b: Guest,
)
    requires
        instruction.normalized(),
        names_registers(instruction),
        agree(a, b, reads_of(instruction, host)),
    ensures
        outcome_of(instruction, s, a) == outcome_of(instruction, s, b),
{
    match instruction {
        A64Instruction::Integer(i) => lemma_integer_reads(i, s, a, b),
        A64Instruction::Memory(i) => lemma_memory_reads(i, s, a, b),
        A64Instruction::System(i) => lemma_system(i, s, a, b),
        A64Instruction::Control(i) => lemma_control(i, s, a, b),
        A64Instruction::FpSimd(i) => lemma_float_reads(i, host, s, a, b),
        A64Instruction::RecognizedUnsupported => {},
    }
}

} // verus!
