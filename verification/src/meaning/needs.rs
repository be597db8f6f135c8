//! Every read that the analysis finds can matter.

use vstd::prelude::*;
use vstd::arithmetic::power2::{lemma2_to64, lemma_pow2_pos, lemma_pow2_strictly_increases, pow2};
use super::effects::{lemma_flag_masks, outcome_of};
use super::execution::{extended, integer_written, limit, shifted, Setting};
use super::guest::{holds, lemma_turned_flag, met, x, x_or_sp, Guest};
use crate::abi::HostAbi;
use crate::analysis::access::reads_of;
use crate::analysis::{consumed_flags, flag_bit, StateItem};
use crate::decode::{
    A64Instruction, ControlInstruction, IntegerInstruction, IntegerKind, MemoryInstruction,
    SystemInstruction,
};

verus! {

/// The state with another value in one item.
pub open spec fn with(g: Guest, item: StateItem, value: u128) -> Guest {
    |other: StateItem|
        if other == item {
            value
        } else {
            g(other)
        }
}

/// What the item holds can make a difference to the instruction: in some setting there is
/// a state in which another value of it changes the outcome.
pub open spec fn matters(instruction: A64Instruction, item: StateItem) -> bool {
    exists|s: Setting, g: Guest, value: u128| #[trigger]
        outcome_of(instruction, s, with(g, item, value)) != outcome_of(instruction, s, g)
}

spec fn plain() -> Setting {
    Setting {
        pc: 0,
        wide: true,
        immediate: 0,
        shift: 0,
        amount: 0,
        invert: false,
        increment: false,
        mask: 0,
        nzcv: 0,
        target: 0x1000,
        step: 8,
        data: |address: u64| 0u128,
        other: |operands: Seq<u128>| operands[0],
        accepted: true,
        outside: 0,
    }
}

/// All items hold this value.
spec fn filled_with(value: u128) -> Guest {
    |item: StateItem| value
}

proof fn lemma_bits()
    ensures
        0u64 & 0u64 == 0,
        1u64 & 1u64 == 1,
        0u64 & 1u64 == 0,
        1u64 & 0u64 == 0,
        0u64 | 0u64 == 0,
        1u64 | 0u64 == 1,
        0u64 | 1u64 == 1,
        0u64 ^ 0u64 == 0,
        1u64 ^ 0u64 == 1,
        0u64 ^ 1u64 == 1,
        0u64 & !0u64 == 0,
        1u64 & !0u64 == 1,
        1u64 & u64::MAX == 1,
        0u64 & u64::MAX == 0,
        0u64 & !u64::MAX == 0,
{
    assert({
        &&& 0u64 & 0u64 == 0
        &&& 1u64 & 1u64 == 1
        &&& 0u64 & 1u64 == 0
        &&& 1u64 & 0u64 == 0
        &&& 0u64 | 0u64 == 0
        &&& 1u64 | 0u64 == 1
        &&& 0u64 | 1u64 == 1
        &&& 0u64 ^ 0u64 == 0
        &&& 1u64 ^ 0u64 == 1
        &&& 0u64 ^ 1u64 == 1
        &&& 0u64 & !0u64 == 0
        &&& 1u64 & !0u64 == 1
        &&& 1u64 & 0xffff_ffff_ffff_ffffu64 == 1
        &&& 0u64 & 0xffff_ffff_ffff_ffffu64 == 0
        &&& 0u64 & !0xffff_ffff_ffff_ffffu64 == 0
    }) by (bit_vector);
}

/// No register is named twice, and the destination is one.
pub open spec fn apart(i: IntegerInstruction) -> bool {
    &&& i.rd != 31
    &&& i.rn != i.rm
    &&& i.rn != i.ra
    &&& i.rm != i.ra
    &&& i.rd != i.rn
    &&& i.rd != i.rm
    &&& i.rd != i.ra
}

proof fn lemma_unshifted(s: Setting)
    requires
        s.wide,
        s.amount == 0,
    ensures
        s.shift == 0 ==> shifted(s, 0) == 0 && shifted(s, 1) == 1,
        s.shift == 3 ==> extended(s, 0) == 0 && extended(s, 1) == 1,
{
    lemma2_to64();
    assert((0int * 1int) == 0 && (1int * 1int) == 1) by (nonlinear_arith);
    if s.shift == 3 {
        assert(pow2((s.shift % 4) as nat) == 8);
        let bits = pow2((8 * pow2((s.shift % 4) as nat)) as nat) as int;
        assert(bits == 0x1_0000_0000_0000_0000);
        assert(0int % bits == 0 && 1int % bits == 1) by (nonlinear_arith)
            requires
                bits == 0x1_0000_0000_0000_0000,
        ;
    }
}

proof fn lemma_sums_need_operands(i: IntegerInstruction, host: HostAbi, item: StateItem)
    requires
        i.kind is AddSubImmediate || i.kind is AddSubExtended || i.kind is AddSubShifted
            || i.kind is AddSubCarry,
        apart(i),
        reads_of(A64Instruction::Integer(i), host).contains(item),
    ensures
        matters(A64Instruction::Integer(i), item),
{
    let instruction = A64Instruction::Integer(i);
    lemma2_to64();
    lemma_flag_masks();
    lemma_no_flag();
    let s = Setting {
        shift: if i.kind is AddSubExtended {
            3
        } else {
            0
        },
        ..plain()
    };
    let g = filled_with(0);
    let place = StateItem::X(i.rd);
    assert(limit(s) == 0x1_0000_0000_0000_0000);
    lemma_unshifted(s);
    let h = with(g, item, 1);
    let (a, b) = (x(h, i.rn), x(h, i.rm));
    assert(a <= 1 && b <= 1 && x_or_sp(h, i.rn) <= 1);
    let (one, other) = (integer_written(i, s, h), integer_written(i, s, g));
    match i.kind {
        IntegerKind::AddSubImmediate => {
            assert(one[place] != other[place]);
        },
        IntegerKind::AddSubExtended => {
            assert(one[place] != other[place]);
        },
        IntegerKind::AddSubShifted => {
            assert(one[place] != other[place]);
        },
        _ => {
            assert(one[place] != other[place]);
        },
    }
    assert(outcome_of(instruction, s, h) != outcome_of(instruction, s, g));
}

proof fn lemma_logic_needs_operands(i: IntegerInstruction, host: HostAbi, item: StateItem)
    requires
        i.kind is LogicalImmediate || i.kind is LogicalShifted,
        apart(i),
        i.rn != 31,
        i.rm != 31,
        reads_of(A64Instruction::Integer(i), host).contains(item),
    ensures
        matters(A64Instruction::Integer(i), item),
{
    let instruction = A64Instruction::Integer(i);
    lemma2_to64();
    lemma_bits();
    lemma_flag_masks();
    lemma_no_flag();
    let place = StateItem::X(i.rd);
    if i.subtract == i.set_flags {
        let s = Setting { immediate: 1, ..plain() };
        lemma_unshifted(s);
        let g = filled_with(1);
        let (one, other) = (
            outcome_of(instruction, s, with(g, item, 0)),
            outcome_of(instruction, s, g),
        );
        assert(one.written[place] != other.written[place]);
    } else {
        let s = plain();
        let g = filled_with(0);
        let (one, other) = (
            outcome_of(instruction, s, with(g, item, 1)),
            outcome_of(instruction, s, g),
        );
        assert(one.written[place] != other.written[place]);
    }
}

proof fn lemma_moves_need_operands(i: IntegerInstruction, host: HostAbi, item: StateItem)
    requires
        i.kind is MoveWide || i.kind is Bitfield || i.kind is Extract || i.kind is TwoSource
            || i.kind is OneSource,
        apart(i),
        reads_of(A64Instruction::Integer(i), host).contains(item),
    ensures
        matters(A64Instruction::Integer(i), item),
{
    let instruction = A64Instruction::Integer(i);
    lemma2_to64();
    lemma_bits();
    lemma_flag_masks();
    lemma_no_flag();
    let place = StateItem::X(i.rd);
    let g = filled_with(0);
    let s = Setting {
        mask: if item == place {
            0
        } else {
            u64::MAX
        },
        amount: if i.kind is Extract && item == StateItem::X(i.rn) {
            1
        } else {
            0
        },
        other: if i.kind is TwoSource && item == StateItem::X(i.rm) {
            |operands: Seq<u128>| operands[1]
        } else {
            |operands: Seq<u128>| operands[0]
        },
        ..plain()
    };
    let h = with(g, item, 1);
    let (one, other) = (outcome_of(instruction, s, h), outcome_of(instruction, s, g));
    match i.kind {
        IntegerKind::MoveWide => {
            assert(one.written[place] != other.written[place]);
        },
        IntegerKind::Bitfield => {
            assert(one.written[place] != other.written[place]);
        },
        IntegerKind::Extract => {
            let whole = 0x1_0000_0000_0000_0000int;
            assert(1int * whole == whole && 0int * whole == 0) by (nonlinear_arith);
            assert(one.written[place] != other.written[place]);
        },
        IntegerKind::TwoSource => {
            assert(one.written[place] != other.written[place]);
        },
        _ => {
            assert(one.written[place] != other.written[place]);
        },
    }
}

proof fn lemma_products_need_operands(i: IntegerInstruction, host: HostAbi, item: StateItem)
    requires
        i.kind is ThreeSource,
        apart(i),
        i.rn != 31,
        i.rm != 31,
        reads_of(A64Instruction::Integer(i), host).contains(item),
    ensures
        matters(A64Instruction::Integer(i), item),
{
    let instruction = A64Instruction::Integer(i);
    lemma_flag_masks();
    lemma_no_flag();
    let place = StateItem::X(i.rd);
    let s = plain();
    let unit: u128 = if i.opcode_3 == 2 || i.opcode_3 == 6 {
        0x4000_0000_0000_0000
    } else {
        1
    };
    let g = filled_with(unit);
    assert(0x4000_0000_0000_0000int * 0x4000_0000_0000_0000int
        == 0x1000_0000_0000_0000_0000_0000_0000_0000int) by (nonlinear_arith);
    assert(1int * 1int == 1 && 0int * 1int == 0 && 1int * 0int == 0) by (nonlinear_arith);
    assert(0x4000_0000_0000_0000int * 0int == 0 && 0int * 0x4000_0000_0000_0000int == 0)
        by (nonlinear_arith);
    let (one, other) = (
        outcome_of(instruction, s, with(g, item, 0)),
        outcome_of(instruction, s, g),
    );
    assert(one.written[place] != other.written[place]);
}

/// Flags under which a condition holds, or does not.
spec fn flags_for(condition: u8, wanted: bool) -> (bool, bool, bool, bool) {
    if holds(condition, false, false, true, false) == wanted {
        (false, false, true, false)
    } else if holds(condition, true, true, false, true) == wanted {
        (true, true, false, true)
    } else {
        (true, false, false, false)
    }
}

/// A state with these flags, and with numbers in two registers.
spec fn chosen(
    told: (bool, bool, bool, bool),
    first: u8,
    first_value: u128,
    second: u8,
    second_value: u128,
) -> Guest {
    |item: StateItem|
        match item {
            StateItem::Flag(bit) => if (bit == 3 && told.0) || (bit == 2 && told.1) || (bit == 1
                && told.2) || (bit == 0 && told.3) {
                1
            } else {
                0
            },
            StateItem::X(index) => if index == first {
                first_value
            } else if index == second {
                second_value
            } else {
                0
            },
            _ => 0,
        }
}

proof fn lemma_selections_need_operands(i: IntegerInstruction, host: HostAbi, item: StateItem)
    requires
        i.kind is ConditionalSelect || i.kind is ConditionalCompareRegister
            || i.kind is ConditionalCompareImmediate,
        i.condition < 14,
        apart(i),
        reads_of(A64Instruction::Integer(i), host).contains(item),
    ensures
        matters(A64Instruction::Integer(i), item),
{
    let instruction = A64Instruction::Integer(i);
    lemma_flag_masks();
    lemma_no_flag();
    let selects = i.kind is ConditionalSelect;
    let place = if selects {
        StateItem::X(i.rd)
    } else {
        StateItem::Flag(2)
    };
    let s = plain();
    if let StateItem::Flag(bit) = item {
        let g = if selects {
            chosen((false, false, true, false), i.rn, 5, i.rm, 7)
        } else {
            chosen((false, false, true, false), i.rn, 0, i.rm, 0)
        };
        assert(bit < 4 && flag_bit(consumed_flags(i.condition), bit));
        lemma_turned_flag(i.condition, bit);
        let value: u128 = if bit == 1 {
            0
        } else {
            1
        };
        let (one, other) = (
            outcome_of(instruction, s, with(g, item, value)),
            outcome_of(instruction, s, g),
        );
        assert(one.written[place] != other.written[place]);
    } else {
        let second = selects && item == StateItem::X(i.rm);
        let g = chosen(flags_for(i.condition, !second), i.rn, 0, i.rm, 0);
        let h = with(g, item, 1);
        assert(met(i.condition, g) == !second);
        assert(met(i.condition, h) == met(i.condition, g));
        let (one, other) = (outcome_of(instruction, s, h), outcome_of(instruction, s, g));
        if selects {
            assert(one.written[place] != other.written[place]);
        } else if i.kind is ConditionalCompareRegister {
            assert(one.written[place] != other.written[place]);
        } else {
            assert(one.written[place] != other.written[place]);
        }
    }
}

proof fn lemma_accesses_need_operands(i: MemoryInstruction, host: HostAbi, item: StateItem)
    requires
        A64Instruction::Memory(i).normalized(),
        i.kind is Pair ==> i.pair_allocated,
        reads_of(A64Instruction::Memory(i), host).contains(item),
    ensures
        matters(A64Instruction::Memory(i), item),
{
    let instruction = A64Instruction::Memory(i);
    lemma2_to64();
    let g = filled_with(0);
    let s = Setting {
        shift: 3,
        other: |operands: Seq<u128>| operands[1],
        ..plain()
    };
    let h = with(g, item, 1);
    lemma_unshifted(s);
    let (one, other) = (outcome_of(instruction, s, h), outcome_of(instruction, s, g));
    if item == StateItem::Sp || item == StateItem::X(i.rn) {
        assert(one.told[0] != other.told[0]);
    } else if i.kind is Pair {
        assert(one.told[0] != other.told[0] || one.told[1] != other.told[1]);
    } else if i.kind is StoreExclusivePair {
        assert(one.told[0] != other.told[0] || one.told[1] != other.told[1]);
    } else if i.kind is CompareAndSwapPair {
        assert(one.told[0] != other.told[0] || one.told.len() != other.told.len() || one.told[1]
            != other.told[1]);
    } else if i.kind is Register {
        assert(one.told[0] != other.told[0]);
    } else {
        assert(one.told[0] != other.told[0]);
    }
}

proof fn lemma_system_needs_operands(i: SystemInstruction, host: HostAbi, item: StateItem)
    requires
        i.rt != 31,
        reads_of(A64Instruction::System(i), host).contains(item),
    ensures
        matters(A64Instruction::System(i), item),
{
    let instruction = A64Instruction::System(i);
    lemma_flag_masks();
    lemma_no_flag();
    let g = filled_with(0);
    let s = plain();
    let value: u128 = if item is X {
        0xf000_0000
    } else {
        1
    };
    let (one, other) = (
        outcome_of(instruction, s, with(g, item, value)),
        outcome_of(instruction, s, g),
    );
    if i.kind is ReadRegister {
        assert(one.written[StateItem::X(i.rt)] != other.written[StateItem::X(i.rt)]);
    } else if one.told.len() > 0 {
        assert(one.told[0] != other.told[0]);
    } else {
        assert(one.written[StateItem::Flag(3)] != other.written[StateItem::Flag(3)]
            || one.written[StateItem::Fpcr] != other.written[StateItem::Fpcr]
            || one.written[StateItem::Fpsr] != other.written[StateItem::Fpsr]
            || one.written[StateItem::TpidrEl0] != other.written[StateItem::TpidrEl0]);
    }
}

proof fn lemma_branches_need_operands(i: ControlInstruction, host: HostAbi, item: StateItem)
    requires
        i.condition < 14,
        i.bit_index < 64,
        reads_of(A64Instruction::Control(i), host).contains(item),
    ensures
        matters(A64Instruction::Control(i), item),
{
    let instruction = A64Instruction::Control(i);
    lemma_flag_masks();
    lemma_no_flag();
    let s = plain();
    if let StateItem::Flag(bit) = item {
        let g = chosen((false, false, true, false), 0, 0, 0, 0);
        assert(bit < 4 && flag_bit(consumed_flags(i.condition), bit));
        lemma_turned_flag(i.condition, bit);
        let value: u128 = if bit == 1 {
            0
        } else {
            1
        };
        let (one, other) = (
            outcome_of(instruction, s, with(g, item, value)),
            outcome_of(instruction, s, g),
        );
        assert(one.next != other.next);
    } else {
        let g = filled_with(0);
        let power = pow2(i.bit_index as nat);
        lemma_pow2_pos(i.bit_index as nat);
        lemma2_to64();
        lemma_pow2_strictly_increases(i.bit_index as nat, 64);
        let value: u128 = if i.kind is TestBranch {
            power as u128
        } else {
            1
        };
        assert(power as int / power as int == 1 && 0int / power as int == 0) by (nonlinear_arith)
            requires
                power > 0,
        ;
        let (one, other) = (
            outcome_of(instruction, s, with(g, item, value)),
            outcome_of(instruction, s, g),
        );
        assert(one.next != other.next);
    }
}

/// Whatever the analysis says an instruction reads can make a difference to it, where no
/// register is named twice and the result is not thrown away: nothing is taken for read
/// that is not. Conditions that always hold need no flags, and leave a second choice
/// unused.
pub proof fn law_every_read_can_matter(
    instruction: A64Instruction,
    host: HostAbi,
    item: StateItem,
)
    requires
        instruction.normalized(),
        reads_of(instruction, host).contains(item),
        match instruction {
            A64Instruction::Integer(i) => apart(i) && i.condition < 14 && (i.kind is ThreeSource
                || i.kind is LogicalImmediate || i.kind is LogicalShifted ==> i.rn != 31 && i.rm
                != 31),
            A64Instruction::Memory(i) => i.kind is Pair ==> i.pair_allocated,
            A64Instruction::System(i) => i.rt != 31,
            A64Instruction::Control(i) => i.condition < 14 && i.bit_index < 64,
            _ => false,
        },
    ensures
        matters(instruction, item),
{
    match instruction {
        A64Instruction::Integer(i) => match i.kind {
            IntegerKind::AddSubImmediate
            | IntegerKind::AddSubExtended
            | IntegerKind::AddSubShifted
            | IntegerKind::AddSubCarry => lemma_sums_need_operands(i, host, item),
            IntegerKind::LogicalImmediate | IntegerKind::LogicalShifted => {
                lemma_logic_needs_operands(i, host, item);
            },
            IntegerKind::ThreeSource => lemma_products_need_operands(i, host, item),
            IntegerKind::ConditionalSelect
            | IntegerKind::ConditionalCompareRegister
            | IntegerKind::ConditionalCompareImmediate => {
                lemma_selections_need_operands(i, host, item);
            },
            IntegerKind::Adr | IntegerKind::Adrp => {
                lemma_flag_masks();
    lemma_no_flag();
                assert(false) by {
                    lemma_no_reads(i, host, item);
                }
            },
            _ => lemma_moves_need_operands(i, host, item),
        },
        A64Instruction::Memory(i) => lemma_accesses_need_operands(i, host, item),
        A64Instruction::System(i) => lemma_system_needs_operands(i, host, item),
        A64Instruction::Control(i) => lemma_branches_need_operands(i, host, item),
        _ => {},
    }
}

proof fn lemma_no_reads(i: IntegerInstruction, host: HostAbi, item: StateItem)
    requires
        i.kind is Adr || i.kind is Adrp,
    ensures
        !reads_of(A64Instruction::Integer(i), host).contains(item),
{
    lemma_no_flag();
}

proof fn lemma_no_flag()
    ensures
        forall|bit: u8| bit < 8 ==> !(#[trigger] flag_bit(0, bit)),
        forall|mask: u8, bit: u8| mask < 16 && #[trigger] flag_bit(mask, bit) && bit < 8 ==> bit < 4,
{
    assert forall|mask: u8, bit: u8| mask < 16 && #[trigger] flag_bit(mask, bit) && bit
        < 8 implies bit < 4 && mask != 0 by {
        assert(mask < 16 && bit < 8 && (mask >> bit) & 1 == 1 ==> bit < 4 && mask != 0)
            by (bit_vector);
    }
}

} // verus!
