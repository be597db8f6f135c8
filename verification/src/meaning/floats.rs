//! What vector and floating-point instructions do to the state of the guest.

use vstd::prelude::*;
use super::execution::{
    accesses, both, computes, extended, nothing, offset, set_flags, set_x, set_x_or_sp, Outcome,
    Setting,
};
use super::guest::{met, x, x_or_sp, Guest};
use super::vectors::{bytes_of, general_result, lane_result, move_result, number_of};
use crate::analysis::StateItem;
use crate::decode::{FpSimdInstruction, FpSimdKind};

verus! {

pub open spec fn vreg(g: Guest, index: u8) -> u128 {
    g(StateItem::Vector(index))
}

pub open spec fn set_vec(index: u8, value: u128) -> Map<StateItem, u128> {
    map![StateItem::Vector(index) => value]
}

pub open spec fn set_bytes(index: u8, bytes: Seq<int>) -> Map<StateItem, u128> {
    set_vec(index, number_of(bytes) as u128)
}

/// The operands of floating-point arithmetic, of a conversion or of a comparison.
pub open spec fn float_operands(i: FpSimdInstruction, g: Guest) -> Seq<u128> {
    let fields = i.operands;
    match i.kind {
        FpSimdKind::SignedIntToFloat | FpSimdKind::UnsignedIntToFloat => seq![
            x(g, fields.rn) as u128,
        ],
        FpSimdKind::VectorSignedIntToFloat
        | FpSimdKind::VectorUnsignedIntToFloat
        | FpSimdKind::ScalarVectorSignedIntToFloat
        | FpSimdKind::ScalarVectorUnsignedIntToFloat
        | FpSimdKind::ScalarFloatConvert
        | FpSimdKind::ScalarFloatRound
        | FpSimdKind::ScalarFloatSquareRoot
        | FpSimdKind::FloatToSignedInt
        | FpSimdKind::FloatToUnsignedInt
        | FpSimdKind::CompareZero => seq![vreg(g, fields.rn)],
        FpSimdKind::ScalarFloatFusedMultiplyAdd => seq![
            vreg(g, fields.rn),
            vreg(g, fields.rm),
            vreg(g, fields.ra),
        ],
        _ => seq![vreg(g, fields.rn), vreg(g, fields.rm)],
    }
}

/// The instruction rounds, converts or compares floating-point numbers: it works under
/// the controls of the guest, and what happens is added to its status.
pub open spec fn is_arithmetic(kind: FpSimdKind) -> bool {
    match kind {
        FpSimdKind::SignedIntToFloat
        | FpSimdKind::UnsignedIntToFloat
        | FpSimdKind::VectorSignedIntToFloat
        | FpSimdKind::VectorUnsignedIntToFloat
        | FpSimdKind::ScalarVectorSignedIntToFloat
        | FpSimdKind::ScalarVectorUnsignedIntToFloat
        | FpSimdKind::ScalarFloatConvert
        | FpSimdKind::ScalarFloatRound
        | FpSimdKind::ScalarFloatSquareRoot
        | FpSimdKind::FloatToSignedInt
        | FpSimdKind::FloatToUnsignedInt
        | FpSimdKind::CompareRegister
        | FpSimdKind::CompareZero
        | FpSimdKind::ConditionalCompare
        | FpSimdKind::ScalarFloatAdd
        | FpSimdKind::ScalarFloatMultiply
        | FpSimdKind::ScalarFloatFusedMultiplyAdd
        | FpSimdKind::ScalarFloatDivide
        | FpSimdKind::VectorFloatDivide
        | FpSimdKind::VectorFloatMultiplyElement => true,
        _ => false,
    }
}

/// The flags of a comparison, by the number that tells its outcome.
pub open spec fn comparison_flags(outcome: u128) -> Map<StateItem, u128> {
    set_flags(outcome == 1, outcome == 0, outcome != 1, outcome == 3)
}

pub open spec fn arithmetic_written(i: FpSimdInstruction, s: Setting, g: Guest) -> Map<
    StateItem,
    u128,
> {
    let fields = i.operands;
    let operands = float_operands(i, g).push(g(StateItem::Fpcr));
    let result = (s.other)(operands);
    let status = map![StateItem::Fpsr => (s.other)(operands.push(g(StateItem::Fpsr)))];
    match i.kind {
        FpSimdKind::FloatToSignedInt | FpSimdKind::FloatToUnsignedInt => both(
            set_x(fields.rd, result as u64),
            status,
        ),
        FpSimdKind::CompareRegister | FpSimdKind::CompareZero => both(
            comparison_flags(result),
            status,
        ),
        FpSimdKind::ConditionalCompare => if met(fields.condition, g) {
            both(comparison_flags(result), status)
        } else {
            both(
                set_flags(
                    fields.nzcv_immediate / 8 % 2 == 1,
                    fields.nzcv_immediate / 4 % 2 == 1,
                    fields.nzcv_immediate / 2 % 2 == 1,
                    fields.nzcv_immediate % 2 == 1,
                ),
                map![StateItem::Fpsr => g(StateItem::Fpsr)],
            )
        },
        _ => both(set_vec(fields.rd, result), status),
    }
}

/// Register `k` places after one, around from 31 to zero.
pub open spec fn after(index: u8, k: int) -> u8 {
    ((index + k) % 32) as u8
}

/// The values that a structure load gives to its registers: from memory alone, or beside
/// the lanes that a register keeps.
pub open spec fn structure_loaded(
    i: FpSimdInstruction,
    s: Setting,
    g: Guest,
    base: u64,
    count: int,
    keeps: bool,
) -> Map<StateItem, u128> {
    Map::new(
        |item: StateItem|
            item matches StateItem::Vector(index) && index < 32 && (index + 32 - i.operands.rd) % 32
                < count,
        |item: StateItem|
            {
                let place = (item->Vector_0 + 32 - i.operands.rd) % 32;
                let loaded = (s.data)(offset(base, place * s.step));
                if keeps {
                    (s.other)(seq![loaded, g(item)])
                } else {
                    loaded
                }
            },
    )
}

pub open spec fn run_structure(i: FpSimdInstruction, s: Setting, g: Guest) -> Outcome {
    let fields = i.operands;
    let shape = fields.structure->0;
    let base = x_or_sp(g, fields.rn);
    let count = shape.structure_registers * shape.repetitions;
    let multiple = i.kind is MemoryMultipleStructures || i.kind is MemoryMultipleStructuresPostIndex;
    let post_index = i.kind is MemoryMultipleStructuresPostIndex
        || i.kind is MemorySingleStructurePostIndex;
    let keeps = if multiple {
        shape.structure_registers > 1
    } else {
        shape.mode is Lane
    };
    let back = if !post_index {
        nothing()
    } else if fields.rm == 31 {
        set_x_or_sp(fields.rn, offset(base, shape.immediate_post_index as int))
    } else {
        set_x_or_sp(fields.rn, offset(base, x(g, fields.rm) as int))
    };
    if fields.load {
        accesses(
            both(back, structure_loaded(i, s, g, base, count, keeps)),
            seq![(base, None)],
            s,
        )
    } else {
        accesses(
            back,
            Seq::new(
                count as nat,
                |k: int| (offset(base, k * s.step), Some(vreg(g, after(fields.rd, k)))),
            ),
            s,
        )
    }
}

/// A load or store of one vector register.
pub open spec fn single_transfer(
    i: FpSimdInstruction,
    s: Setting,
    g: Guest,
    address: u64,
    back: Map<StateItem, u128>,
) -> Outcome {
    if i.operands.load {
        accesses(
            both(back, set_vec(i.operands.rd, (s.data)(address))),
            seq![(address, None)],
            s,
        )
    } else {
        accesses(back, seq![(address, Some(vreg(g, i.operands.rd)))], s)
    }
}

pub open spec fn pair_transfer(
    i: FpSimdInstruction,
    s: Setting,
    g: Guest,
    address: u64,
    back: Map<StateItem, u128>,
) -> Outcome {
    let upper = offset(address, s.step as int);
    if i.operands.load {
        accesses(
            both(
                back,
                both(
                    set_vec(i.operands.rd, (s.data)(address)),
                    set_vec(i.operands.rt2, (s.data)(upper)),
                ),
            ),
            seq![(address, None), (upper, None)],
            s,
        )
    } else {
        accesses(
            back,
            seq![
                (address, Some(vreg(g, i.operands.rd))),
                (upper, Some(vreg(g, i.operands.rt2))),
            ],
            s,
        )
    }
}

pub open spec fn run_float(i: FpSimdInstruction, s: Setting, g: Guest) -> Outcome {
    let fields = i.operands;
    let base = x_or_sp(g, fields.rn);
    let moved = offset(base, s.immediate as int);
    let first = bytes_of(vreg(g, fields.rn));
    match i.kind {
        FpSimdKind::MemoryUnsigned | FpSimdKind::MemoryUnscaled => single_transfer(
            i,
            s,
            g,
            moved,
            nothing(),
        ),
        FpSimdKind::MemoryPostIndex => single_transfer(i, s, g, base, set_x_or_sp(fields.rn, moved)),
        FpSimdKind::MemoryPreIndex => single_transfer(i, s, g, moved, set_x_or_sp(fields.rn, moved)),
        FpSimdKind::MemoryRegister => single_transfer(
            i,
            s,
            g,
            offset(base, extended(s, x(g, fields.rm))),
            nothing(),
        ),
        FpSimdKind::MemoryPair => if fields.mode == 1 {
            pair_transfer(i, s, g, base, set_x_or_sp(fields.rn, moved))
        } else if fields.mode == 3 {
            pair_transfer(i, s, g, moved, set_x_or_sp(fields.rn, moved))
        } else {
            pair_transfer(i, s, g, moved, nothing())
        },
        FpSimdKind::MemoryMultipleStructures
        | FpSimdKind::MemoryMultipleStructuresPostIndex
        | FpSimdKind::MemorySingleStructure
        | FpSimdKind::MemorySingleStructurePostIndex => run_structure(i, s, g),
        FpSimdKind::ModifiedImmediate => computes(
            set_vec(
                fields.rd,
                // Up to mode eleven the odd modes change bits of the old value.
                if fields.cmode <= 11 && fields.cmode % 2 == 1 {
                    (s.other)(seq![vreg(g, fields.rd)])
                } else {
                    (s.other)(Seq::empty())
                },
            ),
            s,
        ),
        FpSimdKind::ScalarFloatImmediate | FpSimdKind::VectorFloatImmediate => computes(
            set_vec(fields.rd, (s.other)(Seq::empty())),
            s,
        ),
        FpSimdKind::UnsignedMoveToGeneral | FpSimdKind::MoveToGeneral => computes(
            set_x(fields.rd, general_result(i, first) as u64),
            s,
        ),
        FpSimdKind::ScalarAbsolute
        | FpSimdKind::ScalarNegate
        | FpSimdKind::VectorFloatAbsolute
        | FpSimdKind::VectorFloatNegate => computes(
            set_vec(fields.rd, (s.other)(seq![vreg(g, fields.rn)])),
            s,
        ),
        FpSimdKind::DuplicateGeneral
        | FpSimdKind::DuplicateElement
        | FpSimdKind::InsertElement
        | FpSimdKind::InsertGeneral
        | FpSimdKind::MoveFromGeneral
        | FpSimdKind::ScalarMove
        | FpSimdKind::ScalarFloatConditionalSelect => computes(
            set_bytes(
                fields.rd,
                move_result(
                    i,
                    x(g, fields.rn),
                    first,
                    bytes_of(vreg(g, fields.rm)),
                    bytes_of(vreg(g, fields.rd)),
                    met(fields.condition, g),
                ),
            ),
            s,
        ),
        _ => if is_arithmetic(i.kind) {
            computes(arithmetic_written(i, s, g), s)
        } else {
            computes(
                set_bytes(
                    fields.rd,
                    lane_result(
                        i,
                        first,
                        bytes_of(vreg(g, fields.rm)),
                        bytes_of(vreg(g, fields.rd)),
                    ),
                ),
                s,
            )
        },
    }
}

} // verus!
