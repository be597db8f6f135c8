//! Plans that move values between registers move what their instructions do.

use vstd::prelude::*;
use super::guest::{c, law_conditions_are_computed, met, n, v, x, z, Guest};
use super::vectors::{
    bytes_of, extent, filled, general_result, move_result, moved_bytes, moved_number,
    register_bytes, register_value, selected_element, selected_place,
};
use crate::abi::HostAbi;
use crate::analysis::StateItem;
use crate::decode::{FpSimdInstruction, FpSimdKind};
use crate::simd::emit::plan_fits;
use crate::simd::plan::{is_lane, FpSimdPlan, PlanRegister, VectorPlan};

verus! {

/// The move is one of whole lanes, parts or scalars, and not of a constant or of signs.
pub open spec fn moves_whole(kind: FpSimdKind) -> bool {
    kind is DuplicateGeneral || kind is DuplicateElement || kind is InsertElement
        || kind is InsertGeneral || kind is MoveFromGeneral || kind is ScalarMove
        || kind is ScalarFloatConditionalSelect
}

proof fn lemma_selected(i: FpSimdInstruction, native: VectorPlan)
    requires
        i.operands.immediate_5 < 32,
        i.operands.immediate_5 % 16 != 0,
    ensures
        selected_element(i.operands.immediate_5) == 1 || selected_element(i.operands.immediate_5) == 2
            || selected_element(i.operands.immediate_5) == 4 || selected_element(
            i.operands.immediate_5,
        ) == 8,
        0 <= selected_place(i.operands.immediate_5),
        match native {
            VectorPlan::SplatLane { lane, .. } => is_lane(lane, i.operands.immediate_5)
                ==> lane.bits == 8 * selected_element(i.operands.immediate_5) && lane.index
                == selected_place(i.operands.immediate_5),
            VectorPlan::InsertLane { lane, .. } => is_lane(lane, i.operands.immediate_5)
                ==> lane.bits == 8 * selected_element(i.operands.immediate_5) && lane.index
                == selected_place(i.operands.immediate_5),
            VectorPlan::InsertGeneral { lane } => is_lane(lane, i.operands.immediate_5)
                ==> lane.bits == 8 * selected_element(i.operands.immediate_5) && lane.index
                == selected_place(i.operands.immediate_5),
            VectorPlan::LaneToGeneral { lane, .. } => is_lane(lane, i.operands.immediate_5)
                ==> lane.bits == 8 * selected_element(i.operands.immediate_5) && lane.index
                == selected_place(i.operands.immediate_5),
            _ => true,
        },
{
}

/// After the plan of a move its destination holds, byte by byte, what the instruction
/// moves: a general register or a lane in every lane, a lane or a general register in
/// place of one lane, a part of a register, or one of two scalars.
pub proof fn law_moves_are_computed(
    i: FpSimdInstruction,
    host: HostAbi,
    plan: FpSimdPlan,
    guest: Guest,
)
    requires
        plan_fits(i, host, plan),
        moves_whole(i.kind),
        i.operands.immediate_5 < 32,
        i.operands.immediate_5 % 16 != 0,
        i.operands.condition < 16,
        i.kind is ScalarMove ==> i.operands.opc == 0 || i.operands.opc == 1 || i.operands.opc == 3,
    ensures
        plan.registers.destination == Some(PlanRegister::Vector(i.operands.rd)),
        moved_bytes(
            plan.native,
            register_value(plan.registers.first, guest),
            register_bytes(plan.registers.first, guest),
            register_bytes(plan.registers.second, guest),
            register_bytes(plan.registers.previous, guest),
            guest,
        ) == move_result(
            i,
            x(guest, i.operands.rn),
            bytes_of(guest(StateItem::Vector(i.operands.rn))),
            bytes_of(guest(StateItem::Vector(i.operands.rm))),
            bytes_of(guest(StateItem::Vector(i.operands.rd))),
            met(i.operands.condition, guest),
        ),
{
    lemma_selected(i, plan.native);
    law_conditions_are_computed(i.operands.condition, n(guest), z(guest), c(guest), v(guest));
    let fields = i.operands;
    let width = selected_element(fields.immediate_5);
    let value = register_value(plan.registers.first, guest);
    let first = register_bytes(plan.registers.first, guest);
    let second = register_bytes(plan.registers.second, guest);
    let previous = register_bytes(plan.registers.previous, guest);
    let planned = moved_bytes(plan.native, value, first, second, previous, guest);
    let meant = move_result(
        i,
        x(guest, fields.rn),
        bytes_of(guest(StateItem::Vector(fields.rn))),
        bytes_of(guest(StateItem::Vector(fields.rm))),
        bytes_of(guest(StateItem::Vector(fields.rd))),
        met(fields.condition, guest),
    );
    match i.kind {
        FpSimdKind::DuplicateGeneral => {
            assert(filled(fields.vector_128) == extent(fields));
            assert(planned =~= meant);
        },
        FpSimdKind::DuplicateElement => {
            assert(planned =~= meant);
        },
        FpSimdKind::InsertElement => {
            let at = fields.immediate_4 as int;
            assert((at * 8) / (8 * width) == at / width) by (nonlinear_arith)
                requires
                    width == 1 || width == 2 || width == 4 || width == 8,
            ;
            assert(planned =~= meant);
        },
        _ => {
            assert(planned =~= meant);
        },
    }
}

/// A move to a general register leaves the lane or the part of the source there that the
/// instruction names.
pub proof fn law_moves_to_general_registers(
    i: FpSimdInstruction,
    host: HostAbi,
    plan: FpSimdPlan,
    guest: Guest,
)
    requires
        plan_fits(i, host, plan),
        i.kind is UnsignedMoveToGeneral || i.kind is MoveToGeneral,
        i.operands.immediate_5 < 32,
        i.operands.immediate_5 % 16 != 0,
    ensures
        plan.registers.destination == Some(PlanRegister::General(i.operands.rd)),
        moved_number(plan.native, register_bytes(plan.registers.first, guest)) == general_result(
            i,
            bytes_of(guest(StateItem::Vector(i.operands.rn))),
        ),
{
    lemma_selected(i, plan.native);
}

} // verus!
