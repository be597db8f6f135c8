//! Where the loads and stores of vector registers go.

use vstd::prelude::*;
use super::guest::{x, x_or_sp, Guest};
use crate::abi::HostAbi;
use crate::decode::{FpSimdInstruction, FpSimdKind, FpSimdOperands, SimdMemoryMode};
use crate::simd::emit::plan_fits;
use crate::simd::memory::{
    register_after, ElementPart, ElementTransfer, Extension, StructureStep, VectorAddress,
};
use crate::simd::plan::{FpSimdPlan, VectorPlan};

verus! {

pub open spec fn within(address: int) -> int {
    address % 0x1_0000_0000_0000_0000
}

/// A field of the encoding as a number with a sign.
pub open spec fn signed_nine(field: u16) -> int {
    if field >= 0x100 {
        field - 0x200
    } else {
        field as int
    }
}

pub open spec fn signed_seven(field: u8) -> int {
    if field >= 0x40 {
        field - 0x80
    } else {
        field as int
    }
}

/// The index register of an address: its low word without or with a sign, or all of it,
/// and scaled by the size of the access where the encoding asks for that.
pub open spec fn index_of(fields: FpSimdOperands, guest: Guest) -> int {
    let value = x(guest, fields.rm);
    let word = value as int % 0x1_0000_0000;
    let index = if fields.option == 2 {
        word
    } else if fields.option == 6 {
        if word >= 0x8000_0000 {
            word - 0x1_0000_0000
        } else {
            word
        }
    } else {
        value as int
    };
    if fields.scaled {
        index * fields.access_size->0.byte_count()
    } else {
        index
    }
}

/// The address of an access of one register.
pub open spec fn effective(i: FpSimdInstruction, guest: Guest) -> int {
    let base = x_or_sp(guest, i.operands.rn);
    match i.kind {
        FpSimdKind::MemoryUnsigned => within(
            base + i.operands.immediate_12 * i.operands.access_size->0.byte_count(),
        ),
        FpSimdKind::MemoryPostIndex => base as int,
        FpSimdKind::MemoryRegister => within(base + index_of(i.operands, guest)),
        _ => within(base + signed_nine(i.operands.immediate_9)),
    }
}

/// The address that a plan goes to.
pub open spec fn planned(base: u8, address: VectorAddress, guest: Guest) -> int {
    let start = x_or_sp(guest, base);
    match address {
        VectorAddress::Displaced { offset } => within(start + offset),
        VectorAddress::Indexed { register, extension, shift } => {
            let value = x(guest, register);
            let word = value as int % 0x1_0000_0000;
            let index = match extension {
                Extension::UnsignedWord => word,
                Extension::SignedWord => if word >= 0x8000_0000 {
                    word - 0x1_0000_0000
                } else {
                    word
                },
                Extension::Full => value as int,
            };
            within(
                start + index * (if shift == 0 {
                    1int
                } else if shift == 1 {
                    2int
                } else if shift == 2 {
                    4int
                } else if shift == 3 {
                    8int
                } else {
                    16int
                }),
            )
        },
    }
}

/// A load or store of one vector register goes to the address of the instruction, moves
/// its register, and leaves the base register where the instruction leaves it.
pub proof fn law_accesses_go_to_their_address(
    i: FpSimdInstruction,
    host: HostAbi,
    plan: FpSimdPlan,
    guest: Guest,
)
    requires
        plan_fits(i, host, plan),
        i.operands.immediate_9 < 0x200,
        i.operands.immediate_12 < 0x1000,
        plan.native is Access,
    ensures
        match plan.native {
            VectorPlan::Access(access) => {
                &&& planned(access.base, access.address, guest) == effective(i, guest)
                &&& access.register == i.operands.rd
                &&& Some(access.size) == i.operands.access_size
                &&& access.load == i.operands.load
                &&& match access.writeback {
                    Some(step) => {
                        &&& i.kind is MemoryPostIndex || i.kind is MemoryPreIndex
                        &&& within(x_or_sp(guest, access.base) + step) == within(
                            x_or_sp(guest, i.operands.rn) + signed_nine(i.operands.immediate_9),
                        )
                    },
                    None => !(i.kind is MemoryPostIndex || i.kind is MemoryPreIndex),
                }
            },
            _ => true,
        },
{
    if let VectorPlan::Access(access) = plan.native {
        let base = x_or_sp(guest, i.operands.rn);
        let bytes = i.operands.access_size->0.byte_count();
        assert(0 <= i.operands.immediate_12 * bytes <= 0x1_0000) by (nonlinear_arith)
            requires
                i.operands.immediate_12 < 0x1000,
                0 <= bytes <= 16,
        ;
    }
}

/// A load or store of two registers goes to two neighbouring places: from the base, or
/// with the offset, which is in units of the access; and leaves the base register with the
/// offset where the instruction does.
pub proof fn law_pairs_lie_side_by_side(
    i: FpSimdInstruction,
    host: HostAbi,
    plan: FpSimdPlan,
    guest: Guest,
)
    requires
        plan_fits(i, host, plan),
        i.kind is MemoryPair,
        i.operands.immediate_7 < 0x80,
        1 <= i.operands.mode <= 3,
    ensures
        match plan.native {
            VectorPlan::Pair(pair) => {
                let base = x_or_sp(guest, i.operands.rn);
                let bytes = i.operands.access_size->0.byte_count();
                let offset = signed_seven(i.operands.immediate_7) * bytes;
                let start = if i.operands.mode == 1 {
                    base as int
                } else {
                    base + offset
                };
                &&& within(x_or_sp(guest, pair.base) + pair.first_offset) == within(start)
                &&& within(x_or_sp(guest, pair.base) + pair.second_offset) == within(start + bytes)
                &&& pair.first == i.operands.rd
                &&& pair.second == i.operands.rt2
                &&& pair.load == i.operands.load
                &&& match pair.writeback {
                    Some(step) => i.operands.mode != 2 && within(x_or_sp(guest, pair.base) + step)
                        == within(base + offset),
                    None => i.operands.mode == 2,
                }
            },
            _ => false,
        },
{
    if let VectorPlan::Pair(pair) = plan.native {
        let bytes = i.operands.access_size->0.byte_count();
        let field = signed_seven(i.operands.immediate_7);
        assert(-0x1000 <= field * bytes <= 0x1000) by (nonlinear_arith)
            requires
                -0x40 <= field < 0x40,
                0 <= bytes <= 16,
        ;
    }
}

/// Interleaved structures: lane `lane` of the register `place` after the first lies in the
/// structure of that number, at that place in it.
pub open spec fn transfers_lane(
    elements: Seq<ElementTransfer>,
    rd: u8,
    registers: int,
    bytes: int,
    place: int,
    lane: int,
) -> bool {
    exists|k: int|
        0 <= k < elements.len() && (#[trigger] elements[k]).register == (rd + place) % 32
            && elements[k].displacement == (lane * registers + place) * bytes
            && elements[k].part == (ElementPart::Lane { lane: lane as u8 })
}

/// A transfer of interleaved structures moves every lane of every register from or to its
/// place: the structures follow each other in memory, and in each the registers do.
pub proof fn law_structures_are_interleaved(
    i: FpSimdInstruction,
    host: HostAbi,
    plan: FpSimdPlan,
    place: int,
    lane: int,
)
    requires
        plan_fits(i, host, plan),
        i.normalized(),
        i.kind is MemoryMultipleStructures || i.kind is MemoryMultipleStructuresPostIndex,
        i.operands.structure->0.structure_registers > 1,
        0 <= place < i.operands.structure->0.structure_registers,
        0 <= lane < i.operands.structure->0.elements_per_register,
    ensures
        match plan.native {
            VectorPlan::Structure(access) => {
                &&& transfers_lane(
                    access.elements@,
                    i.operands.rd,
                    i.operands.structure->0.structure_registers as int,
                    i.operands.structure->0.element_size.byte_count(),
                    place,
                    lane,
                )
                &&& access.elements@.len() == i.operands.structure->0.structure_registers
                    * i.operands.structure->0.elements_per_register
                &&& access.base == i.operands.rn
                &&& access.load == i.operands.load
            },
            _ => false,
        },
{
    if let VectorPlan::Structure(access) = plan.native {
        let shape = i.operands.structure->0;
        let registers = shape.structure_registers as int;
        let bytes = shape.element_size.byte_count();
        let k = lane * registers + place;
        let elements = access.elements@;
        let lanes = shape.elements_per_register as int;
        assert(0 <= k < lanes * registers) by (nonlinear_arith)
            requires
                0 <= place < registers,
                0 <= lane < lanes,
                k == lane * registers + place,
        ;
        assert(k * bytes < 64) by (nonlinear_arith)
            requires
                k < lanes * registers,
                registers <= 4,
                lanes * bytes <= 16,
                bytes >= 1,
                lanes >= 0,
        ;
        assert(0 <= k * bytes) by (nonlinear_arith)
            requires
                0 <= k,
                bytes >= 1,
        ;
        assert(lanes <= 16) by (nonlinear_arith)
            requires
                lanes * bytes <= 16,
                bytes >= 1,
        ;
        vstd::arithmetic::div_mod::lemma_fundamental_div_mod_converse(k, registers, lane, place);
        assert(elements.len() == lanes * registers);
        assert(elements[k].register == register_after(i.operands.rd, place));
        assert(lanes * registers == registers * lanes) by (nonlinear_arith);
    }
}

/// A transfer of one lane of each register, or of one element to every lane, takes the
/// registers one after the other from neighbouring places.
pub proof fn law_single_structures_lie_side_by_side(
    i: FpSimdInstruction,
    host: HostAbi,
    plan: FpSimdPlan,
    place: int,
)
    requires
        plan_fits(i, host, plan),
        i.normalized(),
        i.kind is MemorySingleStructure || i.kind is MemorySingleStructurePostIndex,
        0 <= place < i.operands.structure->0.structure_registers,
    ensures
        match plan.native {
            VectorPlan::Structure(access) => {
                let shape = i.operands.structure->0;
                &&& access.elements@.len() == shape.structure_registers
                &&& access.elements@[place].register == (i.operands.rd + place) % 32
                &&& access.elements@[place].displacement == place * shape.element_size.byte_count()
                &&& access.elements@[place].part == match shape.mode {
                    SimdMemoryMode::Lane(lane) => ElementPart::Lane { lane },
                    _ => ElementPart::Every,
                }
                &&& access.elements@[place].size == shape.element_size
            },
            _ => false,
        },
{
    let shape = i.operands.structure->0;
    let bytes = shape.element_size.byte_count();
    assert(0 <= place * bytes <= 64) by (nonlinear_arith)
        requires
            0 <= place < 4,
            0 <= bytes <= 16,
    ;
}

/// The base register of a structure access moves only where it is indexed afterwards: by
/// the bytes of the transfer, or by a register.
pub proof fn law_structures_step_over_what_they_move(
    i: FpSimdInstruction,
    host: HostAbi,
    plan: FpSimdPlan,
)
    requires
        plan_fits(i, host, plan),
        i.normalized(),
        plan.native is Structure,
    ensures
        match plan.native {
            VectorPlan::Structure(access) => match access.step {
                StructureStep::Nothing => i.kind is MemoryMultipleStructures
                    || i.kind is MemorySingleStructure,
                StructureStep::Bytes { count } => {
                    &&& i.kind is MemoryMultipleStructuresPostIndex
                        || i.kind is MemorySingleStructurePostIndex
                    &&& i.operands.rm == 31
                    &&& count == i.operands.structure->0.immediate_post_index
                },
                StructureStep::Register { register } => {
                    &&& i.kind is MemoryMultipleStructuresPostIndex
                        || i.kind is MemorySingleStructurePostIndex
                    &&& register == i.operands.rm && register != 31
                },
            },
            _ => true,
        },
{
}

/// A structure load that fills half a register leaves nothing above it: the register is
/// cleared there in the end, or its element goes in from the lowest byte on, which clears
/// the rest. A load of one lane keeps the other lanes, and a load of whole registers
/// clears none.
pub proof fn law_short_loads_clear_the_upper_half(
    i: FpSimdInstruction,
    host: HostAbi,
    plan: FpSimdPlan,
    k: int,
)
    requires
        plan_fits(i, host, plan),
        i.normalized(),
        i.operands.load,
        match plan.native {
            VectorPlan::Structure(access) => 0 <= k < access.elements@.len(),
            _ => false,
        },
        i.kind is MemoryMultipleStructures || i.kind is MemoryMultipleStructuresPostIndex
            ==> i.operands.structure->0.mode is Multiple,
        i.kind is MemorySingleStructure || i.kind is MemorySingleStructurePostIndex ==> !(
        i.operands.structure->0.mode is Multiple),
    ensures
        match plan.native {
            VectorPlan::Structure(access) => {
                let element = access.elements@[k];
                &&& i.operands.vector_128 ==> access.cleared@.len() == 0
                &&& i.operands.structure->0.mode is Lane ==> access.cleared@.len() == 0
                &&& !i.operands.vector_128 && !(i.operands.structure->0.mode is Lane) ==> (
                element.part is Low || access.cleared@.contains(element.register))
            },
            _ => true,
        },
{
    if let VectorPlan::Structure(access) = plan.native {
        let shape = i.operands.structure->0;
        let registers = shape.structure_registers as int;
        if !i.operands.vector_128 && !(shape.mode is Lane) && !(access.elements@[k].part is Low) {
            let place = if i.kind is MemoryMultipleStructures
                || i.kind is MemoryMultipleStructuresPostIndex {
                k % registers
            } else {
                k
            };
            assert(0 <= place < registers) by (nonlinear_arith)
                requires
                    registers >= 1,
                    place == k % registers || 0 <= place < registers,
            ;
            assert(access.cleared@[place] == access.elements@[k].register);
        }
    }
}

} // verus!
