//! Where blocks of guest code go, and where native code takes them.

use vstd::prelude::*;
use vstd::arithmetic::power2::pow2;
use vstd::bits::lemma_u64_shr_is_div;
use super::guest::{c, law_conditions_are_computed, met, n, v, x, z, Guest};
use crate::decode::{A64Instruction, ControlInstruction, ControlKind};
use crate::direct::endings::{last_of, test_of, BranchTest, Edge, Ending, EntryCell};
use crate::direct::flags::{bit_of, condition_holds};
use crate::direct::region::{BlockTerminator, Region, RegionBlock};

verus! {

/// What native code finds out by a test.
pub open spec fn passes(test: BranchTest, guest: Guest) -> bool {
    match test {
        BranchTest::Flags { condition } => condition_holds(
            condition,
            n(guest),
            z(guest),
            c(guest),
            v(guest),
        ),
        BranchTest::Zero { register, width_64, nonzero } => {
            let zero = if width_64 {
                x(guest, register) == 0
            } else {
                x(guest, register) % 0x1_0000_0000 == 0
            };
            zero != nonzero
        },
        BranchTest::Bit { register, bit, nonzero } => bit_of(x(guest, register), bit) == nonzero,
    }
}

/// The instruction is a conditional branch.
pub open spec fn is_conditional(instruction: A64Instruction) -> bool {
    match instruction {
        A64Instruction::Control(i) => i.kind is CompareBranch || i.kind is TestBranch
            || i.kind is ConditionalBranch,
        _ => false,
    }
}

/// The conditional branch is taken. A compare branch tests the low half of its register
/// or all of it, and a test branch one bit: either asks for zero, or for the opposite.
pub open spec fn taken(i: ControlInstruction, guest: Guest) -> bool {
    let value = x(guest, i.rd);
    match i.kind {
        ControlKind::ConditionalBranch => met(i.condition, guest),
        ControlKind::CompareBranch => {
            let tested = if i.width_64 {
                value as int
            } else {
                value as int % 0x1_0000_0000
            };
            if i.nonzero {
                tested > 0
            } else {
                tested == 0
            }
        },
        ControlKind::TestBranch => {
            let tested = (value as int / pow2(i.bit_index as nat) as int) % 2;
            if i.nonzero {
                tested == 1
            } else {
                tested == 0
            }
        },
        _ => false,
    }
}

/// Every conditional branch has a test and nothing else has one, and native code passes
/// it exactly where the branch is taken.
pub proof fn law_tests_decide_as_the_branch(instruction: A64Instruction, guest: Guest)
    ensures
        test_of(instruction) is Some <==> is_conditional(instruction),
        match instruction {
            A64Instruction::Control(i) => test_of(instruction) is Some && i.condition < 16
                && i.bit_index < 64 ==> passes(test_of(instruction)->0, guest) == taken(i, guest),
            _ => true,
        },
{
    if let A64Instruction::Control(i) = instruction {
        if i.condition < 16 {
            law_conditions_are_computed(i.condition, n(guest), z(guest), c(guest), v(guest));
        }
        if i.bit_index < 64 {
            let value = x(guest, i.rd);
            let shifted = value >> i.bit_index;
            lemma_u64_shr_is_div(value, i.bit_index as u64);
            assert(value >> (i.bit_index as u64) == shifted);
            assert(shifted & 1 == shifted % 2) by (bit_vector);
        }
    }
}

pub open spec fn edge_target(edge: Edge) -> u64 {
    match edge {
        Edge::Jump { target } => target,
        Edge::Poll { target } => target,
        Edge::Leave { target, .. } => target,
    }
}

/// The address that the guest goes on at, and the link register then, where the ending
/// has an address to go to.
pub open spec fn arrives(ending: Ending, guest: Guest) -> Option<(u64, u64)> {
    let link = x(guest, 30);
    match ending {
        Ending::Follow(edge) => Some((edge_target(edge), link)),
        Ending::Branch { test, taken, not_taken } => Some(
            (
                edge_target(
                    if passes(test, guest) {
                        taken
                    } else {
                        not_taken
                    },
                ),
                link,
            ),
        ),
        Ending::Call { return_address, target, .. } => Some((target, return_address)),
        Ending::Register { register, link: new } => Some(
            (
                x(guest, register),
                match new {
                    Some(address) => address,
                    None => link,
                },
            ),
        ),
        Ending::Exit { .. } => None,
    }
}

/// The address of the instruction after one.
pub open spec fn next_address(address: u64) -> int {
    (address + 4) % 0x1_0000_0000_0000_0000
}

/// Native code goes where the guest goes: to the only successor of a block, to the taken
/// or the other address as its last instruction decides, to the callee with the return
/// address in the link register, or to the address in a register. A branch with link to
/// a register leaves the address behind it in the link register; other endings keep that
/// register.
pub proof fn law_endings_go_where_the_guest_goes(
    region: Region,
    block: RegionBlock,
    cells: Seq<EntryCell>,
    guest: Guest,
)
    requires
        region.ends_well(block),
        forall|k: int|
            0 <= k < block.instructions@.len() ==> (#[trigger] block.instructions@[k] matches A64Instruction::Control(
                i,
            ) ==> i.condition < 16 && i.bit_index < 64),
    ensures
        match block.terminator {
            BlockTerminator::Direct { target } => arrives(region.ending_of(block, cells), guest)
                == Some((target, x(guest, 30))),
            BlockTerminator::Limit { continuation } => arrives(
                region.ending_of(block, cells),
                guest,
            ) == Some((continuation, x(guest, 30))),
            BlockTerminator::Conditional { taken: yes, not_taken: no } => {
                &&& last_of(block) matches Some(last) && is_conditional(last)
                &&& last_of(block) matches Some(A64Instruction::Control(i)) && arrives(
                    region.ending_of(block, cells),
                    guest,
                ) == Some(
                    (
                        if taken(i, guest) {
                            yes
                        } else {
                            no
                        },
                        x(guest, 30),
                    ),
                )
            },
            BlockTerminator::Call { target, return_address } => arrives(
                region.ending_of(block, cells),
                guest,
            ) == Some((target, return_address)),
            BlockTerminator::Indirect => {
                &&& last_of(block) matches Some(A64Instruction::Control(i))
                    && i.kind is BranchRegister
                &&& last_of(block) matches Some(A64Instruction::Control(i)) && {
                    let place = arrives(region.ending_of(block, cells), guest);
                    &&& place is Some
                    &&& (place->0).0 == x(guest, i.rn)
                    &&& (place->0).1 == if is_call(i) {
                        next_address(block.source)
                    } else {
                        x(guest, 30) as int
                    }
                }
            },
            _ => arrives(region.ending_of(block, cells), guest) is None,
        },
{
    if block.terminator is Conditional {
        let last = block.instructions@.last();
        law_tests_decide_as_the_branch(last, guest);
        assert(block.instructions@[block.instructions@.len() - 1] == last);
    }
}

/// The branch to a register leaves a return address.
pub open spec fn is_call(i: ControlInstruction) -> bool {
    i.kind is BranchRegister && i.branch_register_key == 0xd63f_0000
}

/// An edge stays in the region exactly where the region has its target, and polls exactly
/// where it then goes back: at or before the instruction that takes it. So no loop inside
/// a region runs without a poll.
pub proof fn law_loops_poll(region: Region, source: u64, target: u64, cells: Seq<EntryCell>)
    ensures
        edge_target(region.edge_of(source, target, cells)) == target,
        region.edge_of(source, target, cells) is Leave <==> !region.has_block(target),
        region.has_block(target) && target <= source <==> region.edge_of(source, target, cells)
            is Poll,
{
}

/// The cell is one of those for the target.
pub open spec fn has_cell(cells: Seq<EntryCell>, target: u64, cell: usize) -> bool {
    exists|k: int| 0 <= k < cells.len() && #[trigger] cells[k] == (EntryCell { target, cell })
}

pub open spec fn edge_cell_fits(edge: Edge, cells: Seq<EntryCell>) -> bool {
    edge matches Edge::Leave { target, cell } ==> has_cell(cells, target, cell)
}

/// Native code leaves a region through a cell of the address that the guest goes to.
pub proof fn law_cells_belong_to_their_targets(
    region: Region,
    block: RegionBlock,
    cells: Seq<EntryCell>,
)
    requires
        region.fits(region.block_exits(block), cells),
    ensures
        match region.ending_of(block, cells) {
            Ending::Follow(edge) => edge_cell_fits(edge, cells),
            Ending::Branch { taken, not_taken, .. } => edge_cell_fits(taken, cells)
                && edge_cell_fits(not_taken, cells),
            Ending::Call { target, cell, .. } => has_cell(cells, target, cell),
            _ => true,
        },
{
    let exits = region.block_exits(block);
    assert forall|k: int| 0 <= k < exits.len() implies has_cell(
        cells,
        #[trigger] exits[k],
        cells[k].cell,
    ) by {
        assert(cells[k].target == exits[k]);
        assert(cells[k] == (EntryCell { target: exits[k], cell: cells[k].cell }));
    }
    match block.terminator {
        BlockTerminator::Direct { target } => {
            if !region.has_block(target) {
                assert(exits[0] == target);
            }
        },
        BlockTerminator::Limit { continuation } => {
            assert(exits[0] == continuation);
        },
        BlockTerminator::Call { target, .. } => {
            assert(exits[0] == target);
        },
        BlockTerminator::Conditional { taken, not_taken } => {
            let first = region.edge_exit(taken).len() as int;
            if !region.has_block(taken) {
                assert(exits[0] == taken);
            }
            if !region.has_block(not_taken) {
                assert(exits[first] == not_taken);
                assert(cells.skip(first)[0] == cells[first]);
            }
        },
        _ => {},
    }
}

/// The edge stays in the region and goes to the target.
pub open spec fn stays_at(edge: Edge, target: u64) -> bool {
    match edge {
        Edge::Jump { target: to } => to == target,
        Edge::Poll { target: to } => to == target,
        Edge::Leave { .. } => false,
    }
}

/// Control flows between two blocks of a region exactly where the ending of the first has
/// an edge to the second: what the analyses follow is what native code does.
pub proof fn law_flow_follows_the_endings(
    region: Region,
    block: RegionBlock,
    cells: Seq<EntryCell>,
    target: u64,
)
    requires
        region.has_block(target),
    ensures
        block.terminator.reaches(target) <==> match region.ending_of(block, cells) {
            Ending::Follow(edge) => stays_at(edge, target),
            Ending::Branch { taken, not_taken, .. } => stays_at(taken, target) || stays_at(
                not_taken,
                target,
            ),
            _ => false,
        },
{
}

/// A block is taken to leave the region, so that everything is live at its end, exactly
/// where its ending can: by an edge out of the region, a call, a branch to a register, or
/// an exit of native code.
pub proof fn law_everything_is_live_where_native_code_leaves(
    region: Region,
    k: int,
    cells: Seq<EntryCell>,
)
    requires
        0 <= k < region.blocks@.len(),
    ensures
        region.leaves_region(k) <==> match region.ending_of(region.blocks@[k], cells) {
            Ending::Follow(edge) => edge is Leave,
            Ending::Branch { taken, not_taken, .. } => taken is Leave || not_taken is Leave,
            _ => true,
        },
{
    let terminator = region.blocks@[k].terminator;
    match terminator {
        BlockTerminator::Direct { target } => {
            assert(terminator.reaches(target));
        },
        BlockTerminator::Conditional { taken, not_taken } => {
            assert(terminator.reaches(taken));
            assert(terminator.reaches(not_taken));
        },
        _ => {},
    }
}

} // verus!
