//! What is live suffices to run on.

use vstd::prelude::*;
use super::effects::{
    agree, law_outcomes_depend_on_reads_alone, law_written_items_are_known, names_registers,
    outcome_of,
};
use super::execution::{Outcome, Setting};
use super::floats::is_arithmetic;
use super::guest::Guest;
use crate::abi::HostAbi;
use crate::analysis::access::{
    block_writes, live_before, live_before_block, observes_after, observes_before, reads_of,
    writes_of,
};
use crate::analysis::{StateItem, StateSet};
use crate::decode::{A64Instruction, ControlKind};
use crate::direct::region::leaves_status;

verus! {

/// The state after an outcome: what it wrote, and the rest as it was.
pub open spec fn after(outcome: Outcome, g: Guest) -> Guest {
    |item: StateItem|
        if outcome.written.dom().contains(item) {
            outcome.written[item]
        } else {
            g(item)
        }
}

/// The instruction can be run and analysed.
pub open spec fn known(instruction: A64Instruction) -> bool {
    instruction.normalized() && names_registers(instruction)
}

/// Two states that agree on what is live before an instruction have the same outcome,
/// and agree afterwards on what is live then. Where the instruction may leave the unit
/// before it writes, they agree on the whole state of the guest.
pub proof fn law_live_items_suffice(
    instruction: A64Instruction,
    host: HostAbi,
    live: Set<StateItem>,
    s: Setting,
    a: Guest,
    b: Guest,
)
    requires
        known(instruction),
        agree(a, b, live_before(instruction, host, live)),
    ensures
        outcome_of(instruction, s, a) == outcome_of(instruction, s, b),
        agree(
            after(outcome_of(instruction, s, a), a),
            after(outcome_of(instruction, s, b), b),
            live,
        ),
        observes_before(instruction, host) ==> agree(a, b, StateSet::everything()),
{
    let before = live_before(instruction, host, live);
    let reads = reads_of(instruction, host);
    assert forall|item: StateItem| #[trigger] reads.contains(item) implies a(item) == b(item) by {
        assert(before.contains(item));
    }
    law_outcomes_depend_on_reads_alone(instruction, host, s, a, b);
    law_written_items_are_known(instruction, host, s, a);
    let (p, q) = (
        after(outcome_of(instruction, s, a), a),
        after(outcome_of(instruction, s, b), b),
    );
    assert forall|item: StateItem| #[trigger] live.contains(item) implies p(item) == q(item) by {
        if !writes_of(instruction, host).contains(item) {
            assert(before.contains(item));
        }
    }
    if observes_before(instruction, host) {
        assert forall|item: StateItem| #[trigger]
            StateSet::everything().contains(item) implies a(item) == b(item) by {
            assert(before.contains(item));
        }
    }
}

/// The state after the first `count` instructions of a run.
pub open spec fn ran(
    instructions: Seq<A64Instruction>,
    settings: Seq<Setting>,
    g: Guest,
    count: nat,
) -> Guest
    decreases count,
{
    if count == 0 {
        g
    } else {
        let before = ran(instructions, settings, g, (count - 1) as nat);
        after(outcome_of(instructions[count - 1], settings[count - 1], before), before)
    }
}

proof fn lemma_same_run(
    instructions: Seq<A64Instruction>,
    settings: Seq<Setting>,
    g: Guest,
    count: nat,
)
    requires
        count < instructions.len(),
    ensures
        ran(instructions.drop_last(), settings, g, count) == ran(instructions, settings, g, count),
    decreases count,
{
    if count > 0 {
        lemma_same_run(instructions, settings, g, (count - 1) as nat);
        assert(instructions.drop_last()[count - 1] == instructions[count - 1]);
    }
}

/// Two states that agree on what is live before a run of instructions agree after it on
/// what is live then, and every instruction of the run has the same outcome in both.
pub proof fn law_live_items_suffice_for_a_run(
    instructions: Seq<A64Instruction>,
    host: HostAbi,
    live: Set<StateItem>,
    settings: Seq<Setting>,
    a: Guest,
    b: Guest,
)
    requires
        forall|k: int| 0 <= k < instructions.len() ==> known(#[trigger] instructions[k]),
        agree(a, b, live_before_block(instructions, host, live)),
    ensures
        agree(
            ran(instructions, settings, a, instructions.len()),
            ran(instructions, settings, b, instructions.len()),
            live,
        ),
        forall|k: int|
            0 <= k < instructions.len() ==> outcome_of(
                #[trigger] instructions[k],
                settings[k],
                ran(instructions, settings, a, k as nat),
            ) == outcome_of(
                instructions[k],
                settings[k],
                ran(instructions, settings, b, k as nat),
            ),
    decreases instructions.len(),
{
    if instructions.len() > 0 {
        let rest = instructions.drop_last();
        let last = instructions.last();
        let n = rest.len();
        assert forall|k: int| 0 <= k < rest.len() implies known(#[trigger] rest[k]) by {
            assert(rest[k] == instructions[k]);
        }
        law_live_items_suffice_for_a_run(
            rest,
            host,
            live_before(last, host, live),
            settings,
            a,
            b,
        );
        lemma_same_run(instructions, settings, a, n);
        lemma_same_run(instructions, settings, b, n);
        assert(known(instructions[n as int]));
        law_live_items_suffice(
            last,
            host,
            live,
            settings[n as int],
            ran(instructions, settings, a, n),
            ran(instructions, settings, b, n),
        );
        assert forall|k: int| 0 <= k < instructions.len() implies outcome_of(
            #[trigger] instructions[k],
            settings[k],
            ran(instructions, settings, a, k as nat),
        ) == outcome_of(
            instructions[k],
            settings[k],
            ran(instructions, settings, b, k as nat),
        ) by {
            if k < n {
                lemma_same_run(instructions, settings, a, k as nat);
                lemma_same_run(instructions, settings, b, k as nat);
                assert(rest[k] == instructions[k]);
            }
        }
    }
}

/// A run of instructions changes nothing but what some instruction of it is said to
/// write.
pub proof fn law_a_run_keeps_what_it_does_not_write(
    instructions: Seq<A64Instruction>,
    host: HostAbi,
    settings: Seq<Setting>,
    g: Guest,
    item: StateItem,
)
    requires
        forall|k: int| 0 <= k < instructions.len() ==> known(#[trigger] instructions[k]),
        !block_writes(instructions, host).contains(item),
    ensures
        ran(instructions, settings, g, instructions.len())(item) == g(item),
    decreases instructions.len(),
{
    if instructions.len() > 0 {
        let rest = instructions.drop_last();
        let n = rest.len();
        assert forall|k: int| 0 <= k < rest.len() implies known(#[trigger] rest[k]) by {
            assert(rest[k] == instructions[k]);
        }
        law_a_run_keeps_what_it_does_not_write(rest, host, settings, g, item);
        lemma_same_run(instructions, settings, g, n);
        assert(known(instructions[n as int]));
        law_written_items_are_known(
            instructions.last(),
            host,
            settings[n as int],
            ran(instructions, settings, g, n),
        );
    }
}

/// What reaches memory, the system or a trap is observed: an instruction that tells the
/// world anything, that works under the floating-point controls, or that stops the guest
/// where it stands, lets the state before it be seen. The state after an instruction is
/// seen exactly where it replaces those controls.
pub proof fn law_what_is_told_is_observed(
    instruction: A64Instruction,
    host: HostAbi,
    s: Setting,
    g: Guest,
)
    requires
        known(instruction),
    ensures
        outcome_of(instruction, s, g).told.len() > 0 ==> observes_before(instruction, host),
        instruction matches A64Instruction::FpSimd(i) && is_arithmetic(i.kind) ==> observes_before(
            instruction,
            host,
        ),
        instruction matches A64Instruction::Control(i) && (i.kind is SupervisorCall
            || i.kind is Breakpoint) ==> observes_before(instruction, host),
        instruction is RecognizedUnsupported ==> observes_before(instruction, host),
        instruction is Memory ==> observes_before(instruction, host),
        observes_after(instruction) <==> writes_of(instruction, host).contains(StateItem::Fpcr),
{
    law_written_items_are_known(instruction, host, s, g);
}

/// Integer instructions and branches only compute: nothing of the state is observed at
/// them that the analysis does not list as read.
pub proof fn law_computations_are_not_observed(instruction: A64Instruction, host: HostAbi)
    requires
        match instruction {
            A64Instruction::Integer(_) => true,
            A64Instruction::Control(i) => match i.kind {
                ControlKind::SupervisorCall | ControlKind::Breakpoint => false,
                _ => true,
            },
            _ => false,
        },
    ensures
        !observes_before(instruction, host),
{
}

/// An instruction that leaves status in the host's floating-point unit writes the status
/// of the guest, and no other instruction that does not round or compare does but a move
/// to it.
pub proof fn law_status_is_written(instruction: A64Instruction, host: HostAbi)
    ensures
        leaves_status(instruction, host) ==> writes_of(instruction, host).contains(StateItem::Fpsr),
        instruction matches A64Instruction::FpSimd(i) ==> (writes_of(instruction, host).contains(
            StateItem::Fpsr,
        ) <==> is_arithmetic(i.kind)),
{
}

} // verus!
