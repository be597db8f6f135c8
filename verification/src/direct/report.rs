//! From the end of a block to the report of a slice.

use vstd::prelude::*;
use super::checks::FP_TRAP_DETAIL;
use super::endings::{exception_detail, EntryCell, Ending};
use super::exit::{
    scheduler_request, slice_step_is, CpuExit, DirectExit, ExceptionKind, ExitWords,
    SchedulerRequest, SliceStep,
};
use super::region::{BlockTerminator, Region, RegionBlock};
use crate::abi::exit::NativeExitReason;

verus! {

/// Native code that stops for the reason leaves these words behind.
pub open spec fn words_tell<F>(
    words: ExitWords<F>,
    reason: NativeExitReason,
    detail: u32,
    pc: u64,
) -> bool {
    &&& words.pc == pc
    &&& words.kind == reason.number()
    &&& words.detail == detail
    &&& words.fault_error is None
}

/// Native code that leaves through the ending leaves these words behind.
pub open spec fn ending_tells<F>(ending: Ending, words: ExitWords<F>) -> bool {
    match ending {
        Ending::Exit { reason, detail, pc } => words_tell(words, reason, detail, pc),
        _ => false,
    }
}

/// The slice that reads the words takes this step.
pub open spec fn read_as<F>(words: ExitWords<F>, preempts: Option<bool>, step: SliceStep<F>) -> bool {
    match words.decoded() {
        Some(exit) => slice_step_is(exit, preempts, step),
        None => false,
    }
}

/// The number of a reason is read back as that reason, and no two reasons share one.
pub proof fn law_reasons_are_read_back(reason: NativeExitReason, other: NativeExitReason)
    ensures
        NativeExitReason::of_code(reason.number()) == Some(reason),
        reason.number() == other.number() ==> reason == other,
{
}

proof fn lemma_detail(syndrome: u64)
    ensures
        exception_detail(0, Some(syndrome)) / 0x100_0000 == 0,
        exception_detail(1, Some(syndrome)) / 0x100_0000 == 1,
        exception_detail(2, Some(syndrome)) / 0x100_0000 == 2,
        exception_detail(1, Some(syndrome)) % 0x100_0000 == syndrome % 0x100_0000,
        exception_detail(2, Some(syndrome)) % 0x100_0000 == syndrome % 0x100_0000,
        exception_detail(0, None) == exception_detail(0, Some(0)),
        exception_detail(1, None) == exception_detail(1, Some(0)),
        exception_detail(2, None) == exception_detail(2, Some(0)),
{
    assert({
        &&& ((0u32 << 24) | ((syndrome as u32) & 0x00ff_ffff)) / 0x100_0000 == 0
        &&& ((1u32 << 24) | ((syndrome as u32) & 0x00ff_ffff)) / 0x100_0000 == 1
        &&& ((2u32 << 24) | ((syndrome as u32) & 0x00ff_ffff)) / 0x100_0000 == 2
        &&& ((1u32 << 24) | ((syndrome as u32) & 0x00ff_ffff)) % 0x100_0000 == syndrome
            % 0x100_0000
        &&& ((2u32 << 24) | ((syndrome as u32) & 0x00ff_ffff)) % 0x100_0000 == syndrome
            % 0x100_0000
    }) by (bit_vector);
}

/// A supervisor call is reported with the address of its instruction and with its
/// immediate, which is the low part of the syndrome; without a syndrome it is zero.
pub proof fn law_supervisor_calls_are_reported<F>(
    region: Region,
    block: RegionBlock,
    cells: Seq<EntryCell>,
    syndrome: Option<u64>,
    words: ExitWords<F>,
    preempts: Option<bool>,
    step: SliceStep<F>,
)
    requires
        block.terminator == (BlockTerminator::SupervisorCall { syndrome }),
        ending_tells(region.ending_of(block, cells), words),
    ensures
        read_as(words, preempts, step) <==> step == SliceStep::Stop(
            CpuExit::SupervisorCall::<F> {
                pc: block.source,
                immediate: match syndrome {
                    Some(value) => (value % 0x100_0000) as u32,
                    None => 0,
                },
            },
        ),
{
    lemma_detail(match syndrome {
        Some(value) => value,
        None => 0,
    });
}

/// A breakpoint is reported with the address of its instruction and with the low part
/// of the syndrome, which is zero without one.
pub proof fn law_breakpoints_are_reported<F>(
    region: Region,
    block: RegionBlock,
    cells: Seq<EntryCell>,
    syndrome: Option<u64>,
    words: ExitWords<F>,
    preempts: Option<bool>,
    step: SliceStep<F>,
)
    requires
        block.terminator == (BlockTerminator::Breakpoint { syndrome }),
        ending_tells(region.ending_of(block, cells), words),
    ensures
        read_as(words, preempts, step) <==> step == SliceStep::Stop(
            CpuExit::ArchitecturalException::<F> {
                pc: block.source,
                kind: ExceptionKind::Breakpoint,
                syndrome: match syndrome {
                    Some(value) => value % 0x100_0000,
                    None => 0,
                },
            },
        ),
{
    lemma_detail(match syndrome {
        Some(value) => value,
        None => 0,
    });
}

/// Two supervisor calls with different immediates are never reported alike, nor are two
/// breakpoints, nor a supervisor call and a breakpoint.
pub proof fn law_exceptions_are_told_apart<F>(
    region: Region,
    first: RegionBlock,
    second: RegionBlock,
    first_cells: Seq<EntryCell>,
    second_cells: Seq<EntryCell>,
    first_words: ExitWords<F>,
    second_words: ExitWords<F>,
    preempts: Option<bool>,
    step: SliceStep<F>,
)
    requires
        match first.terminator {
            BlockTerminator::SupervisorCall { syndrome: Some(syndrome) } => syndrome < 0x100_0000,
            BlockTerminator::Breakpoint { syndrome: Some(syndrome) } => syndrome < 0x100_0000,
            _ => false,
        },
        match second.terminator {
            BlockTerminator::SupervisorCall { syndrome: Some(syndrome) } => syndrome < 0x100_0000,
            BlockTerminator::Breakpoint { syndrome: Some(syndrome) } => syndrome < 0x100_0000,
            _ => false,
        },
        ending_tells(region.ending_of(first, first_cells), first_words),
        ending_tells(region.ending_of(second, second_cells), second_words),
        read_as(first_words, preempts, step),
        read_as(second_words, preempts, step),
    ensures
        first.terminator == second.terminator,
        first.source == second.source,
{
    match first.terminator {
        BlockTerminator::SupervisorCall { syndrome } => lemma_detail(syndrome->0),
        BlockTerminator::Breakpoint { syndrome } => lemma_detail(syndrome->0),
        _ => {},
    }
    match second.terminator {
        BlockTerminator::SupervisorCall { syndrome } => lemma_detail(syndrome->0),
        BlockTerminator::Breakpoint { syndrome } => lemma_detail(syndrome->0),
        _ => {},
    }
}

/// An exception that has no report of its own fails the slice; it is never taken for a
/// supervisor call or a breakpoint.
pub proof fn law_other_exceptions_fail<F>(
    region: Region,
    block: RegionBlock,
    cells: Seq<EntryCell>,
    words: ExitWords<F>,
    preempts: Option<bool>,
    step: SliceStep<F>,
)
    requires
        block.terminator is OtherException,
        ending_tells(region.ending_of(block, cells), words),
        read_as(words, preempts, step),
    ensures
        step is Fail,
{
    lemma_detail(match block.terminator {
        BlockTerminator::OtherException { syndrome: Some(value) } => value,
        _ => 0,
    });
}

/// A block that ends at an instruction without native code is reported with the address
/// of that instruction.
pub proof fn law_unsupported_instructions_are_reported<F>(
    region: Region,
    block: RegionBlock,
    cells: Seq<EntryCell>,
    words: ExitWords<F>,
    preempts: Option<bool>,
    step: SliceStep<F>,
)
    requires
        block.terminator is Unsupported,
        ending_tells(region.ending_of(block, cells), words),
    ensures
        read_as(words, preempts, step) <==> step == SliceStep::Stop(
            CpuExit::UnsupportedSemantics::<F> { pc: block.source },
        ),
{
}

/// A change of the floating-point mode does not end the slice, which goes on at the
/// continuation and has made progress.
pub proof fn law_mode_changes_go_on<F>(
    region: Region,
    block: RegionBlock,
    cells: Seq<EntryCell>,
    continuation: u64,
    words: ExitWords<F>,
    preempts: Option<bool>,
    step: SliceStep<F>,
)
    requires
        block.terminator == (BlockTerminator::FpModeChange { continuation }),
        ending_tells(region.ending_of(block, cells), words),
    ensures
        words.pc == continuation,
        words.decoded() matches Some(exit) && exit.progress_of() > 0,
        read_as(words, preempts, step) <==> step is Resume,
{
}

/// A trapped floating-point exception is reported as one, at its address.
pub proof fn law_trapped_exceptions_are_reported<F>(
    pc: u64,
    words: ExitWords<F>,
    preempts: Option<bool>,
    step: SliceStep<F>,
)
    requires
        words_tell(words, NativeExitReason::Architectural, FP_TRAP_DETAIL, pc),
    ensures
        read_as(words, preempts, step) <==> step == SliceStep::Stop(
            CpuExit::ArchitecturalException::<F> {
                pc,
                kind: ExceptionKind::FloatingPoint,
                syndrome: 0,
            },
        ),
{
}

/// A data fault is reported as it was found, at its address, and with progress.
pub proof fn law_data_faults_are_reported<F>(
    pc: u64,
    fault: F,
    detail: u32,
    words: ExitWords<F>,
    preempts: Option<bool>,
    step: SliceStep<F>,
)
    requires
        words_tell(words, NativeExitReason::DataFault, detail, pc),
        words.data_fault == Some(fault),
    ensures
        words.decoded() matches Some(exit) && exit.progress_of() > 0,
        read_as(words, preempts, step) <==> step == SliceStep::Stop(
            CpuExit::DataFault { pc, fault },
        ),
{
}

/// A control exit makes no progress, and ends the slice unless a request was pending
/// that does not ask the guest to give way.
pub proof fn law_control_exits_stop_for_requests<F>(
    pc: u64,
    detail: u32,
    words: ExitWords<F>,
    preempts: Option<bool>,
    step: SliceStep<F>,
)
    requires
        words_tell(words, NativeExitReason::Control, detail, pc),
    ensures
        words.decoded() matches Some(exit) && exit.progress_of() == 0,
        read_as(words, preempts, step) <==> if preempts == Some(false) {
            step is Resume
        } else {
            step == SliceStep::Stop(CpuExit::Safepoint::<F>)
        },
{
}

/// The details of the four scheduler requests run from zero in the order of the
/// requests; each request has one, and other details have none.
pub proof fn law_requests_have_one_detail(first: u32, second: u32)
    ensures
        scheduler_request(first) is Some <==> first < 4,
        scheduler_request(first) is Some && scheduler_request(first) == scheduler_request(second)
            ==> first == second,
        first == 0 <==> scheduler_request(first) == Some(SchedulerRequest::Yield),
        first == 3 <==> scheduler_request(first) == Some(SchedulerRequest::SendEvent),
        scheduler_request(first) == Some(SchedulerRequest::WaitForInterrupt) && scheduler_request(
            second,
        ) == Some(SchedulerRequest::WaitForEvent) ==> first == second + 1,
{
}

/// A scheduler request is reported as the guest made it, at its address.
pub proof fn law_requests_are_reported<F>(
    pc: u64,
    request: SchedulerRequest,
    detail: u32,
    words: ExitWords<F>,
    preempts: Option<bool>,
    step: SliceStep<F>,
)
    requires
        words_tell(words, NativeExitReason::Scheduled, detail, pc),
        scheduler_request(detail) == Some(request),
    ensures
        read_as(words, preempts, step) <==> step == SliceStep::Stop(
            CpuExit::Scheduled::<F> { pc, request },
        ),
{
}

/// The words of an exit are read as one thing only: the exit fixes the address that
/// native code left at, unless the exit only asks to reconcile.
pub proof fn law_exits_keep_their_address<F>(words: ExitWords<F>)
    ensures
        match words.decoded() {
            Some(DirectExit::Dispatch { pc, .. }) => pc == words.pc,
            Some(DirectExit::Control { pc, .. }) => pc == words.pc,
            Some(DirectExit::Architectural { pc, detail, .. }) => pc == words.pc && detail
                == words.detail,
            Some(DirectExit::Unsupported { pc, .. }) => pc == words.pc,
            Some(DirectExit::DataFault { pc, .. }) => pc == words.pc,
            Some(DirectExit::Scheduled { pc, .. }) => pc == words.pc,
            Some(DirectExit::Internal { pc, .. }) => pc == words.pc,
            Some(DirectExit::LoaderReturn { .. }) => false,
            Some(DirectExit::Reconcile) => true,
            None => true,
        },
{
}

/// Progress is counted where the guest may have run an instruction: an exit that is asked
/// for before one, or that fails, counts none.
pub proof fn law_progress_is_counted_once<F>(words: ExitWords<F>)
    ensures
        match words.decoded() {
            Some(exit) => match exit {
                DirectExit::Dispatch { .. }
                | DirectExit::Architectural { .. }
                | DirectExit::DataFault { .. }
                | DirectExit::Scheduled { .. } => exit.progress_of() == 1,
                _ => exit.progress_of() == 0,
            },
            None => true,
        },
{
}

} // verus!
