//! What native execution reports, and how a slice of it ends.

use vstd::prelude::*;
use vstd::string::StringExecFns;
use super::error::{DirectJitError, DirectJitErrorKind};
use super::text::{decimal, decimal_of};
use crate::abi::exit::NativeExitReason;

verus! {

pub const COARSE_PROGRESS: u64 = 1;

#[derive(Clone, Copy, Debug, PartialEq, Eq, Structural)]
pub enum SchedulerRequest {
    Yield,
    WaitForEvent,
    WaitForInterrupt,
    SendEvent,
}

/// Why native execution came back, with a data fault of type `F`.
#[derive(Debug, PartialEq, Eq)]
pub enum DirectExit<F> {
    Dispatch { pc: u64, progress: u64 },
    Control { pc: u64, progress: u64 },
    Architectural { pc: u64, detail: u32, progress: u64 },
    Unsupported { pc: u64, progress: u64 },
    DataFault { pc: u64, fault: F, progress: u64 },
    Scheduled { pc: u64, request: SchedulerRequest, progress: u64 },
    LoaderReturn { pc: u64, result_code: u64, progress: u64 },
    Internal { pc: u64, progress: u64 },
    Reconcile,
}

/// The exit words that native code leaves behind.
#[derive(Debug)]
pub struct ExitWords<F> {
    pub pc: u64,
    pub kind: u32,
    pub detail: u32,
    pub data_fault: Option<F>,
    /// What a fault that could not be resolved has to say.
    pub fault_error: Option<String>,
}

pub open spec fn scheduler_request(detail: u32) -> Option<SchedulerRequest> {
    if detail == 0 {
        Some(SchedulerRequest::Yield)
    } else if detail == 1 {
        Some(SchedulerRequest::WaitForEvent)
    } else if detail == 2 {
        Some(SchedulerRequest::WaitForInterrupt)
    } else if detail == 3 {
        Some(SchedulerRequest::SendEvent)
    } else {
        None
    }
}

impl<F> ExitWords<F> {
    /// The exit that the words describe.
    pub open spec fn decoded(self) -> Option<DirectExit<F>> {
        let pc = self.pc;
        if self.fault_error is Some {
            None
        } else {
            match NativeExitReason::of_code(self.kind) {
                Some(NativeExitReason::Dispatch) => Some(
                    DirectExit::Dispatch { pc, progress: COARSE_PROGRESS },
                ),
                Some(NativeExitReason::Control) => Some(DirectExit::Control { pc, progress: 0 }),
                Some(NativeExitReason::Architectural) => Some(
                    DirectExit::Architectural {
                        pc,
                        detail: self.detail,
                        progress: COARSE_PROGRESS,
                    },
                ),
                Some(NativeExitReason::Unsupported) => Some(
                    DirectExit::Unsupported { pc, progress: 0 },
                ),
                Some(NativeExitReason::DataFault) => match self.data_fault {
                    Some(fault) => Some(
                        DirectExit::DataFault { pc, fault, progress: COARSE_PROGRESS },
                    ),
                    None => None,
                },
                Some(NativeExitReason::Scheduled) => match scheduler_request(self.detail) {
                    Some(request) => Some(
                        DirectExit::Scheduled { pc, request, progress: COARSE_PROGRESS },
                    ),
                    None => None,
                },
                Some(NativeExitReason::Internal) => Some(DirectExit::Internal { pc, progress: 0 }),
                Some(NativeExitReason::Reconcile) => Some(DirectExit::Reconcile),
                _ => None,
            }
        }
    }

    /// The text of the failure that the words describe.
    pub open spec fn failure(self) -> Seq<char> {
        match self.fault_error {
            Some(detail) => detail@,
            None => match NativeExitReason::of_code(self.kind) {
                Some(NativeExitReason::DataFault) => "direct JIT data-fault exit has no fault"@,
                Some(NativeExitReason::Scheduled) => "direct JIT returned unknown scheduler request "@
                    + decimal_of(self.detail as nat),
                _ => "direct JIT returned unknown native exit "@ + decimal_of(self.kind as nat),
            },
        }
    }

    /// Decodes the exit. Words that no exit leaves behind are an internal error.
    pub fn exit(self) -> (r: Result<DirectExit<F>, DirectJitError>)
        ensures
            match r {
                Ok(exit) => self.decoded() == Some(exit),
                Err(error) => self.decoded() is None && error.is(
                    DirectJitErrorKind::Internal,
                    self.failure(),
                ),
            },
    {
        if let Some(detail) = self.fault_error {
            return Err(DirectJitError { kind: DirectJitErrorKind::Internal, detail });
        }
        let pc: u64 = self.pc;
        match NativeExitReason::try_from(self.kind) {
            Ok(NativeExitReason::Dispatch) => Ok(
                DirectExit::Dispatch { pc, progress: COARSE_PROGRESS },
            ),
            Ok(NativeExitReason::Control) => Ok(DirectExit::Control { pc, progress: 0 }),
            Ok(NativeExitReason::Architectural) => Ok(
                DirectExit::Architectural { pc, detail: self.detail, progress: COARSE_PROGRESS },
            ),
            Ok(NativeExitReason::Unsupported) => Ok(DirectExit::Unsupported { pc, progress: 0 }),
            Ok(NativeExitReason::DataFault) => match self.data_fault {
                Some(fault) => Ok(DirectExit::DataFault { pc, fault, progress: COARSE_PROGRESS }),
                None => Err(DirectJitError::internal("direct JIT data-fault exit has no fault")),
            },
            Ok(NativeExitReason::Scheduled) => {
                let request = match self.detail {
                    0 => SchedulerRequest::Yield,
                    1 => SchedulerRequest::WaitForEvent,
                    2 => SchedulerRequest::WaitForInterrupt,
                    3 => SchedulerRequest::SendEvent,
                    detail => {
                        let number = decimal(detail as u64);
                        return Err(
                            DirectJitError {
                                kind: DirectJitErrorKind::Internal,
                                detail: String::from_str(
                                    "direct JIT returned unknown scheduler request ",
                                ).concat(number.as_str()),
                            },
                        );
                    },
                };
                Ok(DirectExit::Scheduled { pc, request, progress: COARSE_PROGRESS })
            },
            Ok(NativeExitReason::Internal) => Ok(DirectExit::Internal { pc, progress: 0 }),
            Ok(NativeExitReason::Reconcile) => Ok(DirectExit::Reconcile),
            _ => {
                let number = decimal(self.kind as u64);
                Err(
                    DirectJitError {
                        kind: DirectJitErrorKind::Internal,
                        detail: String::from_str("direct JIT returned unknown native exit ").concat(
                            number.as_str(),
                        ),
                    },
                )
            },
        }
    }
}

impl<F> DirectExit<F> {
    pub open spec fn progress_of(self) -> u64 {
        match self {
            DirectExit::Dispatch { progress, .. } => progress,
            DirectExit::Control { progress, .. } => progress,
            DirectExit::Architectural { progress, .. } => progress,
            DirectExit::Unsupported { progress, .. } => progress,
            DirectExit::DataFault { progress, .. } => progress,
            DirectExit::Scheduled { progress, .. } => progress,
            DirectExit::LoaderReturn { progress, .. } => progress,
            DirectExit::Internal { progress, .. } => progress,
            DirectExit::Reconcile => 0,
        }
    }
}

pub fn direct_exit_progress<F>(exit: &DirectExit<F>) -> (r: u64)
    ensures
        r == exit.progress_of(),
{
    match exit {
        DirectExit::Dispatch { progress, .. } => *progress,
        DirectExit::Control { progress, .. } => *progress,
        DirectExit::Architectural { progress, .. } => *progress,
        DirectExit::Unsupported { progress, .. } => *progress,
        DirectExit::DataFault { progress, .. } => *progress,
        DirectExit::Scheduled { progress, .. } => *progress,
        DirectExit::LoaderReturn { progress, .. } => *progress,
        DirectExit::Internal { progress, .. } => *progress,
        DirectExit::Reconcile => 0,
    }
}

#[derive(Clone, Copy, Debug, PartialEq, Eq, Structural)]
pub enum ExceptionKind {
    Breakpoint,
    FloatingPoint,
}

/// How a slice of guest execution ends.
#[derive(Debug, PartialEq, Eq)]
pub enum CpuExit<F> {
    PendingEvent { mask: u64 },
    Safepoint,
    SupervisorCall { pc: u64, immediate: u32 },
    ArchitecturalException { pc: u64, kind: ExceptionKind, syndrome: u64 },
    /// The instruction has to be looked at again to name it.
    UnsupportedSemantics { pc: u64 },
    DataFault { pc: u64, fault: F },
    Scheduled { pc: u64, request: SchedulerRequest },
    LoaderReturn { pc: u64, result_code: u64 },
}

/// What a slice does after an exit of native code.
#[derive(Debug)]
pub enum SliceStep<F> {
    /// It enters native code again.
    Resume,
    Stop(CpuExit<F>),
    Fail(DirectJitError),
}

/// The class and the immediate of an architectural exit.
pub open spec fn class_of(detail: u32) -> u32 {
    detail / 0x100_0000
}

pub open spec fn immediate_of(detail: u32) -> u32 {
    detail % 0x100_0000
}

pub open spec fn architectural_exit<F>(pc: u64, detail: u32) -> Option<CpuExit<F>> {
    let immediate = immediate_of(detail);
    if class_of(detail) == 1 {
        Some(CpuExit::SupervisorCall { pc, immediate })
    } else if class_of(detail) == 2 {
        Some(
            CpuExit::ArchitecturalException {
                pc,
                kind: ExceptionKind::Breakpoint,
                syndrome: immediate as u64,
            },
        )
    } else if class_of(detail) == 6 {
        Some(
            CpuExit::ArchitecturalException {
                pc,
                kind: ExceptionKind::FloatingPoint,
                syndrome: immediate as u64,
            },
        )
    } else {
        None
    }
}

/// The step that follows an exit. `preempts` tells of a control request that was
/// taken: nothing was pending, or whether it asks the guest to give way.
pub open spec fn slice_step_is<F>(exit: DirectExit<F>, preempts: Option<bool>, step: SliceStep<F>) -> bool {
    match exit {
        DirectExit::Dispatch { .. } => step is Resume,
        DirectExit::Control { .. } => if preempts == Some(false) {
            step is Resume
        } else {
            step == SliceStep::Stop(CpuExit::Safepoint::<F>)
        },
        DirectExit::Architectural { pc, detail, .. } => match architectural_exit::<F>(pc, detail) {
            Some(stop) => step == SliceStep::Stop(stop),
            None => step matches SliceStep::Fail(error) && error.is(
                DirectJitErrorKind::Internal,
                "native exit has unknown architectural class "@ + decimal_of(
                    class_of(detail) as nat,
                ),
            ),
        },
        DirectExit::Unsupported { pc, .. } => step == SliceStep::Stop(
            CpuExit::UnsupportedSemantics::<F> { pc },
        ),
        DirectExit::DataFault { pc, fault, .. } => step == SliceStep::Stop(
            CpuExit::DataFault { pc, fault },
        ),
        DirectExit::Scheduled { pc, request, .. } => step == SliceStep::Stop(
            CpuExit::Scheduled::<F> { pc, request },
        ),
        DirectExit::LoaderReturn { pc, result_code, .. } => step == SliceStep::Stop(
            CpuExit::LoaderReturn::<F> { pc, result_code },
        ),
        DirectExit::Internal { .. } => step matches SliceStep::Fail(error) && error.is(
            DirectJitErrorKind::Internal,
            "native execution returned an internal exit"@,
        ),
        DirectExit::Reconcile => step is Resume,
    }
}

/// Decides how a slice goes on, and counts the steps it has made.
pub fn slice_step<F>(exit: DirectExit<F>, preempts: Option<bool>, executed: u64) -> (r: (
    u64,
    SliceStep<F>,
))
    ensures
        r.0 == if executed + exit.progress_of() > u64::MAX {
            u64::MAX
        } else {
            (executed + exit.progress_of()) as u64
        },
        slice_step_is(exit, preempts, r.1),
{
    let executed: u64 = executed.saturating_add(direct_exit_progress(&exit));
    let step = match exit {
        DirectExit::Dispatch { .. } => SliceStep::Resume,
        DirectExit::Control { .. } => match preempts {
            Some(false) => SliceStep::Resume,
            _ => SliceStep::Stop(CpuExit::Safepoint),
        },
        DirectExit::Architectural { pc, detail, .. } => {
            let class: u32 = detail / 0x100_0000;
            let immediate: u32 = detail % 0x100_0000;
            if class == 1 {
                SliceStep::Stop(CpuExit::SupervisorCall { pc, immediate })
            } else if class == 2 {
                SliceStep::Stop(
                    CpuExit::ArchitecturalException {
                        pc,
                        kind: ExceptionKind::Breakpoint,
                        syndrome: immediate as u64,
                    },
                )
            } else if class == 6 {
                SliceStep::Stop(
                    CpuExit::ArchitecturalException {
                        pc,
                        kind: ExceptionKind::FloatingPoint,
                        syndrome: immediate as u64,
                    },
                )
            } else {
                let number = decimal(class as u64);
                SliceStep::Fail(
                    DirectJitError {
                        kind: DirectJitErrorKind::Internal,
                        detail: String::from_str(
                            "native exit has unknown architectural class ",
                        ).concat(number.as_str()),
                    },
                )
            }
        },
        DirectExit::Unsupported { pc, .. } => SliceStep::Stop(
            CpuExit::UnsupportedSemantics { pc },
        ),
        DirectExit::DataFault { pc, fault, .. } => SliceStep::Stop(CpuExit::DataFault { pc, fault }),
        DirectExit::Scheduled { pc, request, .. } => SliceStep::Stop(
            CpuExit::Scheduled { pc, request },
        ),
        DirectExit::LoaderReturn { pc, result_code, .. } => SliceStep::Stop(
            CpuExit::LoaderReturn { pc, result_code },
        ),
        DirectExit::Internal { .. } => SliceStep::Fail(
            DirectJitError::internal("native execution returned an internal exit"),
        ),
        DirectExit::Reconcile => SliceStep::Resume,
    };
    (executed, step)
}

/// Whether the registers are part of the report: a data fault is reported without
/// them.
pub fn reports_registers<F>(stop: &CpuExit<F>) -> (r: bool)
    ensures
        r == !(stop is DataFault),
{
    !matches!(stop, CpuExit::DataFault { .. })
}

/// What the decoder makes of a word of guest code. `known` is what it can say of an
/// instruction that it knows.
#[derive(Debug, PartialEq, Eq)]
pub enum GuestDecode<D> {
    Known { known: D },
    Unallocated { reason: String },
    Reserved { name: String, reason: String },
}

/// An instruction that native code could not be made for.
#[derive(Debug, PartialEq, Eq)]
pub struct UnsupportedInstruction<D> {
    pub pc: u64,
    pub encoding: u32,
    pub known: D,
}

/// Why the instruction of an unsupported exit cannot be named.
pub open spec fn unnamed<D>(fetched: Result<(u32, GuestDecode<D>), String>) -> Option<Seq<char>> {
    match fetched {
        Err(text) => Some(text@),
        Ok((_, GuestDecode::Known { .. })) => None,
        Ok((_, GuestDecode::Unallocated { reason })) => Some(
            "native unsupported exit decoded as unallocated: "@ + reason@,
        ),
        Ok((_, GuestDecode::Reserved { name, reason })) => Some(
            "native unsupported exit decoded as reserved "@ + name@ + ": "@ + reason@,
        ),
    }
}

/// Names the instruction that native code could not be made for, from the word that
/// memory holds for it.
pub fn unsupported_exit<D>(
    pc: u64,
    fetched: Result<(u32, GuestDecode<D>), String>,
) -> (r: Result<UnsupportedInstruction<D>, DirectJitError>)
    ensures
        match unnamed(fetched) {
            Some(text) => r matches Err(error) && error.is(DirectJitErrorKind::Internal, text),
            None => r == Ok::<UnsupportedInstruction<D>, DirectJitError>(
                UnsupportedInstruction {
                    pc,
                    encoding: fetched->Ok_0.0,
                    known: fetched->Ok_0.1->known,
                },
            ),
        },
{
    match fetched {
        Err(text) => Err(DirectJitError::internal(text.as_str())),
        Ok((encoding, GuestDecode::Known { known })) => Ok(
            UnsupportedInstruction { pc, encoding, known },
        ),
        Ok((_, GuestDecode::Unallocated { reason })) => {
            let text = String::from_str("native unsupported exit decoded as unallocated: ").concat(
                reason.as_str(),
            );
            Err(DirectJitError::internal(text.as_str()))
        },
        Ok((_, GuestDecode::Reserved { name, reason })) => {
            let text = String::from_str("native unsupported exit decoded as reserved ").concat(
                name.as_str(),
            ).concat(": ").concat(reason.as_str());
            Err(DirectJitError::internal(text.as_str()))
        },
    }
}

} // verus!
