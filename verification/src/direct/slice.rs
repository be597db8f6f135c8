//! Slices of guest execution, as a machine that the host drives.

use vstd::prelude::*;
use super::error::{fault_kind, CpuFault, DirectJitError, DirectJitErrorKind};
use super::exit::{reports_registers, slice_step, slice_step_is, CpuExit, DirectExit, SliceStep};
use super::run::{check_slice, BoundMemory, MemoryBackend};

verus! {

/// How a slice ended.
pub struct ExecutionReport<F> {
    pub progress: u64,
    pub stop: CpuExit<F>,
    /// The guest's registers go with the report.
    pub registers: bool,
}

/// The outside work that comes next.
pub enum SliceAction<F> {
    /// Look for pending interrupts, before native code runs.
    Look,
    /// Run native code until it leaves.
    Run,
    Report { report: ExecutionReport<F> },
    Fail { fault: CpuFault },
}

/// A slice, by the progress that it has made.
#[derive(Clone, Copy, Debug, PartialEq, Eq, Structural)]
pub struct Slice {
    pub executed: u64,
}

/// The fault that reports an error.
pub open spec fn reports(fault: CpuFault, kind: DirectJitErrorKind, text: Seq<char>, progress: u64) -> bool {
    &&& fault.backend@ == "jit"@
    &&& fault.kind == fault_kind(kind)
    &&& fault.progress == progress
    &&& fault.message@ == text
}

impl Slice {
    /// Starts a slice. Directly mapped memory is entered under a lease of it.
    pub fn begin(bound: &BoundMemory, authorized: bool) -> (r: Result<Slice, CpuFault>)
        ensures
            if bound.backend == MemoryBackend::LinuxDirect && !authorized {
                r matches Err(fault) && reports(
                    fault,
                    DirectJitErrorKind::InvalidGuestCode,
                    "LinuxDirect JIT execution requires its live mapping lease"@,
                    0,
                )
            } else {
                r == Ok::<Slice, CpuFault>(Slice { executed: 0 })
            },
    {
        match check_slice(bound, authorized) {
            Ok(()) => Ok(Slice { executed: 0 }),
            Err(error) => Err(error.into_fault(0)),
        }
    }

    /// Interrupts that are pending end the slice before native code runs.
    pub fn look<F>(&self, interrupts: u64) -> (r: SliceAction<F>)
        ensures
            if interrupts != 0 {
                r == SliceAction::Report {
                    report: ExecutionReport {
                        progress: self.executed,
                        stop: CpuExit::<F>::PendingEvent { mask: interrupts },
                        registers: true,
                    },
                }
            } else {
                r is Run
            },
    {
        if interrupts != 0 {
            return SliceAction::Report {
                report: ExecutionReport {
                    progress: self.executed,
                    stop: CpuExit::PendingEvent { mask: interrupts },
                    registers: true,
                },
            };
        }
        SliceAction::Run
    }

    /// The progress after an exit.
    pub open spec fn after<F>(self, exit: DirectExit<F>) -> Slice {
        Slice {
            executed: if self.executed + exit.progress_of() > u64::MAX {
                u64::MAX
            } else {
                (self.executed + exit.progress_of()) as u64
            },
        }
    }

    /// Native code left. `preempts` is whether requests were pending, and one of
    /// them stops the guest.
    pub fn ran<F>(
        &mut self,
        exit: Result<DirectExit<F>, DirectJitError>,
        preempts: Option<bool>,
    ) -> (r: SliceAction<F>)
        ensures
            match exit {
                Err(error) => {
                    &&& *final(self) == *old(self)
                    &&& r matches SliceAction::Fail { fault } && reports(
                        fault,
                        error.kind,
                        error.detail@,
                        old(self).executed,
                    )
                },
                Ok(exit) => {
                    &&& *final(self) == old(self).after(exit)
                    &&& exists|step: SliceStep<F>| #[trigger]
                        slice_step_is(exit, preempts, step) && match step {
                            SliceStep::Resume => r is Look,
                            SliceStep::Stop(stop) => r == SliceAction::Report {
                                report: ExecutionReport {
                                    progress: final(self).executed,
                                    stop,
                                    registers: !(stop is DataFault),
                                },
                            },
                            SliceStep::Fail(error) => r matches SliceAction::Fail { fault }
                                && reports(fault, error.kind, error.detail@, final(self).executed),
                        }
                },
            },
    {
        let exit = match exit {
            Ok(exit) => exit,
            Err(error) => {
                return SliceAction::Fail { fault: error.into_fault(self.executed) };
            },
        };
        let ghost left = exit;
        let (progress, step) = slice_step(exit, preempts, self.executed);
        assert(slice_step_is(left, preempts, step));
        self.executed = progress;
        match step {
            SliceStep::Resume => SliceAction::Look,
            SliceStep::Stop(stop) => {
                let registers: bool = reports_registers(&stop);
                SliceAction::Report { report: ExecutionReport { progress, stop, registers } }
            },
            SliceStep::Fail(error) => SliceAction::Fail { fault: error.into_fault(progress) },
        }
    }
}

/// A slice never loses progress.
pub proof fn law_progress_grows<F>(slice: Slice, exit: DirectExit<F>)
    ensures
        slice.after(exit).executed >= slice.executed,
{
}

} // verus!
